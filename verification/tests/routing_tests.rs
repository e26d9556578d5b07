use kademlia_rs::contact::{Contact, PeerAddr};
use kademlia_rs::id::Id;
use kademlia_rs::routing::{AddContactResult, KBucket, RoutingTable, sort_by_distance};

fn make_contact(id: Id) -> Contact {
    Contact { id, addr: PeerAddr::V4 { ipv4: [127, 0, 0, 1], port: 8000 } }
}

fn make_id_with_leading_zeros(zeros: usize) -> Id {
    let mut id = Id { id: [0u8; 20] };
    if zeros < 160 {
        let byte = zeros / 8;
        let bit = zeros % 8;
        id.id[byte] = 1 << (7 - bit);
    }
    id
}

fn make_routing_table(k: usize) -> RoutingTable {
    RoutingTable::new(Id { id: [0u8; 20] }, k)
}

#[test]
fn test_bucket_index_known_dist() {
    let rt = make_routing_table(20);
    let contact_id = make_id_with_leading_zeros(4);
    assert_eq!(rt.get_bucket_index(contact_id), 4);
}

#[test]
fn test_bucket_index_zero_leading_zeros() {
    let rt = make_routing_table(20);
    let contact_id = Id { id: [0xFF; 20] };
    assert_eq!(rt.get_bucket_index(contact_id), 0);
}

#[test]
fn test_add_contact_added() {
    let mut rt = make_routing_table(20);
    let id = make_id_with_leading_zeros(4);
    let contact = make_contact(id);
    let result = rt.add_contact(contact);
    assert!(matches!(result, AddContactResult::Added));
    assert_eq!(rt.buckets[4].contacts.len(), 1);
}

#[test]
fn test_add_contact_updated_moves_to_tail() {
    let mut rt = make_routing_table(20);
    let id1 = make_id_with_leading_zeros(4);
    let id2 = Id::generate_id_in_bucket(rt.node_id, 4);
    let contact1 = make_contact(id1);
    let contact2 = make_contact(id2);

    let r1 = rt.add_contact(contact1);
    let r2 = rt.add_contact(contact2);
    assert!(matches!(r1, AddContactResult::Added));
    assert!(matches!(r2, AddContactResult::Added));

    let r3 = rt.add_contact(contact1);
    assert!(matches!(r3, AddContactResult::Updated));
    assert_eq!(rt.buckets[4].contacts.last().unwrap().id, id1);
}

#[test]
fn test_add_contact_ping_required_when_full() {
    let mut rt = make_routing_table(2);
    let id1 = make_id_with_leading_zeros(4);
    let id2 = Id::generate_id_in_bucket(rt.node_id, 4);
    let id3 = Id::generate_id_in_bucket(rt.node_id, 4);

    rt.add_contact(make_contact(id1));
    rt.add_contact(make_contact(id2));

    let r = rt.add_contact(make_contact(id3));
    assert!(matches!(r, AddContactResult::PingRequired(_)));

    if let AddContactResult::PingRequired(lrs) = r {
        assert_eq!(lrs.id, id1);
    } else {
        panic!("expected PingRequired");
    }
}

#[test]
fn test_evict_removes_contact() {
    let mut rt = make_routing_table(20);
    let id = make_id_with_leading_zeros(4);
    let contact = make_contact(id);
    rt.add_contact(contact);
    rt.evict(contact);
    assert!(rt.buckets[4].contacts.is_empty());
}

#[test]
fn test_evict_nonexistent_does_nothing() {
    let mut rt = make_routing_table(20);
    let id = make_id_with_leading_zeros(4);
    rt.evict(make_contact(id));
    assert!(rt.buckets[4].contacts.is_empty());
}

#[test]
fn test_get_closest_contacts_returns_n() {
    let mut rt = make_routing_table(20);
    for i in 0..10 {
        let id = Id::generate_id_in_bucket(rt.node_id, i);
        rt.add_contact(make_contact(id));
    }

    let target = Id::generate_id();
    let contacts = rt.get_closest_contacts(target, 5);
    assert_eq!(contacts.len(), 5);
}

#[test]
fn test_get_closest_contacts_returns_all() {
    let mut rt = make_routing_table(20);
    for i in 0..10 {
        let id = Id::generate_id_in_bucket(rt.node_id, i);
        rt.add_contact(make_contact(id));
    }

    let target = Id::generate_id();
    let contacts = rt.get_closest_contacts(target, 20);
    assert_eq!(contacts.len(), 10);
}

#[test]
fn test_get_closest_contacts_sorted() {
    let mut rt = make_routing_table(20);
    for i in 0..10 {
        let id = Id::generate_id_in_bucket(rt.node_id, i);
        rt.add_contact(make_contact(id));
    }

    let target = Id::generate_id();
    let contacts = rt.get_closest_contacts(target, 5);
    for i in 0..(contacts.len() - 1) {
        assert!(contacts[i].id.distance(target) <= contacts[i + 1].id.distance(target));
    }
}

#[test]
fn evict_head_removes_least_recently_seen() {
    let mut rt = make_routing_table(20);
    let id1 = make_id_with_leading_zeros(4);
    let id2 = Id::generate_id_in_bucket(rt.node_id, 4);
    rt.add_contact(make_contact(id1));
    rt.add_contact(make_contact(id2));
    rt.evict_head(make_contact(id2));
    assert_eq!(rt.buckets[4].contacts.len(), 1);
    assert_eq!(rt.buckets[4].contacts[0].id, id2);
}

#[test]
fn add_appends_without_checks() {
    let mut rt = make_routing_table(1);
    let id1 = make_id_with_leading_zeros(4);
    let id2 = Id::generate_id_in_bucket(rt.node_id, 4);
    rt.add(make_contact(id1));
    rt.add(make_contact(id2));
    assert_eq!(rt.buckets[4].contacts.len(), 2);
    assert_eq!(rt.buckets[4].contacts[1].id, id2);
}

#[test]
fn closest_contacts_exact_order() {
    let mut rt = make_routing_table(20);
    let a = make_id_with_leading_zeros(0);
    let b = make_id_with_leading_zeros(3);
    let c = make_id_with_leading_zeros(9);
    rt.add_contact(make_contact(a));
    rt.add_contact(make_contact(b));
    rt.add_contact(make_contact(c));
    let target = Id { id: [0u8; 20] };
    let contacts = rt.get_closest_contacts(target, 2);
    assert_eq!(contacts.len(), 2);
    assert_eq!(contacts[0].id, c);
    assert_eq!(contacts[1].id, b);
    assert!(!rt.is_empty());
    assert!(make_routing_table(3).is_empty());
}

#[test]
fn sort_keeps_order_of_equal_distances() {
    let x = make_id_with_leading_zeros(2);
    let first = Contact { id: x, addr: PeerAddr::V4 { ipv4: [10, 0, 0, 1], port: 1 } };
    let second = Contact { id: x, addr: PeerAddr::V4 { ipv4: [10, 0, 0, 2], port: 2 } };
    let near = make_contact(make_id_with_leading_zeros(100));
    let mut v = vec![first, second, near];
    sort_by_distance(&mut v, Id { id: [0u8; 20] });
    assert_eq!(v[0], near);
    assert_eq!(v[1], first);
    assert_eq!(v[2], second);
}

#[test]
fn new_bucket_is_empty() {
    let b = KBucket::new();
    assert!(b.contacts.is_empty());
    let rt = make_routing_table(5);
    assert_eq!(rt.buckets.len(), 160);
    assert_eq!(rt.k, 5);
}
