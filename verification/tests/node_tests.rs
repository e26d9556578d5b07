use kademlia_rs::contact::{Contact, PeerAddr};
use kademlia_rs::id::Id;
use kademlia_rs::lookup::{LookupType, NodeLookup};
use kademlia_rs::node::{overdue, overdue_indices, KademliaNode, PendingRequest, SendFollowUp};
use kademlia_rs::protocol::{
    FindNodeRequest, FindNodeResponse, FindValueRequest, FindValueResponse, Header, LookupResult, Packet,
    PingRequest, PingResponse, StoreRequest, StoreResponse, StoreStatus, MAX_VALUE_SIZE,
};
use kademlia_rs::rpc::{send_store, PacketError};

fn addr(last: u8) -> PeerAddr {
    PeerAddr::V4 { ipv4: [127, 0, 0, last], port: 9000 }
}

fn id_with_leading_zeros(zeros: usize) -> Id {
    let mut id = Id { id: [0u8; 20] };
    id.id[zeros / 8] = 1 << (7 - zeros % 8);
    id
}

fn node() -> KademliaNode {
    KademliaNode::new(Some(Id { id: [0u8; 20] }), Some(20))
}

#[test]
fn new_node_defaults() {
    let n = KademliaNode::new(None, None);
    assert_eq!(n.k, 20);
    assert!(n.init_refresh_needed);
    assert_eq!(n.pending_requests.len(), 0);
    let given = Id { id: [3u8; 20] };
    let m = KademliaNode::new(Some(given), Some(4));
    assert_eq!(m.id, given);
    assert_eq!(m.routing_table.k, 4);
}

#[test]
fn ping_is_answered_and_sender_added() {
    let mut n = node();
    let sender = id_with_leading_zeros(7);
    let nonce = Id { id: [5u8; 20] };
    let out = n.handle_packet(addr(2), Packet::PingRequest(PingRequest { header: Header { sender_id: sender, nonce } }));
    assert_eq!(out.len(), 1);
    assert_eq!(out[0].message.dest, addr(2));
    match &out[0].message.packet {
        Packet::PingResponse(p) => {
            assert_eq!(p.header.nonce, nonce);
            assert_eq!(p.header.sender_id, n.id);
        }
        _ => panic!("expected a ping response"),
    }
    assert!(matches!(out[0].follow_up, SendFollowUp::Reply));
    assert_eq!(n.routing_table.buckets[7].contacts.len(), 1);
}

#[test]
fn full_bucket_asks_for_eviction_ping() {
    let mut n = KademliaNode::new(Some(Id { id: [0u8; 20] }), Some(1));
    let first = id_with_leading_zeros(3);
    let second = Id::generate_id_in_bucket(n.id, 3);
    let nonce = Id { id: [1u8; 20] };
    n.handle_packet(addr(2), Packet::PingResponse(PingResponse { header: Header { sender_id: first, nonce } }));
    let out = n.handle_packet(addr(3), Packet::PingResponse(PingResponse { header: Header { sender_id: second, nonce } }));
    assert_eq!(out.len(), 1);
    assert_eq!(out[0].message.dest, addr(2));
    match out[0].follow_up {
        SendFollowUp::EvictionCheck { candidate, recipient, .. } => {
            assert_eq!(candidate.id, second);
            assert_eq!(recipient.id, first);
        }
        _ => panic!("expected an eviction check"),
    }
    let follow_up = match out.into_iter().next() {
        Some(o) => o.follow_up,
        None => panic!("no message"),
    };
    n.complete_send(follow_up, false);
    assert_eq!(n.routing_table.buckets[3].contacts.len(), 1);
    assert_eq!(n.routing_table.buckets[3].contacts[0].id, second);
}

#[test]
fn store_then_find_value_returns_value() {
    let mut n = node();
    let sender = id_with_leading_zeros(1);
    let key = Id { id: [7u8; 20] };
    let header = Header { sender_id: sender, nonce: Id { id: [2u8; 20] } };
    let out = n.handle_packet(
        addr(4),
        Packet::StoreRequest(StoreRequest { header, key, value: vec![1, 2, 3], original_publish_time: 42 }),
    );
    assert_eq!(out.len(), 1);
    match &out[0].message.packet {
        Packet::StoreResponse(r) => {
            assert_eq!(r.key, key);
            assert!(matches!(r.status, StoreStatus::Stored));
        }
        _ => panic!("expected a store response"),
    }
    let out = n.handle_packet(addr(4), Packet::FindValueRequest(FindValueRequest { header, target: key }));
    match &out[0].message.packet {
        Packet::FindValueResponse(r) => match &r.result {
            LookupResult::Value(v, t) => {
                assert_eq!(v, &vec![1, 2, 3]);
                assert_eq!(*t, 42);
            }
            _ => panic!("expected the value"),
        },
        _ => panic!("expected a find value response"),
    }
    let out = n.handle_packet(addr(4), Packet::FindValueRequest(FindValueRequest { header, target: Id { id: [8u8; 20] } }));
    match &out[0].message.packet {
        Packet::FindValueResponse(r) => match &r.result {
            LookupResult::Contacts(c) => {
                assert_eq!(c.len(), 1);
                assert_eq!(c[0].id, sender);
            }
            _ => panic!("expected contacts"),
        },
        _ => panic!("expected a find value response"),
    }
}

#[test]
fn find_node_request_answers_closest() {
    let mut n = node();
    let a = id_with_leading_zeros(2);
    let header = Header { sender_id: a, nonce: Id { id: [2u8; 20] } };
    let out = n.handle_packet(addr(5), Packet::FindNodeRequest(FindNodeRequest { header, target: a }));
    match &out[0].message.packet {
        Packet::FindNodeResponse(r) => {
            assert_eq!(r.target, a);
            assert_eq!(r.contacts.len(), 1);
        }
        _ => panic!("expected a find node response"),
    }
}

#[test]
fn send_store_refuses_large_value() {
    let n = node();
    let r = send_store(&n, addr(1), Id { id: [0u8; 20] }, Id { id: [1u8; 20] }, vec![0u8; MAX_VALUE_SIZE + 1], 0);
    assert!(matches!(r, Err(PacketError::PacketTooLarge)));
    let r = send_store(&n, addr(1), Id { id: [0u8; 20] }, Id { id: [1u8; 20] }, vec![0u8; MAX_VALUE_SIZE], 0);
    assert!(r.is_ok());
}

#[test]
fn join_queries_the_join_node() {
    let mut n = node();
    let join_id = id_with_leading_zeros(5);
    let out = n.join(addr(9), join_id);
    assert_eq!(out.len(), 1);
    assert_eq!(out[0].message.dest, addr(9));
    match &out[0].message.packet {
        Packet::FindNodeRequest(r) => assert_eq!(r.target, n.id),
        _ => panic!("expected a find node request"),
    }
    assert!(n.active_lookups.contains_key(&n.id));
    let follow_up = match out.into_iter().next() {
        Some(o) => o.follow_up,
        None => panic!("no message"),
    };
    n.complete_send(follow_up, true);
    assert_eq!(n.pending_requests.len(), 1);
}

#[test]
fn store_publishes_and_lookup_finds_locally() {
    let mut n = node();
    n.join(addr(9), id_with_leading_zeros(5));
    let out = n.store(None, b"Hello World!".to_vec());
    assert_eq!(out.len(), 1);
    let key = Id::hash_value(b"Hello World!".to_vec());
    assert!(n.store.contains_key(&key));
    assert!(n.active_stores.contains_key(&key));
    let out = n.lookup(LookupType::FindValue, key);
    assert!(out.is_empty());
    match n.completed_lookups.get(&key) {
        Some(LookupResult::Value(v, _)) => assert_eq!(v, &b"Hello World!".to_vec()),
        _ => panic!("expected a completed value lookup"),
    }
    let too_big = n.store(None, vec![0u8; MAX_VALUE_SIZE + 1]);
    assert!(too_big.is_empty());
}

#[test]
fn find_node_reply_updates_lookup() {
    let mut n = node();
    let join_id = id_with_leading_zeros(5);
    let out = n.join(addr(9), join_id);
    let nonce = match out[0].follow_up {
        SendFollowUp::Await { nonce, .. } => nonce,
        _ => panic!("expected an awaited request"),
    };
    let follow_up = match out.into_iter().next() {
        Some(o) => o.follow_up,
        None => panic!("no message"),
    };
    n.complete_send(follow_up, true);
    let closer = id_with_leading_zeros(150);
    let reply = FindNodeResponse {
        header: Header { sender_id: join_id, nonce },
        target: n.id,
        contacts: vec![
            Contact { addr: addr(7), id: closer },
            Contact { addr: addr(8), id: n.id },
        ],
    };
    n.handle_packet(addr(9), Packet::FindNodeResponse(reply));
    assert_eq!(n.pending_requests.len(), 0);
    let own = n.id;
    let lookup = n.active_lookups.get(&own).unwrap();
    assert_eq!(lookup.closest_node.id, closer);
    assert_eq!(lookup.shortlist.len(), 2);
    assert_eq!(lookup.shortlist[0].id, closer);
    assert!(!lookup.pending.contains(&join_id));
}

#[test]
fn find_value_reply_with_value_completes_lookup() {
    let mut n = node();
    let join_id = id_with_leading_zeros(5);
    n.routing_table.add(Contact { addr: addr(9), id: join_id });
    let key = Id { id: [0x42; 20] };
    let out = n.lookup(LookupType::FindValue, key);
    assert_eq!(out.len(), 1);
    let reply = FindValueResponse {
        header: Header { sender_id: join_id, nonce: Id { id: [3u8; 20] } },
        target: key,
        result: LookupResult::Value(vec![9, 9], 5),
    };
    let out = n.handle_packet(addr(9), Packet::FindValueResponse(reply));
    assert!(out.is_empty());
    assert!(!n.active_lookups.contains_key(&key));
    match n.completed_lookups.get(&key) {
        Some(LookupResult::Value(v, t)) => {
            assert_eq!(v, &vec![9, 9]);
            assert_eq!(*t, 5);
        }
        _ => panic!("expected the value"),
    }
}

#[test]
fn timed_out_request_evicts_recipient() {
    let mut n = node();
    let join_id = id_with_leading_zeros(5);
    let out = n.join(addr(9), join_id);
    let nonce = match out[0].follow_up {
        SendFollowUp::Await { nonce, .. } => nonce,
        _ => panic!("expected an awaited request"),
    };
    let follow_up = match out.into_iter().next() {
        Some(o) => o.follow_up,
        None => panic!("no message"),
    };
    n.complete_send(follow_up, true);
    assert!(n.requests_timed_out().is_empty());
    n.check_pending_requests(&vec![nonce]);
    assert_eq!(n.pending_requests.len(), 0);
    assert!(n.routing_table.buckets[5].contacts.is_empty());
    let own = n.id;
    let lookup = n.active_lookups.get(&own).unwrap();
    assert!(lookup.shortlist.is_empty());
    assert!(lookup.pending.is_empty());
}

#[test]
fn converged_lookup_completes_with_shortlist() {
    let mut n = node();
    let join_id = id_with_leading_zeros(5);
    n.routing_table.add(Contact { addr: addr(9), id: join_id });
    let target = Id { id: [0x11; 20] };
    n.lookup(LookupType::FindNode, target);
    let reply = FindNodeResponse {
        header: Header { sender_id: join_id, nonce: Id { id: [3u8; 20] } },
        target,
        contacts: vec![],
    };
    n.handle_packet(addr(9), Packet::FindNodeResponse(reply));
    let due = vec![target];
    assert!(!n.starts_init_refresh(&due));
    let out = n.check_active_lookups(&due);
    assert!(out.is_empty());
    assert!(!n.active_lookups.contains_key(&target));
    match n.completed_lookups.get(&target) {
        Some(LookupResult::Contacts(c)) => {
            assert_eq!(c.len(), 1);
            assert_eq!(c[0].id, join_id);
        }
        _ => panic!("expected contacts"),
    }
}

#[test]
fn store_reply_is_recorded() {
    let mut n = node();
    let sender = id_with_leading_zeros(4);
    let key = Id { id: [6u8; 20] };
    let reply = StoreResponse { header: Header { sender_id: sender, nonce: key }, key, status: StoreStatus::Stored };
    n.handle_packet(addr(3), Packet::StoreResponse(reply));
    assert!(!n.completed_stores.contains_key(&key));
}

#[test]
fn refresh_starts_lookup_in_bucket() {
    let mut n = node();
    n.routing_table.add(Contact { addr: addr(9), id: id_with_leading_zeros(5) });
    let out = n.check_bucket_refresh(&vec![17]);
    assert_eq!(out.len(), 1);
    assert_eq!(n.active_lookups.len(), 1);
    let keys = n.active_lookups.keys();
    assert_eq!(n.routing_table.get_bucket_index(keys[0]), 17);
    assert!(n.buckets_due().is_empty());
}

#[test]
fn node_lookup_new_picks_first_closest() {
    let target = Id { id: [0u8; 20] };
    let far = Contact { addr: addr(1), id: id_with_leading_zeros(1) };
    let near = Contact { addr: addr(2), id: id_with_leading_zeros(50) };
    let near_again = Contact { addr: addr(3), id: id_with_leading_zeros(50) };
    let l = NodeLookup::new(LookupType::FindNode, target, vec![far, near, near_again]);
    assert_eq!(l.closest_node, near);
    assert_eq!(l.old_closest_node, near);
    assert!(l.closest_without_value.is_none());
    assert_eq!(l.shortlist.len(), 3);
    assert!(l.queried.is_empty());
}

#[test]
fn pending_request_variants_hold_recipient() {
    let c = Contact { addr: addr(1), id: id_with_leading_zeros(1) };
    let n = node();
    let _ = n.calculate_expiration(c.id);
    let r = PendingRequest::Store { recipient: c, sent_at: std::time::Instant::now() };
    match r {
        PendingRequest::Store { recipient, .. } => assert_eq!(recipient, c),
        _ => panic!("wrong variant"),
    }
}

#[test]
fn unconverged_lookup_queries_next_contacts() {
    let mut n = node();
    let join_id = id_with_leading_zeros(5);
    n.routing_table.add(Contact { addr: addr(9), id: join_id });
    let target = Id { id: [0x11; 20] };
    n.lookup(LookupType::FindNode, target);
    let closer = Contact { addr: addr(7), id: Id { id: [0x10; 20] } };
    let reply = FindNodeResponse {
        header: Header { sender_id: join_id, nonce: Id { id: [3u8; 20] } },
        target,
        contacts: vec![closer],
    };
    n.handle_packet(addr(9), Packet::FindNodeResponse(reply));
    let out = n.check_active_lookups(&vec![target]);
    assert_eq!(out.len(), 1);
    assert_eq!(out[0].message.dest, addr(7));
    match &out[0].message.packet {
        Packet::FindNodeRequest(r) => {
            assert_eq!(r.target, target);
            assert_eq!(r.header.sender_id, n.id);
        }
        _ => panic!("expected a find node request"),
    }
    let lookup = n.active_lookups.get(&target).unwrap();
    assert!(lookup.queried.contains(&closer.id));
    assert!(lookup.pending.contains(&closer.id));
    assert_eq!(lookup.old_closest_node, closer);
}

#[test]
fn converged_publication_sends_stores() {
    let mut n = node();
    let join_id = id_with_leading_zeros(5);
    n.routing_table.add(Contact { addr: addr(9), id: join_id });
    let key = Id { id: [0x22; 20] };
    n.store(Some(key), b"abc".to_vec());
    let reply = FindNodeResponse {
        header: Header { sender_id: join_id, nonce: Id { id: [3u8; 20] } },
        target: key,
        contacts: vec![],
    };
    n.handle_packet(addr(9), Packet::FindNodeResponse(reply));
    let out = n.check_active_lookups(&vec![key]);
    assert_eq!(out.len(), 1);
    assert_eq!(out[0].message.dest, addr(9));
    match &out[0].message.packet {
        Packet::StoreRequest(r) => {
            assert_eq!(r.key, key);
            assert_eq!(r.value, b"abc".to_vec());
        }
        _ => panic!("expected a store request"),
    }
    assert!(matches!(out[0].follow_up, SendFollowUp::Await { required: false, .. }));
    assert!(!n.active_stores.contains_key(&key));
    assert_eq!(n.completed_stores.get(&key).map(|c| c.len()), Some(0));
}

#[test]
fn first_self_lookup_refreshes_empty_buckets() {
    let mut n = node();
    let join_id = id_with_leading_zeros(5);
    n.join(addr(9), join_id);
    let own = n.id;
    let reply = FindNodeResponse {
        header: Header { sender_id: join_id, nonce: Id { id: [3u8; 20] } },
        target: own,
        contacts: vec![],
    };
    n.handle_packet(addr(9), Packet::FindNodeResponse(reply));
    let due = vec![own];
    assert!(n.starts_init_refresh(&due));
    let out = n.check_active_lookups(&due);
    assert!(!n.init_refresh_needed);
    assert_eq!(out.len(), 159);
    for o in out.iter() {
        assert_eq!(o.message.dest, addr(9));
        match &o.message.packet {
            Packet::FindNodeRequest(r) => {
                let b = n.routing_table.get_bucket_index(r.target);
                assert!(b != 5 && b < 160);
            }
            _ => panic!("expected a find node request"),
        }
    }
}

#[test]
fn values_are_kept_for_a_day() {
    let mut n = node();
    let day = std::time::Duration::from_secs(24 * 60 * 60);
    assert_eq!(n.calculate_expiration(Id { id: [1u8; 20] }), day);
    n.routing_table.add(Contact { addr: addr(9), id: id_with_leading_zeros(5) });
    let key = Id { id: [0x33; 20] };
    n.store(Some(key), vec![1, 2, 3]);
    assert_eq!(n.store.get(&key).unwrap().expiration, day);
    assert!(n.store.get(&key).unwrap().is_original_publisher);
}

#[test]
fn lookup_result_lists_closest_first() {
    let mut n = node();
    let ids = [id_with_leading_zeros(10), id_with_leading_zeros(1), id_with_leading_zeros(5)];
    for (i, id) in ids.iter().enumerate() {
        n.routing_table.add(Contact { addr: addr(i as u8 + 1), id: *id });
    }
    let target = Id { id: [0x44; 20] };
    let out = n.lookup(LookupType::FindNode, target);
    assert_eq!(out.len(), 3);
    for (i, id) in ids.iter().enumerate() {
        let reply = FindNodeResponse {
            header: Header { sender_id: *id, nonce: Id { id: [9u8; 20] } },
            target,
            contacts: vec![],
        };
        n.handle_packet(addr(i as u8 + 1), Packet::FindNodeResponse(reply));
    }
    let out = n.check_active_lookups(&vec![target]);
    assert!(out.is_empty());
    match n.completed_lookups.get(&target) {
        Some(LookupResult::Contacts(c)) => {
            let got: Vec<Id> = c.iter().map(|x| x.id).collect();
            assert_eq!(got, vec![ids[1], ids[2], ids[0]]);
        }
        _ => panic!("expected contacts"),
    }
}

#[test]
fn overdue_picks_readings_over_the_limit() {
    let keys = vec![Id { id: [1u8; 20] }, Id { id: [2u8; 20] }, Id { id: [3u8; 20] }];
    let r = overdue(&keys, &vec![600, 500, 501], 500);
    assert_eq!(r, vec![keys[0], keys[2]]);
    assert!(overdue(&keys, &vec![0, 0, 0], 500).is_empty());
    assert_eq!(overdue_indices(&vec![10, 3_600_001, 0, 3_600_000, 4_000_000], 3_600_000), vec![1, 4]);
}

#[test]
fn store_at_records_the_given_time() {
    let mut n = node();
    n.routing_table.add(Contact { addr: addr(9), id: id_with_leading_zeros(5) });
    let key = Id { id: [0x44; 20] };
    let out = n.store_at(Some(key), vec![7, 8], 1_700_000_000);
    assert_eq!(out.len(), 1);
    assert_eq!(n.store.get(&key).unwrap().original_publish_time, 1_700_000_000);
    assert_eq!(n.active_stores.get(&key).unwrap().original_publish_time, 1_700_000_000);
    assert!(n.active_lookups.contains_key(&key));
}

#[test]
fn fresh_node_has_nothing_due() {
    let n = node();
    assert!(n.lookups_due().is_empty());
    assert!(n.requests_timed_out().is_empty());
    assert!(n.buckets_due().is_empty());
}

#[test]
fn timeouts_compare_whole_durations() {
    let keys = vec![Id { id: [1u8; 20] }, Id { id: [2u8; 20] }];
    let r = overdue(&keys, &vec![10_000_000_001, 10_000_000_000], kademlia_rs::node::REQ_TIMEOUT_NANOS);
    assert_eq!(r, vec![keys[0]]);
}

#[test]
fn find_node_reply_keeps_shortlist_ids_distinct() {
    let mut n = node();
    let join_id = id_with_leading_zeros(5);
    n.routing_table.add(Contact { addr: addr(9), id: join_id });
    let target = Id { id: [0x11; 20] };
    n.lookup(LookupType::FindNode, target);
    let other = Contact { addr: addr(7), id: Id { id: [0x10; 20] } };
    let reply = FindNodeResponse {
        header: Header { sender_id: join_id, nonce: Id { id: [3u8; 20] } },
        target,
        contacts: vec![other, other, Contact { addr: addr(8), id: join_id }],
    };
    n.handle_packet(addr(9), Packet::FindNodeResponse(reply));
    let l = n.active_lookups.get(&target).unwrap();
    assert_eq!(l.shortlist.len(), 2);
    assert!(l.shortlist[0].id != l.shortlist[1].id);
}
