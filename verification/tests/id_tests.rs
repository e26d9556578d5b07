use kademlia_rs::id::Id;

#[test]
fn test_dist_self_is_zero() {
    let id = Id::generate_id();
    let dist = id.distance(id);
    assert_eq!(dist.id, [0u8; 20]);
}

#[test]
fn test_dist_symmetry() {
    let id1 = Id::generate_id();
    let id2 = Id::generate_id();
    assert_eq!(id1.distance(id2), id2.distance(id1));
}

#[test]
fn test_dist_triangle_inequality() {
    let a = Id::generate_id();
    let b = Id::generate_id();
    let c = Id::generate_id();
    assert!(a.distance(c) <= a.distance(b).distance(b.distance(c)));
}

#[test]
fn test_leading_zeros_all_zero() {
    let id = Id { id: [0u8; 20] };
    assert_eq!(id.leading_zeros(), 160);
}

#[test]
fn test_leading_zeros_all_one() {
    let id = Id { id: [0xFF; 20] };
    assert_eq!(id.leading_zeros(), 0);
}

#[test]
fn test_leading_zeros_known() {
    let mut id = Id { id: [0u8; 20] };
    id.id[1] = 0b00001000; // 4 leading zeros in second byte
    assert_eq!(id.leading_zeros(), 12);
}

#[test]
fn test_generate_id_in_bucket() {
    let node_id = Id::generate_id();
    for i in 0..160 {
        let id = Id::generate_id_in_bucket(node_id, i);
        let dist = node_id.distance(id);
        assert_eq!(dist.leading_zeros() as usize, i);
    }
}

#[test]
fn test_hash_value_deterministic() {
    let value = b"Hello World!".to_vec();
    let hash1 = Id::hash_value(value.clone());
    let hash2 = Id::hash_value(value);
    assert_eq!(hash1, hash2);
}

#[test]
fn hash_value_is_sha1_digest() {
    let id = Id::hash_value(b"Hello World!".to_vec());
    assert_eq!(id.to_hex(), "2ef7bde608ce5404e97d5f042f95f89f1c232871");
    let empty = Id::hash_value(Vec::new());
    assert_eq!(empty.to_hex(), "da39a3ee5e6b4b0d3255bfef95601890afd80709");
}

#[test]
fn distance_is_bytewise_xor() {
    let mut a = Id { id: [0u8; 20] };
    let mut b = Id { id: [0u8; 20] };
    a.id[0] = 0b1010_0000;
    b.id[0] = 0b0110_0000;
    a.id[19] = 7;
    let d = a.distance(b);
    let mut expected = [0u8; 20];
    expected[0] = 0b1100_0000;
    expected[19] = 7;
    assert_eq!(d.id, expected);
    assert_eq!(d.leading_zeros(), 0);
}

#[test]
fn distance_composes_exactly() {
    let a = Id::generate_id();
    let b = Id::generate_id();
    let c = Id::generate_id();
    assert_eq!(a.distance(b).distance(b.distance(c)), a.distance(c));
    assert_eq!(a.distance(a.distance(b)), b);
}

#[test]
fn distance_zero_only_for_equal_ids() {
    let a = Id { id: [1u8; 20] };
    let mut b = a;
    b.id[19] = 0;
    assert_ne!(a.distance(b).id, [0u8; 20]);
    assert_eq!(a.distance(b).leading_zeros(), 159);
}

#[test]
fn leading_zeros_of_last_bit() {
    let mut id = Id { id: [0u8; 20] };
    id.id[19] = 1;
    assert_eq!(id.leading_zeros(), 159);
}

#[test]
fn generated_id_keeps_prefix_and_flips_next_bit() {
    let node_id = Id { id: [0u8; 20] };
    let id = Id::generate_id_in_bucket(node_id, 0);
    assert_eq!(id.id[0] & 0x80, 0x80);
    let id = Id::generate_id_in_bucket(node_id, 159);
    let mut expected = [0u8; 20];
    expected[19] = 1;
    assert_eq!(id.id, expected);
}

#[test]
fn equality_compares_every_byte() {
    let a = Id { id: [9u8; 20] };
    let mut b = a;
    assert_eq!(a, b);
    b.id[10] = 8;
    assert_ne!(a, b);
}

#[test]
fn hex_spelling() {
    let mut id = Id { id: [0u8; 20] };
    id.id[0] = 0xab;
    id.id[19] = 0x0f;
    assert_eq!(id.to_hex(), "ab0000000000000000000000000000000000000f");
}
