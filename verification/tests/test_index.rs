use inmemorytable::internal::index::{hash_key, Index, Node, NODE_SIZE};
use inmemorytable::internal::offset::Offset;
use inmemorytable::internal::slot::SLOTS_HEADER_SIZE;

fn index(size: usize) -> (Vec<u8>, Index) {
    let mut mem = vec![0xFFu8; Index::calculate_total_size(size) + SLOTS_HEADER_SIZE];
    let index = Index::new(&mut mem, size).unwrap();
    (mem, index)
}

#[test]
fn bucket_count_is_three_quarters_rounded_up() {
    assert_eq!(Index::total_buckets_for(10), 8);
    assert_eq!(Index::total_buckets_for(4), 3);
    assert_eq!(Index::total_buckets_for(1), 1);
    assert_eq!(Index::total_buckets_for(0), 0);
    assert_eq!(Index::total_buckets_for(100), 75);
}

#[test]
fn total_size_counts_buckets_and_nodes() {
    assert_eq!(Index::calculate_total_size(10), 8 * 8 + 10 * (16 + NODE_SIZE));
}

#[test]
fn new_index_is_empty() {
    let (mem, index) = index(5);
    for k in 0..20 {
        assert_eq!(index.get(&mem, k), None);
    }
    assert!(index.keys(&mem).is_empty());
}

#[test]
fn insert_then_get() {
    let (mut mem, index) = index(5);
    index.insert(&mut mem, 42, 3).unwrap();
    index.insert(&mut mem, 7, 0).unwrap();
    assert_eq!(index.get(&mem, 42), Some(3));
    assert_eq!(index.get(&mem, 7), Some(0));
    assert_eq!(index.get(&mem, 8), None);
}

#[test]
fn many_keys_share_few_buckets() {
    let (mut mem, index) = index(40);
    for k in 0..40u64 {
        index.insert(&mut mem, k * 1000 + 1, (k * 2) as usize).unwrap();
    }
    for k in 0..40u64 {
        assert_eq!(index.get(&mem, k * 1000 + 1), Some((k * 2) as usize));
    }
    for k in (0..40u64).step_by(3) {
        index.remove(&mut mem, k * 1000 + 1).unwrap();
    }
    for k in 0..40u64 {
        let expected = if k % 3 == 0 { None } else { Some((k * 2) as usize) };
        assert_eq!(index.get(&mem, k * 1000 + 1), expected);
    }
    for k in (0..40u64).step_by(3) {
        index.insert(&mut mem, k * 1000 + 1, 1).unwrap();
    }
    for k in 0..40u64 {
        let expected = if k % 3 == 0 { Some(1) } else { Some((k * 2) as usize) };
        assert_eq!(index.get(&mem, k * 1000 + 1), expected);
    }
}

#[test]
fn full_index_reports_table_full() {
    let (mut mem, index) = index(2);
    index.insert(&mut mem, 1, 0).unwrap();
    index.insert(&mut mem, 2, 1).unwrap();
    let before = mem.clone();
    assert!(index.insert(&mut mem, 3, 2).is_err());
    assert_eq!(mem, before);
}

#[test]
fn removing_an_absent_key_is_ok() {
    let (mut mem, index) = index(3);
    index.insert(&mut mem, 1, 0).unwrap();
    index.remove(&mut mem, 2).unwrap();
    assert_eq!(index.get(&mem, 1), Some(0));
}

#[test]
fn keys_and_iterator_follow_slot_order() {
    let (mut mem, index) = index(6);
    for k in [50u64, 10, 30, 20] {
        index.insert(&mut mem, k, 0).unwrap();
    }
    index.remove(&mut mem, 10).unwrap();
    assert_eq!(index.keys(&mem), vec![50, 30, 20]);
    let mut iter = index.iter();
    assert_eq!(iter.next(&mem), Some(50));
    assert_eq!(iter.next(&mem), Some(30));
    assert_eq!(iter.next(&mem), Some(20));
    assert_eq!(iter.next(&mem), None);
    assert_eq!(iter.next(&mem), None);
}

#[test]
fn nodes_encode_and_decode() {
    let node = Node { key: 0x0102030405060708, position: 9, next: Offset::some(4) };
    let bytes = node.encode();
    assert_eq!(bytes.len(), NODE_SIZE);
    assert_eq!(&bytes[0..8], &0x0102030405060708u64.to_le_bytes());
    let back = Node::decode(&bytes);
    assert_eq!(back.key, node.key);
    assert_eq!(back.position, 9);
    assert_eq!(back.next.get(), Some(4));
}

#[test]
fn open_matches_new() {
    let (mut mem, index) = index(10);
    index.insert(&mut mem, 5, 5).unwrap();
    let reopened = Index::open(10).unwrap();
    assert_eq!(reopened.total_buckets, index.total_buckets);
    assert_eq!(reopened.get(&mem, 5), Some(5));
}

#[test]
fn hash_key_is_deterministic_and_depends_on_the_key() {
    assert_eq!(hash_key(1), hash_key(1));
    assert_ne!(hash_key(1), hash_key(2));
}

#[test]
fn check_accepts_indexes_the_library_wrote() {
    let (mut mem, index) = index(6);
    assert!(index.check(&mem));
    for k in 0..6u64 {
        index.insert(&mut mem, k * 7, k as usize).unwrap();
    }
    index.remove(&mut mem, 14).unwrap();
    assert!(index.check(&mem));
}

#[test]
fn check_refuses_a_node_in_the_wrong_bucket_or_a_dangling_bucket() {
    let (mut mem, index) = index(4);
    index.insert(&mut mem, 5, 0).unwrap();
    let b = (hash_key(5) % index.total_buckets as u64) as usize;
    // the bucket of key 5 forgets its chain: the node is left unchained
    let mut unchained = mem.clone();
    unchained[b * 8..b * 8 + 8].copy_from_slice(&0u64.to_le_bytes());
    assert!(!index.check(&unchained));
    // another bucket points at the node too
    let other = (b + 1) % index.total_buckets;
    let mut shared = mem.clone();
    shared[other * 8..other * 8 + 8].copy_from_slice(&1u64.to_le_bytes());
    assert!(!index.check(&shared));
    assert!(index.check(&mem));
}

#[test]
fn check_refuses_a_zero_bucket_handle() {
    let (mem, index) = index(4);
    let mut broken = index;
    broken.total_buckets = 0;
    assert!(!broken.check(&mem));
}
