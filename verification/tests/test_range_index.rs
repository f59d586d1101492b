use inmemorytable::internal::range_index::{RangeIndex, ENTRY_SIZE, RANGE_INDEX_HEADER_SIZE};
use inmemorytable::primitive::Id;
use inmemorytable::index::{HashIndexRef, IndexQuery, RangeIndexRef};
use inmemorytable::internal::index::Index;
use inmemorytable::internal::slot::SLOTS_HEADER_SIZE;

fn range_index(capacity: usize) -> (Vec<u8>, RangeIndex) {
    let mut mem = vec![0u8; RANGE_INDEX_HEADER_SIZE + ENTRY_SIZE * capacity];
    let index = RangeIndex::new(&mut mem, capacity).unwrap();
    (mem, index)
}

/// The entries as (value, raw position word) pairs, read from the bytes.
fn entries(mem: &[u8]) -> Vec<(i32, u64)> {
    let count = u64::from_le_bytes(mem[8..16].try_into().unwrap()) as usize;
    (0..count)
        .map(|i| {
            let start = RANGE_INDEX_HEADER_SIZE + ENTRY_SIZE * i;
            let value = i32::from_le_bytes(mem[start..start + 4].try_into().unwrap());
            let position = u64::from_le_bytes(mem[start + 32..start + 40].try_into().unwrap());
            (value, position)
        })
        .collect()
}

#[test]
fn new_range_index_is_empty() {
    let (mem, index) = range_index(4);
    assert_eq!(index.count(&mem), 0);
    assert_eq!(index.entries.len(), 4);
    assert_eq!(index.find_position(&mem, &Id::from_i32(3)), 0);
}

#[test]
fn insert_keeps_key_order() {
    let (mut mem, index) = range_index(8);
    for (value, position) in [(5, 0), (-3, 1), (9, 2), (0, 3), (5, 4)] {
        index.insert(&mut mem, &Id::from_i32(value), position).unwrap();
    }
    assert_eq!(entries(&mem), vec![(-3, 2), (0, 4), (5, 5), (5, 1), (9, 3)]);
    assert_eq!(index.count(&mem), 5);
}

#[test]
fn find_position_is_the_first_entry_not_below() {
    let (mut mem, index) = range_index(8);
    for value in [10, 20, 20, 30] {
        index.insert(&mut mem, &Id::from_i32(value), 0).unwrap();
    }
    assert_eq!(index.find_position(&mem, &Id::from_i32(5)), 0);
    assert_eq!(index.find_position(&mem, &Id::from_i32(20)), 1);
    assert_eq!(index.find_position(&mem, &Id::from_i32(25)), 3);
    assert_eq!(index.find_position(&mem, &Id::from_i32(31)), 4);
}

#[test]
fn delete_removes_the_matching_entry_only() {
    let (mut mem, index) = range_index(8);
    for (value, position) in [(1, 0), (2, 1), (2, 2), (3, 3)] {
        index.insert(&mut mem, &Id::from_i32(value), position).unwrap();
    }
    index.delete(&mut mem, &Id::from_i32(2), 1).unwrap();
    assert_eq!(entries(&mem), vec![(1, 1), (2, 3), (3, 4)]);
    index.delete(&mut mem, &Id::from_i32(2), 7).unwrap();
    assert_eq!(entries(&mem), vec![(1, 1), (2, 3), (3, 4)]);
    index.delete(&mut mem, &Id::from_i32(4), 3).unwrap();
    assert_eq!(index.count(&mem), 3);
}

#[test]
fn delete_undoes_insert() {
    let (mut mem, index) = range_index(8);
    for (value, position) in [(4, 0), (8, 1), (6, 2)] {
        index.insert(&mut mem, &Id::from_i32(value), position).unwrap();
    }
    let before = entries(&mem);
    index.insert(&mut mem, &Id::from_i32(6), 9).unwrap();
    index.delete(&mut mem, &Id::from_i32(6), 9).unwrap();
    assert_eq!(entries(&mem), before);
}

#[test]
fn update_moves_an_entry_to_its_new_key() {
    let (mut mem, index) = range_index(4);
    for (value, position) in [(1, 0), (5, 1), (9, 2)] {
        index.insert(&mut mem, &Id::from_i32(value), position).unwrap();
    }
    index.update(&mut mem, &Id::from_i32(1), &Id::from_i32(7), 0).unwrap();
    assert_eq!(entries(&mem), vec![(5, 2), (7, 1), (9, 3)]);
}

#[test]
fn open_reads_the_capacity() {
    let (mem, _) = range_index(6);
    let index = RangeIndex::open(&mem).unwrap();
    assert_eq!(index.entries.len(), 6);
}

#[test]
fn index_queries_find_nothing() {
    let (mut mem, range) = range_index(4);
    range.insert(&mut mem, &Id::from_i32(3), 0).unwrap();
    let query = IndexQuery { index_ref: RangeIndexRef(range) };
    assert!(query.eq(3i32).is_empty());
    assert!(query.gt(Id::from_i32(0)).is_empty());
    assert!(query.lt(10i32).is_empty());

    let mut pk = vec![0u8; Index::calculate_total_size(4) + SLOTS_HEADER_SIZE];
    let index = Index::new(&mut pk, 4).unwrap();
    let query = IndexQuery { index_ref: HashIndexRef(index) };
    assert!(query.eq(7u64).is_none());
}
