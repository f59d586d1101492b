use inmemorytable::error::InMemoryTableError;
use inmemorytable::internal::slot::{Slots, SLOTS_HEADER_SIZE, SLOT_METADATA_SIZE};

fn arena(capacity: usize, data_size: usize) -> (Vec<u8>, Slots) {
    let mut mem = vec![0u8; 8 + SLOTS_HEADER_SIZE + Slots::calculate_required_size(capacity, data_size)];
    let slots = Slots::new(&mut mem, 8, capacity, data_size).unwrap();
    (mem, slots)
}

#[test]
fn required_size_is_slot_size_times_capacity() {
    assert_eq!(Slots::calculate_required_size(10, 24), 10 * (SLOT_METADATA_SIZE + 24));
    assert_eq!(Slots::calculate_required_size(0, 100), 0);
}

#[test]
fn new_arena_is_all_free() {
    let (mem, slots) = arena(4, 8);
    assert_eq!(slots.count(&mem), 0);
    assert_eq!(slots.capacity(&mem), 4);
    assert_eq!(slots.max_data_size(&mem), 8);
    for i in 0..4 {
        assert!(slots.is_free(&mem, i));
        assert!(!slots.is_occupied(&mem, i));
        assert_eq!(slots.get(&mem, i), &[][..]);
    }
}

#[test]
fn new_arena_writes_nothing_outside() {
    let mut mem = vec![0xAAu8; 8 + SLOTS_HEADER_SIZE + Slots::calculate_required_size(2, 4) + 8];
    let end = mem.len() - 8;
    Slots::new(&mut mem, 8, 2, 4).unwrap();
    assert!(mem[..8].iter().all(|&b| b == 0xAA));
    assert!(mem[end..].iter().all(|&b| b == 0xAA));
}

#[test]
fn misaligned_base_is_refused() {
    let mut mem = vec![0u8; 128];
    let before = mem.clone();
    let err = Slots::new(&mut mem, 4, 1, 8).unwrap_err();
    assert_eq!(err, InMemoryTableError::MisalignedMemory { address: 4, required: 8 });
    assert_eq!(mem, before);
    assert!(Slots::open(12).is_err());
    assert!(Slots::open(16).is_ok());
}

#[test]
fn insert_fills_slots_in_order_and_get_reads_back() {
    let (mut mem, slots) = arena(3, 8);
    assert_eq!(slots.insert(&mut mem, b"abc").unwrap(), 0);
    assert_eq!(slots.insert(&mut mem, b"").unwrap(), 1);
    assert_eq!(slots.insert(&mut mem, b"12345678").unwrap(), 2);
    assert_eq!(slots.get(&mem, 0), b"abc");
    assert_eq!(slots.get(&mem, 1), b"");
    assert!(slots.is_occupied(&mem, 1));
    assert_eq!(slots.get(&mem, 2), b"12345678");
    assert_eq!(slots.count(&mem), 3);
}

#[test]
fn full_arena_reports_table_full() {
    let (mut mem, slots) = arena(2, 8);
    slots.insert(&mut mem, b"a").unwrap();
    slots.insert(&mut mem, b"b").unwrap();
    let before = mem.clone();
    let err = slots.insert(&mut mem, b"c").unwrap_err();
    assert_eq!(err, InMemoryTableError::TableFull { current: 2, capacity: 2 });
    assert_eq!(mem, before);
}

#[test]
fn oversized_data_reports_record_size_too_big() {
    let (mut mem, slots) = arena(2, 4);
    let before = mem.clone();
    let err = slots.insert(&mut mem, b"12345").unwrap_err();
    assert_eq!(err, InMemoryTableError::RecordSizeTooBig { current: 5, max: 4 });
    assert_eq!(mem, before);
}

#[test]
fn remove_frees_and_the_freed_slot_is_reused_first() {
    let (mut mem, slots) = arena(4, 4);
    for b in [b"a", b"b", b"c"] {
        slots.insert(&mut mem, b).unwrap();
    }
    slots.remove(&mut mem, 1);
    assert!(slots.is_free(&mem, 1));
    assert_eq!(slots.count(&mem), 2);
    slots.remove(&mut mem, 0);
    assert_eq!(slots.insert(&mut mem, b"x").unwrap(), 0);
    assert_eq!(slots.insert(&mut mem, b"y").unwrap(), 1);
    assert_eq!(slots.insert(&mut mem, b"z").unwrap(), 3);
    assert_eq!(slots.get(&mem, 2), b"c");
}

#[test]
fn update_replaces_data_in_place() {
    let (mut mem, slots) = arena(2, 4);
    slots.insert(&mut mem, b"ab").unwrap();
    slots.update(&mut mem, 0, b"wxyz").unwrap();
    assert_eq!(slots.get(&mem, 0), b"wxyz");
    let err = slots.update(&mut mem, 0, b"12345").unwrap_err();
    assert_eq!(err, InMemoryTableError::RecordSizeTooBig { current: 5, max: 4 });
    assert_eq!(slots.get(&mem, 0), b"wxyz");
    assert_eq!(slots.count(&mem), 1);
}

#[test]
fn initialize_free_list_links_each_slot_to_the_next() {
    let (mut mem, slots) = arena(3, 4);
    slots.insert(&mut mem, b"a").unwrap();
    slots.initialize_free_list(&mut mem);
    for i in 0..3 {
        assert!(slots.is_free(&mem, i));
        let start = 8 + SLOTS_HEADER_SIZE + i * (SLOT_METADATA_SIZE + 4);
        let link = u64::from_le_bytes(mem[start + 8..start + 16].try_into().unwrap());
        assert_eq!(link, (i + 1) as u64);
    }
}

#[test]
fn zero_capacity_arena_is_always_full() {
    let (mut mem, slots) = arena(0, 4);
    let err = slots.insert(&mut mem, b"a").unwrap_err();
    assert_eq!(err, InMemoryTableError::TableFull { current: 0, capacity: 0 });
}

#[test]
fn check_accepts_arenas_the_library_wrote() {
    let (mut mem, slots) = arena(4, 8);
    assert!(slots.check(&mem));
    slots.insert(&mut mem, b"ab").unwrap();
    slots.insert(&mut mem, b"cd").unwrap();
    slots.remove(&mut mem, 0);
    assert!(slots.check(&mem));
}

#[test]
fn check_refuses_a_broken_free_list() {
    let (mut mem, slots) = arena(3, 8);
    // slot 0 links to itself: a cycle
    let s0 = 8 + SLOTS_HEADER_SIZE;
    mem[s0 + 8..s0 + 16].copy_from_slice(&0u64.to_le_bytes());
    assert!(!slots.check(&mem));
}

#[test]
fn check_refuses_a_wrong_count_and_an_oversized_record() {
    let (mut mem, slots) = arena(3, 8);
    slots.insert(&mut mem, b"abc").unwrap();
    let mut wrong_count = mem.clone();
    wrong_count[8 + 8..8 + 16].copy_from_slice(&2u64.to_le_bytes());
    assert!(!slots.check(&wrong_count));
    let mut oversized = mem.clone();
    let s0 = 8 + SLOTS_HEADER_SIZE;
    oversized[s0 + 8..s0 + 16].copy_from_slice(&9u64.to_le_bytes());
    assert!(!slots.check(&oversized));
    assert!(slots.check(&mem));
}

#[test]
fn check_refuses_an_arena_larger_than_its_region() {
    let (mut mem, slots) = arena(3, 8);
    mem[8..16].copy_from_slice(&4u64.to_le_bytes());
    assert!(!slots.check(&mem));
    assert!(!slots.check(&mem[..20]));
}

#[test]
fn slots_are_handed_out_in_free_list_order() {
    let (mut mem, s) = arena(3, 8);
    assert_eq!(s.insert(&mut mem, &[1, 2]), Ok(0));
    assert_eq!(s.insert(&mut mem, &[3]), Ok(1));
    s.remove(&mut mem, 0);
    assert_eq!(s.insert(&mut mem, &[4]), Ok(0));
    assert_eq!(s.insert(&mut mem, &[5]), Ok(2));
    assert_eq!(s.insert(&mut mem, &[6]), Err(InMemoryTableError::TableFull { current: 3, capacity: 3 }));
    assert_eq!(s.count(&mem), 3);
    assert_eq!(s.get(&mem, 0), &[4]);
}
