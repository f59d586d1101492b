use inmemorytable::error::{semget_text, ErrnoKind, InMemoryTableError};
use inmemorytable::index::{
    check_provided_indexes, encode_index_slots, IndexDef, IndexKind, INDEX_REGISTRY_SIZE, INDEX_SLOT_SIZE,
    MAX_INDEXES, MAX_INDEX_NAME,
};
use inmemorytable::primitive::Id;
use inmemorytable::internal::header::Header;
use inmemorytable::internal::memory_array::MemoryArray;
use inmemorytable::internal::offset::Offset;
use inmemorytable::internal::semaphore::SemaphoreSet;

#[test]
fn offset_stores_slot_plus_one() {
    assert_eq!(Offset::none().value, 0);
    assert_eq!(Offset::none().get(), None);
    assert!(Offset::none().is_none());
    assert_eq!(Offset::some(0).value, 1);
    assert_eq!(Offset::some(41).get(), Some(41));
    assert!(Offset::some(41).is_some());
    assert_eq!(Offset::some(41).unwrap(), 41);
    assert_eq!(Offset::none().unwrap_or(9), 9);
    assert_eq!(Offset::some(3).unwrap_or(9), 3);
    assert_eq!(Offset::from_option(Some(5)).get(), Some(5));
    assert_eq!(Offset::from_option(None).get(), None);
    assert_eq!(Offset::from_slot(2).value, 3);
}

#[test]
fn offset_set_stores_the_raw_word() {
    let mut o = Offset::none();
    o.set(Some(4));
    assert_eq!(o.value, 4);
    assert_eq!(o.get(), Some(3));
    o.set(None);
    assert!(o.is_none());
}

#[test]
fn header_and_array_check_alignment() {
    assert_eq!(
        Header::new(3, 8, 16).unwrap_err(),
        InMemoryTableError::MisalignedMemory { address: 3, required: 8 }
    );
    let h = Header::new(32, 8, 16).unwrap();
    assert_eq!(h.data(), 48);
    assert_eq!(
        MemoryArray::new(6, 4, 4).unwrap_err(),
        InMemoryTableError::MisalignedMemory { address: 6, required: 4 }
    );
    assert_eq!(MemoryArray::new(8, 4, 4).unwrap().len(), 4);
}

#[test]
fn sem_key_of_known_names() {
    assert_eq!(SemaphoreSet::generate_sem_key("table1"), 1167730345);
    assert_eq!(SemaphoreSet::generate_sem_key("products"), 1310691432);
    assert_eq!(SemaphoreSet::generate_sem_key("a"), 144557);
    assert_eq!(SemaphoreSet::generate_sem_key(""), 0x1234);
}

#[test]
fn stripes_for_small_and_large_tables() {
    assert_eq!(SemaphoreSet::stripe_layout(10), (1, 11));
    assert_eq!(SemaphoreSet::stripe_layout(0), (1, 1));
    assert_eq!(SemaphoreSet::stripe_layout(1024), (1024, 2));
    assert_eq!(SemaphoreSet::stripe_layout(5000), (1024, 6));
}

#[test]
fn record_and_table_locks() {
    let set = SemaphoreSet::with_id(77, 10);
    assert_eq!(set.stripes, 11);
    let l = set.lock_record(4).unwrap();
    assert_eq!((l.sem_id, l.position), (77, 4));
    let l = set.lock_table().unwrap();
    assert_eq!(l.position, 10);
    assert_eq!(
        set.lock(12).unwrap_err(),
        InMemoryTableError::SemaphoreInvalidIndex { sem_num: 12, max: 11 }
    );
    assert_eq!(
        set.lock(11).unwrap_err(),
        InMemoryTableError::SemaphoreInvalidIndex { sem_num: 11, max: 11 }
    );
    assert!(set.lock(10).is_ok());
    let big = SemaphoreSet::with_id(1, 5000);
    assert_eq!(big.lock_record(2100).unwrap().position, 2);
    assert_eq!(big.get_index(1023), 0);
    assert_eq!(big.stripes, 6);
    assert_eq!(big.lock_table().unwrap().position, 5);
}

#[test]
fn table_lock_is_the_last_semaphore_of_large_sets() {
    let set = SemaphoreSet::with_id(3, 2048);
    assert_eq!(set.stripes, 3);
    assert_eq!(set.lock_table().unwrap().position, 2);
    assert_eq!(set.lock_record(0).unwrap().position, 0);
    assert_eq!(set.lock_record(2047).unwrap().position, 1);
    let empty = SemaphoreSet::with_id(3, 0);
    assert_eq!(empty.stripes, 1);
    assert_eq!(empty.lock_table().unwrap().position, 0);
}

#[test]
fn shm_errors_by_kind() {
    let text = String::from("EBUSY: Device or resource busy");
    assert_eq!(
        InMemoryTableError::from_shm_kind(ErrnoKind::Exists, "t", text.clone()),
        InMemoryTableError::ShmAlreadyExists { name: "t".into() }
    );
    assert_eq!(
        InMemoryTableError::from_shm_kind(ErrnoKind::NotPermitted, "t", text.clone()),
        InMemoryTableError::ShmPermissionDenied
    );
    assert_eq!(
        InMemoryTableError::from_shm_kind(ErrnoKind::InvalidArgument, "t", text.clone()),
        InMemoryTableError::InvalidName { name: "t".into() }
    );
    assert_eq!(
        InMemoryTableError::from_shm_kind(ErrnoKind::Other, "t", text.clone()),
        InMemoryTableError::ShmError(text)
    );
}

#[test]
fn shm_errors_from_raw_errno() {
    assert_eq!(
        InMemoryTableError::from_shm_error(libc::EEXIST, "tbl"),
        InMemoryTableError::ShmAlreadyExists { name: "tbl".into() }
    );
    assert_eq!(InMemoryTableError::from_shm_error(libc::ENOSPC, "tbl"), InMemoryTableError::ShmNoSpace);
    assert_eq!(InMemoryTableError::from_shm_error(libc::ENOMEM, "tbl"), InMemoryTableError::ShmOutOfMemory);
    assert_eq!(InMemoryTableError::from_shm_error(libc::EBADF, "tbl"), InMemoryTableError::ShmBadFileDescriptor);
    assert_eq!(
        InMemoryTableError::from_shm_error(libc::EBUSY, "tbl"),
        InMemoryTableError::ShmError("EBUSY: Device or resource busy".into())
    );
}

#[test]
fn ftruncate_errors() {
    assert_eq!(
        InMemoryTableError::from_ftruncate_error(libc::EFBIG, 99),
        InMemoryTableError::ShmTooLarge { requested: 99 }
    );
    assert_eq!(InMemoryTableError::from_ftruncate_error(libc::ENOSPC, 99), InMemoryTableError::ShmNoSpace);
    assert_eq!(
        InMemoryTableError::from_ftruncate_error(libc::EIO, 99),
        InMemoryTableError::ShmError("ftruncate: EIO: I/O error".into())
    );
}

#[test]
fn semget_errors() {
    assert_eq!(
        InMemoryTableError::from_semget_error(libc::EEXIST, 12, "t", 3),
        InMemoryTableError::SemaphoreAlreadyExists { key: 12, name: "t".into() }
    );
    assert_eq!(
        InMemoryTableError::from_semget_error(libc::EINVAL, 12, "t", 3),
        InMemoryTableError::SemaphoreInvalidParams { requested: 3 }
    );
    assert_eq!(
        InMemoryTableError::from_semget_error(libc::ENOENT, 12, "t", 3),
        InMemoryTableError::SemaphoreNotExists { key: 12 }
    );
    assert_eq!(InMemoryTableError::from_semget_error(libc::ENOSPC, 12, "t", 3), InMemoryTableError::SemaphoreLimitReached);
    assert_eq!(InMemoryTableError::from_semget_error(libc::EACCES, 12, "t", 3), InMemoryTableError::SemaphorePermissionDenied);
    assert_eq!(InMemoryTableError::from_semget_error(libc::ENOMEM, 12, "t", 3), InMemoryTableError::SemaphoreOutOfMemory);
    match InMemoryTableError::from_semget_error(libc::EBUSY, 12, "t", 3) {
        InMemoryTableError::SemaphoreError(s) => {
            assert!(s.starts_with(&format!("semget errno: {} (", libc::EBUSY)));
            assert!(s.ends_with(')'));
        }
        other => panic!("unexpected {:?}", other),
    }
    assert_eq!(
        InMemoryTableError::from_semget_kind(ErrnoKind::Removed, 1, "t", 1, "x".into()),
        InMemoryTableError::SemaphoreError("x".into())
    );
}

#[test]
fn semop_errors() {
    assert_eq!(InMemoryTableError::from_semop_error(libc::EIDRM, 1, 2), InMemoryTableError::SemaphoreRemoved);
    assert_eq!(
        InMemoryTableError::from_semop_error(libc::EFBIG, 1, 2),
        InMemoryTableError::SemaphoreInvalidIndex { sem_num: 1, max: 2 }
    );
    assert_eq!(
        InMemoryTableError::from_semop_error(libc::EINVAL, 1, 2),
        InMemoryTableError::SemaphoreInvalidIndex { sem_num: 1, max: 2 }
    );
    assert_eq!(
        InMemoryTableError::from_semop_error(libc::EAGAIN, 1, 2),
        InMemoryTableError::SemaphoreOperationFailed { sem_num: 1 }
    );
    assert_eq!(
        InMemoryTableError::from_semop_kind(ErrnoKind::Other, 4, 5),
        InMemoryTableError::SemaphoreOperationFailed { sem_num: 4 }
    );
}

#[test]
fn index_lists_are_checked_against_the_limits() {
    let ok = vec![def("price", IndexKind::Range), def(&"a".repeat(MAX_INDEX_NAME), IndexKind::Hash)];
    assert!(check_provided_indexes(&ok).is_ok());
    let long = vec![
        def("short", IndexKind::Hash),
        def(&"b".repeat(40), IndexKind::Range),
        def(&"c".repeat(33), IndexKind::Range),
    ];
    assert_eq!(
        check_provided_indexes(&long).unwrap_err(),
        InMemoryTableError::IndexNameTooLong { current: 40, max: MAX_INDEX_NAME }
    );
    let many: Vec<_> = (0..MAX_INDEXES + 1).map(|i| def(&format!("i{}", i), IndexKind::Hash)).collect();
    assert_eq!(
        check_provided_indexes(&many).unwrap_err(),
        InMemoryTableError::TooManyIndexes { current: 17, max: MAX_INDEXES }
    );
    let none: Vec<IndexDef<Extractor>> = Vec::new();
    assert!(check_provided_indexes(&none).is_ok());
}

struct Rec {
    price: u64,
}

type Extractor = Box<dyn Fn(&Rec) -> Id>;

fn def(name: &str, kind: IndexKind) -> IndexDef<Extractor> {
    IndexDef { name: name.to_string(), kind, extractor: Box::new(|r: &Rec| Id::from_u64(r.price)) }
}

#[test]
fn index_registry_holds_one_slot_per_definition() {
    let list = vec![def("ab", IndexKind::Hash), def("é", IndexKind::Range)];
    let bytes = encode_index_slots(&list).unwrap();
    assert_eq!(bytes.len(), INDEX_REGISTRY_SIZE);
    assert_eq!(INDEX_SLOT_SIZE * MAX_INDEXES, INDEX_REGISTRY_SIZE);
    // first slot: 'a', 'b' as 32-bit code points, kind Hash
    assert_eq!(&bytes[0..8], &[97, 0, 0, 0, 98, 0, 0, 0]);
    assert!(bytes[8..124].iter().all(|&b| b == 0));
    assert_eq!(&bytes[124..128], &[0, 0, 0, 0]);
    // second slot: U+00E9, kind Range
    assert_eq!(&bytes[128..132], &[0xe9, 0, 0, 0]);
    assert!(bytes[132..252].iter().all(|&b| b == 0));
    assert_eq!(&bytes[252..256], &[1, 0, 0, 0]);
    // unused slots: no name, kind Range
    for slot in 2..MAX_INDEXES {
        let s = &bytes[slot * INDEX_SLOT_SIZE..(slot + 1) * INDEX_SLOT_SIZE];
        assert!(s[..124].iter().all(|&b| b == 0));
        assert_eq!(&s[124..], &[1, 0, 0, 0]);
    }
    // the extractor is kept as given
    assert!((list[0].extractor)(&Rec { price: 7 }).same(&Id::from_u64(7)));
}

#[test]
fn index_registry_refuses_what_the_check_refuses() {
    let long = vec![def(&"x".repeat(MAX_INDEX_NAME + 1), IndexKind::Hash)];
    assert_eq!(
        encode_index_slots(&long).unwrap_err(),
        InMemoryTableError::IndexNameTooLong { current: MAX_INDEX_NAME + 1, max: MAX_INDEX_NAME }
    );
    let many: Vec<_> = (0..MAX_INDEXES + 2).map(|i| def(&format!("n{}", i), IndexKind::Range)).collect();
    assert_eq!(
        encode_index_slots(&many).unwrap_err(),
        InMemoryTableError::TooManyIndexes { current: MAX_INDEXES + 2, max: MAX_INDEXES }
    );
    let empty: Vec<IndexDef<Extractor>> = Vec::new();
    let bytes = encode_index_slots(&empty).unwrap();
    assert_eq!(bytes.len(), INDEX_REGISTRY_SIZE);
}

#[test]
fn semget_text_names_the_errno() {
    assert_eq!(semget_text(16, "Device or resource busy"), "semget errno: 16 (Device or resource busy)");
    assert_eq!(semget_text(0, ""), "semget errno: 0 ()");
    assert_eq!(semget_text(-5, "x"), "semget errno: -5 (x)");
    assert_eq!(semget_text(i32::MIN, "m"), "semget errno: -2147483648 (m)");
    assert_eq!(semget_text(1234567, "d"), "semget errno: 1234567 (d)");
}
