use inmemorytable::error::InMemoryTableError;
use inmemorytable::internal::index::Index;
use inmemorytable::internal::slot::SLOTS_HEADER_SIZE;
use inmemorytable::table::{Table, DEFAULT_RECORD_SIZE, TABLE_HEADER_SIZE};

#[derive(Debug, Clone, PartialEq)]
struct TestData {
    number: i32,
    value: f64,
}

fn encode(record: &TestData) -> Vec<u8> {
    bincode::serialize(&(record.number, record.value)).unwrap()
}

fn decode(bytes: &[u8]) -> TestData {
    let (number, value): (i32, f64) = bincode::deserialize(bytes).unwrap();
    TestData { number, value }
}

fn key(number: i32) -> u64 {
    number as i64 as u64
}

/// A table held in two plain buffers, standing for the two shared segments.
struct Fixture {
    mem: Vec<u8>,
    pk: Vec<u8>,
    table: Table,
}

fn table_region(capacity: usize, record_size: usize) -> usize {
    Table::calculate_total_size(capacity, record_size) + SLOTS_HEADER_SIZE
}

fn index_region(capacity: usize) -> usize {
    Index::calculate_total_size(capacity) + SLOTS_HEADER_SIZE
}

impl Fixture {
    fn create(capacity: usize) -> Fixture {
        Self::create_with_size(capacity, DEFAULT_RECORD_SIZE)
    }

    fn create_with_size(capacity: usize, record_size: usize) -> Fixture {
        let mut mem = vec![0u8; table_region(capacity, record_size)];
        let mut pk = vec![0u8; index_region(capacity)];
        let table = Table::create_with_size(&mut mem, &mut pk, capacity, record_size).unwrap();
        Fixture { mem, pk, table }
    }

    fn reopen(self) -> Fixture {
        let table = Table::open(&self.mem).unwrap();
        Fixture { mem: self.mem, pk: self.pk, table }
    }

    fn insert(&mut self, record: &TestData) -> Result<usize, InMemoryTableError> {
        self.table.insert(&mut self.mem, &mut self.pk, key(record.number), &encode(record))
    }

    fn find(&self, number: i32) -> Result<Option<TestData>, InMemoryTableError> {
        Ok(self.table.find(&self.mem, &self.pk, key(number))?.map(decode))
    }

    fn remove(&mut self, number: i32) -> Result<(), InMemoryTableError> {
        self.table.remove(&mut self.mem, &mut self.pk, key(number))
    }

    fn count(&self) -> usize {
        self.table.count(&self.mem, &self.pk)
    }

    fn capacity(&self) -> usize {
        self.table.capacity(&self.mem)
    }

    fn update_with_lock(
        &mut self,
        number: i32,
        f: impl FnOnce(&mut TestData),
    ) -> Result<Option<()>, InMemoryTableError> {
        let index = match self.table.position(&self.mem, &self.pk, key(number)) {
            Some(index) => index,
            None => return Ok(None),
        };
        let bytes = self.table.get(&self.mem, index)?.unwrap().to_vec();
        let mut record = decode(&bytes);
        let old_key = key(record.number);
        f(&mut record);
        let data = encode(&record);
        self.table.update_checked(&mut self.mem, &self.pk, index, old_key, key(record.number), &data)?;
        Ok(Some(()))
    }

    fn update_many(&mut self, numbers: &[i32], f: impl Fn(&mut TestData)) -> Result<usize, InMemoryTableError> {
        let mut found = 0;
        for &number in numbers {
            if let Some(index) = self.table.position(&self.mem, &self.pk, key(number)) {
                if let Some(bytes) = self.table.get(&self.mem, index)? {
                    let mut record = decode(bytes);
                    f(&mut record);
                    let data = encode(&record);
                    self.table.update(&mut self.mem, &self.pk, index, &data)?;
                    found += 1;
                }
            }
        }
        Ok(found)
    }

    fn records(&self) -> Vec<TestData> {
        let mut iter = self.table.iter();
        let mut out = Vec::new();
        while let Some(bytes) = iter.next(&self.mem) {
            out.push(decode(bytes));
        }
        out
    }
}

fn sample(i: i32) -> TestData {
    TestData { number: i, value: 100.0 / (i as f64) }
}

#[test]
fn test_create_basic() {
    let mut table = Fixture::create(10);

    for i in 0..5 {
        table.insert(&sample(i)).expect("unable to insert record");
    }
    assert_eq!(table.count(), 5);
    assert_eq!(table.capacity(), 10);

    for i in 0..5 {
        let got = table.find(i).unwrap().unwrap();
        assert_eq!(got, sample(i));
    }

    let got = table.find(44).unwrap();
    assert!(got.is_none());
}

#[test]
fn test_create_open_basic() {
    let mut table = Fixture::create(10);
    for i in 0..5 {
        table.insert(&sample(i)).expect("unable to insert record");
    }
    assert_eq!(table.count(), 5);
    assert_eq!(table.capacity(), 10);

    let table = table.reopen();
    let expected = TestData { number: 4, value: 100.0 / 4.0 };
    let got = table.find(4).unwrap().unwrap();
    assert_eq!(got, expected);

    let got = table.find(44).unwrap();
    assert!(got.is_none());
}

#[test]
fn test_remove() {
    let mut table = Fixture::create(10);

    for i in 0..5 {
        table.insert(&sample(i)).expect("unable to insert record");
    }
    assert_eq!(table.count(), 5);
    assert_eq!(table.capacity(), 10);

    let mut exp_count = 5;
    for i in 0..5 {
        assert_eq!(table.count(), exp_count);

        table.remove(i).expect("unable to remove key");
        assert!(table.find(i).unwrap().is_none());

        exp_count -= 1;
        assert_eq!(table.count(), exp_count);
        assert_eq!(table.capacity(), 10);
    }
    assert_eq!(table.count(), 0);
    assert_eq!(table.capacity(), 10);
}

#[test]
fn test_insert_all() {
    let mut table = Fixture::create(5);

    for i in 0..5 {
        table.insert(&sample(i)).expect("unable to insert record");
    }
    assert_eq!(table.count(), 5);
    assert_eq!(table.capacity(), 5);

    for i in 0..5 {
        let got = table.find(i).unwrap().unwrap();
        assert_eq!(got, sample(i));
    }

    let mut exp_count = 5;
    for i in 0..5 {
        assert_eq!(table.count(), exp_count);

        table.remove(i).expect("unable to remove key");
        assert!(table.find(i).unwrap().is_none());

        exp_count -= 1;
        assert_eq!(table.count(), exp_count);
        assert_eq!(table.capacity(), 5);
    }
    assert_eq!(table.count(), 0);
    assert_eq!(table.capacity(), 5);
}

#[test]
fn test_with_lock() {
    let mut table = Fixture::create(10);
    for i in 0..5 {
        table.insert(&sample(i)).expect("unable to insert record");
    }

    for i in 0..5 {
        table
            .update_with_lock(i, |record| {
                record.value += 100.0;
            })
            .expect("Error in with_lock");
    }
    for i in 0..5 {
        let expected = TestData { number: i, value: 100.0 + 100.0 / (i as f64) };
        let got = table.find(i).unwrap().unwrap();
        assert_eq!(got, expected);
    }
    assert_eq!(table.count(), 5);
    assert_eq!(table.capacity(), 10);
}

#[test]
fn test_insert_duplicated() {
    let mut table = Fixture::create(10);
    let record = TestData { number: 1, value: 100.0 / (1 as f64) };
    table.insert(&record).expect("unable to insert record");
    table.insert(&record).expect_err("RecordDuplicated");

    assert_eq!(table.count(), 1);
    assert_eq!(table.capacity(), 10);
}

#[test]
fn test_iterator() {
    let mut table = Fixture::create(5);

    for i in 0..5 {
        table.insert(&sample(i)).expect("unable to insert record");
    }
    assert_eq!(table.count(), 5);
    assert_eq!(table.capacity(), 5);

    table.remove(3).expect("unable to remove record");

    let mut iter = table.table.iter();
    for i in 0..5 {
        if i == 3 {
            continue;
        }
        let got = decode(iter.next(&table.mem).expect("Iterator is none"));
        assert_eq!(got, sample(i));
    }
    assert_eq!(iter.next(&table.mem), None);
    assert_eq!(iter.next(&table.mem), None);
}

#[test]
fn test_keys_iterator() {
    let mut table = Fixture::create(5);

    for i in 0..5 {
        table.insert(&sample(i)).expect("unable to insert record");
    }
    assert_eq!(table.count(), 5);
    assert_eq!(table.capacity(), 5);

    table.remove(3).expect("unable to remove record");

    let keys = table.table.keys(&table.mem, &table.pk);
    assert_eq!(keys, vec![0, 1, 2, 4]);
}

#[test]
fn test_update_many() {
    let mut table = Fixture::create(5);

    for i in 0..5 {
        table.insert(&sample(i)).expect("unable to insert record");
    }
    assert_eq!(table.count(), 5);
    assert_eq!(table.capacity(), 5);

    let count = table.update_many(&[1, 4, 10], |record| record.value *= 2.0).expect("update_many");
    assert_eq!(count, 2);

    for i in 0..5 {
        let k = if i == 1 || i == 4 { 2.0 } else { 1.0 };
        let expected = TestData { number: i, value: k * (100.0 / (i as f64)) };
        let got = table
            .find(i)
            .unwrap_or_else(|_| panic!("Record with key {} not found", i))
            .unwrap_or_else(|| panic!("Record with key {} not found", i));
        assert_eq!(got, expected);
    }
}

#[test]
fn duplicate_insert_reports_record_duplicated_and_changes_nothing() {
    let mut table = Fixture::create(4);
    table.insert(&sample(1)).unwrap();
    let mem = table.mem.clone();
    let pk = table.pk.clone();
    let err = table.insert(&TestData { number: 1, value: 7.0 }).unwrap_err();
    assert_eq!(err, InMemoryTableError::RecordDuplicated);
    assert_eq!(table.mem, mem);
    assert_eq!(table.pk, pk);
    assert_eq!(table.find(1).unwrap().unwrap(), sample(1));
}

#[test]
fn full_table_reports_table_full() {
    let mut table = Fixture::create(2);
    table.insert(&sample(1)).unwrap();
    table.insert(&sample(2)).unwrap();
    let err = table.insert(&sample(3)).unwrap_err();
    assert_eq!(err, InMemoryTableError::TableFull { current: 2, capacity: 2 });
    table.remove(1).unwrap();
    table.insert(&sample(3)).unwrap();
    assert_eq!(table.find(3).unwrap().unwrap(), sample(3));
}

#[test]
fn oversized_record_reports_record_size_too_big() {
    let mut table = Fixture::create_with_size(3, 8);
    let err = table.insert(&sample(1)).unwrap_err();
    assert_eq!(err, InMemoryTableError::RecordSizeTooBig { current: 12, max: 8 });
    assert_eq!(table.count(), 0);
}

#[test]
fn record_size_fits_exactly() {
    let mut table = Fixture::create_with_size(3, 12);
    table.insert(&sample(5)).unwrap();
    assert_eq!(table.find(5).unwrap().unwrap(), sample(5));
}

#[test]
fn get_beyond_capacity_reports_invalid_index() {
    let table = Fixture::create(3);
    let err = table.table.get(&table.mem, 3).unwrap_err();
    assert_eq!(err, InMemoryTableError::InvalidIndex { index: 3, max: 3 });
    assert_eq!(table.table.get(&table.mem, 2).unwrap(), Some(&[][..]));
}

#[test]
fn changing_the_key_reports_primary_key_changed() {
    let mut table = Fixture::create(3);
    table.insert(&sample(1)).unwrap();
    let err = table.update_with_lock(1, |r| r.number = 2).unwrap_err();
    assert_eq!(err, InMemoryTableError::PrimaryKeyChanged);
    assert_eq!(table.find(1).unwrap().unwrap(), sample(1));
    assert_eq!(table.update_with_lock(9, |r| r.value = 0.0).unwrap(), None);
}

#[test]
fn update_with_oversized_record_reports_record_size_too_big() {
    let mut table = Fixture::create_with_size(3, 12);
    table.insert(&sample(1)).unwrap();
    let index = table.table.position(&table.mem, &table.pk, key(1)).unwrap();
    let err = table.table.update(&mut table.mem, &table.pk, index, &[0u8; 13]).unwrap_err();
    assert_eq!(err, InMemoryTableError::RecordSizeTooBig { current: 13, max: 12 });
}

#[test]
fn opening_a_region_without_the_magic_reports_not_initialized() {
    let mem = vec![0u8; 64];
    assert!(matches!(Table::open(&mem), Err(InMemoryTableError::NotInitialized)));
    assert!(!Table::is_valid(&mem));
}

#[test]
fn created_region_starts_with_the_magic_and_the_capacity() {
    let table = Fixture::create(7);
    assert_eq!(&table.mem[0..6], b"INMEMT");
    assert_eq!(Table::header_capacity(&table.mem), 7);
    assert!(Table::is_valid(&table.mem));
}

#[test]
fn remove_undoes_insert() {
    let mut table = Fixture::create(6);
    table.insert(&sample(1)).unwrap();
    table.insert(&sample(2)).unwrap();
    let before = table.records();
    table.insert(&sample(3)).unwrap();
    table.remove(3).unwrap();
    assert_eq!(table.records(), before);
    assert_eq!(table.count(), 2);
    assert!(table.find(3).unwrap().is_none());
}

#[test]
fn removing_an_absent_key_changes_nothing() {
    let mut table = Fixture::create(3);
    table.insert(&sample(1)).unwrap();
    let mem = table.mem.clone();
    let pk = table.pk.clone();
    table.remove(2).unwrap();
    assert_eq!(table.mem, mem);
    assert_eq!(table.pk, pk);
}

#[test]
fn freed_slot_is_handed_out_next() {
    let mut table = Fixture::create(4);
    assert_eq!(table.insert(&sample(1)).unwrap(), 0);
    assert_eq!(table.insert(&sample(2)).unwrap(), 1);
    assert_eq!(table.insert(&sample(3)).unwrap(), 2);
    table.remove(2).unwrap();
    assert_eq!(table.insert(&sample(4)).unwrap(), 1);
}

#[test]
fn count_matches_number_of_records() {
    let mut table = Fixture::create(8);
    for i in 0..8 {
        table.insert(&sample(i)).unwrap();
        assert_eq!(table.count(), table.records().len());
    }
    for i in (0..8).step_by(2) {
        table.remove(i).unwrap();
        assert_eq!(table.count(), table.records().len());
    }
    assert_eq!(table.count(), 4);
}

#[test]
fn keys_lists_each_key_once() {
    let mut table = Fixture::create(20);
    for i in 0..20 {
        table.insert(&sample(i * 7 - 30)).unwrap();
    }
    for i in 0..10 {
        table.remove(i * 7 - 30).unwrap();
    }
    let mut keys = table.table.keys(&table.mem, &table.pk);
    keys.sort();
    let mut expected: Vec<u64> = (10..20).map(|i| key(i * 7 - 30)).collect();
    expected.sort();
    assert_eq!(keys, expected);
}

#[test]
fn negative_keys_are_found() {
    let mut table = Fixture::create(4);
    table.insert(&sample(-5)).unwrap();
    assert_eq!(table.find(-5).unwrap().unwrap(), sample(-5));
    assert!(table.find(5).unwrap().is_none());
}

#[test]
fn default_record_size_is_two_kib() {
    assert_eq!(DEFAULT_RECORD_SIZE, 2048);
    assert_eq!(Table::calculate_total_size(10, 2048), 16 + 10 * (16 + 2048));
}

#[test]
fn check_accepts_tables_the_library_wrote() {
    let mut f = Fixture::create(4);
    assert!(f.table.check(&f.mem, &f.pk));
    f.insert(&TestData { number: 1, value: 1.0 }).unwrap();
    f.insert(&TestData { number: -3, value: 3.0 }).unwrap();
    f.remove(1).unwrap();
    assert!(f.table.check(&f.mem, &f.pk));
    let f = f.reopen();
    assert!(f.table.check(&f.mem, &f.pk));
}

#[test]
fn check_refuses_a_key_without_its_record() {
    let mut f = Fixture::create(4);
    let index = f.insert(&TestData { number: 7, value: 7.0 }).unwrap();
    // free the record slot behind the index's back
    let start = TABLE_HEADER_SIZE + SLOTS_HEADER_SIZE + index * (16 + DEFAULT_RECORD_SIZE);
    f.mem[start] = 0;
    assert!(!f.table.check(&f.mem, &f.pk));
}

#[test]
fn check_refuses_a_region_without_the_magic() {
    let mut f = Fixture::create(2);
    f.mem[0] = b'X';
    assert!(!f.table.check(&f.mem, &f.pk));
}
