use crate::error::InMemoryTableError;
use vstd::prelude::*;
use vstd::string::StringSliceAdditionalSpecFns;

verus! {

/// Records guarded by one semaphore in large tables.
pub const STRIPE_SIZE: usize = 1024;

/// The seed of the key derivation.
pub const SEM_KEY_SEED: i32 = 0x1234;

/// The running hash of a table name: starting from the seed, each byte is
/// folded in as `hash * 31 + byte`, wrapping on overflow.
pub open spec fn sem_hash(bytes: Seq<u8>) -> i32
    decreases bytes.len(),
{
    if bytes.len() == 0 {
        SEM_KEY_SEED
    } else {
        sem_hash(bytes.drop_last()).wrapping_mul(31).wrapping_add(bytes.last() as i32)
    }
}

/// The IPC key of a table name: the absolute value of its hash, the seed when
/// that is zero.
pub open spec fn sem_key(bytes: Seq<u8>) -> i32 {
    let h = sem_hash(bytes);
    let a = if h < 0 { -h } else { h as int };
    if a == 0 { SEM_KEY_SEED } else { a as i32 }
}

/// Records per semaphore for a table of `num_records` records.
pub open spec fn stripe_size_for(num_records: int) -> int {
    if num_records < STRIPE_SIZE { 1 } else { STRIPE_SIZE as int }
}

/// Semaphores for a table of `num_records` records: one per stripe (the
/// quotient rounded up), plus one.
pub open spec fn stripes_for(num_records: int) -> int {
    let s = stripe_size_for(num_records);
    num_records / s + (if num_records % s != 0 { 1int } else { 0int }) + 1
}

/// The semaphore a lock is taken on.
#[derive(Debug, Clone, Copy)]
pub struct Locker {
    pub sem_id: i32,
    pub position: usize,
}

/// A set of IPC semaphores guarding a table: one per stripe of records and
/// one for the whole table.
#[derive(Debug, Clone, Copy)]
pub struct SemaphoreSet {
    pub sem_id: i32,
    pub stripe_size: usize,
    pub stripes: usize,
    pub num_records: usize,
}

impl SemaphoreSet {
    /// The running hash of `name`.
    pub fn name_hash(name: &str) -> (r: i32)
        ensures
            r == sem_hash(name.spec_bytes()),
    {
        let bytes = name.as_bytes();
        let mut hash: i32 = SEM_KEY_SEED;
        let mut i: usize = 0;
        while i < bytes.len()
            invariant
                i <= bytes@.len(),
                bytes@ == name.spec_bytes(),
                hash == sem_hash(bytes@.subrange(0, i as int)),
            decreases bytes@.len() - i,
        {
            proof {
                assert(bytes@.subrange(0, i + 1).drop_last() =~= bytes@.subrange(0, i as int));
            }
            hash = hash.wrapping_mul(31).wrapping_add(bytes[i] as i32);
            i = i + 1;
        }
        proof {
            assert(bytes@.subrange(0, bytes@.len() as int) =~= bytes@);
        }
        hash
    }

    /// The IPC key for table `name`; always positive.
    ///
    /// The hash must not be `i32::MIN`, whose absolute value overflows.
    pub fn generate_sem_key(name: &str) -> (r: i32)
        requires
            sem_hash(name.spec_bytes()) != i32::MIN,
        ensures
            r == sem_key(name.spec_bytes()),
            r > 0,
    {
        let hash = Self::name_hash(name);
        let key = if hash < 0 { -hash } else { hash };
        if key == 0 { SEM_KEY_SEED } else { key }
    }

    /// Records per semaphore and number of semaphores for `num_records` records.
    pub fn stripe_layout(num_records: usize) -> (r: (usize, usize))
        ensures
            r.0 == stripe_size_for(num_records as int),
            r.1 == stripes_for(num_records as int),
            r.0 >= 1,
    {
        let stripe_size = if num_records < STRIPE_SIZE { 1 } else { STRIPE_SIZE };
        let q = num_records / stripe_size;
        let stripes = if num_records % stripe_size != 0 { q + 1 } else { q };
        (stripe_size, stripes + 1)
    }

    /// The set with IPC id `sem_id` guarding `num_records` records.
    pub fn with_id(sem_id: i32, num_records: usize) -> (r: Self)
        ensures
            r.stripes > 0,
            r.stripe_size > 0,
            r.sem_id == sem_id,
            r.num_records == num_records,
            r.stripe_size == stripe_size_for(num_records as int),
            r.stripes == stripes_for(num_records as int),
    {
        let (stripe_size, stripes) = Self::stripe_layout(num_records);
        SemaphoreSet { sem_id, stripe_size, stripes, num_records }
    }

    /// The stripe of record `position`.
    pub fn get_index(&self, position: usize) -> (r: usize)
        requires
            self.stripe_size > 0,
        ensures
            r == position / self.stripe_size,
    {
        position / self.stripe_size
    }

    /// The semaphore that guards record `position`.
    ///
    /// Fails with `SemaphoreInvalidIndex` exactly when the stripe number is
    /// not that of a semaphore of the set.
    pub fn lock(&self, position: usize) -> (r: Result<Locker, InMemoryTableError>)
        requires
            self.stripe_size > 0,
        ensures
            r is Err <==> position / self.stripe_size >= self.stripes,
            r matches Err(e) ==> e == (InMemoryTableError::SemaphoreInvalidIndex {
                sem_num: (position / self.stripe_size) as usize,
                max: self.stripes,
            }),
            r matches Ok(l) ==> l.sem_id == self.sem_id && l.position == position / self.stripe_size,
    {
        let sem_num = self.get_index(position);
        if sem_num >= self.stripes {
            return Err(InMemoryTableError::SemaphoreInvalidIndex { sem_num, max: self.stripes });
        }
        Ok(Locker { sem_id: self.sem_id, position: sem_num })
    }

    /// The semaphore that guards the whole table: the last one of the set,
    /// after the semaphores of the stripes.
    pub fn lock_table(&self) -> (r: Result<Locker, InMemoryTableError>)
        requires
            self.stripes > 0,
        ensures
            r matches Ok(l) && l.sem_id == self.sem_id && l.position == self.stripes - 1,
    {
        Ok(Locker { sem_id: self.sem_id, position: self.stripes - 1 })
    }

    /// The semaphore that guards record `index`.
    pub fn lock_record(&self, index: usize) -> (r: Result<Locker, InMemoryTableError>)
        requires
            self.stripe_size > 0,
        ensures
            r is Err <==> index / self.stripe_size >= self.stripes,
            r matches Err(e) ==> e == (InMemoryTableError::SemaphoreInvalidIndex {
                sem_num: (index / self.stripe_size) as usize,
                max: self.stripes,
            }),
            r matches Ok(l) ==> l.sem_id == self.sem_id && l.position == index / self.stripe_size,
    {
        self.lock(index)
    }
}

/// In a set laid out for `num_records` records, the semaphore of every record
/// lies before the last one, which guards the whole table.
pub proof fn law_record_locks_below_table_lock(num_records: int, index: int)
    requires
        0 <= index < num_records,
    ensures
        0 <= index / stripe_size_for(num_records) < stripes_for(num_records) - 1,
{
    let ss = stripe_size_for(num_records);
    assert(index / ss <= num_records / ss) by (nonlinear_arith)
        requires
            0 <= index <= num_records,
            ss > 0,
    ;
    if num_records % ss == 0 {
        assert(index / ss < num_records / ss) by (nonlinear_arith)
            requires
                0 <= index < num_records,
                ss > 0,
                num_records % ss == 0,
        ;
    }
}

} // verus!
