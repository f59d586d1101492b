use crate::error::InMemoryTableError;
use crate::internal::header::Header;
use crate::internal::index::{
    buckets_for, holds_key, keys_unique, lemma_key_count, lemma_listed_keys, listed_keys, node_keys,
    node_of, node_table, nodes_sized, npos, nkey,
    occupied, Index, BUCKET_SIZE, NODE_SIZE,
};
use crate::internal::slot::{
    law_count_is_occupied, occupied_count, capacity_of, contents, count_of, first_free_of, free_links, link_at, lemma_wf_facts, max_data_of, region_end, wf, Slots,
    SLOTS_HEADER_SIZE, SLOT_METADATA_SIZE,
};
use crate::internal::word::{lemma_word_frame, read_word, same_outside, word_at};
use vstd::bytes::*;
use vstd::prelude::*;

verus! {

broadcast use vstd::slice::group_slice_axioms;

/// Bytes of the table header: six magic bytes, padding, the capacity word.
pub const TABLE_HEADER_SIZE: usize = 16;

/// Alignment of the table header.
pub const TABLE_HEADER_ALIGN: usize = 8;

/// Bytes reserved per record when the caller does not choose.
pub const DEFAULT_RECORD_SIZE: usize = 2048;

/// The magic bytes `INMEMT` that open a table region.
pub open spec fn magic() -> Seq<u8> {
    seq![73u8, 78u8, 77u8, 69u8, 77u8, 84u8]
}

/// The region opens with the magic bytes.
pub open spec fn magic_ok(s: Seq<u8>) -> bool {
    s.len() >= 6 && s.subrange(0, 6) == magic()
}

/// The capacity recorded in the table header.
pub open spec fn header_capacity(s: Seq<u8>) -> int {
    word_at(s, 8) as int
}

/// The record slots of a table region.
pub open spec fn records(s: Seq<u8>) -> Seq<Option<Seq<u8>>> {
    contents(s, TABLE_HEADER_SIZE as int)
}

/// Every key designates an occupied record slot, and no two keys the same one.
pub open spec fn links_ok(r: Seq<Option<Seq<u8>>>, m: Map<u64, u64>) -> bool {
    &&& forall|k: u64| #[trigger] m.contains_key(k) ==> m[k] < r.len() && r[m[k] as int] is Some
    &&& forall|k1: u64, k2: u64|
        #[trigger] m.contains_key(k1) && #[trigger] m.contains_key(k2) && k1 != k2 ==> m[k1] != m[k2]
}

/// The table header is untouched by changes made past it.
proof fn lemma_header_frame(a: Seq<u8>, b: Seq<u8>, hi: int)
    requires
        a.len() >= TABLE_HEADER_SIZE,
        same_outside(a, b, TABLE_HEADER_SIZE as int, hi),
    ensures
        magic_ok(b) == magic_ok(a),
        header_capacity(b) == header_capacity(a),
{
    assert(a.subrange(0, 6) =~= b.subrange(0, 6));
    lemma_word_frame(a, b, 8);
}

/// The bytes of a table header for `capacity` records: the magic bytes, two
/// zero bytes of padding, the capacity as a little-endian word.
pub open spec fn header_bytes(capacity: usize) -> Seq<u8> {
    magic() + seq![0u8, 0u8] + spec_u64_to_le_bytes(capacity as u64)
}

/// A region that opens with the header bytes of `capacity` carries the magic
/// bytes and that capacity.
proof fn lemma_header_bytes(s: Seq<u8>, capacity: usize)
    requires
        s.len() >= TABLE_HEADER_SIZE,
        s.subrange(0, TABLE_HEADER_SIZE as int) == header_bytes(capacity),
    ensures
        magic_ok(s),
        header_capacity(s) == capacity,
{
    let h = header_bytes(capacity);
    lemma_auto_spec_u64_to_from_le_bytes();
    assert(s.subrange(0, 6) =~= h.subrange(0, 6));
    assert(h.subrange(0, 6) =~= magic());
    assert(s.subrange(8, 16) =~= h.subrange(8, 16));
    assert(h.subrange(8, 16) =~= spec_u64_to_le_bytes(capacity as u64));
}

/// Encodes the header of a table for `capacity` records.
fn encode_header(capacity: usize) -> (r: Vec<u8>)
    ensures
        r@ == header_bytes(capacity),
        r@.len() == TABLE_HEADER_SIZE,
{
    let mut v: Vec<u8> = Vec::new();
    v.push(73);
    v.push(78);
    v.push(77);
    v.push(69);
    v.push(77);
    v.push(84);
    v.push(0);
    v.push(0);
    let word = u64_to_le_bytes(capacity as u64);
    let mut i: usize = 0;
    while i < 8
        invariant
            i <= 8,
            word@ == spec_u64_to_le_bytes(capacity as u64),
            word@.len() == 8,
            v@ == magic() + seq![0u8, 0u8] + word@.subrange(0, i as int),
            v@.len() == 8 + i,
        decreases 8 - i,
    {
        v.push(word[i]);
        i = i + 1;
        assert(word@.subrange(0, i as int) =~= word@.subrange(0, i - 1) + seq![word@[i - 1]]);
    }
    assert(word@.subrange(0, 8) =~= word@);
    v
}

/// A table: header, record arena and primary-key index. The record arena and
/// header live in one region, the index in another.
#[derive(Debug, Clone, Copy)]
pub struct Table {
    pub header: Header,
    pub slots: Slots,
    pub primary_keys: Index,
}

impl Table {
    /// The handle matches the two regions and the regions are well formed.
    pub open spec fn wf(&self, s: Seq<u8>, pk: Seq<u8>) -> bool {
        &&& self.header.base == 0
        &&& self.header.size == TABLE_HEADER_SIZE
        &&& self.slots.base() == TABLE_HEADER_SIZE
        &&& magic_ok(s)
        &&& wf(s, TABLE_HEADER_SIZE as int)
        &&& capacity_of(s, TABLE_HEADER_SIZE as int) == header_capacity(s)
        &&& self.primary_keys.wf(pk)
        &&& capacity_of(pk, self.primary_keys.slots.base()) == capacity_of(
            s,
            TABLE_HEADER_SIZE as int,
        )
        &&& count_of(pk, self.primary_keys.slots.base()) == count_of(s, TABLE_HEADER_SIZE as int)
        &&& links_ok(records(s), self.primary_keys.view_of(pk))
        &&& count_of(s, TABLE_HEADER_SIZE as int) == self.primary_keys.view_of(pk).len()
        &&& self.primary_keys.nb() == buckets_for(capacity_of(s, TABLE_HEADER_SIZE as int))
    }

    /// The table as a map from primary key to the record's bytes.
    pub open spec fn view_of(&self, s: Seq<u8>, pk: Seq<u8>) -> Map<u64, Seq<u8>> {
        let m = self.primary_keys.view_of(pk);
        Map::new(|k: u64| m.contains_key(k), |k: u64| records(s)[m[k] as int].unwrap())
    }

    /// The number of records the table holds at most.
    pub open spec fn capacity_spec(&self, s: Seq<u8>) -> int {
        capacity_of(s, TABLE_HEADER_SIZE as int)
    }

    /// The number of records the table holds.
    pub open spec fn count_spec(&self, s: Seq<u8>) -> int {
        count_of(s, TABLE_HEADER_SIZE as int)
    }

    /// The largest record a slot holds.
    pub open spec fn record_size_spec(&self, s: Seq<u8>) -> int {
        max_data_of(s, TABLE_HEADER_SIZE as int)
    }

    /// Bytes of a table region for `capacity` records of `record_size` bytes:
    /// the header and the record slots (the arena header not included).
    pub fn calculate_total_size(capacity: usize, record_size: usize) -> (r: usize)
        requires
            SLOT_METADATA_SIZE + record_size <= usize::MAX,
            TABLE_HEADER_SIZE + (SLOT_METADATA_SIZE + record_size) * capacity <= usize::MAX,
        ensures
            r == TABLE_HEADER_SIZE + (SLOT_METADATA_SIZE + record_size) * capacity,
    {
        TABLE_HEADER_SIZE + Slots::calculate_required_size(capacity, record_size)
    }

    /// The capacity word of a table header, as stored.
    pub fn header_capacity(mem: &[u8]) -> (r: u64)
        requires
            mem@.len() >= TABLE_HEADER_SIZE,
        ensures
            r == header_capacity(mem@),
    {
        read_word(mem, 8)
    }

    /// Whether the region opens with the magic bytes.
    pub fn is_valid(mem: &[u8]) -> (r: bool)
        requires
            mem@.len() >= TABLE_HEADER_SIZE,
        ensures
            r == magic_ok(mem@),
    {
        let ok = mem[0] == 73 && mem[1] == 78 && mem[2] == 77 && mem[3] == 69 && mem[4] == 77
            && mem[5] == 84;
        proof {
            if ok {
                assert(mem@.subrange(0, 6) =~= magic());
            } else {
                if magic_ok(mem@) {
                    assert(mem@.subrange(0, 6)[0] == mem@[0]);
                    assert(mem@.subrange(0, 6)[1] == mem@[1]);
                    assert(mem@.subrange(0, 6)[2] == mem@[2]);
                    assert(mem@.subrange(0, 6)[3] == mem@[3]);
                    assert(mem@.subrange(0, 6)[4] == mem@[4]);
                    assert(mem@.subrange(0, 6)[5] == mem@[5]);
                }
            }
        }
        ok
    }

    /// Lays out an empty table for `capacity` records of the default size.
    pub fn create(mem: &mut [u8], pk: &mut [u8], capacity: usize) -> (r: Result<
        Table,
        InMemoryTableError,
    >)
        requires
            TABLE_HEADER_SIZE + SLOTS_HEADER_SIZE + (SLOT_METADATA_SIZE + DEFAULT_RECORD_SIZE)
                * capacity <= old(mem)@.len(),
            3 * capacity + 3 <= usize::MAX,
            BUCKET_SIZE * buckets_for(capacity as int) + SLOTS_HEADER_SIZE + (SLOT_METADATA_SIZE
                + NODE_SIZE) * capacity <= old(pk)@.len(),
        ensures
            r matches Ok(table) && {
                &&& table.capacity_spec(final(mem)@) == capacity
                &&& header_capacity(final(mem)@) == capacity
                &&& table.record_size_spec(final(mem)@) == DEFAULT_RECORD_SIZE
                &&& table.count_spec(final(mem)@) == 0
                &&& table.header.base == 0
                &&& table.header.size == TABLE_HEADER_SIZE
                &&& table.slots.base() == TABLE_HEADER_SIZE
                &&& table.primary_keys.total_buckets == buckets_for(capacity as int)
                &&& table.primary_keys.slots.base() == table.primary_keys.nb() * BUCKET_SIZE
                &&& wf(final(mem)@, TABLE_HEADER_SIZE as int)
                &&& first_free_of(final(mem)@, TABLE_HEADER_SIZE as int) == 0
                &&& free_links(final(mem)@, TABLE_HEADER_SIZE as int) == Seq::new(
                    capacity as nat,
                    |i: int| Some(i + 1),
                )
                &&& first_free_of(final(pk)@, table.primary_keys.slots.base()) == 0
                &&& free_links(final(pk)@, table.primary_keys.slots.base()) == Seq::new(
                    capacity as nat,
                    |i: int| Some(i + 1),
                )
                &&& node_keys(node_table(final(pk)@, table.primary_keys.nb())) == Seq::new(
                    capacity as nat,
                    |i: int| None::<u64>,
                )
                &&& capacity > 0 ==> {
                    &&& table.wf(final(mem)@, final(pk)@)
                    &&& table.view_of(final(mem)@, final(pk)@) == Map::<u64, Seq<u8>>::empty()
                }
            },
    {
        Self::create_with_size(mem, pk, capacity, DEFAULT_RECORD_SIZE)
    }

    /// Lays out an empty table for `capacity` records of `record_size` bytes:
    /// the header and record arena in `mem`, the primary-key index in `pk`.
    pub fn create_with_size(mem: &mut [u8], pk: &mut [u8], capacity: usize, record_size: usize) -> (r:
        Result<Table, InMemoryTableError>)
        requires
            SLOT_METADATA_SIZE + record_size <= usize::MAX,
            TABLE_HEADER_SIZE + SLOTS_HEADER_SIZE + (SLOT_METADATA_SIZE + record_size) * capacity
                <= old(mem)@.len(),
            3 * capacity + 3 <= usize::MAX,
            BUCKET_SIZE * buckets_for(capacity as int) + SLOTS_HEADER_SIZE + (SLOT_METADATA_SIZE
                + NODE_SIZE) * capacity <= old(pk)@.len(),
        ensures
            r matches Ok(table) && {
                &&& table.capacity_spec(final(mem)@) == capacity
                &&& header_capacity(final(mem)@) == capacity
                &&& table.record_size_spec(final(mem)@) == record_size
                &&& table.count_spec(final(mem)@) == 0
                &&& table.header.base == 0
                &&& table.header.size == TABLE_HEADER_SIZE
                &&& table.slots.base() == TABLE_HEADER_SIZE
                &&& table.primary_keys.total_buckets == buckets_for(capacity as int)
                &&& table.primary_keys.slots.base() == table.primary_keys.nb() * BUCKET_SIZE
                &&& wf(final(mem)@, TABLE_HEADER_SIZE as int)
                &&& first_free_of(final(mem)@, TABLE_HEADER_SIZE as int) == 0
                &&& free_links(final(mem)@, TABLE_HEADER_SIZE as int) == Seq::new(
                    capacity as nat,
                    |i: int| Some(i + 1),
                )
                &&& first_free_of(final(pk)@, table.primary_keys.slots.base()) == 0
                &&& free_links(final(pk)@, table.primary_keys.slots.base()) == Seq::new(
                    capacity as nat,
                    |i: int| Some(i + 1),
                )
                &&& node_keys(node_table(final(pk)@, table.primary_keys.nb())) == Seq::new(
                    capacity as nat,
                    |i: int| None::<u64>,
                )
                &&& capacity > 0 ==> {
                    &&& table.wf(final(mem)@, final(pk)@)
                    &&& table.view_of(final(mem)@, final(pk)@) == Map::<u64, Seq<u8>>::empty()
                }
            },
    {
        let bytes = encode_header(capacity);
        let header = match Header::with_value(mem, 0, TABLE_HEADER_ALIGN, bytes.as_slice()) {
            Ok(h) => h,
            Err(e) => return Err(e),
        };
        proof {
            lemma_header_bytes(mem@, capacity);
        }
        let ghost s2 = mem@;
        let slots = match Slots::new(mem, header.data(), capacity, record_size) {
            Ok(s) => s,
            Err(e) => return Err(e),
        };
        let ghost s3 = mem@;
        let primary_keys = match Index::new(pk, capacity) {
            Ok(i) => i,
            Err(e) => return Err(e),
        };
        let table = Table { header, slots, primary_keys };
        proof {
            lemma_header_frame(s2, s3, mem@.len() as int);
            if capacity > 0 {
                assert(table.primary_keys.wf(pk@));
                assert(links_ok(records(s3), table.primary_keys.view_of(pk@)));
                assert(table.view_of(mem@, pk@) =~= Map::<u64, Seq<u8>>::empty());
            }
        }
        Ok(table)
    }

    /// Attaches to a table already laid out in `mem` (and `pk`).
    ///
    /// Fails with `NotInitialized` exactly when `mem` does not open with the
    /// magic bytes.
    pub fn open(mem: &[u8]) -> (r: Result<Table, InMemoryTableError>)
        requires
            mem@.len() >= TABLE_HEADER_SIZE,
            magic_ok(mem@) ==> 3 * header_capacity(mem@) + 3 <= usize::MAX && BUCKET_SIZE
                * buckets_for(header_capacity(mem@)) <= usize::MAX,
        ensures
            !magic_ok(mem@) <==> r is Err,
            r matches Err(e) ==> e == InMemoryTableError::NotInitialized,
            r matches Ok(table) ==> {
                &&& table.header.base == 0
                &&& table.header.size == TABLE_HEADER_SIZE
                &&& table.slots.base() == TABLE_HEADER_SIZE
                &&& table.primary_keys.total_buckets == buckets_for(header_capacity(mem@))
                &&& table.primary_keys.slots.base() == table.primary_keys.nb() * BUCKET_SIZE
            },
    {
        let header = match Header::new(0, TABLE_HEADER_ALIGN, TABLE_HEADER_SIZE) {
            Ok(h) => h,
            Err(e) => return Err(e),
        };
        if !Self::is_valid(mem) {
            return Err(InMemoryTableError::NotInitialized);
        }
        let slots = match Slots::open(header.data()) {
            Ok(s) => s,
            Err(e) => return Err(e),
        };
        let capacity = read_word(mem, 8) as usize;
        let primary_keys = match Index::open(capacity) {
            Ok(i) => i,
            Err(e) => return Err(e),
        };
        Ok(Table { header, slots, primary_keys })
    }

    /// Whether every key of the index designates an occupied record slot,
    /// and no two keys the same one.
    #[verifier::spinoff_prover]
    fn check_links(&self, mem: &[u8], pk: &[u8]) -> (r: bool)
        requires
            wf(mem@, TABLE_HEADER_SIZE as int),
            self.slots.base() == TABLE_HEADER_SIZE,
            self.primary_keys.wf(pk@),
        ensures
            r == links_ok(records(mem@), self.primary_keys.view_of(pk@)),
    {
        let ghost s = mem@;
        let ghost nb = self.primary_keys.nb();
        let ghost t = node_table(pk@, nb);
        let ghost rec = records(s);
        let ghost m = self.primary_keys.view_of(pk@);
        proof {
            lemma_wf_facts(s, TABLE_HEADER_SIZE as int);
            lemma_wf_facts(pk@, self.primary_keys.slots.base());
        }
        assert(pk@.len() == pk.len());
        let cap = self.slots.capacity(mem);
        let ncap = self.primary_keys.slots.capacity(pk);
        let mut used: Vec<bool> = Vec::new();
        let mut v: usize = 0;
        while v < cap
            invariant
                v <= cap,
                used@.len() == v,
                forall|i: int| 0 <= i < v ==> !#[trigger] used@[i],
            decreases cap - v,
        {
            used.push(false);
            v = v + 1;
        }
        let mut j: usize = 0;
        while j < ncap
            invariant
                s == mem@,
                wf(s, TABLE_HEADER_SIZE as int),
                self.slots.base() == TABLE_HEADER_SIZE,
                self.primary_keys.wf(pk@),
                nb == self.primary_keys.nb(),
                t == node_table(pk@, nb),
                rec == records(s),
                m == self.primary_keys.view_of(pk@),
                cap == rec.len(),
                ncap == t.len(),
                used@.len() == cap,
                j <= ncap,
                forall|i: int|
                    #[trigger] occupied(t, i) && i < j ==> npos(t[i].unwrap()) < cap && rec[npos(
                        t[i].unwrap(),
                    ) as int] is Some && used@[npos(t[i].unwrap()) as int],
                forall|p: int|
                    0 <= p < cap && #[trigger] used@[p] ==> exists|i: int|
                        #[trigger] occupied(t, i) && i < j && npos(t[i].unwrap()) == p,
                forall|i1: int, i2: int|
                    #[trigger] occupied(t, i1) && #[trigger] occupied(t, i2) && i1 < j && i2 < j
                        && i1 != i2 ==> npos(t[i1].unwrap()) != npos(t[i2].unwrap()),
            decreases ncap - j,
        {
            if self.primary_keys.slots.is_occupied(pk, j) {
                assert(occupied(t, j as int));
                let d = self.primary_keys.slots.get(pk, j);
                assert(d@ == t[j as int].unwrap());
                assert(nodes_sized(t));
                let pos64 = read_word(d, 8);
                let ghost k = nkey(t[j as int].unwrap());
                proof {
                    assert(holds_key(t, k));
                    assert(node_of(t, k) == j) by {
                        let w = node_of(t, k);
                        assert(occupied(t, w) && nkey(t[w].unwrap()) == k);
                        assert(keys_unique(t));
                    }
                    assert(m.contains_key(k) && m[k] == pos64);
                }
                if pos64 >= cap as u64 {
                    return false;
                }
                let pos = pos64 as usize;
                if !self.slots.is_occupied(mem, pos) {
                    return false;
                }
                if used[pos] {
                    proof {
                        let i = choose|i: int| #[trigger] occupied(t, i) && i < j && npos(t[i].unwrap()) == pos;
                        let k2 = nkey(t[i].unwrap());
                        assert(keys_unique(t));
                        assert(k2 != k);
                        assert(holds_key(t, k2));
                        assert(node_of(t, k2) == i) by {
                            let w = node_of(t, k2);
                            assert(occupied(t, w) && nkey(t[w].unwrap()) == k2);
                        }
                        assert(m.contains_key(k2) && m[k2] == pos);
                    }
                    return false;
                }
                used.set(pos, true);
                proof {
                    assert forall|p: int|
                        0 <= p < cap && #[trigger] used@[p] implies exists|i: int|
                            #[trigger] occupied(t, i) && i < j + 1 && npos(t[i].unwrap()) == p by {
                        if p == pos {
                            assert(occupied(t, j as int));
                        }
                    }
                    assert forall|i1: int, i2: int|
                        #[trigger] occupied(t, i1) && #[trigger] occupied(t, i2) && i1 < j + 1 && i2 < j + 1
                            && i1 != i2 implies npos(t[i1].unwrap()) != npos(t[i2].unwrap()) by {
                        if i1 == j && i2 < j {
                            assert(used@[npos(t[i2].unwrap()) as int]);
                        } else if i2 == j && i1 < j {
                            assert(used@[npos(t[i1].unwrap()) as int]);
                        }
                    }
                }
            }
            j = j + 1;
        }
        proof {
            assert forall|k: u64| #[trigger] m.contains_key(k) implies m[k] < rec.len() && rec[m[k] as int] is Some by {
                let w = node_of(t, k);
                assert(occupied(t, w));
            }
            assert forall|k1: u64, k2: u64|
                #[trigger] m.contains_key(k1) && #[trigger] m.contains_key(k2) && k1 != k2 implies m[k1] != m[k2] by {
                let w1 = node_of(t, k1);
                let w2 = node_of(t, k2);
                assert(occupied(t, w1) && occupied(t, w2));
            }
        }
        true
    }

    /// Whether `mem` and `pk` hold a well-formed table laid out for this
    /// handle: the header, a well-formed record arena of the header's
    /// capacity, a well-formed index of the same capacity and count, and keys
    /// that designate distinct occupied records.
    pub fn check(&self, mem: &[u8], pk: &[u8]) -> (r: bool)
        ensures
            r == self.wf(mem@, pk@),
    {
        if self.header.base != 0 || self.header.size != TABLE_HEADER_SIZE || self.slots.header.base
            != TABLE_HEADER_SIZE {
            return false;
        }
        if mem.len() < TABLE_HEADER_SIZE || !Self::is_valid(mem) {
            return false;
        }
        if !self.slots.check(mem) {
            return false;
        }
        let cap = self.slots.capacity(mem);
        if Self::header_capacity(mem) != cap as u64 {
            return false;
        }
        if !self.primary_keys.check(pk) {
            return false;
        }
        proof {
            lemma_wf_facts(pk@, self.primary_keys.slots.base());
        }
        if self.primary_keys.slots.capacity(pk) != cap {
            return false;
        }
        if (self.primary_keys.total_buckets as u128) * 4 != 3 * (cap as u128) + 3 - ((3 * (cap as u128)
            + 3) % 4) {
            return false;
        }
        if self.primary_keys.slots.count(pk) != self.slots.count(mem) {
            return false;
        }
        if !self.check_links(mem, pk) {
            return false;
        }
        proof {
            lemma_key_count(pk@, self.primary_keys.nb());
        }
        true
    }

    /// The number of stored records.
    pub fn count(&self, mem: &[u8], pk: &[u8]) -> (r: usize)
        requires
            self.wf(mem@, pk@),
        ensures
            r == self.count_spec(mem@),
            r == self.view_of(mem@, pk@).len(),
    {
        proof {
            assert(self.view_of(mem@, pk@).dom() =~= self.primary_keys.view_of(pk@).dom());
        }
        self.slots.count(mem)
    }

    /// The maximum number of records.
    pub fn capacity(&self, mem: &[u8]) -> (r: usize)
        requires
            mem@.len() >= TABLE_HEADER_SIZE,
            header_capacity(mem@) <= usize::MAX,
        ensures
            r == header_capacity(mem@),
    {
        read_word(mem, 8) as usize
    }

    /// The slot of the record with primary key `key`.
    pub fn position(&self, mem: &[u8], pk: &[u8], key: u64) -> (r: Option<usize>)
        requires
            self.wf(mem@, pk@),
        ensures
            r == if self.primary_keys.view_of(pk@).contains_key(key) {
                Some(self.primary_keys.view_of(pk@)[key] as usize)
            } else {
                None::<usize>
            },
            r is Some <==> self.view_of(mem@, pk@).contains_key(key),
            r matches Some(i) ==> i < self.capacity_spec(mem@) && records(mem@)[i as int] is Some
                && records(mem@)[i as int].unwrap() == self.view_of(mem@, pk@)[key],
    {
        self.primary_keys.get(pk, key)
    }

    /// The bytes stored in slot `index` (empty when the slot is free).
    ///
    /// Fails with `InvalidIndex` exactly when `index` is not below the capacity.
    pub fn get<'a>(&self, mem: &'a [u8], index: usize) -> (r: Result<
        Option<&'a [u8]>,
        InMemoryTableError,
    >)
        requires
            magic_ok(mem@),
            self.slots.base() == TABLE_HEADER_SIZE,
            wf(mem@, TABLE_HEADER_SIZE as int),
            capacity_of(mem@, TABLE_HEADER_SIZE as int) == header_capacity(mem@),
        ensures
            index >= self.capacity_spec(mem@) <==> r is Err,
            r matches Err(e) ==> e == (InMemoryTableError::InvalidIndex {
                index,
                max: self.capacity_spec(mem@) as usize,
            }),
            r matches Ok(o) ==> o matches Some(d) && d@ == match records(mem@)[index as int] {
                Some(data) => data,
                None => Seq::<u8>::empty(),
            },
    {
        proof {
            lemma_wf_facts(mem@, TABLE_HEADER_SIZE as int);
        }
        assert(mem@.len() == mem.len());
        let capacity = read_word(mem, 8) as usize;
        if index >= capacity {
            return Err(InMemoryTableError::InvalidIndex { index, max: capacity });
        }
        Ok(Some(self.slots.get(mem, index)))
    }

    /// The bytes of the record with primary key `key`.
    pub fn find<'a>(&self, mem: &'a [u8], pk: &[u8], key: u64) -> (r: Result<
        Option<&'a [u8]>,
        InMemoryTableError,
    >)
        requires
            self.wf(mem@, pk@),
        ensures
            r matches Ok(o) && match o {
                Some(d) => self.view_of(mem@, pk@).contains_key(key) && d@ == self.view_of(
                    mem@,
                    pk@,
                )[key],
                None => !self.view_of(mem@, pk@).contains_key(key),
            },
    {
        match self.primary_keys.get(pk, key) {
            Some(index) => self.get(mem, index),
            None => Ok(None),
        }
    }

    /// Stores a record under primary key `key` and returns its slot.
    ///
    /// Fails, changing nothing, with `RecordDuplicated` when `key` is already
    /// stored, else with `TableFull` when the table is full, else with
    /// `RecordSizeTooBig` when `data` is longer than a slot holds.
    #[verifier::spinoff_prover]
    pub fn insert(&self, mem: &mut [u8], pk: &mut [u8], key: u64, data: &[u8]) -> (r: Result<
        usize,
        InMemoryTableError,
    >)
        requires
            self.wf(old(mem)@, old(pk)@),
        ensures
            self.wf(final(mem)@, final(pk)@),
            self.capacity_spec(final(mem)@) == self.capacity_spec(old(mem)@),
            self.record_size_spec(final(mem)@) == self.record_size_spec(old(mem)@),
            r matches Err(e) ==> {
                &&& final(mem)@ == old(mem)@
                &&& final(pk)@ == old(pk)@
                &&& if self.view_of(old(mem)@, old(pk)@).contains_key(key) {
                    e == InMemoryTableError::RecordDuplicated
                } else if self.count_spec(old(mem)@) >= self.capacity_spec(old(mem)@) {
                    e == (InMemoryTableError::TableFull {
                        current: self.count_spec(old(mem)@) as usize,
                        capacity: self.capacity_spec(old(mem)@) as usize,
                    })
                } else {
                    data@.len() > self.record_size_spec(old(mem)@) && e
                        == (InMemoryTableError::RecordSizeTooBig {
                        current: data@.len() as usize,
                        max: self.record_size_spec(old(mem)@) as usize,
                    })
                }
            },
            r is Ok <==> !self.view_of(old(mem)@, old(pk)@).contains_key(key) && self.count_spec(
                old(mem)@,
            ) < self.capacity_spec(old(mem)@) && data@.len() <= self.record_size_spec(old(mem)@),
            r matches Ok(index) ==> {
                &&& self.view_of(final(mem)@, final(pk)@) == self.view_of(old(mem)@, old(pk)@).insert(
                    key,
                    data@,
                )
                &&& self.count_spec(final(mem)@) == self.count_spec(old(mem)@) + 1
                &&& index == first_free_of(old(mem)@, TABLE_HEADER_SIZE as int)
                &&& index < self.capacity_spec(old(mem)@)
                &&& records(old(mem)@)[index as int] is None
                &&& records(final(mem)@) == records(old(mem)@).update(index as int, Some(data@))
                &&& first_free_of(final(mem)@, TABLE_HEADER_SIZE as int) == link_at(
                    old(mem)@,
                    TABLE_HEADER_SIZE as int,
                    index as int,
                )
                &&& free_links(final(mem)@, TABLE_HEADER_SIZE as int) == free_links(
                    old(mem)@,
                    TABLE_HEADER_SIZE as int,
                ).update(index as int, None)
                &&& node_keys(node_table(final(pk)@, self.primary_keys.nb())) == node_keys(
                    node_table(old(pk)@, self.primary_keys.nb()),
                ).update(first_free_of(old(pk)@, self.primary_keys.slots.base()), Some(key))
                &&& first_free_of(final(pk)@, self.primary_keys.slots.base()) == link_at(
                    old(pk)@,
                    self.primary_keys.slots.base(),
                    first_free_of(old(pk)@, self.primary_keys.slots.base()),
                )
                &&& free_links(final(pk)@, self.primary_keys.slots.base()) == free_links(
                    old(pk)@,
                    self.primary_keys.slots.base(),
                ).update(first_free_of(old(pk)@, self.primary_keys.slots.base()), None)
                &&& self.primary_keys.view_of(final(pk)@) == self.primary_keys.view_of(
                    old(pk)@,
                ).insert(key, index as u64)
            },
    {
        let ghost s0 = mem@;
        let ghost p0 = pk@;
        let ghost m0 = self.primary_keys.view_of(p0);
        proof {
            assert(self.view_of(s0, p0).dom() =~= m0.dom());
        }
        if self.primary_keys.get(pk, key).is_some() {
            return Err(InMemoryTableError::RecordDuplicated);
        }
        let index = match self.slots.insert(mem, data) {
            Ok(i) => i,
            Err(e) => return Err(e),
        };
        let ghost s1 = mem@;
        proof {
            lemma_header_frame(s0, s1, region_end(s0, TABLE_HEADER_SIZE as int));
        }
        match self.primary_keys.insert(pk, key, index) {
            Ok(()) => {},
            Err(e) => {
                proof {
                    assert(false);
                }
                return Err(e);
            },
        }
        proof {
            let m1 = self.primary_keys.view_of(pk@);
            let r0 = records(s0);
            let r1 = records(s1);
            assert(m1 == m0.insert(key, index as u64));
            assert(!m0.contains_key(key));
            assert forall|k: u64| #[trigger] m1.contains_key(k) implies m1[k] < r1.len() && r1[m1[k] as int] is Some by {
                if k != key {
                    assert(m0.contains_key(k));
                    assert(m0[k] != index);
                }
            }
            assert forall|k1: u64, k2: u64|
                #[trigger] m1.contains_key(k1) && #[trigger] m1.contains_key(k2) && k1 != k2 implies m1[k1] != m1[k2] by {
                if k1 != key && k2 != key {
                    assert(m0.contains_key(k1) && m0.contains_key(k2));
                } else if k1 == key {
                    assert(m0.contains_key(k2));
                } else {
                    assert(m0.contains_key(k1));
                }
            }
            assert(links_ok(r1, m1));
            assert forall|k: u64| #[trigger] self.view_of(s1, pk@).contains_key(k) implies self.view_of(
                s1,
                pk@,
            )[k] == self.view_of(s0, p0).insert(key, data@)[k] by {
                if k != key {
                    assert(m0.contains_key(k));
                    assert(m0[k] != index);
                }
            }
            assert(self.view_of(s1, pk@) =~= self.view_of(s0, p0).insert(key, data@));
        }
        Ok(index)
    }

    /// Removes the record with primary key `key`, if any.
    #[verifier::spinoff_prover]
    pub fn remove(&self, mem: &mut [u8], pk: &mut [u8], key: u64) -> (r: Result<
        (),
        InMemoryTableError,
    >)
        requires
            self.wf(old(mem)@, old(pk)@),
        ensures
            r is Ok,
            self.wf(final(mem)@, final(pk)@),
            self.capacity_spec(final(mem)@) == self.capacity_spec(old(mem)@),
            self.record_size_spec(final(mem)@) == self.record_size_spec(old(mem)@),
            self.view_of(final(mem)@, final(pk)@) == self.view_of(old(mem)@, old(pk)@).remove(key),
            self.count_spec(final(mem)@) == self.count_spec(old(mem)@) - if self.view_of(
                old(mem)@,
                old(pk)@,
            ).contains_key(key) {
                1int
            } else {
                0int
            },
            self.primary_keys.view_of(old(pk)@).contains_key(key) ==> first_free_of(
                final(mem)@,
                TABLE_HEADER_SIZE as int,
            ) == self.primary_keys.view_of(old(pk)@)[key] && free_links(
                final(mem)@,
                TABLE_HEADER_SIZE as int,
            ) == free_links(old(mem)@, TABLE_HEADER_SIZE as int).update(
                self.primary_keys.view_of(old(pk)@)[key] as int,
                Some(first_free_of(old(mem)@, TABLE_HEADER_SIZE as int)),
            ),
            self.primary_keys.view_of(final(pk)@) == self.primary_keys.view_of(old(pk)@).remove(key),
            !self.view_of(old(mem)@, old(pk)@).contains_key(key) ==> final(mem)@ == old(mem)@
                && final(pk)@ == old(pk)@,
            self.view_of(old(mem)@, old(pk)@).contains_key(key) ==> {
                let t = node_table(old(pk)@, self.primary_keys.nb());
                &&& node_keys(node_table(final(pk)@, self.primary_keys.nb())) == node_keys(t).update(
                    node_of(t, key),
                    None,
                )
                &&& first_free_of(final(pk)@, self.primary_keys.slots.base()) == node_of(t, key)
                &&& free_links(final(pk)@, self.primary_keys.slots.base()) == free_links(
                    old(pk)@,
                    self.primary_keys.slots.base(),
                ).update(node_of(t, key), Some(first_free_of(old(pk)@, self.primary_keys.slots.base())))
            },
    {
        let ghost s0 = mem@;
        let ghost p0 = pk@;
        let ghost m0 = self.primary_keys.view_of(p0);
        proof {
            assert(self.view_of(s0, p0).dom() =~= m0.dom());
        }
        if let Some(index) = self.primary_keys.get(pk, key) {
            self.slots.remove(mem, index);
            let ghost s1 = mem@;
            proof {
                lemma_header_frame(s0, s1, region_end(s0, TABLE_HEADER_SIZE as int));
            }
            let r = self.primary_keys.remove(pk, key);
            proof {
                let m1 = self.primary_keys.view_of(pk@);
                let r1 = records(s1);
                assert(m1 == m0.remove(key));
                assert forall|k: u64| #[trigger] m1.contains_key(k) implies m1[k] < r1.len() && r1[m1[k] as int] is Some by {
                    assert(m0.contains_key(k));
                    assert(m0[k] != index);
                }
                assert forall|k1: u64, k2: u64|
                    #[trigger] m1.contains_key(k1) && #[trigger] m1.contains_key(k2) && k1 != k2 implies m1[k1] != m1[k2] by {
                    assert(m0.contains_key(k1) && m0.contains_key(k2));
                }
                assert(links_ok(r1, m1));
                assert forall|k: u64| #[trigger] self.view_of(s1, pk@).contains_key(k) implies self.view_of(
                    s1,
                    pk@,
                )[k] == self.view_of(s0, p0).remove(key)[k] by {
                    assert(m0.contains_key(k));
                    assert(m0[k] != index);
                }
                assert(self.view_of(s1, pk@) =~= self.view_of(s0, p0).remove(key));
            }
            return r;
        }
        proof {
            assert(self.view_of(s0, p0).remove(key) =~= self.view_of(s0, p0));
            assert(m0.remove(key) =~= m0);
        }
        Ok(())
    }

    /// Replaces the bytes of the occupied slot `index`.
    ///
    /// Fails, changing nothing, with `RecordSizeTooBig` when `data` is longer
    /// than a slot holds.
    pub fn update(&self, mem: &mut [u8], pk: &[u8], index: usize, data: &[u8]) -> (r: Result<
        (),
        InMemoryTableError,
    >)
        requires
            self.wf(old(mem)@, pk@),
            index < self.capacity_spec(old(mem)@),
            records(old(mem)@)[index as int] is Some,
        ensures
            self.wf(final(mem)@, pk@),
            first_free_of(final(mem)@, TABLE_HEADER_SIZE as int) == first_free_of(
                old(mem)@,
                TABLE_HEADER_SIZE as int,
            ),
            free_links(final(mem)@, TABLE_HEADER_SIZE as int) == free_links(
                old(mem)@,
                TABLE_HEADER_SIZE as int,
            ),
            self.capacity_spec(final(mem)@) == self.capacity_spec(old(mem)@),
            self.count_spec(final(mem)@) == self.count_spec(old(mem)@),
            self.record_size_spec(final(mem)@) == self.record_size_spec(old(mem)@),
            r is Err <==> data@.len() > self.record_size_spec(old(mem)@),
            r matches Err(e) ==> final(mem)@ == old(mem)@ && e == (InMemoryTableError::RecordSizeTooBig {
                current: data@.len() as usize,
                max: self.record_size_spec(old(mem)@) as usize,
            }),
            r is Ok ==> records(final(mem)@) == records(old(mem)@).update(index as int, Some(data@)),
            r is Ok ==> forall|k: u64|
                #[trigger] self.primary_keys.view_of(pk@).contains_key(k) && self.primary_keys.view_of(
                    pk@,
                )[k] == index ==> self.view_of(final(mem)@, pk@) == self.view_of(old(mem)@, pk@).insert(
                    k,
                    data@,
                ),
    {
        let ghost s0 = mem@;
        let ghost m = self.primary_keys.view_of(pk@);
        let r = self.slots.update(mem, index, data);
        proof {
            let s1 = mem@;
            lemma_header_frame(s0, s1, region_end(s0, TABLE_HEADER_SIZE as int));
            if r is Ok {
                assert(links_ok(records(s1), m));
                assert forall|k: u64| #[trigger] m.contains_key(k) && m[k] == index implies self.view_of(
                    s1,
                    pk@,
                ) == self.view_of(s0, pk@).insert(k, data@) by {
                    assert forall|k2: u64| #[trigger] self.view_of(s1, pk@).contains_key(k2) implies self.view_of(
                        s1,
                        pk@,
                    )[k2] == self.view_of(s0, pk@).insert(k, data@)[k2] by {
                        if k2 != k {
                            assert(m[k2] != m[k]);
                        }
                    }
                    assert(self.view_of(s1, pk@) =~= self.view_of(s0, pk@).insert(k, data@));
                }
            }
        }
        r
    }

    /// Replaces the bytes of the record in slot `index`, read under primary key
    /// `old_key`, by `data`, the bytes of a record whose primary key is `new_key`.
    ///
    /// Fails, changing nothing, with `PrimaryKeyChanged` when the two keys
    /// differ, else with `RecordSizeTooBig` when `data` is longer than a slot holds.
    pub fn update_checked(
        &self,
        mem: &mut [u8],
        pk: &[u8],
        index: usize,
        old_key: u64,
        new_key: u64,
        data: &[u8],
    ) -> (r: Result<(), InMemoryTableError>)
        requires
            self.wf(old(mem)@, pk@),
            index < self.capacity_spec(old(mem)@),
            records(old(mem)@)[index as int] is Some,
        ensures
            self.wf(final(mem)@, pk@),
            first_free_of(final(mem)@, TABLE_HEADER_SIZE as int) == first_free_of(
                old(mem)@,
                TABLE_HEADER_SIZE as int,
            ),
            free_links(final(mem)@, TABLE_HEADER_SIZE as int) == free_links(
                old(mem)@,
                TABLE_HEADER_SIZE as int,
            ),
            self.count_spec(final(mem)@) == self.count_spec(old(mem)@),
            r matches Err(e) ==> final(mem)@ == old(mem)@ && if old_key != new_key {
                e == InMemoryTableError::PrimaryKeyChanged
            } else {
                data@.len() > self.record_size_spec(old(mem)@) && e
                    == (InMemoryTableError::RecordSizeTooBig {
                    current: data@.len() as usize,
                    max: self.record_size_spec(old(mem)@) as usize,
                })
            },
            r is Ok <==> old_key == new_key && data@.len() <= self.record_size_spec(old(mem)@),
            r is Ok ==> records(final(mem)@) == records(old(mem)@).update(index as int, Some(data@)),
            r is Ok && self.primary_keys.view_of(pk@).contains_key(old_key)
                && self.primary_keys.view_of(pk@)[old_key] == index ==> self.view_of(final(mem)@, pk@)
                == self.view_of(old(mem)@, pk@).insert(old_key, data@),
    {
        if old_key != new_key {
            return Err(InMemoryTableError::PrimaryKeyChanged);
        }
        self.update(mem, pk, index, data)
    }

    /// Every primary key, in the order of the index's node slots.
    pub fn keys(&self, mem: &[u8], pk: &[u8]) -> (r: Vec<u64>)
        requires
            self.wf(mem@, pk@),
        ensures
            r@ == crate::internal::index::keys_in_order(
                crate::internal::index::node_table(pk@, self.primary_keys.nb()),
            ),
            r@ == listed_keys(node_keys(node_table(pk@, self.primary_keys.nb()))),
    {
        proof {
            lemma_listed_keys(node_table(pk@, self.primary_keys.nb()));
        }
        self.primary_keys.keys(pk)
    }

    /// A cursor over the stored records, in slot order.
    pub fn iter(&self) -> (r: TableIterator)
        ensures
            r.slots == self.slots,
            r.position == 0,
    {
        TableIterator { slots: self.slots, position: 0 }
    }
}

/// A cursor over the occupied record slots of a table, in slot order.
#[derive(Debug, Clone, Copy)]
pub struct TableIterator {
    pub slots: Slots,
    pub position: usize,
}

impl TableIterator {
    /// The bytes of the next occupied slot at or after the cursor, which then
    /// moves past it; `None` once no occupied slot is left.
    pub fn next<'a>(&mut self, mem: &'a [u8]) -> (r: Option<&'a [u8]>)
        requires
            wf(mem@, old(self).slots.base()),
        ensures
            final(self).slots == old(self).slots,
            ({
                let c = contents(mem@, old(self).slots.base());
                match r {
                    Some(d) => {
                        &&& old(self).position <= final(self).position - 1
                        &&& final(self).position - 1 < c.len()
                        &&& c[final(self).position - 1] == Some(d@)
                        &&& forall|i: int|
                            old(self).position <= i < final(self).position - 1 ==> #[trigger] c[i] is None
                    },
                    None => {
                        &&& forall|i: int| old(self).position <= i < c.len() ==> #[trigger] c[i] is None
                        &&& final(self).position >= c.len()
                    },
                }
            }),
            old(self).position >= contents(mem@, old(self).slots.base()).len() ==> r is None
                && final(self).position == old(self).position,
    {
        let ghost c = contents(mem@, self.slots.base());
        proof {
            lemma_wf_facts(mem@, self.slots.base());
        }
        let capacity = self.slots.capacity(mem);
        let ghost start = self.position as int;
        while self.position < capacity
            invariant
                wf(mem@, self.slots.base()),
                self.slots == old(self).slots,
                c == contents(mem@, self.slots.base()),
                capacity == c.len(),
                start == old(self).position,
                start <= self.position,
                forall|i: int| start <= i < self.position ==> #[trigger] c[i] is None,
                start >= capacity ==> self.position == start,
            decreases capacity - self.position,
        {
            let j = self.position;
            if self.slots.is_occupied(mem, j) {
                self.position = j + 1;
                return Some(self.slots.get(mem, j));
            }
            self.position = j + 1;
        }
        None
    }
}

/// What `insert` stored under `key` is what `find` returns for `key`, and every
/// other key keeps its record.
pub proof fn law_find_after_insert(
    table: Table,
    s0: Seq<u8>,
    p0: Seq<u8>,
    s1: Seq<u8>,
    p1: Seq<u8>,
    key: u64,
    data: Seq<u8>,
)
    requires
        table.wf(s0, p0),
        table.view_of(s1, p1) == table.view_of(s0, p0).insert(key, data),
    ensures
        table.view_of(s1, p1).contains_key(key),
        table.view_of(s1, p1)[key] == data,
        forall|k: u64|
            k != key ==> (table.view_of(s1, p1).contains_key(k) == table.view_of(s0, p0).contains_key(
                k,
            )) && (table.view_of(s0, p0).contains_key(k) ==> table.view_of(s1, p1)[k] == table.view_of(
                s0,
                p0,
            )[k]),
{
}

/// The record slot that removing a key frees is the slot the next insertion
/// fills.
pub proof fn law_freed_slot_filled_next(
    table: Table,
    s0: Seq<u8>,
    p0: Seq<u8>,
    s1: Seq<u8>,
    key: u64,
    index: usize,
)
    requires
        table.wf(s0, p0),
        table.primary_keys.view_of(p0).contains_key(key),
        first_free_of(s1, TABLE_HEADER_SIZE as int) == table.primary_keys.view_of(p0)[key],
        index == first_free_of(s1, TABLE_HEADER_SIZE as int),
    ensures
        index == table.primary_keys.view_of(p0)[key],
        records(s0)[index as int] is Some,
{
}

/// A handle attached to the regions of a well-formed table, as `open` makes
/// one from the header alone, is well formed on them and sees the same
/// records: a table created by one process reads the same in another.
pub proof fn law_reopened_table_is_the_same(table: Table, opened: Table, s: Seq<u8>, pk: Seq<u8>)
    requires
        table.wf(s, pk),
        opened.header.base == 0,
        opened.header.size == TABLE_HEADER_SIZE,
        opened.slots.base() == TABLE_HEADER_SIZE,
        opened.primary_keys.total_buckets == buckets_for(header_capacity(s)),
        opened.primary_keys.slots.base() == opened.primary_keys.nb() * BUCKET_SIZE,
    ensures
        opened.wf(s, pk),
        opened.view_of(s, pk) == table.view_of(s, pk),
        opened.count_spec(s) == table.count_spec(s),
        opened.capacity_spec(s) == table.capacity_spec(s),
{
}

/// The count of a table is the number of its keys, the number of its keys
/// listed by `keys`, and the number of its occupied record slots, and it is
/// at most the capacity.
pub proof fn law_count_is_keys_and_records(table: Table, s: Seq<u8>, pk: Seq<u8>)
    requires
        table.wf(s, pk),
    ensures
        table.count_spec(s) == table.view_of(s, pk).len(),
        table.count_spec(s) == listed_keys(node_keys(node_table(pk, table.primary_keys.nb()))).len(),
        table.count_spec(s) == occupied_count(records(s)),
        0 <= table.count_spec(s) <= table.capacity_spec(s),
{
    let t = node_table(pk, table.primary_keys.nb());
    let keys = crate::internal::index::keys_in_order(t);
    let m = table.view_of(s, pk);
    lemma_wf_facts(s, TABLE_HEADER_SIZE as int);
    law_count_is_occupied(s, TABLE_HEADER_SIZE as int);
    crate::internal::index::law_keys_listed_once(t);
    lemma_listed_keys(t);
    keys.unique_seq_to_set();
    assert(keys.to_set() =~= m.dom());
    assert(m.dom() =~= table.primary_keys.view_of(pk).dom());
}

/// The capacity a table has is the one its header records, which every
/// handle reads, the one that opened the region included; every operation
/// states that it keeps the capacity.
pub proof fn law_capacity_is_the_header_capacity(table: Table, s: Seq<u8>, pk: Seq<u8>)
    requires
        table.wf(s, pk),
    ensures
        table.capacity_spec(s) == header_capacity(s),
        table.capacity_spec(s) == capacity_of(pk, table.primary_keys.slots.base()),
{
}

/// One operation took the table from `(a, pa)` to `(b, pb)` keeping it well
/// formed and keeping its capacity.
pub open spec fn keeps_capacity(table: Table, a: Seq<u8>, pa: Seq<u8>, b: Seq<u8>, pb: Seq<u8>) -> bool {
    table.wf(b, pb) && table.capacity_spec(b) == table.capacity_spec(a)
}

/// Along any run of operations that each keep a table well formed and keep
/// its capacity (as `insert`, `remove`, `update` and `update_checked` state),
/// the capacity stays the one the table started with, and it is the
/// capacity its header records, which `open` reads in any process.
pub proof fn law_capacity_constant_over_operations(table: Table, ss: Seq<Seq<u8>>, ps: Seq<Seq<u8>>)
    requires
        ss.len() == ps.len(),
        ss.len() > 0,
        table.wf(ss[0], ps[0]),
        forall|i: int|
            0 <= i < ss.len() - 1 ==> #[trigger] keeps_capacity(
                table,
                ss[i],
                ps[i],
                ss[i + 1],
                ps[i + 1],
            ),
    ensures
        forall|i: int|
            0 <= i < ss.len() ==> #[trigger] table.capacity_spec(ss[i]) == table.capacity_spec(ss[0])
                && header_capacity(ss[i]) == table.capacity_spec(ss[0]),
    decreases ss.len(),
{
    if ss.len() > 1 {
        let n = ss.len() - 1;
        let (ts, tp) = (ss.take(n as int), ps.take(n as int));
        assert forall|i: int| 0 <= i < ts.len() - 1 implies #[trigger] keeps_capacity(
            table,
            ts[i],
            tp[i],
            ts[i + 1],
            tp[i + 1],
        ) by {
            assert(keeps_capacity(table, ss[i], ps[i], ss[i + 1], ps[i + 1]));
        }
        law_capacity_constant_over_operations(table, ts, tp);
        let m = n - 1;
        assert(keeps_capacity(table, ss[m], ps[m], ss[m + 1], ps[m + 1]));
        assert(table.capacity_spec(ts[n - 1]) == table.capacity_spec(ts[0]));
        assert forall|i: int| 0 <= i < ss.len() implies #[trigger] table.capacity_spec(ss[i])
            == table.capacity_spec(ss[0]) && header_capacity(ss[i]) == table.capacity_spec(ss[0]) by {
            if i < n {
                assert(ts[i] == ss[i]);
                assert(table.capacity_spec(ts[i]) == table.capacity_spec(ts[0]));
                assert(header_capacity(ts[i]) == table.capacity_spec(ts[0]));
            }
        }
    }
}

/// Removing a key that was just inserted gives the table back as it was.
pub proof fn law_remove_undoes_insert(
    table: Table,
    s0: Seq<u8>,
    p0: Seq<u8>,
    s1: Seq<u8>,
    p1: Seq<u8>,
    s2: Seq<u8>,
    p2: Seq<u8>,
    key: u64,
    data: Seq<u8>,
)
    requires
        table.wf(s0, p0),
        !table.view_of(s0, p0).contains_key(key),
        table.view_of(s1, p1) == table.view_of(s0, p0).insert(key, data),
        table.view_of(s2, p2) == table.view_of(s1, p1).remove(key),
    ensures
        table.view_of(s2, p2) == table.view_of(s0, p0),
{
    assert(table.view_of(s0, p0).insert(key, data).remove(key) =~= table.view_of(s0, p0));
}

/// `keys` lists every key of the table exactly once, and nothing else.
pub proof fn law_keys_are_the_table_keys(table: Table, s: Seq<u8>, pk: Seq<u8>)
    requires
        table.wf(s, pk),
    ensures
        crate::internal::index::keys_in_order(
            crate::internal::index::node_table(pk, table.primary_keys.nb()),
        ).no_duplicates(),
        forall|k: u64|
            crate::internal::index::keys_in_order(
                crate::internal::index::node_table(pk, table.primary_keys.nb()),
            ).contains(k) <==> table.view_of(s, pk).contains_key(k),
{
    crate::internal::index::law_keys_listed_once(
        crate::internal::index::node_table(pk, table.primary_keys.nb()),
    );
}

} // verus!
