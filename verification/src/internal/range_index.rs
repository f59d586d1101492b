use crate::error::InMemoryTableError;
use crate::internal::header::Header;
use crate::internal::memory_array::MemoryArray;
use crate::internal::word::{
    lemma_word_frame, read_word, same_inside, same_outside, word_at, write_bytes, write_word,
};
use crate::primitive::{
    id_order, id_well_formed, law_id_order_total, law_ids_equal_iff_same_type_and_value, Id, IdView,
    TypeTag,
};
use vstd::bytes::{lemma_auto_spec_u64_to_from_le_bytes, spec_u64_to_le_bytes, u64_to_le_bytes};
use vstd::prelude::*;

verus! {

broadcast use vstd::slice::group_slice_axioms;

/// Bytes of the range index header: capacity and count.
pub const RANGE_INDEX_HEADER_SIZE: usize = 16;

/// Bytes of an entry: the id's sixteen data bytes, its length word, its type
/// byte (padded to a word) and the position word.
pub const ENTRY_SIZE: usize = 40;

/// One entry of a range index: a key and the offset of its record.
pub struct RangeEntryView {
    pub id: IdView,
    pub position: int,
}

/// The type whose rank is `b`.
pub open spec fn tag_of_byte(b: u8) -> TypeTag {
    match b {
        0 => TypeTag::U8,
        1 => TypeTag::U16,
        2 => TypeTag::U32,
        3 => TypeTag::U64,
        4 => TypeTag::U128,
        5 => TypeTag::I8,
        6 => TypeTag::I16,
        7 => TypeTag::I32,
        8 => TypeTag::I64,
        9 => TypeTag::I128,
        10 => TypeTag::F32,
        11 => TypeTag::F64,
        _ => TypeTag::Bool,
    }
}

pub open spec fn entry_start(i: int) -> int {
    RANGE_INDEX_HEADER_SIZE + ENTRY_SIZE * i
}

/// The bytes of entry `i`.
pub open spec fn raw_entry(s: Seq<u8>, i: int) -> Seq<u8> {
    s.subrange(entry_start(i), entry_start(i) + ENTRY_SIZE)
}

/// What the bytes of an entry stand for.
pub open spec fn decode_entry(b: Seq<u8>) -> RangeEntryView {
    RangeEntryView {
        id: IdView {
            data: b.subrange(0, 16),
            len: word_at(b, 16) as int,
            type_tag: tag_of_byte(b[24]),
        },
        position: word_at(b, 32) as int,
    }
}

/// The bytes of an entry holding `id` and the raw position word `position`.
pub open spec fn encode_entry(id: IdView, rank: u8, position: u64) -> Seq<u8> {
    id.data + spec_u64_to_le_bytes(id.len as u64) + seq![rank, 0u8, 0u8, 0u8, 0u8, 0u8, 0u8, 0u8]
        + spec_u64_to_le_bytes(position)
}

pub open spec fn ri_capacity(s: Seq<u8>) -> int {
    word_at(s, 0) as int
}

pub open spec fn ri_count(s: Seq<u8>) -> int {
    word_at(s, 8) as int
}

/// The stored entries, in order.
pub open spec fn ri_entries(s: Seq<u8>) -> Seq<RangeEntryView> {
    Seq::new(ri_count(s) as nat, |i: int| decode_entry(raw_entry(s, i)))
}

/// The entries are sorted by key.
pub open spec fn sorted(v: Seq<RangeEntryView>) -> bool {
    forall|i: int, j: int| 0 <= i < j < v.len() ==> id_order(#[trigger] v[i].id, #[trigger] v[j].id) <= 0
}

/// Every stored entry has a type byte naming a type and a length of at most sixteen.
pub open spec fn entries_valid(s: Seq<u8>) -> bool {
    forall|i: int|
        0 <= i < ri_count(s) ==> #[trigger] raw_entry(s, i)[24] < 13 && word_at(raw_entry(s, i), 16)
            <= 16
}

/// The range index region is well formed.
pub open spec fn ri_wf(s: Seq<u8>) -> bool {
    &&& RANGE_INDEX_HEADER_SIZE <= s.len()
    &&& ri_count(s) <= ri_capacity(s)
    &&& entry_start(ri_capacity(s)) <= s.len()
    &&& entries_valid(s)
    &&& sorted(ri_entries(s))
}

/// `p` splits `v` into the entries before `value` and those from it on.
pub open spec fn splits_at(v: Seq<RangeEntryView>, value: IdView, p: int) -> bool {
    &&& 0 <= p <= v.len()
    &&& forall|i: int| 0 <= i < p ==> id_order(#[trigger] v[i].id, value) < 0
    &&& forall|i: int| p <= i < v.len() ==> id_order(#[trigger] v[i].id, value) >= 0
}

/// The first entry, scanning from `i` over the entries equal to `value`, whose
/// position word is `position`.
pub open spec fn scan(v: Seq<RangeEntryView>, i: int, value: IdView, position: int) -> Option<int>
    decreases v.len() - i,
{
    if i < 0 || i >= v.len() || v[i].id != value {
        None
    } else if v[i].position == position {
        Some(i)
    } else {
        scan(v, i + 1, value, position)
    }
}

proof fn lemma_splits_unique(v: Seq<RangeEntryView>, value: IdView, p: int, q: int)
    requires
        splits_at(v, value, p),
        splits_at(v, value, q),
    ensures
        p == q,
{
    if p < q {
        assert(id_order(v[p].id, value) < 0);
    } else if q < p {
        assert(id_order(v[q].id, value) < 0);
    }
}

proof fn lemma_decode_encode(id: IdView, rank: u8, position: u64)
    requires
        id.data.len() == 16,
        0 <= id.len <= u64::MAX,
    ensures
        encode_entry(id, rank, position).len() == ENTRY_SIZE,
        decode_entry(encode_entry(id, rank, position)).id.data == id.data,
        decode_entry(encode_entry(id, rank, position)).id.len == id.len,
        decode_entry(encode_entry(id, rank, position)).id.type_tag == tag_of_byte(rank),
        encode_entry(id, rank, position)[24] == rank,
        decode_entry(encode_entry(id, rank, position)).position == position,
{
    lemma_auto_spec_u64_to_from_le_bytes();
    let b = encode_entry(id, rank, position);
    assert(b.subrange(0, 16) =~= id.data);
    assert(b.subrange(16, 24) =~= spec_u64_to_le_bytes(id.len as u64));
    assert(b.subrange(32, 40) =~= spec_u64_to_le_bytes(position));
}

proof fn lemma_tag_of_rank(t: TypeTag)
    ensures
        tag_of_byte(crate::primitive::tag_rank(t) as u8) == t,
        crate::primitive::tag_rank(t) < 13,
{
}

/// The entry at a split point of `v` for `value`.
pub open spec fn split_point(v: Seq<RangeEntryView>, value: IdView) -> int {
    choose|p: int| splits_at(v, value, p)
}

/// The entries after `delete(value, position)`.
pub open spec fn after_delete(v: Seq<RangeEntryView>, value: IdView, position: int) -> Seq<
    RangeEntryView,
> {
    match scan(v, split_point(v, value), value, position) {
        Some(j) => v.remove(j),
        None => v,
    }
}

/// The entries after `insert(value, position)`.
pub open spec fn after_insert(v: Seq<RangeEntryView>, value: IdView, position: int) -> Seq<
    RangeEntryView,
> {
    v.insert(split_point(v, value), RangeEntryView { id: value, position })
}

proof fn lemma_split_point(v: Seq<RangeEntryView>, value: IdView, p: int)
    requires
        splits_at(v, value, p),
    ensures
        split_point(v, value) == p,
{
    lemma_splits_unique(v, value, p, split_point(v, value));
}

proof fn lemma_scan_bounds(v: Seq<RangeEntryView>, i: int, value: IdView, position: int)
    ensures
        scan(v, i, value, position) matches Some(j) ==> i <= j < v.len() && v[j].id == value
            && v[j].position == position,
    decreases v.len() - i,
{
    if 0 <= i < v.len() && v[i].id == value && v[i].position != position {
        lemma_scan_bounds(v, i + 1, value, position);
    }
}

/// Bytes changed only inside entry `j` leave the header and every other entry alone.
proof fn lemma_entry_frame(a: Seq<u8>, b: Seq<u8>, j: int)
    requires
        RANGE_INDEX_HEADER_SIZE <= a.len(),
        0 <= j,
        entry_start(j) + ENTRY_SIZE <= a.len(),
        same_outside(a, b, entry_start(j), entry_start(j) + ENTRY_SIZE),
    ensures
        ri_capacity(b) == ri_capacity(a),
        ri_count(b) == ri_count(a),
        forall|i: int|
            0 <= i && i != j && entry_start(i) + ENTRY_SIZE <= a.len() ==> #[trigger] raw_entry(b, i)
                == raw_entry(a, i),
{
    lemma_word_frame(a, b, 0);
    lemma_word_frame(a, b, 8);
    assert forall|i: int| 0 <= i && i != j && entry_start(i) + ENTRY_SIZE <= a.len() implies #[trigger] raw_entry(
        b,
        i,
    ) == raw_entry(a, i) by {
        assert(raw_entry(b, i) =~= raw_entry(a, i));
    }
}

/// Copies entry `from` over entry `to`.
fn copy_entry(mem: &mut [u8], from: usize, to: usize)
    requires
        from != to,
        entry_start(from as int) + ENTRY_SIZE <= old(mem)@.len(),
        entry_start(to as int) + ENTRY_SIZE <= old(mem)@.len(),
    ensures
        same_outside(old(mem)@, final(mem)@, entry_start(to as int), entry_start(to as int) + ENTRY_SIZE),
        raw_entry(final(mem)@, to as int) == raw_entry(old(mem)@, from as int),
{
    assert(mem@.len() == mem.len());
    let src = RANGE_INDEX_HEADER_SIZE + ENTRY_SIZE * from;
    let dst = RANGE_INDEX_HEADER_SIZE + ENTRY_SIZE * to;
    let bytes = vstd::slice::slice_to_vec(vstd::slice::slice_subrange(mem, src, src + ENTRY_SIZE));
    write_bytes(mem, dst, bytes.as_slice());
}

/// Writes entry `i` holding `id` and the raw position word `position`.
fn write_entry(mem: &mut [u8], i: usize, id: &Id, position: u64)
    requires
        entry_start(i as int) + ENTRY_SIZE <= old(mem)@.len(),
        id.len <= 16,
    ensures
        same_outside(old(mem)@, final(mem)@, entry_start(i as int), entry_start(i as int) + ENTRY_SIZE),
        decode_entry(raw_entry(final(mem)@, i as int)) == (RangeEntryView { id: id@, position: position as int }),
        raw_entry(final(mem)@, i as int)[24] < 13,
        word_at(raw_entry(final(mem)@, i as int), 16) <= 16,
{
    assert(mem@.len() == mem.len());
    let rank = id.type_tag.rank();
    let mut bytes: Vec<u8> = vstd::slice::slice_to_vec(id.data.as_slice());
    let mut len_bytes = u64_to_le_bytes(id.len as u64);
    bytes.append(&mut len_bytes);
    let mut tag_bytes: Vec<u8> = vec![rank, 0u8, 0u8, 0u8, 0u8, 0u8, 0u8, 0u8];
    bytes.append(&mut tag_bytes);
    let mut pos_bytes = u64_to_le_bytes(position);
    bytes.append(&mut pos_bytes);
    proof {
        assert(bytes@ =~= encode_entry(id@, rank, position));
        lemma_decode_encode(id@, rank, position);
        lemma_tag_of_rank(id.type_tag);
    }
    let start = RANGE_INDEX_HEADER_SIZE + ENTRY_SIZE * i;
    write_bytes(mem, start, bytes.as_slice());
    proof {
        assert(raw_entry(mem@, i as int) =~= bytes@);
    }
}

/// A sorted index of keys to record positions, laid out in a byte region:
/// the header, then `capacity` entries kept in key order.
#[derive(Debug, Clone, Copy)]
pub struct RangeIndex {
    pub header: Header,
    pub entries: MemoryArray,
}

impl RangeIndex {
    /// Lays out an empty range index for `capacity` entries at the start of `mem`.
    pub fn new(mem: &mut [u8], capacity: usize) -> (r: Result<RangeIndex, InMemoryTableError>)
        requires
            RANGE_INDEX_HEADER_SIZE + ENTRY_SIZE * capacity <= old(mem)@.len(),
        ensures
            r matches Ok(ri) && {
                &&& ri_wf(final(mem)@)
                &&& ri_capacity(final(mem)@) == capacity
                &&& ri_entries(final(mem)@) == Seq::<RangeEntryView>::empty()
                &&& ri.entries.length == capacity
            },
    {
        let header = match Header::new(0, 8, RANGE_INDEX_HEADER_SIZE) {
            Ok(h) => h,
            Err(e) => return Err(e),
        };
        assert(mem@.len() == mem.len());
        write_word(mem, 0, capacity as u64);
        let ghost s1 = mem@;
        write_word(mem, 8, 0);
        proof {
            lemma_word_frame(s1, mem@, 0);
            assert(ri_entries(mem@) =~= Seq::<RangeEntryView>::empty());
        }
        let entries = match MemoryArray::new(header.data(), capacity, 8) {
            Ok(a) => a,
            Err(e) => return Err(e),
        };
        Ok(RangeIndex { header, entries })
    }

    /// Attaches to a range index already laid out at the start of `mem`.
    pub fn open(mem: &[u8]) -> (r: Result<RangeIndex, InMemoryTableError>)
        requires
            RANGE_INDEX_HEADER_SIZE <= mem@.len(),
            ri_capacity(mem@) <= usize::MAX,
        ensures
            r matches Ok(ri) && ri.entries.length == ri_capacity(mem@),
    {
        let header = match Header::new(0, 8, RANGE_INDEX_HEADER_SIZE) {
            Ok(h) => h,
            Err(e) => return Err(e),
        };
        let capacity = read_word(mem, 0) as usize;
        let entries = match MemoryArray::new(header.data(), capacity, 8) {
            Ok(a) => a,
            Err(e) => return Err(e),
        };
        Ok(RangeIndex { header, entries })
    }

    /// The number of stored entries.
    pub fn count(&self, mem: &[u8]) -> (r: usize)
        requires
            ri_wf(mem@),
        ensures
            r == ri_entries(mem@).len(),
    {
        assert(mem@.len() == mem.len());
        read_word(mem, 8) as usize
    }

    /// Reads the key of stored entry `i`.
    fn read_id(&self, mem: &[u8], i: usize) -> (r: Id)
        requires
            ri_wf(mem@),
            i < ri_count(mem@),
        ensures
            r@ == ri_entries(mem@)[i as int].id,
    {
        assert(mem@.len() == mem.len());
        let ghost b = raw_entry(mem@, i as int);
        let start = RANGE_INDEX_HEADER_SIZE + ENTRY_SIZE * i;
        let mut data = [0u8; 16];
        let mut k: usize = 0;
        while k < 16
            invariant
                k <= 16,
                data@.len() == 16,
                start == entry_start(i as int),
                start + ENTRY_SIZE <= mem@.len(),
                b == raw_entry(mem@, i as int),
                forall|j: int| 0 <= j < k ==> #[trigger] data@[j] == b[j],
            decreases 16 - k,
        {
            data[k] = mem[start + k];
            k = k + 1;
        }
        let len = read_word(mem, start + 16) as usize;
        let rank = mem[start + 24];
        let type_tag = match TypeTag::from_rank(rank) {
            Some(t) => t,
            None => {
                proof {
                    assert(b[24] < 13);
                }
                TypeTag::U8
            },
        };
        proof {
            assert(data@ =~= b.subrange(0, 16));
            assert(mem@.subrange(start + 16, start + 24) =~= b.subrange(16, 24));
            crate::primitive::lemma_tag_rank_injective(type_tag, tag_of_byte(rank));
        }
        Id { data, len, type_tag }
    }

    /// Reads the position word of stored entry `i`.
    fn read_position(&self, mem: &[u8], i: usize) -> (r: u64)
        requires
            ri_wf(mem@),
            i < ri_count(mem@),
        ensures
            r == ri_entries(mem@)[i as int].position,
    {
        assert(mem@.len() == mem.len());
        let start = RANGE_INDEX_HEADER_SIZE + ENTRY_SIZE * i;
        proof {
            assert(mem@.subrange(start + 32, start + 40) =~= raw_entry(mem@, i as int).subrange(32, 40));
        }
        read_word(mem, start + 32)
    }

    /// The first entry whose key is not below `value` (the number of entries
    /// when there is none).
    pub fn find_position(&self, mem: &[u8], value: &Id) -> (r: usize)
        requires
            ri_wf(mem@),
        ensures
            splits_at(ri_entries(mem@), value@, r as int),
    {
        let ghost v = ri_entries(mem@);
        let count = self.count(mem);
        let mut lo: usize = 0;
        let mut hi: usize = count;
        while lo < hi
            invariant
                ri_wf(mem@),
                v == ri_entries(mem@),
                count == v.len(),
                0 <= lo <= hi <= count,
                forall|i: int| 0 <= i < lo ==> id_order(#[trigger] v[i].id, value@) < 0,
                forall|i: int| hi <= i < count ==> id_order(#[trigger] v[i].id, value@) >= 0,
            decreases hi - lo,
        {
            let mid = lo + (hi - lo) / 2;
            let id = self.read_id(mem, mid);
            if id.compare(value) < 0 {
                proof {
                    assert forall|i: int| 0 <= i < mid + 1 implies id_order(#[trigger] v[i].id, value@) < 0 by {
                        if i < mid {
                            law_id_order_total(v[i].id, v[mid as int].id, value@);
                        }
                    }
                }
                lo = mid + 1;
            } else {
                proof {
                    assert forall|i: int| mid <= i < count implies id_order(#[trigger] v[i].id, value@) >= 0 by {
                        if i > mid {
                            law_id_order_total(value@, v[mid as int].id, v[i].id);
                            law_id_order_total(v[i].id, value@, v[i].id);
                        }
                    }
                }
                hi = mid;
            }
        }
        lo
    }

    /// Adds `value` for the record at `position`, before every entry whose key
    /// is not below it.
    ///
    /// The index must have room for one more entry.
    #[verifier::spinoff_prover]
    pub fn insert(&self, mem: &mut [u8], value: &Id, position: usize) -> (r: Result<
        (),
        InMemoryTableError,
    >)
        requires
            ri_wf(old(mem)@),
            ri_count(old(mem)@) < ri_capacity(old(mem)@),
            position < usize::MAX,
            value.len <= 16,
        ensures
            r is Ok,
            ri_wf(final(mem)@),
            ri_capacity(final(mem)@) == ri_capacity(old(mem)@),
            ri_entries(final(mem)@) == after_insert(ri_entries(old(mem)@), value@, position + 1),
    {
        let ghost s0 = mem@;
        let ghost v = ri_entries(s0);
        let pos = self.find_position(mem, value);
        let count = self.count(mem);
        assert(mem@.len() == mem.len());
        let mut i: usize = count;
        while i > pos
            invariant
                pos <= i <= count,
                count == v.len(),
                count < ri_capacity(s0),
                entry_start(ri_capacity(s0)) <= s0.len(),
                mem@.len() == s0.len(),
                ri_capacity(mem@) == ri_capacity(s0),
                ri_count(mem@) == ri_count(s0),
                forall|j: int| 0 <= j < i ==> #[trigger] raw_entry(mem@, j) == raw_entry(s0, j),
                forall|j: int| i < j <= count ==> #[trigger] raw_entry(mem@, j) == raw_entry(s0, j - 1),
            decreases i,
        {
            let ghost prev = mem@;
            copy_entry(mem, i - 1, i);
            proof {
                lemma_entry_frame(prev, mem@, i as int);
            }
            i = i - 1;
        }
        let ghost s1 = mem@;
        write_entry(mem, pos, value, (position + 1) as u64);
        let ghost s2 = mem@;
        proof {
            lemma_entry_frame(s1, s2, pos as int);
        }
        write_word(mem, 8, (count + 1) as u64);
        let ghost s3 = mem@;
        proof {
            lemma_word_frame(s2, s3, 0);
            assert forall|j: int| 0 <= j && entry_start(j) + ENTRY_SIZE <= s2.len() implies #[trigger] raw_entry(s3, j)
                == raw_entry(s2, j) by {
                assert(raw_entry(s3, j) =~= raw_entry(s2, j));
            }
            let w = v.insert(pos as int, RangeEntryView { id: value@, position: position + 1 });
            assert(ri_entries(s3) =~= w);
            assert forall|a: int, b: int| 0 <= a < b < w.len() implies id_order(#[trigger] w[a].id, #[trigger] w[b].id) <= 0 by {
                if a < pos && b > pos {
                    assert(w[b] == v[b - 1]);
                } else if a == pos && b > pos {
                    assert(w[b] == v[b - 1]);
                    law_id_order_total(v[b - 1].id, value@, v[b - 1].id);
                } else if a > pos {
                    assert(w[a] == v[a - 1] && w[b] == v[b - 1]);
                }
            }
            assert(entries_valid(s3)) by {
                assert forall|j: int| 0 <= j < ri_count(s3) implies #[trigger] raw_entry(s3, j)[24] < 13
                    && word_at(raw_entry(s3, j), 16) <= 16 by {
                    assert(entry_start(j) + ENTRY_SIZE <= s2.len());
                    assert(raw_entry(s3, j) == raw_entry(s2, j));
                    if j < pos {
                        assert(raw_entry(s2, j) == raw_entry(s1, j));
                        assert(raw_entry(s1, j) == raw_entry(s0, j));
                        assert(raw_entry(s0, j)[24] < 13);
                    } else if j > pos {
                        assert(raw_entry(s2, j) == raw_entry(s1, j));
                        assert(raw_entry(s1, j) == raw_entry(s0, j - 1));
                        assert(raw_entry(s0, j - 1)[24] < 13);
                    }
                }
            }
            lemma_split_point(v, value@, pos as int);
        }
        Ok(())
    }

    /// Removes the first entry, among those equal to `value` from its place in
    /// key order on, whose position is `position`; nothing when there is none.
    #[verifier::spinoff_prover]
    pub fn delete(&self, mem: &mut [u8], value: &Id, position: usize) -> (r: Result<
        (),
        InMemoryTableError,
    >)
        requires
            ri_wf(old(mem)@),
            position < usize::MAX,
        ensures
            r is Ok,
            ri_wf(final(mem)@),
            ri_capacity(final(mem)@) == ri_capacity(old(mem)@),
            ri_entries(final(mem)@) == after_delete(ri_entries(old(mem)@), value@, position + 1),
    {
        let ghost s0 = mem@;
        let ghost v = ri_entries(s0);
        let ghost praw = position + 1;
        let pos = self.find_position(mem, value);
        proof {
            lemma_split_point(v, value@, pos as int);
        }
        let count = self.count(mem);
        let mut i: usize = pos;
        let mut found: Option<usize> = None;
        loop
            invariant_except_break
                found is None,
            invariant
                ri_wf(mem@),
                mem@ == s0,
                v == ri_entries(s0),
                count == v.len(),
                pos <= i <= count,
                position < usize::MAX,
                praw == position + 1,
                scan(v, pos as int, value@, praw) == scan(v, i as int, value@, praw),
            ensures
                match found {
                    Some(j) => scan(v, pos as int, value@, praw) == Some(j as int),
                    None => scan(v, pos as int, value@, praw) is None,
                },
            decreases count - i,
        {
            if i >= count {
                break;
            }
            let id = self.read_id(mem, i);
            if !id.same(value) {
                break;
            }
            if self.read_position(mem, i) == (position + 1) as u64 {
                found = Some(i);
                break;
            }
            i = i + 1;
        }
        if let Some(idx) = found {
            proof {
                lemma_scan_bounds(v, pos as int, value@, praw);
            }
            assert(mem@.len() == mem.len());
            let mut k: usize = idx;
            while k + 1 < count
                invariant
                    idx <= k < count,
                    count == v.len(),
                    entry_start(ri_capacity(s0)) <= s0.len(),
                    count <= ri_capacity(s0),
                    mem@.len() == s0.len(),
                    ri_capacity(mem@) == ri_capacity(s0),
                    ri_count(mem@) == ri_count(s0),
                    forall|j: int| 0 <= j < idx ==> #[trigger] raw_entry(mem@, j) == raw_entry(s0, j),
                    forall|j: int| idx <= j < k ==> #[trigger] raw_entry(mem@, j) == raw_entry(s0, j + 1),
                    forall|j: int| k <= j < count ==> #[trigger] raw_entry(mem@, j) == raw_entry(s0, j),
                decreases count - k,
            {
                let ghost prev = mem@;
                copy_entry(mem, k + 1, k);
                proof {
                    lemma_entry_frame(prev, mem@, k as int);
                }
                k = k + 1;
            }
            let ghost s1 = mem@;
            write_word(mem, 8, (count - 1) as u64);
            let ghost s2 = mem@;
            proof {
                lemma_word_frame(s1, s2, 0);
                assert forall|j: int| 0 <= j && entry_start(j) + ENTRY_SIZE <= s1.len() implies #[trigger] raw_entry(s2, j)
                    == raw_entry(s1, j) by {
                    assert(raw_entry(s2, j) =~= raw_entry(s1, j));
                }
                let w = v.remove(idx as int);
                assert(ri_entries(s2) =~= w);
                assert forall|a: int, b: int| 0 <= a < b < w.len() implies id_order(#[trigger] w[a].id, #[trigger] w[b].id) <= 0 by {
                    let aa = if a < idx { a } else { a + 1 };
                    let bb = if b < idx { b } else { b + 1 };
                    assert(w[a] == v[aa] && w[b] == v[bb]);
                }
                assert(entries_valid(s2)) by {
                    assert forall|j: int| 0 <= j < ri_count(s2) implies #[trigger] raw_entry(s2, j)[24] < 13
                        && word_at(raw_entry(s2, j), 16) <= 16 by {
                        assert(entry_start(j) + ENTRY_SIZE <= s1.len());
                        assert(raw_entry(s2, j) == raw_entry(s1, j));
                        if j < idx {
                            assert(raw_entry(s1, j) == raw_entry(s0, j));
                            assert(raw_entry(s0, j)[24] < 13);
                        } else {
                            assert(raw_entry(s1, j) == raw_entry(s0, j + 1));
                            assert(raw_entry(s0, j + 1)[24] < 13);
                        }
                    }
                }
            }
        }
        Ok(())
    }

    /// Moves the entry of the record at `position` from key `old_value` to key
    /// `new_value`: a `delete` followed by an `insert`.
    pub fn update(&self, mem: &mut [u8], old_value: &Id, new_value: &Id, position: usize) -> (r:
        Result<(), InMemoryTableError>)
        requires
            ri_wf(old(mem)@),
            position < usize::MAX,
            new_value.len <= 16,
            after_delete(ri_entries(old(mem)@), old_value@, position + 1).len() < ri_capacity(old(mem)@),
        ensures
            r is Ok,
            ri_wf(final(mem)@),
            ri_capacity(final(mem)@) == ri_capacity(old(mem)@),
            ri_entries(final(mem)@) == after_insert(
                after_delete(ri_entries(old(mem)@), old_value@, position + 1),
                new_value@,
                position + 1,
            ),
    {
        match self.delete(mem, old_value, position) {
            Ok(()) => {},
            Err(e) => return Err(e),
        }
        self.insert(mem, new_value, position)
    }
}

/// A sorted sequence of entries has a split point for every key.
pub proof fn lemma_split_exists(v: Seq<RangeEntryView>, value: IdView)
    requires
        sorted(v),
    ensures
        exists|p: int| splits_at(v, value, p),
        splits_at(v, value, split_point(v, value)),
    decreases v.len(),
{
    if v.len() == 0 {
        assert(splits_at(v, value, 0));
    } else {
        let u = v.drop_last();
        assert(sorted(u)) by {
            assert forall|i: int, j: int| 0 <= i < j < u.len() implies id_order(#[trigger] u[i].id, #[trigger] u[j].id)
                <= 0 by {
                assert(u[i] == v[i] && u[j] == v[j]);
            }
        }
        lemma_split_exists(u, value);
        let q = split_point(u, value);
        let last = v.len() - 1;
        if q < last {
            assert forall|i: int| q <= i < v.len() implies id_order(#[trigger] v[i].id, value) >= 0 by {
                if i == last {
                    assert(u[q] == v[q]);
                    law_id_order_total(value, v[q].id, v[last].id);
                    law_id_order_total(v[q].id, value, v[q].id);
                    law_id_order_total(v[last].id, value, v[last].id);
                } else {
                    assert(u[i] == v[i]);
                }
            }
            assert forall|i: int| 0 <= i < q implies id_order(#[trigger] v[i].id, value) < 0 by {
                assert(u[i] == v[i]);
            }
            assert(splits_at(v, value, q));
        } else if id_order(v[last].id, value) < 0 {
            assert forall|i: int| 0 <= i < v.len() implies id_order(#[trigger] v[i].id, value) < 0 by {
                if i < last {
                    assert(u[i] == v[i]);
                }
            }
            assert(splits_at(v, value, v.len() as int));
        } else {
            assert forall|i: int| 0 <= i < last implies id_order(#[trigger] v[i].id, value) < 0 by {
                assert(u[i] == v[i]);
            }
            assert(splits_at(v, value, last));
        }
    }
}

/// From `i` on, over entries holding `value` up to one at `k` with the
/// position word, the scan finds an entry.
proof fn lemma_scan_reaches(v: Seq<RangeEntryView>, i: int, value: IdView, position: int, k: int)
    requires
        0 <= i <= k < v.len(),
        forall|m: int| i <= m <= k ==> #[trigger] v[m].id == value,
        v[k].position == position,
    ensures
        scan(v, i, value, position) is Some,
    decreases k - i,
{
    if v[i].position != position {
        lemma_scan_reaches(v, i + 1, value, position, k);
    }
}

/// On sorted entries of well-formed ids, `delete(value, position)` removes one
/// entry `(value, position)` whenever one occurs, keeping the others in order.
pub proof fn law_delete_removes_an_occurring_entry(
    v: Seq<RangeEntryView>,
    value: IdView,
    position: int,
    k: int,
)
    requires
        sorted(v),
        id_well_formed(value),
        forall|i: int| 0 <= i < v.len() ==> id_well_formed(#[trigger] v[i].id),
        0 <= k < v.len(),
        v[k] == (RangeEntryView { id: value, position }),
    ensures
        exists|j: int|
            0 <= j < v.len() && v[j] == (RangeEntryView { id: value, position }) && after_delete(
                v,
                value,
                position,
            ) == #[trigger] v.remove(j),
        after_delete(v, value, position).len() == v.len() - 1,
{
    lemma_split_exists(v, value);
    let p = split_point(v, value);
    law_id_order_total(value, value, value);
    assert(p <= k) by {
        if p > k {
            assert(id_order(v[k].id, value) < 0);
        }
    }
    assert forall|m: int| p <= m <= k implies #[trigger] v[m].id == value by {
        assert(id_order(v[m].id, value) >= 0);
        if m < k {
            assert(id_order(v[m].id, v[k].id) <= 0);
        }
        law_id_order_total(v[m].id, value, value);
        law_ids_equal_iff_same_type_and_value(v[m].id, value);
    }
    lemma_scan_reaches(v, p, value, position, k);
    lemma_scan_bounds(v, p, value, position);
    let j = scan(v, p, value, position)->0;
    assert(v[j] == (RangeEntryView { id: value, position }));
    assert(after_delete(v, value, position) == v.remove(j));
    assert(0 <= j < v.len() && v[j] == (RangeEntryView { id: value, position }) && after_delete(
        v,
        value,
        position,
    ) == v.remove(j));
}

/// Deleting the entry just inserted gives the entries back: `delete(value,
/// position)` undoes `insert(value, position)` on a sorted index.
pub proof fn law_delete_undoes_insert(v: Seq<RangeEntryView>, value: IdView, position: int)
    requires
        sorted(v),
    ensures
        after_delete(after_insert(v, value, position), value, position) == v,
{
    lemma_split_exists(v, value);
    let p = split_point(v, value);
    let e = RangeEntryView { id: value, position };
    let w = v.insert(p, e);
    law_id_order_total(value, value, value);
    assert forall|i: int| p <= i < w.len() implies id_order(#[trigger] w[i].id, value) >= 0 by {
        if i > p {
            assert(w[i] == v[i - 1]);
        }
    }
    assert forall|i: int| 0 <= i < p implies id_order(#[trigger] w[i].id, value) < 0 by {
        assert(w[i] == v[i]);
    }
    assert(splits_at(w, value, p));
    lemma_split_point(w, value, p);
    assert(scan(w, p, value, position) == Some(p));
    assert(w.remove(p) =~= v);
}

} // verus!
