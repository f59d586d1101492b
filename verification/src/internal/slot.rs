use crate::error::InMemoryTableError;
use crate::internal::header::{is_misaligned_error, Header};
use crate::internal::word::{
    lemma_same_inside_subrange, lemma_word_frame, read_usize, read_word, same_inside, same_outside, word_at,
    write_bytes, write_usize,
};
use vstd::prelude::*;

verus! {

broadcast use vstd::slice::group_slice_axioms;

/// Bytes of the arena header: capacity, count, slot size and first free slot.
pub const SLOTS_HEADER_SIZE: usize = 32;

/// Bytes in front of each slot's data: the state byte (padded to a word) and
/// the length of the data, or for a free slot the next free slot.
pub const SLOT_METADATA_SIZE: usize = 16;

/// Alignment of the arena header.
pub const SLOTS_HEADER_ALIGN: usize = 8;

// ---------------------------------------------------------------------------
// What the bytes of an arena at offset `base` of a region stand for.
// ---------------------------------------------------------------------------

pub open spec fn capacity_of(s: Seq<u8>, base: int) -> int {
    word_at(s, base) as int
}

pub open spec fn count_of(s: Seq<u8>, base: int) -> int {
    word_at(s, base + 8) as int
}

pub open spec fn slot_size_of(s: Seq<u8>, base: int) -> int {
    word_at(s, base + 16) as int
}

pub open spec fn first_free_of(s: Seq<u8>, base: int) -> int {
    word_at(s, base + 24) as int
}

/// The largest record a slot holds.
pub open spec fn max_data_of(s: Seq<u8>, base: int) -> int {
    slot_size_of(s, base) - SLOT_METADATA_SIZE
}

pub open spec fn slot_start(s: Seq<u8>, base: int, i: int) -> int {
    base + SLOTS_HEADER_SIZE + i * slot_size_of(s, base)
}

/// One past the last byte of the arena.
pub open spec fn region_end(s: Seq<u8>, base: int) -> int {
    base + SLOTS_HEADER_SIZE + capacity_of(s, base) * slot_size_of(s, base)
}

pub open spec fn is_free_at(s: Seq<u8>, base: int, i: int) -> bool {
    s[slot_start(s, base, i)] == 0
}

pub open spec fn link_at(s: Seq<u8>, base: int, i: int) -> int {
    word_at(s, slot_start(s, base, i) + 8) as int
}

pub open spec fn data_at(s: Seq<u8>, base: int, i: int) -> Seq<u8> {
    s.subrange(
        slot_start(s, base, i) + SLOT_METADATA_SIZE,
        slot_start(s, base, i) + SLOT_METADATA_SIZE + link_at(s, base, i),
    )
}

/// What slot `i` holds: `None` when free, the record's bytes when occupied.
pub open spec fn entry_at(s: Seq<u8>, base: int, i: int) -> Option<Seq<u8>> {
    if is_free_at(s, base, i) {
        None
    } else {
        Some(data_at(s, base, i))
    }
}

/// The arena as a sequence of slots.
pub open spec fn contents(s: Seq<u8>, base: int) -> Seq<Option<Seq<u8>>> {
    Seq::new(capacity_of(s, base) as nat, |i: int| entry_at(s, base, i))
}

/// The links of the free slots: `Some` of the slot a free slot links to,
/// `None` for an occupied slot. With the header's first free slot it gives
/// the order in which free slots are handed out.
pub open spec fn free_links(s: Seq<u8>, base: int) -> Seq<Option<int>> {
    Seq::new(
        capacity_of(s, base) as nat,
        |i: int|
            if is_free_at(s, base, i) {
                Some(link_at(s, base, i))
            } else {
                None
            },
    )
}

/// Only slot `j` of the arena changed its state or link.
proof fn lemma_free_links_update(a: Seq<u8>, b: Seq<u8>, base: int, j: int)
    requires
        capacity_of(a, base) == capacity_of(b, base),
        0 <= j < capacity_of(a, base),
        forall|i: int| #![trigger is_free_at(a, base, i)] #![trigger is_free_at(b, base, i)]
            0 <= i < capacity_of(a, base) && i != j ==> {
                &&& is_free_at(a, base, i) == is_free_at(b, base, i)
                &&& link_at(a, base, i) == link_at(b, base, i)
            },
    ensures
        free_links(b, base) == free_links(a, base).update(j, free_links(b, base)[j]),
{
    assert forall|i: int| 0 <= i < capacity_of(a, base) implies free_links(b, base)[i] == free_links(
        a,
        base,
    ).update(j, free_links(b, base)[j])[i] by {
        if i != j {
            assert(is_free_at(a, base, i) == is_free_at(b, base, i));
        }
    }
    assert(free_links(b, base) =~= free_links(a, base).update(j, free_links(b, base)[j]));
}

/// The number of occupied slots in `c`.
pub open spec fn occupied_count(c: Seq<Option<Seq<u8>>>) -> int
    decreases c.len(),
{
    if c.len() == 0 {
        0
    } else {
        occupied_count(c.drop_last()) + if c.last() is Some { 1int } else { 0int }
    }
}

/// The header and every slot lie inside the region.
pub open spec fn layout_ok(s: Seq<u8>, base: int) -> bool {
    &&& 0 <= base
    &&& base + SLOTS_HEADER_SIZE <= s.len()
    &&& SLOT_METADATA_SIZE <= slot_size_of(s, base) <= usize::MAX
    &&& region_end(s, base) <= s.len()
}

/// `fl` is the chain of free slots that starts at the header's first free slot:
/// each free slot appears once, each links to the next one, and the last one
/// links to the capacity.
pub open spec fn free_list_ok(s: Seq<u8>, base: int, fl: Seq<int>) -> bool {
    &&& fl.no_duplicates()
    &&& forall|k: int|
        0 <= k < fl.len() ==> {
            &&& 0 <= #[trigger] fl[k] < capacity_of(s, base)
            &&& is_free_at(s, base, fl[k])
            &&& link_at(s, base, fl[k]) == if k + 1 < fl.len() {
                fl[k + 1]
            } else {
                capacity_of(s, base)
            }
        }
    &&& forall|i: int|
        0 <= i < capacity_of(s, base) && #[trigger] is_free_at(s, base, i) ==> fl.contains(i)
    &&& first_free_of(s, base) == if fl.len() > 0 {
        fl[0]
    } else {
        capacity_of(s, base)
    }
    &&& count_of(s, base) + fl.len() == capacity_of(s, base)
}

/// Occupied slots hold no more than a slot's data area.
pub open spec fn sizes_ok(s: Seq<u8>, base: int) -> bool {
    forall|i: int|
        0 <= i < capacity_of(s, base) && !#[trigger] is_free_at(s, base, i) ==> link_at(s, base, i)
            <= max_data_of(s, base)
}

pub closed spec fn has_free_list(s: Seq<u8>, base: int) -> bool {
    exists|fl: Seq<int>| #[trigger] free_list_ok(s, base, fl)
}

/// The arena at `base` is well formed.
pub open spec fn wf(s: Seq<u8>, base: int) -> bool {
    &&& layout_ok(s, base)
    &&& sizes_ok(s, base)
    &&& has_free_list(s, base)
}

/// The first `n` slots are free and slot `i` links to slot `i + 1`.
pub open spec fn chained_free(s: Seq<u8>, base: int, n: int) -> bool {
    forall|i: int| 0 <= i < n ==> #[trigger] is_free_at(s, base, i) && link_at(s, base, i) == i + 1
}

/// The arena right after creation: every slot free.
pub open spec fn all_free(capacity: int) -> Seq<Option<Seq<u8>>> {
    Seq::new(capacity as nat, |i: int| None)
}

// ---------------------------------------------------------------------------
// Arithmetic on slot positions.
// ---------------------------------------------------------------------------

pub proof fn lemma_slot_in_region(s: Seq<u8>, base: int, i: int)
    requires
        layout_ok(s, base),
        0 <= i < capacity_of(s, base),
    ensures
        base + SLOTS_HEADER_SIZE <= slot_start(s, base, i),
        slot_start(s, base, i) + slot_size_of(s, base) <= region_end(s, base),
{
    let ss = slot_size_of(s, base);
    let cap = capacity_of(s, base);
    assert(0 <= i * ss && i * ss + ss <= cap * ss) by (nonlinear_arith)
        requires
            0 <= i < cap,
            ss >= 0,
    ;
}

proof fn lemma_slots_disjoint(s: Seq<u8>, base: int, i: int, j: int)
    requires
        layout_ok(s, base),
        0 <= i < capacity_of(s, base),
        0 <= j < capacity_of(s, base),
        i != j,
    ensures
        slot_start(s, base, i) + slot_size_of(s, base) <= slot_start(s, base, j) || slot_start(
            s,
            base,
            j,
        ) + slot_size_of(s, base) <= slot_start(s, base, i),
{
    let ss = slot_size_of(s, base);
    if i < j {
        assert(i * ss + ss <= j * ss) by (nonlinear_arith)
            requires
                i < j,
                ss >= 0,
        ;
    } else {
        assert(j * ss + ss <= i * ss) by (nonlinear_arith)
            requires
                j < i,
                ss >= 0,
        ;
    }
}

proof fn lemma_capacity_fits(s: Seq<u8>, base: int)
    requires
        layout_ok(s, base),
    ensures
        capacity_of(s, base) <= s.len(),
        capacity_of(s, base) * slot_size_of(s, base) <= s.len(),
{
    let ss = slot_size_of(s, base);
    let cap = capacity_of(s, base);
    assert(cap <= cap * ss) by (nonlinear_arith)
        requires
            ss >= 1,
            cap >= 0,
    ;
}

/// A slot's state, link and data only depend on the bytes of the slot.
proof fn lemma_slot_same(a: Seq<u8>, b: Seq<u8>, base: int, i: int)
    requires
        layout_ok(a, base),
        a.len() == b.len(),
        capacity_of(a, base) == capacity_of(b, base),
        slot_size_of(a, base) == slot_size_of(b, base),
        0 <= i < capacity_of(a, base),
        same_inside(a, b, slot_start(a, base, i), slot_start(a, base, i) + slot_size_of(a, base)),
    ensures
        is_free_at(a, base, i) == is_free_at(b, base, i),
        link_at(a, base, i) == link_at(b, base, i),
        link_at(a, base, i) <= max_data_of(a, base) ==> data_at(a, base, i) == data_at(b, base, i),
{
    lemma_slot_in_region(a, base, i);
    let st = slot_start(a, base, i);
    assert(same_inside(a, b, st + 8, st + 16));
    lemma_word_frame(a, b, st + 8);
    if link_at(a, base, i) <= max_data_of(a, base) {
        let hi = st + SLOT_METADATA_SIZE + link_at(a, base, i);
        assert(same_inside(a, b, st + 16, hi));
        lemma_same_inside_subrange(a, b, st + 16, hi);
    }
}

/// The header words that an operation leaves alone.
proof fn lemma_header_words(a: Seq<u8>, b: Seq<u8>, base: int)
    requires
        layout_ok(a, base),
        a.len() == b.len(),
        same_inside(a, b, base, base + 8),
        same_inside(a, b, base + 16, base + 24),
    ensures
        capacity_of(a, base) == capacity_of(b, base),
        slot_size_of(a, base) == slot_size_of(b, base),
        region_end(a, base) == region_end(b, base),
        layout_ok(b, base),
{
    lemma_word_frame(a, b, base);
    lemma_word_frame(a, b, base + 16);
}

/// Bytes that differ only in the count word, the first-free word and slot `j`
/// leave every other slot as it was.
proof fn lemma_other_slots(a: Seq<u8>, b: Seq<u8>, base: int, j: int)
    requires
        layout_ok(a, base),
        a.len() == b.len(),
        0 <= j < capacity_of(a, base),
        forall|p: int|
            0 <= p < a.len() && !(base + 8 <= p < base + 16) && !(base + 24 <= p < base + 32) && !(
            slot_start(a, base, j) <= p < slot_start(a, base, j) + slot_size_of(a, base)) ==> #[trigger] a[p]
                == b[p],
    ensures
        capacity_of(a, base) == capacity_of(b, base),
        slot_size_of(a, base) == slot_size_of(b, base),
        region_end(a, base) == region_end(b, base),
        layout_ok(b, base),
        forall|i: int| #![trigger is_free_at(a, base, i)] #![trigger is_free_at(b, base, i)]
            0 <= i < capacity_of(a, base) && i != j ==> {
                &&& is_free_at(a, base, i) == is_free_at(b, base, i)
                &&& link_at(a, base, i) == link_at(b, base, i)
                &&& link_at(a, base, i) <= max_data_of(a, base) ==> data_at(a, base, i) == data_at(
                    b,
                    base,
                    i,
                )
            },
{
    lemma_slot_in_region(a, base, j);
    lemma_header_words(a, b, base);
    assert forall|i: int| #![trigger is_free_at(a, base, i)] #![trigger is_free_at(b, base, i)]
        0 <= i < capacity_of(a, base) && i != j implies {
        &&& is_free_at(a, base, i) == is_free_at(b, base, i)
        &&& link_at(a, base, i) == link_at(b, base, i)
        &&& link_at(a, base, i) <= max_data_of(a, base) ==> data_at(a, base, i) == data_at(b, base, i)
    } by {
        lemma_slot_in_region(a, base, i);
        lemma_slots_disjoint(a, base, i, j);
        lemma_slot_same(a, b, base, i);
    }
}

/// Bytes outside the arena do not matter to it.
pub proof fn lemma_frame(a: Seq<u8>, b: Seq<u8>, base: int)
    requires
        wf(a, base),
        a.len() == b.len(),
        same_inside(a, b, base, region_end(a, base)),
    ensures
        wf(b, base),
        contents(b, base) == contents(a, base),
        count_of(b, base) == count_of(a, base),
        capacity_of(b, base) == capacity_of(a, base),
        slot_size_of(b, base) == slot_size_of(a, base),
        first_free_of(b, base) == first_free_of(a, base),
        free_links(b, base) == free_links(a, base),
        region_end(b, base) == region_end(a, base),
{
    lemma_header_words(a, b, base);
    lemma_word_frame(a, b, base + 8);
    lemma_word_frame(a, b, base + 24);
    assert forall|i: int| #![trigger is_free_at(a, base, i)] #![trigger is_free_at(b, base, i)]
        0 <= i < capacity_of(a, base) implies {
        &&& is_free_at(a, base, i) == is_free_at(b, base, i)
        &&& link_at(a, base, i) == link_at(b, base, i)
        &&& link_at(a, base, i) <= max_data_of(a, base) ==> data_at(a, base, i) == data_at(b, base, i)
    } by {
        lemma_slot_in_region(a, base, i);
        lemma_slot_same(a, b, base, i);
    }
    let fl = choose|fl: Seq<int>| #[trigger] free_list_ok(a, base, fl);
    assert(free_list_ok(b, base, fl));
    assert(contents(b, base) =~= contents(a, base));
    assert(free_links(b, base) =~= free_links(a, base));
}

/// Facts every well-formed arena has.
pub proof fn lemma_wf_facts(s: Seq<u8>, base: int)
    requires
        wf(s, base),
    ensures
        0 <= count_of(s, base) <= capacity_of(s, base),
        capacity_of(s, base) <= s.len(),
        contents(s, base).len() == capacity_of(s, base),
        count_of(s, base) < capacity_of(s, base) ==> {
            &&& 0 <= first_free_of(s, base) < capacity_of(s, base)
            &&& contents(s, base)[first_free_of(s, base)] is None
        },
        forall|i: int|
            0 <= i < capacity_of(s, base) && #[trigger] contents(s, base)[i] is Some ==> contents(
                s,
                base,
            )[i].unwrap().len() <= max_data_of(s, base),
{
    lemma_capacity_fits(s, base);
    let fl = choose|fl: Seq<int>| #[trigger] free_list_ok(s, base, fl);
    if count_of(s, base) < capacity_of(s, base) {
        assert(fl.len() > 0);
        assert(0 <= fl[0] < capacity_of(s, base));
    }
    assert forall|i: int|
        0 <= i < capacity_of(s, base) && #[trigger] contents(s, base)[i] is Some implies contents(
        s,
        base,
    )[i].unwrap().len() <= max_data_of(s, base) by {
        lemma_slot_in_region(s, base, i);
    }
}

/// Whether slot `i` is free, in an arena that fits its region.
fn free_at(mem: &[u8], base: usize, ss: usize, i: usize) -> (r: bool)
    requires
        layout_ok(mem@, base as int),
        ss == slot_size_of(mem@, base as int),
        i < capacity_of(mem@, base as int),
    ensures
        r == is_free_at(mem@, base as int, i as int),
{
    proof {
        lemma_capacity_fits(mem@, base as int);
        lemma_slot_in_region(mem@, base as int, i as int);
    }
    assert(mem@.len() == mem.len());
    mem[base + SLOTS_HEADER_SIZE + i * ss] == 0
}

/// The link word of slot `i`, in an arena that fits its region.
fn link_of(mem: &[u8], base: usize, ss: usize, i: usize) -> (r: u64)
    requires
        layout_ok(mem@, base as int),
        ss == slot_size_of(mem@, base as int),
        i < capacity_of(mem@, base as int),
    ensures
        r == link_at(mem@, base as int, i as int),
{
    proof {
        lemma_capacity_fits(mem@, base as int);
        lemma_slot_in_region(mem@, base as int, i as int);
    }
    assert(mem@.len() == mem.len());
    read_word(mem, base + SLOTS_HEADER_SIZE + i * ss + 8)
}

/// Writes the four header words of an arena at `base`.
fn write_header(
    mem: &mut [u8],
    base: usize,
    capacity: usize,
    count: usize,
    slot_size: usize,
    first_free: usize,
)
    requires
        base + SLOTS_HEADER_SIZE <= old(mem)@.len(),
    ensures
        same_outside(old(mem)@, final(mem)@, base as int, base + SLOTS_HEADER_SIZE),
        capacity_of(final(mem)@, base as int) == capacity,
        count_of(final(mem)@, base as int) == count,
        slot_size_of(final(mem)@, base as int) == slot_size,
        first_free_of(final(mem)@, base as int) == first_free,
{
    let ghost s0 = mem@;
    assert(mem@.len() == mem.len());
    write_usize(mem, base, capacity);
    let ghost s1 = mem@;
    write_usize(mem, base + 8, count);
    let ghost s2 = mem@;
    write_usize(mem, base + 16, slot_size);
    let ghost s3 = mem@;
    write_usize(mem, base + 24, first_free);
    let ghost s4 = mem@;
    proof {
        let b = base as int;
        lemma_word_frame(s1, s4, b);
        lemma_word_frame(s2, s4, b + 8);
        lemma_word_frame(s3, s4, b + 16);
    }
}

/// Marks slot `index` (which starts at `start`) occupied by `data`.
fn set_record_data(mem: &mut [u8], base: usize, index: usize, start: usize, data: &[u8])
    requires
        layout_ok(old(mem)@, base as int),
        0 <= index < capacity_of(old(mem)@, base as int),
        start == slot_start(old(mem)@, base as int, index as int),
        data@.len() <= max_data_of(old(mem)@, base as int),
    ensures
        same_outside(
            old(mem)@,
            final(mem)@,
            start as int,
            start + slot_size_of(old(mem)@, base as int),
        ),
        layout_ok(final(mem)@, base as int),
        capacity_of(final(mem)@, base as int) == capacity_of(old(mem)@, base as int),
        slot_size_of(final(mem)@, base as int) == slot_size_of(old(mem)@, base as int),
        !is_free_at(final(mem)@, base as int, index as int),
        link_at(final(mem)@, base as int, index as int) == data@.len(),
        data_at(final(mem)@, base as int, index as int) == data@,
{
    let ghost s0 = mem@;
    let ghost b = base as int;
    proof {
        lemma_slot_in_region(s0, b, index as int);
    }
    assert(mem@.len() == mem.len());
    mem[start] = 1;
    let ghost s1 = mem@;
    write_usize(mem, start + 8, data.len());
    let ghost s2 = mem@;
    write_bytes(mem, start + SLOT_METADATA_SIZE, data);
    let ghost s3 = mem@;
    proof {
        assert(s1 == s0.update(start as int, 1u8));
        lemma_header_words(s0, s3, b);
        lemma_word_frame(s2, s3, start + 8);
    }
}

/// Marks slot `index` (which starts at `start`) free, linking it to `next`.
fn set_slot_free(mem: &mut [u8], base: usize, index: usize, start: usize, next: usize)
    requires
        layout_ok(old(mem)@, base as int),
        0 <= index < capacity_of(old(mem)@, base as int),
        start == slot_start(old(mem)@, base as int, index as int),
    ensures
        same_outside(
            old(mem)@,
            final(mem)@,
            start as int,
            start + slot_size_of(old(mem)@, base as int),
        ),
        layout_ok(final(mem)@, base as int),
        capacity_of(final(mem)@, base as int) == capacity_of(old(mem)@, base as int),
        slot_size_of(final(mem)@, base as int) == slot_size_of(old(mem)@, base as int),
        is_free_at(final(mem)@, base as int, index as int),
        link_at(final(mem)@, base as int, index as int) == next,
{
    let ghost s0 = mem@;
    let ghost b = base as int;
    proof {
        lemma_slot_in_region(s0, b, index as int);
    }
    assert(mem@.len() == mem.len());
    mem[start] = 0;
    let ghost s1 = mem@;
    write_usize(mem, start + 8, next);
    let ghost s2 = mem@;
    proof {
        assert(s1 == s0.update(start as int, 0u8));
        lemma_header_words(s0, s2, b);
    }
}

/// The changes made by `insert`, `remove` and `update`: slot `j` and the two
/// mutable header words are all that differ.
pub open spec fn changed_only(a: Seq<u8>, b: Seq<u8>, base: int, j: int) -> bool {
    &&& a.len() == b.len()
    &&& forall|p: int|
        #![trigger a[p]]
        #![trigger b[p]]
        0 <= p < a.len() && !(base + 8 <= p < base + 16) && !(base + 24 <= p < base + 32) && !(
        slot_start(a, base, j) <= p < slot_start(a, base, j) + slot_size_of(a, base)) ==> a[p] == b[p]
}

proof fn lemma_contents_update(a: Seq<u8>, b: Seq<u8>, base: int, j: int, e: Option<Seq<u8>>)
    requires
        wf(a, base),
        changed_only(a, b, base, j),
        0 <= j < capacity_of(a, base),
        entry_at(b, base, j) == e,
    ensures
        capacity_of(b, base) == capacity_of(a, base),
        slot_size_of(b, base) == slot_size_of(a, base),
        region_end(b, base) == region_end(a, base),
        contents(b, base) == contents(a, base).update(j, e),
{
    lemma_other_slots(a, b, base, j);
    assert(contents(b, base) =~= contents(a, base).update(j, e));
}

/// The free list is shorter than the capacity when some slot is occupied.
proof fn lemma_free_list_short(s: Seq<u8>, b: int, fl: Seq<int>, index: int)
    requires
        free_list_ok(s, b, fl),
        0 <= index < capacity_of(s, b),
        !is_free_at(s, b, index),
    ensures
        fl.len() < capacity_of(s, b),
        count_of(s, b) >= 1,
{
    let cap = capacity_of(s, b);
    fl.unique_seq_to_set();
    let range = vstd::set_lib::set_int_range(0, cap).remove(index);
    vstd::set_lib::lemma_int_range(0, cap);
    assert forall|x: int| fl.to_set().contains(x) implies range.contains(x) by {
        let w = choose|w: int| 0 <= w < fl.len() && fl[w] == x;
        assert(0 <= fl[w] < cap && is_free_at(s, b, fl[w]));
    }
    vstd::set_lib::lemma_len_subset(fl.to_set(), range);
}

proof fn lemma_remove_free_list(s0: Seq<u8>, s3: Seq<u8>, b: int, index: int, fl: Seq<int>)
    requires
        wf(s0, b),
        free_list_ok(s0, b, fl),
        0 <= index < capacity_of(s0, b),
        !is_free_at(s0, b, index),
        changed_only(s0, s3, b, index),
        is_free_at(s3, b, index),
        link_at(s3, b, index) == first_free_of(s0, b),
        first_free_of(s3, b) == index,
        count_of(s3, b) == count_of(s0, b) - 1,
    ensures
        wf(s3, b),
        capacity_of(s3, b) == capacity_of(s0, b),
        slot_size_of(s3, b) == slot_size_of(s0, b),
        region_end(s3, b) == region_end(s0, b),
        contents(s3, b) == contents(s0, b).update(index, None),
{
    lemma_other_slots(s0, s3, b, index);
    lemma_contents_update(s0, s3, b, index, None);
    assert(!fl.contains(index));
    let fl2 = seq![index] + fl;
    assert(fl2.no_duplicates());
    assert forall|k: int| 0 <= k < fl2.len() implies {
        &&& 0 <= #[trigger] fl2[k] < capacity_of(s3, b)
        &&& is_free_at(s3, b, fl2[k])
        &&& link_at(s3, b, fl2[k]) == if k + 1 < fl2.len() { fl2[k + 1] } else { capacity_of(s3, b) }
    } by {
        if k > 0 {
            assert(fl2[k] == fl[k - 1]);
            assert(fl[k - 1] != index);
            assert(is_free_at(s0, b, fl[k - 1]));
        }
    }
    assert forall|i: int| 0 <= i < capacity_of(s3, b) && #[trigger] is_free_at(s3, b, i) implies fl2.contains(i) by {
        if i != index {
            assert(is_free_at(s0, b, i));
            let w = choose|w: int| 0 <= w < fl.len() && fl[w] == i;
            assert(fl2[w + 1] == i);
        } else {
            assert(fl2[0] == i);
        }
    }
    assert(free_list_ok(s3, b, fl2));
    assert(sizes_ok(s3, b));
}

// ---------------------------------------------------------------------------
// The arena.
// ---------------------------------------------------------------------------

/// A slot arena with a free list, laid out in a byte region.
#[derive(Debug, Clone, Copy)]
pub struct Slots {
    pub header: Header,
}

impl Slots {
    /// Offset of the arena in its region.
    pub open spec fn base(&self) -> int {
        self.header.base as int
    }

    /// Bytes taken by `capacity` slots of `data_size` bytes each (the header
    /// not included).
    pub fn calculate_required_size(capacity: usize, data_size: usize) -> (r: usize)
        requires
            SLOT_METADATA_SIZE + data_size <= usize::MAX,
            (SLOT_METADATA_SIZE + data_size) * capacity <= usize::MAX,
        ensures
            r == (SLOT_METADATA_SIZE + data_size) * capacity,
    {
        let slot_size = SLOT_METADATA_SIZE + data_size;
        slot_size * capacity
    }

    /// Writes a fresh arena of `capacity` free slots of `data_size` bytes at `base`.
    ///
    /// Fails with `MisalignedMemory`, writing nothing, exactly when `base` is not
    /// word aligned.
    pub fn new(mem: &mut [u8], base: usize, capacity: usize, data_size: usize) -> (r: Result<
        Slots,
        InMemoryTableError,
    >)
        requires
            SLOT_METADATA_SIZE + data_size <= usize::MAX,
            base + SLOTS_HEADER_SIZE + (SLOT_METADATA_SIZE + data_size) * capacity <= old(mem)@.len(),
        ensures
            base % SLOTS_HEADER_ALIGN != 0 <==> r is Err,
            r matches Err(e) ==> is_misaligned_error(e, base, SLOTS_HEADER_ALIGN) && final(mem)@
                == old(mem)@,
            r matches Ok(slots) ==> {
                &&& slots.base() == base
                &&& wf(final(mem)@, base as int)
                &&& capacity_of(final(mem)@, base as int) == capacity
                &&& slot_size_of(final(mem)@, base as int) == SLOT_METADATA_SIZE + data_size
                &&& count_of(final(mem)@, base as int) == 0
                &&& first_free_of(final(mem)@, base as int) == 0
                &&& contents(final(mem)@, base as int) == all_free(capacity as int)
                &&& free_links(final(mem)@, base as int) == Seq::new(
                    capacity as nat,
                    |i: int| Some(i + 1),
                )
                &&& same_outside(old(mem)@, final(mem)@, base as int, region_end(final(mem)@, base as int))
            },
    {
        let header = match Header::new(base, SLOTS_HEADER_ALIGN, SLOTS_HEADER_SIZE) {
            Ok(h) => h,
            Err(e) => return Err(e),
        };
        let slot_size = SLOT_METADATA_SIZE + data_size;
        let ghost s0 = mem@;
        assert(mem@.len() == mem.len());
        write_header(mem, base, capacity, 0, slot_size, 0);
        let ghost s1 = mem@;
        proof {
            assert(slot_size * capacity == (SLOT_METADATA_SIZE + data_size) * capacity);
            assert(0 <= base);
            assert(base + SLOTS_HEADER_SIZE <= s1.len());
            assert(SLOT_METADATA_SIZE <= slot_size_of(s1, base as int) <= usize::MAX);
            assert(region_end(s1, base as int) == base + 32 + capacity * slot_size);
            assert(layout_ok(s1, base as int));
        }
        let slots = Slots { header };
        slots.initialize_free_list(mem);
        proof {
            let s = mem@;
            let b = base as int;
            lemma_word_frame(s1, s, b + 8);
            lemma_word_frame(s1, s, b + 24);
            let fl = Seq::new(capacity as nat, |i: int| i);
            assert(fl.no_duplicates());
            assert forall|i: int| 0 <= i < capacity_of(s, b) && #[trigger] is_free_at(s, b, i) implies fl.contains(
                i,
            ) by {
                assert(fl[i] == i);
            }
            assert(free_list_ok(s, b, fl));
            assert(contents(s, b) =~= all_free(capacity as int));
            assert(free_links(s, b) =~= Seq::new(capacity as nat, |i: int| Some(i + 1)));
        }
        Ok(slots)
    }

    /// Attaches to an arena already laid out at `base`.
    ///
    /// Fails with `MisalignedMemory` exactly when `base` is not word aligned.
    pub fn open(base: usize) -> (r: Result<Slots, InMemoryTableError>)
        ensures
            base % SLOTS_HEADER_ALIGN != 0 <==> r is Err,
            r matches Err(e) ==> is_misaligned_error(e, base, SLOTS_HEADER_ALIGN),
            r matches Ok(slots) ==> slots.base() == base,
    {
        match Header::new(base, SLOTS_HEADER_ALIGN, SLOTS_HEADER_SIZE) {
            Ok(header) => Ok(Slots { header }),
            Err(e) => Err(e),
        }
    }

    /// Marks every slot free, each one linking to the next; the last one links
    /// to the capacity. The header is left as it is.
    pub fn initialize_free_list(&self, mem: &mut [u8])
        requires
            layout_ok(old(mem)@, self.base()),
        ensures
            same_outside(
                old(mem)@,
                final(mem)@,
                self.base() + SLOTS_HEADER_SIZE,
                region_end(old(mem)@, self.base()),
            ),
            layout_ok(final(mem)@, self.base()),
            capacity_of(final(mem)@, self.base()) == capacity_of(old(mem)@, self.base()),
            slot_size_of(final(mem)@, self.base()) == slot_size_of(old(mem)@, self.base()),
            chained_free(final(mem)@, self.base(), capacity_of(old(mem)@, self.base())),
    {
        let base = self.header.base;
        let ghost b = base as int;
        let ghost s0 = mem@;
        proof {
            lemma_capacity_fits(s0, b);
        }
        assert(mem@.len() == mem.len());
        let capacity = read_usize(mem, base);
        let slot_size = read_usize(mem, base + 16);
        let mut i: usize = 0;
        while i < capacity
            invariant
                i <= capacity,
                b == base,
                layout_ok(s0, b),
                capacity == capacity_of(s0, b),
                slot_size == slot_size_of(s0, b),
                mem@.len() == mem.len(),
                same_outside(s0, mem@, b + SLOTS_HEADER_SIZE, region_end(s0, b)),
                chained_free(mem@, b, i as int),
            decreases capacity - i,
        {
            let ghost prev = mem@;
            proof {
                lemma_slot_in_region(s0, b, i as int);
                lemma_header_words(s0, prev, b);
            }
            let start = base + SLOTS_HEADER_SIZE + i * slot_size;
            mem[start] = 0;
            let ghost mid = mem@;
            write_usize(mem, start + 8, i + 1);
            proof {
                let s = mem@;
                assert(mid == prev.update(start as int, 0u8));
                assert(same_outside(prev, s, start as int, start + 16));
                lemma_header_words(prev, s, b);
                assert forall|k: int| 0 <= k < i + 1 implies #[trigger] is_free_at(s, b, k) && link_at(s, b, k) == k + 1 by {
                    if k < i {
                        assert(is_free_at(prev, b, k));
                        lemma_slot_in_region(s0, b, k);
                        lemma_slots_disjoint(s0, b, k, i as int);
                        lemma_slot_same(prev, s, b, k);
                    }
                }
                assert(chained_free(s, b, i + 1));
            }
            i = i + 1;
        }
        proof {
            lemma_header_words(s0, mem@, b);
            assert(i == capacity);
            assert(chained_free(mem@, b, capacity as int));
        }
    }

    /// Whether the bytes at `base` of `mem` form a well-formed arena: the
    /// header and slots fit the region, occupied slots fit their data areas,
    /// and the free slots form one chain from the header's first free slot
    /// to the capacity, as long as the capacity minus the count.
    #[verifier::spinoff_prover]
    pub fn check(&self, mem: &[u8]) -> (r: bool)
        ensures
            r == wf(mem@, self.base()),
    {
        let base = self.header.base;
        let ghost s = mem@;
        let ghost b = base as int;
        assert(mem@.len() == mem.len());
        if mem.len() < SLOTS_HEADER_SIZE || base > mem.len() - SLOTS_HEADER_SIZE {
            return false;
        }
        let cap64 = read_word(mem, base);
        let count64 = read_word(mem, base + 8);
        let ss64 = read_word(mem, base + 16);
        let first64 = read_word(mem, base + 24);
        if ss64 < SLOT_METADATA_SIZE as u64 || ss64 > usize::MAX as u64 {
            return false;
        }
        assert((cap64 as int) * (ss64 as int) <= u64::MAX as int * u64::MAX as int) by (nonlinear_arith)
            requires
                cap64 <= u64::MAX,
                ss64 <= u64::MAX,
        ;
        let end: u128 = base as u128 + SLOTS_HEADER_SIZE as u128 + (cap64 as u128) * (ss64 as u128);
        if end > mem.len() as u128 {
            return false;
        }
        assert(layout_ok(s, b));
        proof {
            lemma_capacity_fits(s, b);
        }
        let cap = cap64 as usize;
        let ss = ss64 as usize;
        let max = ss - SLOT_METADATA_SIZE;
        // occupied slots fit their data areas
        let mut i: usize = 0;
        while i < cap
            invariant
                s == mem@,
                b == base as int,
                b == self.base(),
                layout_ok(s, b),
                cap == capacity_of(s, b),
                ss == slot_size_of(s, b),
                max == max_data_of(s, b),
                i <= cap,
                forall|j: int|
                    0 <= j < i && !#[trigger] is_free_at(s, b, j) ==> link_at(s, b, j) <= max_data_of(s, b),
            decreases cap - i,
        {
            if !free_at(mem, base, ss, i) && link_of(mem, base, ss, i) > max as u64 {
                assert(!is_free_at(s, b, i as int) && link_at(s, b, i as int) > max_data_of(s, b));
                assert(!sizes_ok(s, b));
                return false;
            }
            i = i + 1;
        }
        assert(sizes_ok(s, b));
        // the free list
        let mut visited: Vec<bool> = Vec::new();
        let mut k: usize = 0;
        while k < cap
            invariant
                k <= cap,
                visited@.len() == k,
                forall|j: int| 0 <= j < k ==> !#[trigger] visited@[j],
            decreases cap - k,
        {
            visited.push(false);
            k = k + 1;
        }
        let ghost big = choose|fl: Seq<int>| #[trigger] free_list_ok(s, b, fl);
        let ghost mut fl: Seq<int> = Seq::empty();
        let mut n: usize = 0;
        let mut cur: u64 = first64;
        while cur != cap64
            invariant
                s == mem@,
                b == base as int,
                b == self.base(),
                layout_ok(s, b),
                sizes_ok(s, b),
                cap == capacity_of(s, b),
                cap64 == cap,
                ss == slot_size_of(s, b),
                first64 == first_free_of(s, b),
                count64 == count_of(s, b),
                big == choose|fl: Seq<int>| #[trigger] free_list_ok(s, b, fl),
                n == fl.len(),
                n <= cap,
                visited@.len() == cap,
                fl.no_duplicates(),
                forall|j: int| 0 <= j < cap ==> (#[trigger] visited@[j] <==> fl.contains(j)),
                forall|j: int|
                    0 <= j < fl.len() ==> {
                        &&& 0 <= #[trigger] fl[j] < cap
                        &&& is_free_at(s, b, fl[j])
                        &&& link_at(s, b, fl[j]) == if j + 1 < fl.len() {
                            fl[j + 1]
                        } else {
                            cur as int
                        }
                    },
                first64 == if fl.len() > 0 {
                    fl[0]
                } else {
                    cur as int
                },
                has_free_list(s, b) ==> {
                    &&& free_list_ok(s, b, big)
                    &&& n <= big.len()
                    &&& fl == big.subrange(0, n as int)
                    &&& cur == if n < big.len() {
                        big[n as int]
                    } else {
                        cap as int
                    }
                },
            decreases cap - n,
        {
            if n >= cap || cur >= cap64 {
                proof {
                    if has_free_list(s, b) {
                        assert(n < big.len());
                        assert(0 <= big[n as int] < cap);
                        assert(false);
                    }
                }
                return false;
            }
            let c = cur as usize;
            if !free_at(mem, base, ss, c) || visited[c] {
                proof {
                    if has_free_list(s, b) {
                        assert(n < big.len());
                        assert(big[n as int] == c);
                        assert(is_free_at(s, b, big[n as int]));
                        if visited@[c as int] {
                            assert(fl.contains(c as int));
                            let w = choose|w: int| 0 <= w < fl.len() && fl[w] == c;
                            assert(big[w] == big[n as int]);
                        }
                        assert(false);
                    }
                }
                return false;
            }
            let next = link_of(mem, base, ss, c);
            visited.set(c, true);
            proof {
                let old_fl = fl;
                fl = fl.push(c as int);
                assert forall|j: int| 0 <= j < cap implies (#[trigger] visited@[j] <==> fl.contains(j)) by {
                    if j == c {
                        assert(fl[fl.len() - 1] == j);
                    } else {
                        if old_fl.contains(j) {
                            let w = choose|w: int| 0 <= w < old_fl.len() && old_fl[w] == j;
                            assert(fl[w] == j);
                        }
                        if fl.contains(j) {
                            let w = choose|w: int| 0 <= w < fl.len() && fl[w] == j;
                            assert(w < old_fl.len());
                            assert(old_fl[w] == j);
                        }
                    }
                }
                assert(fl.no_duplicates()) by {
                    assert forall|x: int, y: int| 0 <= x < y < fl.len() implies fl[x] != fl[y] by {
                        if y == fl.len() - 1 {
                            assert(old_fl[x] == fl[x]);
                            assert(old_fl.contains(fl[x]));
                        }
                    }
                }
                if has_free_list(s, b) {
                    assert(fl =~= big.subrange(0, n + 1));
                }
            }
            n = n + 1;
            cur = next;
        }
        proof {
            if has_free_list(s, b) {
                if n < big.len() {
                    assert(0 <= big[n as int] < cap);
                }
                assert(fl =~= big);
            }
        }
        if count64 as u128 + n as u128 != cap64 as u128 {
            return false;
        }
        let mut j: usize = 0;
        while j < cap
            invariant
                s == mem@,
                b == base as int,
                b == self.base(),
                layout_ok(s, b),
                cap == capacity_of(s, b),
                ss == slot_size_of(s, b),
                visited@.len() == cap,
                forall|i: int| 0 <= i < cap ==> (#[trigger] visited@[i] <==> fl.contains(i)),
                j <= cap,
                forall|i: int| 0 <= i < j && #[trigger] is_free_at(s, b, i) ==> fl.contains(i),
                has_free_list(s, b) ==> free_list_ok(s, b, big) && fl == big,
            decreases cap - j,
        {
            if free_at(mem, base, ss, j) && !visited[j] {
                proof {
                    if has_free_list(s, b) {
                        assert(is_free_at(s, b, j as int));
                        assert(fl.contains(j as int));
                        assert(false);
                    }
                }
                return false;
            }
            j = j + 1;
        }
        assert(free_list_ok(s, b, fl));
        true
    }

    /// The number of occupied slots.
    pub fn count(&self, mem: &[u8]) -> (r: usize)
        requires
            wf(mem@, self.base()),
        ensures
            r == count_of(mem@, self.base()),
    {
        proof {
            lemma_wf_facts(mem@, self.base());
        }
        assert(mem@.len() == mem.len());
        read_usize(mem, self.header.base + 8)
    }

    /// The number of slots.
    pub fn capacity(&self, mem: &[u8]) -> (r: usize)
        requires
            wf(mem@, self.base()),
        ensures
            r == capacity_of(mem@, self.base()),
    {
        proof {
            lemma_wf_facts(mem@, self.base());
        }
        assert(mem@.len() == mem.len());
        read_usize(mem, self.header.base)
    }

    /// The largest record a slot holds.
    pub fn max_data_size(&self, mem: &[u8]) -> (r: usize)
        requires
            wf(mem@, self.base()),
        ensures
            r == max_data_of(mem@, self.base()),
    {
        proof {
            lemma_wf_facts(mem@, self.base());
        }
        assert(mem@.len() == mem.len());
        let slot_size = read_usize(mem, self.header.base + 16);
        slot_size - SLOT_METADATA_SIZE
    }

    /// Stores `data` in the first free slot and returns that slot.
    ///
    /// Fails, changing nothing, with `TableFull` when every slot is occupied,
    /// else with `RecordSizeTooBig` when `data` is longer than a slot holds.
    #[verifier::spinoff_prover]
    pub fn insert(&self, mem: &mut [u8], data: &[u8]) -> (r: Result<usize, InMemoryTableError>)
        requires
            wf(old(mem)@, self.base()),
        ensures
            wf(final(mem)@, self.base()),
            same_outside(old(mem)@, final(mem)@, self.base(), region_end(old(mem)@, self.base())),
            capacity_of(final(mem)@, self.base()) == capacity_of(old(mem)@, self.base()),
            slot_size_of(final(mem)@, self.base()) == slot_size_of(old(mem)@, self.base()),
            region_end(final(mem)@, self.base()) == region_end(old(mem)@, self.base()),
            r is Err <==> count_of(old(mem)@, self.base()) >= capacity_of(old(mem)@, self.base())
                || data@.len() > max_data_of(old(mem)@, self.base()),
            r matches Err(e) ==> {
                &&& final(mem)@ == old(mem)@
                &&& count_of(old(mem)@, self.base()) >= capacity_of(old(mem)@, self.base()) ==> e
                    == (InMemoryTableError::TableFull {
                    current: count_of(old(mem)@, self.base()) as usize,
                    capacity: capacity_of(old(mem)@, self.base()) as usize,
                })
                &&& count_of(old(mem)@, self.base()) < capacity_of(old(mem)@, self.base()) ==> e
                    == (InMemoryTableError::RecordSizeTooBig {
                    current: data@.len() as usize,
                    max: max_data_of(old(mem)@, self.base()) as usize,
                })
            },
            r matches Ok(index) ==> {
                &&& index == first_free_of(old(mem)@, self.base())
                &&& index < capacity_of(old(mem)@, self.base())
                &&& contents(old(mem)@, self.base())[index as int] is None
                &&& contents(final(mem)@, self.base()) == contents(old(mem)@, self.base()).update(
                    index as int,
                    Some(data@),
                )
                &&& count_of(final(mem)@, self.base()) == count_of(old(mem)@, self.base()) + 1
                &&& first_free_of(final(mem)@, self.base()) == link_at(old(mem)@, self.base(), index as int)
                &&& free_links(final(mem)@, self.base()) == free_links(old(mem)@, self.base()).update(
                    index as int,
                    None,
                )
            },
    {
        let base = self.header.base;
        let ghost b = base as int;
        let ghost s0 = mem@;
        proof {
            lemma_wf_facts(s0, b);
            lemma_capacity_fits(s0, b);
        }
        assert(mem@.len() == mem.len());
        let capacity = read_usize(mem, base);
        let count = read_usize(mem, base + 8);
        if count >= capacity {
            return Err(InMemoryTableError::TableFull { current: count, capacity });
        }
        let slot_size = read_usize(mem, base + 16);
        if data.len() > slot_size - SLOT_METADATA_SIZE {
            return Err(
                InMemoryTableError::RecordSizeTooBig {
                    current: data.len(),
                    max: slot_size - SLOT_METADATA_SIZE,
                },
            );
        }
        let index = read_usize(mem, base + 24);
        let ghost fl = choose|fl: Seq<int>| #[trigger] free_list_ok(s0, b, fl);
        proof {
            assert(fl.len() > 0);
            assert(0 <= fl[0] < capacity);
            lemma_slot_in_region(s0, b, index as int);
            assert(link_at(s0, b, index as int) <= capacity);
        }
        let start = base + SLOTS_HEADER_SIZE + index * slot_size;
        let next_free = read_usize(mem, start + 8);
        write_usize(mem, base + 24, next_free);
        let ghost s1 = mem@;
        write_usize(mem, base + 8, count + 1);
        let ghost s2 = mem@;
        proof {
            lemma_header_words(s0, s2, b);
        }
        set_record_data(mem, base, index, start, data);
        let ghost s3 = mem@;
        proof {
            assert(changed_only(s0, s3, b, index as int));
            lemma_contents_update(s0, s3, b, index as int, Some(data@));
            lemma_other_slots(s0, s3, b, index as int);
            lemma_word_frame(s1, s3, b + 24);
            lemma_word_frame(s2, s3, b + 8);
            let fl2 = fl.drop_first();
            assert forall|i: int| 0 <= i < capacity_of(s3, b) && #[trigger] is_free_at(s3, b, i) implies fl2.contains(i) by {
                assert(is_free_at(s0, b, i));
                assert(fl.contains(i));
                let w = choose|w: int| 0 <= w < fl.len() && fl[w] == i;
                assert(w != 0);
                assert(fl2[w - 1] == i);
            }
            assert forall|k: int| 0 <= k < fl2.len() implies {
                &&& 0 <= #[trigger] fl2[k] < capacity_of(s3, b)
                &&& is_free_at(s3, b, fl2[k])
                &&& link_at(s3, b, fl2[k]) == if k + 1 < fl2.len() { fl2[k + 1] } else { capacity_of(s3, b) }
            } by {
                assert(fl2[k] == fl[k + 1]);
                assert(fl[k + 1] != fl[0]);
            }
            assert(free_list_ok(s3, b, fl2));
            assert(sizes_ok(s3, b));
            lemma_free_links_update(s0, s3, b, index as int);
            assert(free_links(s3, b) =~= free_links(s0, b).update(index as int, None));
        }
        Ok(index)
    }

    /// Replaces the data of the occupied slot `index`.
    ///
    /// Fails, changing nothing, with `RecordSizeTooBig` when `data` is longer
    /// than a slot holds.
    pub fn update(&self, mem: &mut [u8], index: usize, data: &[u8]) -> (r: Result<(), InMemoryTableError>)
        requires
            wf(old(mem)@, self.base()),
            index < capacity_of(old(mem)@, self.base()),
            contents(old(mem)@, self.base())[index as int] is Some,
        ensures
            wf(final(mem)@, self.base()),
            same_outside(old(mem)@, final(mem)@, self.base(), region_end(old(mem)@, self.base())),
            capacity_of(final(mem)@, self.base()) == capacity_of(old(mem)@, self.base()),
            slot_size_of(final(mem)@, self.base()) == slot_size_of(old(mem)@, self.base()),
            region_end(final(mem)@, self.base()) == region_end(old(mem)@, self.base()),
            count_of(final(mem)@, self.base()) == count_of(old(mem)@, self.base()),
            r is Err <==> data@.len() > max_data_of(old(mem)@, self.base()),
            r matches Err(e) ==> final(mem)@ == old(mem)@ && e == (InMemoryTableError::RecordSizeTooBig {
                current: data@.len() as usize,
                max: max_data_of(old(mem)@, self.base()) as usize,
            }),
            r is Ok ==> contents(final(mem)@, self.base()) == contents(old(mem)@, self.base()).update(
                index as int,
                Some(data@),
            ),
            first_free_of(final(mem)@, self.base()) == first_free_of(old(mem)@, self.base()),
            free_links(final(mem)@, self.base()) == free_links(old(mem)@, self.base()),
    {
        let base = self.header.base;
        let ghost b = base as int;
        let ghost s0 = mem@;
        proof {
            lemma_wf_facts(s0, b);
            lemma_capacity_fits(s0, b);
            lemma_slot_in_region(s0, b, index as int);
        }
        assert(mem@.len() == mem.len());
        let slot_size = read_usize(mem, base + 16);
        if data.len() > slot_size - SLOT_METADATA_SIZE {
            return Err(
                InMemoryTableError::RecordSizeTooBig {
                    current: data.len(),
                    max: slot_size - SLOT_METADATA_SIZE,
                },
            );
        }
        let start = base + SLOTS_HEADER_SIZE + index * slot_size;
        set_record_data(mem, base, index, start, data);
        let ghost s1 = mem@;
        proof {
            assert(changed_only(s0, s1, b, index as int));
            lemma_contents_update(s0, s1, b, index as int, Some(data@));
            lemma_other_slots(s0, s1, b, index as int);
            lemma_word_frame(s0, s1, b + 8);
            lemma_word_frame(s0, s1, b + 24);
            let fl = choose|fl: Seq<int>| #[trigger] free_list_ok(s0, b, fl);
            assert forall|k: int| 0 <= k < fl.len() implies {
                &&& 0 <= #[trigger] fl[k] < capacity_of(s1, b)
                &&& is_free_at(s1, b, fl[k])
                &&& link_at(s1, b, fl[k]) == if k + 1 < fl.len() { fl[k + 1] } else { capacity_of(s1, b) }
            } by {
                assert(is_free_at(s0, b, fl[k]));
            }
            assert forall|i: int| 0 <= i < capacity_of(s1, b) && #[trigger] is_free_at(s1, b, i) implies fl.contains(i) by {
                assert(is_free_at(s0, b, i));
            }
            assert(free_list_ok(s1, b, fl));
            assert(sizes_ok(s1, b));
            lemma_free_links_update(s0, s1, b, index as int);
            assert(free_links(s1, b) =~= free_links(s0, b));
        }
        Ok(())
    }

    /// The data held by slot `index`: empty when the slot is free.
    pub fn get<'a>(&self, mem: &'a [u8], index: usize) -> (r: &'a [u8])
        requires
            wf(mem@, self.base()),
            index < capacity_of(mem@, self.base()),
        ensures
            r@ == match contents(mem@, self.base())[index as int] {
                Some(d) => d,
                None => Seq::<u8>::empty(),
            },
    {
        let base = self.header.base;
        let ghost b = base as int;
        proof {
            lemma_wf_facts(mem@, b);
            lemma_capacity_fits(mem@, b);
            lemma_slot_in_region(mem@, b, index as int);
        }
        assert(mem@.len() == mem.len());
        let slot_size = read_usize(mem, base + 16);
        let start = base + SLOTS_HEADER_SIZE + index * slot_size;
        if mem[start] == 0 {
            return vstd::slice::slice_subrange(mem, 0, 0);
        }
        let size = read_usize(mem, start + 8);
        vstd::slice::slice_subrange(mem, start + SLOT_METADATA_SIZE, start + SLOT_METADATA_SIZE + size)
    }

    /// Frees the occupied slot `index`; it becomes the first free slot.
    #[verifier::spinoff_prover]
    pub fn remove(&self, mem: &mut [u8], index: usize)
        requires
            wf(old(mem)@, self.base()),
            index < capacity_of(old(mem)@, self.base()),
            contents(old(mem)@, self.base())[index as int] is Some,
        ensures
            wf(final(mem)@, self.base()),
            same_outside(old(mem)@, final(mem)@, self.base(), region_end(old(mem)@, self.base())),
            capacity_of(final(mem)@, self.base()) == capacity_of(old(mem)@, self.base()),
            slot_size_of(final(mem)@, self.base()) == slot_size_of(old(mem)@, self.base()),
            region_end(final(mem)@, self.base()) == region_end(old(mem)@, self.base()),
            contents(final(mem)@, self.base()) == contents(old(mem)@, self.base()).update(
                index as int,
                None,
            ),
            count_of(final(mem)@, self.base()) == count_of(old(mem)@, self.base()) - 1,
            first_free_of(final(mem)@, self.base()) == index,
            free_links(final(mem)@, self.base()) == free_links(old(mem)@, self.base()).update(
                index as int,
                Some(first_free_of(old(mem)@, self.base())),
            ),
    {
        let base = self.header.base;
        let ghost b = base as int;
        let ghost s0 = mem@;
        let ghost fl = choose|fl: Seq<int>| #[trigger] free_list_ok(s0, b, fl);
        proof {
            lemma_capacity_fits(s0, b);
            lemma_slot_in_region(s0, b, index as int);
            lemma_free_list_short(s0, b, fl, index as int);
        }
        assert(mem@.len() == mem.len());
        let next_free = read_usize(mem, base + 24);
        let slot_size = read_usize(mem, base + 16);
        let start = base + SLOTS_HEADER_SIZE + index * slot_size;
        set_slot_free(mem, base, index, start, next_free);
        let ghost s1 = mem@;
        proof {
            lemma_header_words(s0, s1, b);
            lemma_word_frame(s0, s1, b + 8);
        }
        write_usize(mem, base + 24, index);
        let ghost s2 = mem@;
        proof {
            lemma_word_frame(s0, s2, b + 8);
        }
        let count = read_usize(mem, base + 8);
        write_usize(mem, base + 8, count - 1);
        let ghost s3 = mem@;
        proof {
            lemma_header_words(s1, s3, b);
            assert(s3[start as int] == s1[start as int]);
            assert(changed_only(s0, s3, b, index as int));
            lemma_word_frame(s2, s3, b + 24);
            lemma_word_frame(s1, s3, start + 8);
            lemma_remove_free_list(s0, s3, b, index as int, fl);
            lemma_other_slots(s0, s3, b, index as int);
            lemma_free_links_update(s0, s3, b, index as int);
            assert(free_links(s3, b) =~= free_links(s0, b).update(index as int, Some(first_free_of(s0, b))));
        }
    }

    /// Whether slot `index` is free.
    pub fn is_free(&self, mem: &[u8], index: usize) -> (r: bool)
        requires
            wf(mem@, self.base()),
            index < capacity_of(mem@, self.base()),
        ensures
            r == (contents(mem@, self.base())[index as int] is None),
    {
        let base = self.header.base;
        proof {
            lemma_wf_facts(mem@, base as int);
            lemma_capacity_fits(mem@, base as int);
            lemma_slot_in_region(mem@, base as int, index as int);
        }
        assert(mem@.len() == mem.len());
        let slot_size = read_usize(mem, base + 16);
        mem[base + SLOTS_HEADER_SIZE + index * slot_size] == 0
    }

    /// Whether slot `index` is occupied.
    pub fn is_occupied(&self, mem: &[u8], index: usize) -> (r: bool)
        requires
            wf(mem@, self.base()),
            index < capacity_of(mem@, self.base()),
        ensures
            r == (contents(mem@, self.base())[index as int] is Some),
    {
        let base = self.header.base;
        proof {
            lemma_wf_facts(mem@, base as int);
            lemma_capacity_fits(mem@, base as int);
            lemma_slot_in_region(mem@, base as int, index as int);
        }
        assert(mem@.len() == mem.len());
        let slot_size = read_usize(mem, base + 16);
        mem[base + SLOTS_HEADER_SIZE + index * slot_size] != 0
    }
}

/// The free slots of `c`.
pub open spec fn free_set(c: Seq<Option<Seq<u8>>>) -> Set<int> {
    Set::new(|i: int| 0 <= i < c.len() && c[i] is None)
}

proof fn lemma_occupied_plus_free(c: Seq<Option<Seq<u8>>>)
    ensures
        free_set(c).finite(),
        occupied_count(c) + free_set(c).len() == c.len(),
    decreases c.len(),
{
    if c.len() == 0 {
        assert(free_set(c) =~= Set::<int>::empty());
    } else {
        let u = c.drop_last();
        lemma_occupied_plus_free(u);
        let last = c.len() - 1;
        if c[last] is None {
            assert(free_set(c) =~= free_set(u).insert(last));
        } else {
            assert(free_set(c) =~= free_set(u));
        }
    }
}

/// The occupied slots of `c`.
pub open spec fn occupied_set(c: Seq<Option<Seq<u8>>>) -> Set<int> {
    Set::new(|i: int| 0 <= i < c.len() && c[i] is Some)
}

/// The occupied slots of `c` are as many as `occupied_count` says.
pub proof fn lemma_occupied_set(c: Seq<Option<Seq<u8>>>)
    ensures
        occupied_set(c).finite(),
        occupied_set(c).len() == occupied_count(c),
    decreases c.len(),
{
    if c.len() == 0 {
        assert(occupied_set(c) =~= Set::<int>::empty());
    } else {
        let u = c.drop_last();
        lemma_occupied_set(u);
        let last = c.len() - 1;
        if c[last] is Some {
            assert(occupied_set(c) =~= occupied_set(u).insert(last));
        } else {
            assert(occupied_set(c) =~= occupied_set(u));
        }
    }
}

/// The count an arena keeps is the number of its occupied slots.
pub proof fn law_count_is_occupied(s: Seq<u8>, base: int)
    requires
        wf(s, base),
    ensures
        count_of(s, base) == occupied_count(contents(s, base)),
{
    let c = contents(s, base);
    let fl = choose|fl: Seq<int>| #[trigger] free_list_ok(s, base, fl);
    lemma_occupied_plus_free(c);
    fl.unique_seq_to_set();
    assert forall|i: int| fl.to_set().contains(i) <==> free_set(c).contains(i) by {
        if fl.to_set().contains(i) {
            let w = choose|w: int| 0 <= w < fl.len() && fl[w] == i;
            assert(0 <= fl[w] < capacity_of(s, base) && is_free_at(s, base, fl[w]));
        }
        if free_set(c).contains(i) {
            assert(is_free_at(s, base, i));
        }
    }
    assert(fl.to_set() =~= free_set(c));
}

} // verus!
