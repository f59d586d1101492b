use vstd::bytes::*;
use vstd::prelude::*;

verus! {

broadcast use vstd::slice::group_slice_axioms;

/// The little-endian machine word stored at byte offset `off` of `s`.
pub open spec fn word_at(s: Seq<u8>, off: int) -> u64 {
    spec_u64_from_le_bytes(s.subrange(off, off + 8))
}

/// `a` and `b` have the same length and differ at most inside `[lo, hi)`.
pub open spec fn same_outside(a: Seq<u8>, b: Seq<u8>, lo: int, hi: int) -> bool {
    &&& a.len() == b.len()
    &&& forall|i: int| #![trigger a[i]] #![trigger b[i]] 0 <= i < a.len() && !(lo <= i < hi) ==> a[i] == b[i]
}

/// `a` and `b` hold the same bytes inside `[lo, hi)`.
pub open spec fn same_inside(a: Seq<u8>, b: Seq<u8>, lo: int, hi: int) -> bool {
    &&& 0 <= lo <= hi <= a.len()
    &&& hi <= b.len()
    &&& forall|i: int| #![trigger a[i]] #![trigger b[i]] lo <= i < hi ==> a[i] == b[i]
}

pub proof fn lemma_same_inside_subrange(a: Seq<u8>, b: Seq<u8>, lo: int, hi: int)
    requires
        same_inside(a, b, lo, hi),
    ensures
        a.subrange(lo, hi) == b.subrange(lo, hi),
{
    assert(a.subrange(lo, hi) =~= b.subrange(lo, hi));
}

/// A word only depends on the eight bytes it is made of.
pub proof fn lemma_word_frame(a: Seq<u8>, b: Seq<u8>, off: int)
    requires
        same_inside(a, b, off, off + 8),
    ensures
        word_at(a, off) == word_at(b, off),
{
    lemma_same_inside_subrange(a, b, off, off + 8);
}

/// Reads the word at byte offset `off`.
pub fn read_word(mem: &[u8], off: usize) -> (r: u64)
    requires
        off + 8 <= mem@.len(),
    ensures
        r == word_at(mem@, off as int),
{
    assert(mem@.len() == mem.len());
    let s = vstd::slice::slice_subrange(mem, off, off + 8);
    u64_from_le_bytes(s)
}

/// Reads the word at byte offset `off` as a `usize`; the word must fit.
pub fn read_usize(mem: &[u8], off: usize) -> (r: usize)
    requires
        off + 8 <= mem@.len(),
        word_at(mem@, off as int) <= usize::MAX,
    ensures
        r == word_at(mem@, off as int),
{
    read_word(mem, off) as usize
}

/// Writes `v` as the word at byte offset `off`, leaving every other byte as it was.
pub fn write_word(mem: &mut [u8], off: usize, v: u64)
    requires
        off + 8 <= old(mem)@.len(),
    ensures
        same_outside(old(mem)@, final(mem)@, off as int, off + 8),
        word_at(final(mem)@, off as int) == v,
{
    let bytes = u64_to_le_bytes(v);
    let mut k: usize = 0;
    while k < 8
        invariant
            k <= 8,
            off + 8 <= mem@.len(),
            mem@.len() == mem.len(),
            bytes@ == spec_u64_to_le_bytes(v),
            bytes@.len() == 8,
            same_outside(old(mem)@, mem@, off as int, off + 8),
            forall|j: int| 0 <= j < k ==> #[trigger] mem@[off + j] == bytes@[j],
        decreases 8 - k,
    {
        mem[off + k] = bytes[k];
        k = k + 1;
    }
    proof {
        assert forall|j: int| 0 <= j < 8 implies #[trigger] mem@.subrange(off as int, off + 8)[j]
            == bytes@[j] by {
            assert(mem@[off + j] == bytes@[j]);
        }
        assert(mem@.subrange(off as int, off + 8) =~= spec_u64_to_le_bytes(v));
        lemma_auto_spec_u64_to_from_le_bytes();
    }
}

/// Writes a `usize` as the word at byte offset `off`.
pub fn write_usize(mem: &mut [u8], off: usize, v: usize)
    requires
        off + 8 <= old(mem)@.len(),
    ensures
        same_outside(old(mem)@, final(mem)@, off as int, off + 8),
        word_at(final(mem)@, off as int) == v,
{
    write_word(mem, off, v as u64)
}

/// Copies `data` to byte offset `off`, leaving every other byte as it was.
pub fn write_bytes(mem: &mut [u8], off: usize, data: &[u8])
    requires
        off + data@.len() <= old(mem)@.len(),
    ensures
        same_outside(old(mem)@, final(mem)@, off as int, off + data@.len()),
        final(mem)@.subrange(off as int, off + data@.len()) == data@,
{
    let n = data.len();
    let mut k: usize = 0;
    while k < n
        invariant
            k <= n,
            n == data@.len(),
            off + n <= mem@.len(),
            mem@.len() == mem.len(),
            same_outside(old(mem)@, mem@, off as int, off + n),
            forall|j: int| 0 <= j < k ==> #[trigger] mem@[off + j] == data@[j],
        decreases n - k,
    {
        mem[off + k] = data[k];
        k = k + 1;
    }
    assert forall|j: int| 0 <= j < n implies #[trigger] mem@.subrange(off as int, off + n)[j]
        == data@[j] by {
        assert(mem@[off + j] == data@[j]);
    }
    assert(mem@.subrange(off as int, off + n) =~= data@);
}

} // verus!
