use crate::error::InMemoryTableError;
use crate::internal::header::is_misaligned_error;
use crate::internal::memory_array::MemoryArray;
use crate::internal::offset::Offset;
use crate::internal::slot::{
    capacity_of, contents, count_of, first_free_of, free_links, law_count_is_occupied, link_at,
    lemma_frame, lemma_occupied_set,
    lemma_wf_facts, max_data_of, occupied_set, region_end, slot_size_of, wf, Slots, SLOTS_HEADER_SIZE,
    SLOT_METADATA_SIZE,
};
use crate::internal::word::{
    lemma_word_frame, read_word, same_inside, same_outside, word_at, write_word,
};
use std::collections::hash_map::DefaultHasher;
use std::hash::Hasher;
use vstd::bytes::{lemma_auto_spec_u64_to_from_le_bytes, spec_u64_to_le_bytes, u64_to_le_bytes};
use vstd::prelude::*;
use vstd::std_specs::hash::DefaultHasherAdditionalSpecFns;

verus! {

broadcast use vstd::slice::group_slice_axioms;

/// Bytes of a bucket: the offset of the first node of its chain.
pub const BUCKET_SIZE: usize = 8;

/// Bytes of a node: key, record position, offset of the next node.
pub const NODE_SIZE: usize = 24;

// ---------------------------------------------------------------------------
// Hashing.
// ---------------------------------------------------------------------------

/// The hash of a key: `DefaultHasher` fed the key's eight little-endian bytes.
pub open spec fn key_hash(key: u64) -> u64 {
    DefaultHasher::spec_finish(seq![spec_u64_to_le_bytes(key)])
}

/// The bucket a key belongs to among `nb` buckets.
pub open spec fn bucket_of(key: u64, nb: int) -> int {
    (key_hash(key) as int) % nb
}

/// Among `nb > 0` buckets a key always falls in one of them, and always the
/// same: the bucket is a function of the key and the bucket count alone
/// (`DefaultHasher::new` starts from fixed keys), for every handle and in
/// every process.
pub proof fn law_bucket_of_key(key: u64, nb: int)
    requires
        nb > 0,
    ensures
        0 <= bucket_of(key, nb) < nb,
{
}

/// An index for `size > 0` nodes has at least one bucket, so hashing a key
/// into it never divides by zero and lands in one of its buckets.
pub proof fn law_index_has_buckets(key: u64, size: int)
    requires
        size > 0,
    ensures
        buckets_for(size) >= 1,
        0 <= bucket_of(key, buckets_for(size)) < buckets_for(size),
{
}

/// Hashes a key with `DefaultHasher`.
pub fn hash_key(key: u64) -> (r: u64)
    ensures
        r == key_hash(key),
{
    let mut hasher = DefaultHasher::new();
    let bytes = u64_to_le_bytes(key);
    hasher.write(bytes.as_slice());
    hasher.finish()
}

// ---------------------------------------------------------------------------
// Nodes.
// ---------------------------------------------------------------------------

pub open spec fn node_bytes(key: u64, position: u64, next: u64) -> Seq<u8> {
    spec_u64_to_le_bytes(key) + spec_u64_to_le_bytes(position) + spec_u64_to_le_bytes(next)
}

pub open spec fn nkey(d: Seq<u8>) -> u64 {
    word_at(d, 0)
}

pub open spec fn npos(d: Seq<u8>) -> u64 {
    word_at(d, 8)
}

pub open spec fn nnext(d: Seq<u8>) -> int {
    word_at(d, 16) as int
}

pub proof fn lemma_node_bytes(key: u64, position: u64, next: u64)
    ensures
        node_bytes(key, position, next).len() == NODE_SIZE,
        nkey(node_bytes(key, position, next)) == key,
        npos(node_bytes(key, position, next)) == position,
        nnext(node_bytes(key, position, next)) == next,
{
    lemma_auto_spec_u64_to_from_le_bytes();
    let d = node_bytes(key, position, next);
    assert(d.subrange(0, 8) =~= spec_u64_to_le_bytes(key));
    assert(d.subrange(8, 16) =~= spec_u64_to_le_bytes(position));
    assert(d.subrange(16, 24) =~= spec_u64_to_le_bytes(next));
}

/// A node of a bucket's chain.
#[derive(Debug, Clone, Copy)]
pub struct Node {
    pub key: u64,
    pub position: usize,
    pub next: Offset,
}

impl Node {
    pub open spec fn bytes(&self) -> Seq<u8> {
        node_bytes(self.key, self.position as u64, self.next.value as u64)
    }

    /// The node stored in `d`.
    pub fn decode(d: &[u8]) -> (r: Node)
        requires
            d@.len() == NODE_SIZE,
            npos(d@) <= usize::MAX,
            nnext(d@) <= usize::MAX,
        ensures
            r.key == nkey(d@),
            r.position == npos(d@),
            r.next.value == nnext(d@),
    {
        assert(d@.len() == d.len());
        let key = read_word(d, 0);
        let position = read_word(d, 8) as usize;
        let next = read_word(d, 16) as usize;
        Node { key, position, next: Offset { value: next } }
    }

    /// The node's bytes.
    pub fn encode(&self) -> (r: Vec<u8>)
        ensures
            r@ == self.bytes(),
            r@.len() == NODE_SIZE,
            nkey(r@) == self.key,
            npos(r@) == self.position,
            nnext(r@) == self.next.value,
    {
        let mut v = u64_to_le_bytes(self.key);
        let mut p = u64_to_le_bytes(self.position as u64);
        let mut n = u64_to_le_bytes(self.next.value as u64);
        v.append(&mut p);
        v.append(&mut n);
        proof {
            lemma_node_bytes(self.key, self.position as u64, self.next.value as u64);
        }
        v
    }
}

// ---------------------------------------------------------------------------
// What the bytes of an index region stand for.
// ---------------------------------------------------------------------------

/// The arena of nodes, which follows the `nb` buckets.
pub open spec fn node_table(s: Seq<u8>, nb: int) -> Seq<Option<Seq<u8>>> {
    contents(s, nb * BUCKET_SIZE)
}

/// The raw offset stored in bucket `i`.
pub open spec fn bucket_word(s: Seq<u8>, i: int) -> int {
    word_at(s, i * BUCKET_SIZE) as int
}

pub open spec fn occupied(t: Seq<Option<Seq<u8>>>, j: int) -> bool {
    0 <= j < t.len() && t[j] is Some
}

/// Every node holds exactly one node's bytes.
pub open spec fn nodes_sized(t: Seq<Option<Seq<u8>>>) -> bool {
    forall|j: int| #[trigger] occupied(t, j) ==> t[j].unwrap().len() == NODE_SIZE
}

/// No key is stored twice.
pub open spec fn keys_unique(t: Seq<Option<Seq<u8>>>) -> bool {
    forall|j1: int, j2: int|
        #[trigger] occupied(t, j1) && #[trigger] occupied(t, j2) && j1 != j2 ==> nkey(t[j1].unwrap())
            != nkey(t[j2].unwrap())
}

/// Some node holds `key`.
pub open spec fn holds_key(t: Seq<Option<Seq<u8>>>, key: u64) -> bool {
    exists|j: int| #[trigger] occupied(t, j) && nkey(t[j].unwrap()) == key
}

/// The node that holds `key`.
pub open spec fn node_of(t: Seq<Option<Seq<u8>>>, key: u64) -> int {
    choose|j: int| #[trigger] occupied(t, j) && nkey(t[j].unwrap()) == key
}

/// The index as a map from key to record position.
pub open spec fn key_map(t: Seq<Option<Seq<u8>>>) -> Map<u64, u64> {
    Map::new(|k: u64| holds_key(t, k), |k: u64| npos(t[node_of(t, k)].unwrap()))
}

/// `chains[b]` lists the nodes of bucket `b` in chain order.
pub open spec fn chains_ok(s: Seq<u8>, nb: int, chains: Seq<Seq<int>>) -> bool {
    let t = node_table(s, nb);
    &&& chains.len() == nb
    &&& forall|b: int, k: int|
        #![trigger chains[b][k]]
        0 <= b < nb && 0 <= k < chains[b].len() ==> {
            &&& occupied(t, chains[b][k])
            &&& nnext(t[chains[b][k]].unwrap()) == if k + 1 < chains[b].len() {
                chains[b][k + 1] + 1
            } else {
                0
            }
            &&& bucket_of(nkey(t[chains[b][k]].unwrap()), nb) == b
        }
    &&& forall|b: int|
        0 <= b < nb ==> #[trigger] bucket_word(s, b) == if chains[b].len() > 0 {
            chains[b][0] + 1
        } else {
            0
        }
    &&& forall|b1: int, k1: int, b2: int, k2: int|
        0 <= b1 < nb && 0 <= k1 < chains[b1].len() && 0 <= b2 < nb && 0 <= k2 < chains[b2].len() && (
        b1 != b2 || k1 != k2) ==> #[trigger] chains[b1][k1] != #[trigger] chains[b2][k2]
    &&& forall|j: int|
        #[trigger] occupied(t, j) ==> exists|b: int, k: int|
            0 <= b < nb && 0 <= k < chains[b].len() && #[trigger] chains[b][k] == j
}

pub closed spec fn has_chains(s: Seq<u8>, nb: int) -> bool {
    exists|chains: Seq<Seq<int>>| #[trigger] chains_ok(s, nb, chains)
}

/// The index with `nb` buckets is well formed.
pub open spec fn index_wf(s: Seq<u8>, nb: int) -> bool {
    &&& nb > 0
    &&& nb * BUCKET_SIZE <= s.len()
    &&& wf(s, nb * BUCKET_SIZE)
    &&& max_data_of(s, nb * BUCKET_SIZE) == NODE_SIZE
    &&& nodes_sized(node_table(s, nb))
    &&& keys_unique(node_table(s, nb))
    &&& positions_fit(node_table(s, nb))
    &&& key_map(node_table(s, nb)).dom().finite()
    &&& has_chains(s, nb)
}

/// Every stored record position fits a `usize`.
pub open spec fn positions_fit(t: Seq<Option<Seq<u8>>>) -> bool {
    forall|j: int| #[trigger] occupied(t, j) ==> npos(t[j].unwrap()) <= usize::MAX
}

// ---------------------------------------------------------------------------
// Facts on the key map.
// ---------------------------------------------------------------------------

proof fn lemma_key_map_insert(t: Seq<Option<Seq<u8>>>, j: int, d: Seq<u8>)
    requires
        0 <= j < t.len(),
        t[j] is None,
        keys_unique(t),
        !holds_key(t, nkey(d)),
    ensures
        keys_unique(t.update(j, Some(d))),
        key_map(t.update(j, Some(d))) == key_map(t).insert(nkey(d), npos(d)),
{
    let t2 = t.update(j, Some(d));
    assert forall|j1: int, j2: int|
        #[trigger] occupied(t2, j1) && #[trigger] occupied(t2, j2) && j1 != j2 implies nkey(
        t2[j1].unwrap(),
    ) != nkey(t2[j2].unwrap()) by {
        if j1 != j && j2 != j {
            assert(occupied(t, j1) && occupied(t, j2));
        } else if j1 == j {
            assert(occupied(t, j2));
        } else {
            assert(occupied(t, j1));
        }
    }
    assert forall|k: u64| key_map(t2).dom().contains(k) <==> key_map(t).insert(nkey(d), npos(d)).dom().contains(k) by {
        if k != nkey(d) {
            if holds_key(t2, k) {
                let w = choose|w: int| #[trigger] occupied(t2, w) && nkey(t2[w].unwrap()) == k;
                assert(occupied(t, w));
            }
            if holds_key(t, k) {
                let w = choose|w: int| #[trigger] occupied(t, w) && nkey(t[w].unwrap()) == k;
                assert(occupied(t2, w));
            }
        } else {
            assert(occupied(t2, j));
        }
    }
    assert forall|k: u64| #[trigger] key_map(t2).dom().contains(k) implies key_map(t2)[k] == key_map(t).insert(nkey(d), npos(d))[k] by {
        let w2 = node_of(t2, k);
        if k == nkey(d) {
            assert(occupied(t2, j));
            assert(w2 == j);
        } else {
            assert(w2 != j);
            assert(occupied(t, w2));
            let w = node_of(t, k);
            assert(occupied(t2, w));
            assert(w == w2);
        }
    }
    assert(key_map(t2) =~= key_map(t).insert(nkey(d), npos(d)));
}

proof fn lemma_key_map_remove(t: Seq<Option<Seq<u8>>>, j: int)
    requires
        occupied(t, j),
        keys_unique(t),
    ensures
        keys_unique(t.update(j, None)),
        key_map(t.update(j, None)) == key_map(t).remove(nkey(t[j].unwrap())),
{
    let t2 = t.update(j, None);
    let kd = nkey(t[j].unwrap());
    assert forall|j1: int, j2: int|
        #[trigger] occupied(t2, j1) && #[trigger] occupied(t2, j2) && j1 != j2 implies nkey(
        t2[j1].unwrap(),
    ) != nkey(t2[j2].unwrap()) by {
        assert(occupied(t, j1) && occupied(t, j2));
    }
    assert forall|k: u64| key_map(t2).dom().contains(k) <==> key_map(t).remove(kd).dom().contains(k) by {
        if holds_key(t2, k) {
            let w = choose|w: int| #[trigger] occupied(t2, w) && nkey(t2[w].unwrap()) == k;
            assert(occupied(t, w));
        }
        if holds_key(t, k) && k != kd {
            let w = choose|w: int| #[trigger] occupied(t, w) && nkey(t[w].unwrap()) == k;
            assert(w != j);
            assert(occupied(t2, w));
        }
    }
    assert forall|k: u64| #[trigger] key_map(t2).dom().contains(k) implies key_map(t2)[k] == key_map(t).remove(kd)[k] by {
        let w2 = node_of(t2, k);
        assert(occupied(t, w2));
        let w = node_of(t, k);
        assert(w == w2);
    }
    assert(key_map(t2) =~= key_map(t).remove(kd));
}

proof fn lemma_key_map_relink(t: Seq<Option<Seq<u8>>>, j: int, d: Seq<u8>)
    requires
        occupied(t, j),
        keys_unique(t),
        nkey(d) == nkey(t[j].unwrap()),
        npos(d) == npos(t[j].unwrap()),
    ensures
        keys_unique(t.update(j, Some(d))),
        key_map(t.update(j, Some(d))) == key_map(t),
{
    let t2 = t.update(j, Some(d));
    assert forall|j1: int, j2: int|
        #[trigger] occupied(t2, j1) && #[trigger] occupied(t2, j2) && j1 != j2 implies nkey(
        t2[j1].unwrap(),
    ) != nkey(t2[j2].unwrap()) by {
        assert(occupied(t, j1) && occupied(t, j2));
    }
    assert forall|k: u64| key_map(t2).dom().contains(k) <==> key_map(t).dom().contains(k) by {
        if holds_key(t2, k) {
            let w = choose|w: int| #[trigger] occupied(t2, w) && nkey(t2[w].unwrap()) == k;
            assert(occupied(t, w));
        }
        if holds_key(t, k) {
            let w = choose|w: int| #[trigger] occupied(t, w) && nkey(t[w].unwrap()) == k;
            assert(occupied(t2, w));
        }
    }
    assert forall|k: u64| #[trigger] key_map(t2).dom().contains(k) implies key_map(t2)[k] == key_map(t)[k] by {
        let w2 = node_of(t2, k);
        assert(occupied(t, w2));
        let w = node_of(t, k);
        assert(occupied(t2, w));
        assert(w == w2);
    }
    assert(key_map(t2) =~= key_map(t));
}

// ---------------------------------------------------------------------------
// How the chains follow the index's updates.
// ---------------------------------------------------------------------------

/// Buckets other than `h` keep their word.
pub open spec fn other_buckets_same(a: Seq<u8>, b: Seq<u8>, nb: int, h: int) -> bool {
    forall|i: int| 0 <= i < nb && i != h ==> #[trigger] bucket_word(b, i) == bucket_word(a, i)
}

proof fn lemma_start_chain(
    s0: Seq<u8>,
    s2: Seq<u8>,
    nb: int,
    chains: Seq<Seq<int>>,
    h: int,
    j: int,
    key: u64,
    pos: u64,
)
    requires
        chains_ok(s0, nb, chains),
        0 <= h < nb,
        bucket_of(key, nb) == h,
        chains[h].len() == 0,
        0 <= j < node_table(s0, nb).len(),
        node_table(s0, nb)[j] is None,
        node_table(s2, nb) == node_table(s0, nb).update(j, Some(node_bytes(key, pos, 0))),
        bucket_word(s2, h) == j + 1,
        other_buckets_same(s0, s2, nb, h),
    ensures
        chains_ok(s2, nb, chains.update(h, seq![j])),
{
    let t0 = node_table(s0, nb);
    let t2 = node_table(s2, nb);
    let c2 = chains.update(h, seq![j]);
    lemma_node_bytes(key, pos, 0);
    assert forall|b: int, k: int| #![trigger c2[b][k]] 0 <= b < nb && 0 <= k < c2[b].len() implies {
        &&& occupied(t2, c2[b][k])
        &&& nnext(t2[c2[b][k]].unwrap()) == if k + 1 < c2[b].len() { c2[b][k + 1] + 1 } else { 0 }
        &&& bucket_of(nkey(t2[c2[b][k]].unwrap()), nb) == b
    } by {
        if b != h {
            assert(c2[b][k] == chains[b][k]);
            assert(occupied(t0, chains[b][k]));
            assert(chains[b][k] != j);
        }
    }
    assert forall|b: int| 0 <= b < nb implies #[trigger] bucket_word(s2, b) == if c2[b].len() > 0 {
        c2[b][0] + 1
    } else {
        0
    } by {
        if b != h {
            assert(bucket_word(s0, b) == bucket_word(s2, b));
        }
    }
    assert forall|b1: int, k1: int, b2: int, k2: int|
        0 <= b1 < nb && 0 <= k1 < c2[b1].len() && 0 <= b2 < nb && 0 <= k2 < c2[b2].len() && (b1
            != b2 || k1 != k2) implies #[trigger] c2[b1][k1] != #[trigger] c2[b2][k2] by {
        if b1 != h && b2 != h {
            assert(chains[b1][k1] != chains[b2][k2]);
        } else if b1 == h {
            assert(occupied(t0, chains[b2][k2]));
        } else {
            assert(occupied(t0, chains[b1][k1]));
        }
    }
    assert forall|i: int| #[trigger] occupied(t2, i) implies exists|b: int, k: int|
        0 <= b < nb && 0 <= k < c2[b].len() && #[trigger] c2[b][k] == i by {
        if i == j {
            assert(c2[h][0] == i);
        } else {
            assert(occupied(t0, i));
            let (b, k) = choose|b: int, k: int| 0 <= b < nb && 0 <= k < chains[b].len() && #[trigger] chains[b][k] == i;
            assert(b != h);
            assert(c2[b][k] == i);
        }
    }
}

proof fn lemma_append_chain(
    s0: Seq<u8>,
    s2: Seq<u8>,
    nb: int,
    chains: Seq<Seq<int>>,
    h: int,
    j: int,
    key: u64,
    pos: u64,
)
    requires
        chains_ok(s0, nb, chains),
        0 <= h < nb,
        bucket_of(key, nb) == h,
        chains[h].len() > 0,
        0 <= j < node_table(s0, nb).len(),
        node_table(s0, nb)[j] is None,
        node_table(s2, nb) == node_table(s0, nb).update(j, Some(node_bytes(key, pos, 0))).update(
            chains[h].last(),
            Some(
                node_bytes(
                    nkey(node_table(s0, nb)[chains[h].last()].unwrap()),
                    npos(node_table(s0, nb)[chains[h].last()].unwrap()),
                    (j + 1) as u64,
                ),
            ),
        ),
        bucket_word(s2, h) == bucket_word(s0, h),
        other_buckets_same(s0, s2, nb, h),
    ensures
        chains_ok(s2, nb, chains.update(h, chains[h].push(j))),
{
    let t0 = node_table(s0, nb);
    let t2 = node_table(s2, nb);
    let c2 = chains.update(h, chains[h].push(j));
    let n = chains[h].len() as int;
    let last = chains[h][n - 1];
    assert(occupied(t0, last));
    assert(last != j);
    lemma_node_bytes(key, pos, 0);
    lemma_node_bytes(nkey(t0[last].unwrap()), npos(t0[last].unwrap()), (j + 1) as u64);
    assert forall|b: int, k: int| #![trigger c2[b][k]] 0 <= b < nb && 0 <= k < c2[b].len() implies {
        &&& occupied(t2, c2[b][k])
        &&& nnext(t2[c2[b][k]].unwrap()) == if k + 1 < c2[b].len() { c2[b][k + 1] + 1 } else { 0 }
        &&& bucket_of(nkey(t2[c2[b][k]].unwrap()), nb) == b
    } by {
        if b != h {
            assert(c2[b][k] == chains[b][k]);
            assert(occupied(t0, chains[b][k]));
            assert(chains[b][k] != j);
            assert(chains[b][k] != chains[h][n - 1]);
        } else if k < n {
            assert(c2[b][k] == chains[h][k]);
            assert(occupied(t0, chains[h][k]));
            assert(chains[h][k] != j);
            if k < n - 1 {
                assert(chains[h][k] != chains[h][n - 1]);
                assert(c2[b][k + 1] == chains[h][k + 1]);
            }
        }
    }
    assert forall|b: int| 0 <= b < nb implies #[trigger] bucket_word(s2, b) == if c2[b].len() > 0 {
        c2[b][0] + 1
    } else {
        0
    } by {
        if b != h {
            assert(bucket_word(s0, b) == bucket_word(s2, b));
        } else {
            assert(c2[b][0] == chains[h][0]);
        }
    }
    assert forall|b1: int, k1: int, b2: int, k2: int|
        0 <= b1 < nb && 0 <= k1 < c2[b1].len() && 0 <= b2 < nb && 0 <= k2 < c2[b2].len() && (b1
            != b2 || k1 != k2) implies #[trigger] c2[b1][k1] != #[trigger] c2[b2][k2] by {
        let x1 = if b1 == h && k1 == n { j } else { chains[b1][k1] };
        let x2 = if b2 == h && k2 == n { j } else { chains[b2][k2] };
        assert(c2[b1][k1] == x1);
        assert(c2[b2][k2] == x2);
        if !(b1 == h && k1 == n) && !(b2 == h && k2 == n) {
            assert(chains[b1][k1] != chains[b2][k2]);
        } else if b1 == h && k1 == n {
            assert(occupied(t0, chains[b2][k2]));
        } else {
            assert(occupied(t0, chains[b1][k1]));
        }
    }
    assert forall|i: int| #[trigger] occupied(t2, i) implies exists|b: int, k: int|
        0 <= b < nb && 0 <= k < c2[b].len() && #[trigger] c2[b][k] == i by {
        if i == j {
            assert(c2[h][n] == i);
        } else {
            assert(occupied(t0, i));
            let (b, k) = choose|b: int, k: int| 0 <= b < nb && 0 <= k < chains[b].len() && #[trigger] chains[b][k] == i;
            assert(c2[b][k] == i);
        }
    }
}

#[verifier::spinoff_prover]
#[verifier::rlimit(40)]
proof fn lemma_unlink_chain(
    s0: Seq<u8>,
    s2: Seq<u8>,
    nb: int,
    chains: Seq<Seq<int>>,
    h: int,
    p: int,
)
    requires
        chains_ok(s0, nb, chains),
        0 <= h < nb,
        0 <= p < chains[h].len(),
        p == 0 ==> node_table(s2, nb) == node_table(s0, nb).update(chains[h][p], None)
            && bucket_word(s2, h) == nnext(node_table(s0, nb)[chains[h][p]].unwrap()),
        p > 0 ==> node_table(s2, nb) == node_table(s0, nb).update(
            chains[h][p - 1],
            Some(
                node_bytes(
                    nkey(node_table(s0, nb)[chains[h][p - 1]].unwrap()),
                    npos(node_table(s0, nb)[chains[h][p - 1]].unwrap()),
                    nnext(node_table(s0, nb)[chains[h][p]].unwrap()) as u64,
                ),
            ),
        ).update(chains[h][p], None) && bucket_word(s2, h) == bucket_word(s0, h),
        other_buckets_same(s0, s2, nb, h),
    ensures
        chains_ok(s2, nb, chains.update(h, chains[h].remove(p))),
{
    let t0 = node_table(s0, nb);
    let t2 = node_table(s2, nb);
    let c = chains[h];
    let n = c.len() as int;
    let c2 = chains.update(h, c.remove(p));
    let idx = c[p];
    assert(occupied(t0, idx));
    if p > 0 {
        assert(occupied(t0, c[p - 1]));
        assert(c[p - 1] != idx);
        lemma_node_bytes(nkey(t0[c[p - 1]].unwrap()), npos(t0[c[p - 1]].unwrap()), nnext(t0[idx].unwrap()) as u64);
    }
    assert forall|b: int, k: int| #![trigger c2[b][k]] 0 <= b < nb && 0 <= k < c2[b].len() implies {
        &&& occupied(t2, c2[b][k])
        &&& nnext(t2[c2[b][k]].unwrap()) == if k + 1 < c2[b].len() { c2[b][k + 1] + 1 } else { 0 }
        &&& bucket_of(nkey(t2[c2[b][k]].unwrap()), nb) == b
    } by {
        if b != h {
            assert(c2[b][k] == chains[b][k]);
            assert(chains[b][k] != idx);
            if p > 0 {
                assert(chains[b][k] != c[p - 1]);
            }
        } else {
            let kk = if k < p { k } else { k + 1 };
            assert(c2[b][k] == c[kk]);
            assert(c[kk] != idx);
            if k + 1 < c2[b].len() {
                let kn = if k + 1 < p { k + 1 } else { k + 2 };
                assert(c2[b][k + 1] == c[kn]);
            }
            if p > 0 && kk != p - 1 {
                assert(c[kk] != c[p - 1]);
            }
            if p > 0 && kk == p - 1 && p + 1 < n {
                assert(c2[b][k + 1] == c[p + 1]);
            }
        }
    }
    assert forall|b: int| 0 <= b < nb implies #[trigger] bucket_word(s2, b) == if c2[b].len() > 0 {
        c2[b][0] + 1
    } else {
        0
    } by {
        if b != h {
            assert(bucket_word(s0, b) == bucket_word(s2, b));
        } else if p > 0 {
            assert(c2[b][0] == c[0]);
        } else if n > 1 {
            assert(c2[b][0] == c[1]);
        }
    }
    assert forall|b1: int, k1: int, b2: int, k2: int|
        0 <= b1 < nb && 0 <= k1 < c2[b1].len() && 0 <= b2 < nb && 0 <= k2 < c2[b2].len() && (b1
            != b2 || k1 != k2) implies #[trigger] c2[b1][k1] != #[trigger] c2[b2][k2] by {
        let kk1 = if b1 == h && k1 >= p { k1 + 1 } else { k1 };
        let kk2 = if b2 == h && k2 >= p { k2 + 1 } else { k2 };
        assert(c2[b1][k1] == chains[b1][kk1]);
        assert(c2[b2][k2] == chains[b2][kk2]);
        assert(chains[b1][kk1] != chains[b2][kk2]);
    }
    assert forall|i: int| #[trigger] occupied(t2, i) implies exists|b: int, k: int|
        0 <= b < nb && 0 <= k < c2[b].len() && #[trigger] c2[b][k] == i by {
        assert(i != idx);
        assert(occupied(t0, i));
        let (b, k) = choose|b: int, k: int| 0 <= b < nb && 0 <= k < chains[b].len() && #[trigger] chains[b][k] == i;
        if b != h {
            assert(c2[b][k] == i);
        } else if k < p {
            assert(c2[b][k] == i);
        } else {
            assert(k != p);
            assert(c2[b][k - 1] == i);
        }
    }
}

// ---------------------------------------------------------------------------
// The index.
// ---------------------------------------------------------------------------

/// The number of buckets for an index of `size` nodes: `size * 0.75` rounded up.
pub open spec fn buckets_for(size: int) -> int {
    (3 * size + 3) / 4
}

/// A chained hash index from primary key to record position, laid out in a
/// byte region: `total_buckets` bucket words, then an arena of nodes.
#[derive(Debug, Clone, Copy)]
pub struct Index {
    pub total_buckets: usize,
    pub buckets: MemoryArray,
    pub slots: Slots,
}

impl Index {
    pub open spec fn nb(&self) -> int {
        self.total_buckets as int
    }

    /// The handle matches the region and the region is well formed.
    pub open spec fn wf(&self, s: Seq<u8>) -> bool {
        &&& self.slots.base() == self.nb() * BUCKET_SIZE
        &&& index_wf(s, self.nb())
    }

    /// The key-to-position map the region holds.
    pub open spec fn view_of(&self, s: Seq<u8>) -> Map<u64, u64> {
        key_map(node_table(s, self.nb()))
    }

    /// One past the last byte of the index.
    pub open spec fn end_of(&self, s: Seq<u8>) -> int {
        region_end(s, self.nb() * BUCKET_SIZE)
    }

    /// The number of buckets for `size` nodes: `ceil(size * 0.75)`, computed on integers.
    pub fn total_buckets_for(size: usize) -> (r: usize)
        requires
            3 * size + 3 <= usize::MAX,
        ensures
            r == buckets_for(size as int),
    {
        (3 * size + 3) / 4
    }

    /// Bytes of an index for `size` nodes: the buckets and the node slots
    /// (the arena header not included).
    pub fn calculate_total_size(size: usize) -> (r: usize)
        requires
            3 * size + 3 <= usize::MAX,
            BUCKET_SIZE * buckets_for(size as int) + (SLOT_METADATA_SIZE + NODE_SIZE) * size
                <= usize::MAX,
        ensures
            r == BUCKET_SIZE * buckets_for(size as int) + (SLOT_METADATA_SIZE + NODE_SIZE) * size,
    {
        let total_buckets = Self::total_buckets_for(size);
        BUCKET_SIZE * total_buckets + Slots::calculate_required_size(size, NODE_SIZE)
    }

    /// Lays out an empty index for `size` nodes at the start of `mem`.
    pub fn new(mem: &mut [u8], size: usize) -> (r: Result<Index, InMemoryTableError>)
        requires
            3 * size + 3 <= usize::MAX,
            BUCKET_SIZE * buckets_for(size as int) + SLOTS_HEADER_SIZE + (SLOT_METADATA_SIZE
                + NODE_SIZE) * size <= old(mem)@.len(),
        ensures
            r matches Ok(index) && {
                &&& index.total_buckets == buckets_for(size as int)
                &&& capacity_of(final(mem)@, index.nb() * BUCKET_SIZE) == size
                &&& count_of(final(mem)@, index.nb() * BUCKET_SIZE) == 0
                &&& index.slots.base() == index.nb() * BUCKET_SIZE
                &&& first_free_of(final(mem)@, index.nb() * BUCKET_SIZE) == 0
                &&& free_links(final(mem)@, index.nb() * BUCKET_SIZE) == Seq::new(
                    size as nat,
                    |i: int| Some(i + 1),
                )
                &&& node_keys(node_table(final(mem)@, index.nb())) == Seq::new(
                    size as nat,
                    |i: int| None::<u64>,
                )
                &&& size > 0 ==> index.wf(final(mem)@) && index.view_of(final(mem)@) == Map::<
                    u64,
                    u64,
                >::empty()
            },
    {
        assert(mem@.len() == mem.len());
        let total_buckets = Self::total_buckets_for(size);
        let buckets_size = BUCKET_SIZE * total_buckets;
        let buckets = match MemoryArray::new(0, buckets_size, BUCKET_SIZE) {
            Ok(a) => a,
            Err(e) => return Err(e),
        };
        let mut i: usize = 0;
        while i < total_buckets
            invariant
                i <= total_buckets,
                buckets_size == BUCKET_SIZE * total_buckets,
                buckets_size <= mem@.len(),
                mem@.len() == old(mem)@.len(),
                mem@.len() == mem.len(),
                forall|b: int| 0 <= b < i ==> #[trigger] bucket_word(mem@, b) == 0,
            decreases total_buckets - i,
        {
            let ghost prev = mem@;
            write_word(mem, i * BUCKET_SIZE, 0);
            proof {
                assert forall|b: int| 0 <= b < i + 1 implies #[trigger] bucket_word(mem@, b) == 0 by {
                    if b < i {
                        assert(bucket_word(prev, b) == 0);
                        lemma_word_frame(prev, mem@, b * BUCKET_SIZE);
                    }
                }
            }
            i = i + 1;
        }
        let ghost s1 = mem@;
        let slots = match Slots::new(mem, buckets_size, size, NODE_SIZE) {
            Ok(slots) => slots,
            Err(e) => return Err(e),
        };
        let index = Index { total_buckets, buckets, slots };
        proof {
            let s = mem@;
            let nb = total_buckets as int;
            if size > 0 {
                assert(nb > 0);
                let t = node_table(s, nb);
                assert forall|j: int| !occupied(t, j) by {}
                let chains = Seq::new(nb as nat, |b: int| Seq::<int>::empty());
                assert forall|b: int| 0 <= b < nb implies #[trigger] bucket_word(s, b) == 0 by {
                    assert(bucket_word(s1, b) == 0);
                    lemma_word_frame(s1, s, b * BUCKET_SIZE);
                }
                assert(chains_ok(s, nb, chains));
                assert(index.view_of(s) =~= Map::<u64, u64>::empty());
            }
            assert(node_keys(node_table(s, nb)) =~= Seq::new(size as nat, |i: int| None::<u64>));
        }
        Ok(index)
    }

    /// Attaches to an index for `size` nodes laid out at the start of its region.
    pub fn open(size: usize) -> (r: Result<Index, InMemoryTableError>)
        requires
            3 * size + 3 <= usize::MAX,
            BUCKET_SIZE * buckets_for(size as int) <= usize::MAX,
        ensures
            r matches Ok(index) && index.total_buckets == buckets_for(size as int)
                && index.slots.base() == index.nb() * BUCKET_SIZE,
    {
        let total_buckets = Self::total_buckets_for(size);
        let buckets_size = BUCKET_SIZE * total_buckets;
        let buckets = match MemoryArray::new(0, buckets_size, BUCKET_SIZE) {
            Ok(a) => a,
            Err(e) => return Err(e),
        };
        let slots = match Slots::open(buckets_size) {
            Ok(slots) => slots,
            Err(e) => return Err(e),
        };
        Ok(Index { total_buckets, buckets, slots })
    }

    /// The bucket of `key`.
    fn hash(&self, key: u64) -> (r: usize)
        requires
            self.total_buckets > 0,
        ensures
            r == bucket_of(key, self.nb()),
            r < self.total_buckets,
    {
        let h = hash_key(key);
        (h % (self.total_buckets as u64)) as usize
    }

    /// Reads the node in the occupied slot `j`.
    fn read_node(&self, mem: &[u8], j: usize) -> (r: Node)
        requires
            self.wf(mem@),
            occupied(node_table(mem@, self.nb()), j as int),
        ensures
            r.key == nkey(node_table(mem@, self.nb())[j as int].unwrap()),
            r.position == npos(node_table(mem@, self.nb())[j as int].unwrap()),
            r.next.value == nnext(node_table(mem@, self.nb())[j as int].unwrap()),
    {
        let ghost t = node_table(mem@, self.nb());
        proof {
            lemma_wf_facts(mem@, self.slots.base());
            assert(occupied(t, j as int));
            lemma_next_fits(mem@, self.nb(), j as int);
        }
        assert(mem@.len() == mem.len());
        let d = self.slots.get(mem, j);
        Node::decode(d)
    }

    /// Finds the node that holds `key`.
    fn search(&self, mem: &[u8], key: u64) -> (r: Option<(usize, Node)>)
        requires
            self.wf(mem@),
        ensures
            r matches Some((j, node)) ==> {
                &&& occupied(node_table(mem@, self.nb()), j as int)
                &&& nkey(node_table(mem@, self.nb())[j as int].unwrap()) == key
                &&& node.key == key
                &&& node.position == npos(node_table(mem@, self.nb())[j as int].unwrap())
                &&& node.next.value == nnext(node_table(mem@, self.nb())[j as int].unwrap())
            },
            r is None ==> !holds_key(node_table(mem@, self.nb()), key),
    {
        let ghost s = mem@;
        let ghost nb = self.nb();
        let ghost t = node_table(s, nb);
        let ghost chains = choose|chains: Seq<Seq<int>>| #[trigger] chains_ok(s, nb, chains);
        let bucket_idx = self.hash(key);
        proof {
            assert(bucket_word(s, bucket_idx as int) == if chains[bucket_idx as int].len() > 0 {
                chains[bucket_idx as int][0] + 1
            } else {
                0
            });
            lemma_wf_facts(s, nb * BUCKET_SIZE);
        }
        assert(mem@.len() == mem.len());
        let first = read_word(mem, bucket_idx * BUCKET_SIZE);
        if first == 0 {
            proof {
                lemma_absent_from_chain(s, nb, chains, key, 0);
            }
            return None;
        }
        proof {
            assert(occupied(t, chains[bucket_idx as int][0]));
        }
        let mut cur: usize = (first - 1) as usize;
        let ghost mut k: int = 0;
        loop
            invariant
                self.wf(mem@),
                mem@ == s,
                nb == self.nb(),
                t == node_table(s, nb),
                chains_ok(s, nb, chains),
                bucket_idx == bucket_of(key, nb),
                0 <= bucket_idx < nb,
                0 <= k < chains[bucket_idx as int].len(),
                cur == chains[bucket_idx as int][k],
                forall|m: int| 0 <= m < k ==> nkey(t[#[trigger] chains[bucket_idx as int][m]].unwrap()) != key,
            decreases chains[bucket_idx as int].len() - k,
        {
            proof {
                assert(occupied(t, chains[bucket_idx as int][k]));
            }
            let node = self.read_node(mem, cur);
            if node.key == key {
                return Some((cur, node));
            }
            match node.next.get() {
                None => {
                    proof {
                        lemma_absent_from_chain(s, nb, chains, key, k + 1);
                    }
                    return None;
                },
                Some(n) => {
                    proof {
                        assert(k + 1 < chains[bucket_idx as int].len());
                    }
                    cur = n;
                    proof {
                        k = k + 1;
                    }
                },
            }
        }
    }

    /// Adds `key`, which the index does not hold yet (a primary key is stored
    /// once; the table looks it up before inserting), with its record
    /// `position`, at the end of its bucket's chain.
    ///
    /// Fails with `TableFull`, changing nothing, when every node slot is taken.
    #[verifier::spinoff_prover]
    #[verifier::rlimit(40)]
    pub fn insert(&self, mem: &mut [u8], key: u64, position: usize) -> (r: Result<
        (),
        InMemoryTableError,
    >)
        requires
            self.wf(old(mem)@),
            !self.view_of(old(mem)@).contains_key(key),
        ensures
            same_outside(old(mem)@, final(mem)@, 0, self.end_of(old(mem)@)),
            self.end_of(final(mem)@) == self.end_of(old(mem)@),
            r is Err <==> count_of(old(mem)@, self.slots.base()) >= capacity_of(
                old(mem)@,
                self.slots.base(),
            ),
            r matches Err(e) ==> final(mem)@ == old(mem)@ && e == (InMemoryTableError::TableFull {
                current: count_of(old(mem)@, self.slots.base()) as usize,
                capacity: capacity_of(old(mem)@, self.slots.base()) as usize,
            }),
            r is Ok ==> {
                &&& self.wf(final(mem)@)
                &&& self.view_of(final(mem)@) == self.view_of(old(mem)@).insert(key, position as u64)
                &&& count_of(final(mem)@, self.slots.base()) == count_of(old(mem)@, self.slots.base())
                    + 1
                &&& node_keys(node_table(final(mem)@, self.nb())) == node_keys(
                    node_table(old(mem)@, self.nb()),
                ).update(first_free_of(old(mem)@, self.slots.base()), Some(key))
                &&& first_free_of(final(mem)@, self.slots.base()) == link_at(
                    old(mem)@,
                    self.slots.base(),
                    first_free_of(old(mem)@, self.slots.base()),
                )
                &&& free_links(final(mem)@, self.slots.base()) == free_links(
                    old(mem)@,
                    self.slots.base(),
                ).update(first_free_of(old(mem)@, self.slots.base()), None)
            },
            capacity_of(final(mem)@, self.slots.base()) == capacity_of(old(mem)@, self.slots.base()),
    {
        let ghost s0 = mem@;
        let ghost nb = self.nb();
        let ghost base = self.slots.base();
        let ghost t0 = node_table(s0, nb);
        let ghost chains = choose|chains: Seq<Seq<int>>| #[trigger] chains_ok(s0, nb, chains);
        proof {
            lemma_wf_facts(s0, base);
        }
        let h = self.hash(key);
        proof {
            assert(bucket_word(s0, h as int) == if chains[h as int].len() > 0 {
                chains[h as int][0] + 1
            } else {
                0
            });
        }
        assert(mem@.len() == mem.len());
        let first = read_word(mem, h * BUCKET_SIZE);
        let node = Node { key, position, next: Offset::none() };
        let bytes = node.encode();
        if first != 0 {
            proof {
                assert(chains[h as int].len() > 0);
                assert(occupied(t0, chains[h as int][0]));
            }
            let mut cur: usize = (first - 1) as usize;
            let mut last = self.read_node(mem, cur);
            let ghost mut k: int = 0;
            loop
                invariant
                    self.wf(mem@),
                    mem@ == s0,
                    nb == self.nb(),
                    t0 == node_table(s0, nb),
                    chains_ok(s0, nb, chains),
                    0 <= h < nb,
                    0 <= k < chains[h as int].len(),
                    cur == chains[h as int][k],
                    last.key == nkey(t0[cur as int].unwrap()),
                    last.position == npos(t0[cur as int].unwrap()),
                    last.next.value == nnext(t0[cur as int].unwrap()),
                ensures
                    cur == chains[h as int][k],
                    k == chains[h as int].len() - 1,
                    0 <= k,
                    last.key == nkey(t0[cur as int].unwrap()),
                    last.position == npos(t0[cur as int].unwrap()),
                    last.next.value == nnext(t0[cur as int].unwrap()),
                decreases chains[h as int].len() - k,
            {
                match last.next.get() {
                    None => {
                        break;
                    },
                    Some(n) => {
                        proof {
                            assert(k + 1 < chains[h as int].len());
                            assert(occupied(t0, chains[h as int][k + 1]));
                        }
                        cur = n;
                        last = self.read_node(mem, cur);
                        proof {
                            k = k + 1;
                        }
                    },
                }
            }
            proof {
                assert(occupied(t0, cur as int));
            }
            let j = match self.slots.insert(mem, bytes.as_slice()) {
                Ok(j) => j,
                Err(e) => return Err(e),
            };
            let ghost s1 = mem@;
            let ghost t1 = node_table(s1, nb);
            proof {
                lemma_wf_facts(s1, base);
                assert(j != cur);
                assert(t1 == t0.update(j as int, Some(bytes@)));
            }
            let mut updated = last;
            updated.next = Offset::some(j);
            let ubytes = updated.encode();
            match self.slots.update(mem, cur, ubytes.as_slice()) {
                Ok(()) => {},
                Err(e) => return Err(e),
            }
            let ghost s2 = mem@;
            proof {
                let t2 = node_table(s2, nb);
                assert(other_buckets_same(s0, s2, nb, h as int) && bucket_word(s2, h as int)
                    == bucket_word(s0, h as int)) by {
                    assert forall|i: int| 0 <= i < nb implies #[trigger] bucket_word(s2, i) == bucket_word(s0, i) by {
                        lemma_word_frame(s0, s2, i * BUCKET_SIZE);
                    }
                }
                lemma_append_chain(s0, s2, nb, chains, h as int, j as int, key, position as u64);
                assert(chains_ok(s2, nb, chains.update(h as int, chains[h as int].push(j as int))));
                lemma_key_map_insert(t0, j as int, bytes@);
                lemma_key_map_relink(t1, cur as int, ubytes@);
                assert(node_keys(t2) =~= node_keys(t0).update(j as int, Some(key)));
                assert(positions_fit(t2));
                assert(nodes_sized(t2));
            }
        } else {
            let j = match self.slots.insert(mem, bytes.as_slice()) {
                Ok(j) => j,
                Err(e) => return Err(e),
            };
            let ghost s1 = mem@;
            proof {
                lemma_wf_facts(s1, base);
                assert(chains[h as int].len() == 0);
            }
            write_word(mem, h * BUCKET_SIZE, (j + 1) as u64);
            let ghost s2 = mem@;
            proof {
                lemma_frame(s1, s2, base);
                let t2 = node_table(s2, nb);
                assert(other_buckets_same(s0, s2, nb, h as int)) by {
                    assert forall|i: int| 0 <= i < nb && i != h implies #[trigger] bucket_word(s2, i) == bucket_word(s0, i) by {
                        lemma_word_frame(s0, s1, i * BUCKET_SIZE);
                        lemma_word_frame(s1, s2, i * BUCKET_SIZE);
                    }
                }
                lemma_start_chain(s0, s2, nb, chains, h as int, j as int, key, position as u64);
                assert(chains_ok(s2, nb, chains.update(h as int, seq![j as int])));
                lemma_key_map_insert(t0, j as int, bytes@);
                assert(node_keys(t2) =~= node_keys(t0).update(j as int, Some(key)));
                assert(positions_fit(t2));
                assert(nodes_sized(t2));
            }
        }
        Ok(())
    }

    /// Removes `key`, if present, unlinking its node from its bucket's chain.
    #[verifier::spinoff_prover]
    #[verifier::rlimit(60)]
    pub fn remove(&self, mem: &mut [u8], key: u64) -> (r: Result<(), InMemoryTableError>)
        requires
            self.wf(old(mem)@),
        ensures
            r is Ok,
            !self.view_of(old(mem)@).contains_key(key) ==> final(mem)@ == old(mem)@,
            self.view_of(old(mem)@).contains_key(key) ==> {
                let t = node_table(old(mem)@, self.nb());
                &&& node_keys(node_table(final(mem)@, self.nb())) == node_keys(t).update(
                    node_of(t, key),
                    None,
                )
                &&& first_free_of(final(mem)@, self.slots.base()) == node_of(t, key)
                &&& free_links(final(mem)@, self.slots.base()) == free_links(
                    old(mem)@,
                    self.slots.base(),
                ).update(node_of(t, key), Some(first_free_of(old(mem)@, self.slots.base())))
            },
            self.wf(final(mem)@),
            self.view_of(final(mem)@) == self.view_of(old(mem)@).remove(key),
            same_outside(old(mem)@, final(mem)@, 0, self.end_of(old(mem)@)),
            self.end_of(final(mem)@) == self.end_of(old(mem)@),
            capacity_of(final(mem)@, self.slots.base()) == capacity_of(old(mem)@, self.slots.base()),
            count_of(final(mem)@, self.slots.base()) == count_of(old(mem)@, self.slots.base()) - if self.view_of(
                old(mem)@,
            ).contains_key(key) {
                1int
            } else {
                0int
            },
    {
        let ghost s0 = mem@;
        let ghost nb = self.nb();
        let ghost base = self.slots.base();
        let ghost t0 = node_table(s0, nb);
        let ghost chains = choose|chains: Seq<Seq<int>>| #[trigger] chains_ok(s0, nb, chains);
        proof {
            lemma_wf_facts(s0, base);
        }
        let (removing_idx, removing_node) = match self.search(mem, key) {
            Some(found) => found,
            None => {
                proof {
                    assert(self.view_of(s0).remove(key) =~= self.view_of(s0));
                }
                return Ok(());
            },
        };
        let h = self.hash(key);
        let ghost idx = removing_idx as int;
        let ghost p: int = choose|p: int| 0 <= p < chains[h as int].len() && #[trigger] chains[h as int][p] == idx;
        proof {
            assert(holds_key(t0, key));
            assert(occupied(t0, idx));
            let (b, k) = choose|b: int, k: int| 0 <= b < nb && 0 <= k < chains[b].len() && #[trigger] chains[b][k] == idx;
            assert(bucket_of(nkey(t0[chains[b][k]].unwrap()), nb) == b);
            assert(b == h);
            assert(0 <= p < chains[h as int].len() && chains[h as int][p] == idx);
            assert(bucket_word(s0, h as int) == chains[h as int][0] + 1);
            assert(occupied(t0, chains[h as int][0]));
            lemma_next_fits(s0, nb, idx);
        }
        assert(mem@.len() == mem.len());
        let first = read_word(mem, h * BUCKET_SIZE);
        let mut last_idx: usize = (first - 1) as usize;
        if last_idx == removing_idx {
            proof {
                if p != 0 {
                    assert(chains[h as int][0] != chains[h as int][p]);
                }
            }
            write_word(mem, h * BUCKET_SIZE, removing_node.next.value as u64);
            let ghost s1 = mem@;
            proof {
                lemma_frame(s0, s1, base);
            }
            self.slots.remove(mem, removing_idx);
            let ghost s2 = mem@;
            proof {
                let t2 = node_table(s2, nb);
                assert(t2 == t0.update(idx, None));
                lemma_word_frame(s1, s2, h * BUCKET_SIZE);
                assert(other_buckets_same(s0, s2, nb, h as int)) by {
                    assert forall|i: int| 0 <= i < nb && i != h implies #[trigger] bucket_word(s2, i) == bucket_word(s0, i) by {
                        lemma_word_frame(s0, s1, i * BUCKET_SIZE);
                        lemma_word_frame(s1, s2, i * BUCKET_SIZE);
                    }
                }
                lemma_unlink_chain(s0, s2, nb, chains, h as int, 0);
                assert(chains_ok(s2, nb, chains.update(h as int, chains[h as int].remove(0))));
                lemma_key_map_remove(t0, idx);
                assert(node_of(t0, key) == idx) by {
                    let w = node_of(t0, key);
                    assert(occupied(t0, w) && nkey(t0[w].unwrap()) == key);
                }
                assert(node_keys(t2) =~= node_keys(t0).update(idx, None));
                assert(positions_fit(t2));
                assert(nodes_sized(t2));
            }
            return Ok(());
        }
        let mut last = self.read_node(mem, last_idx);
        let ghost mut m: int = 0;
        proof {
            assert(p > 0);
        }
        loop
            invariant
                self.wf(mem@),
                mem@ == s0,
                nb == self.nb(),
                t0 == node_table(s0, nb),
                chains_ok(s0, nb, chains),
                0 <= h < nb,
                0 <= m < p,
                p < chains[h as int].len(),
                chains[h as int][p] == idx,
                idx == removing_idx,
                last_idx == chains[h as int][m],
                last.key == nkey(t0[last_idx as int].unwrap()),
                last.position == npos(t0[last_idx as int].unwrap()),
                last.next.value == nnext(t0[last_idx as int].unwrap()),
            ensures
                0 <= m,
                m == p - 1,
                last_idx == chains[h as int][m],
                last.key == nkey(t0[last_idx as int].unwrap()),
                last.position == npos(t0[last_idx as int].unwrap()),
                last.next.value == nnext(t0[last_idx as int].unwrap()),
            decreases p - m,
        {
            proof {
                assert(m + 1 < chains[h as int].len());
                assert(last.next.value == chains[h as int][m + 1] + 1);
            }
            let next = last.next.unwrap();
            if next == removing_idx {
                proof {
                    if m + 1 != p {
                        assert(chains[h as int][m + 1] != chains[h as int][p]);
                    }
                }
                break;
            }
            proof {
                assert(occupied(t0, chains[h as int][m + 1]));
            }
            last_idx = next;
            last = self.read_node(mem, last_idx);
            proof {
                m = m + 1;
            }
        }
        proof {
            assert(occupied(t0, last_idx as int));
            assert(last_idx as int != idx);
        }
        let mut updated = last;
        updated.next = removing_node.next;
        let ubytes = updated.encode();
        match self.slots.update(mem, last_idx, ubytes.as_slice()) {
            Ok(()) => {},
            Err(e) => return Err(e),
        }
        let ghost s1 = mem@;
        let ghost t1 = node_table(s1, nb);
        proof {
            lemma_wf_facts(s1, base);
            assert(t1 == t0.update(last_idx as int, Some(ubytes@)));
        }
        self.slots.remove(mem, removing_idx);
        let ghost s2 = mem@;
        proof {
            let t2 = node_table(s2, nb);
            assert(t2 == t1.update(idx, None));
            assert(other_buckets_same(s0, s2, nb, h as int) && bucket_word(s2, h as int)
                == bucket_word(s0, h as int)) by {
                assert forall|i: int| 0 <= i < nb implies #[trigger] bucket_word(s2, i) == bucket_word(s0, i) by {
                    lemma_word_frame(s0, s2, i * BUCKET_SIZE);
                }
            }
            lemma_unlink_chain(s0, s2, nb, chains, h as int, p);
            assert(chains_ok(s2, nb, chains.update(h as int, chains[h as int].remove(p))));
            lemma_key_map_relink(t0, last_idx as int, ubytes@);
            lemma_key_map_remove(t1, idx);
            assert(node_of(t0, key) == idx) by {
                let w = node_of(t0, key);
                assert(occupied(t0, w) && nkey(t0[w].unwrap()) == key);
            }
            assert(node_keys(t2) =~= node_keys(t0).update(idx, None));
            assert(positions_fit(t2));
            assert(nodes_sized(t2));
        }
        Ok(())
    }

    /// The record position stored for `key`.
    pub fn get(&self, mem: &[u8], key: u64) -> (r: Option<usize>)
        requires
            self.wf(mem@),
        ensures
            r == if self.view_of(mem@).contains_key(key) {
                Some(self.view_of(mem@)[key] as usize)
            } else {
                None::<usize>
            },
            r matches Some(p) ==> p == self.view_of(mem@)[key],
    {
        match self.search(mem, key) {
            Some((j, node)) => {
                proof {
                    let t = node_table(mem@, self.nb());
                    assert(holds_key(t, key));
                    let w = node_of(t, key);
                    assert(occupied(t, w));
                    assert(w == j as int);
                }
                Some(node.position)
            },
            None => None,
        }
    }
}

/// The raw next offset of a node designates a slot of the arena, or none.
proof fn lemma_next_fits(s: Seq<u8>, nb: int, j: int)
    requires
        index_wf(s, nb),
        occupied(node_table(s, nb), j),
    ensures
        nnext(node_table(s, nb)[j].unwrap()) <= node_table(s, nb).len(),
        node_table(s, nb).len() <= s.len(),
        npos(node_table(s, nb)[j].unwrap()) <= usize::MAX,
        node_table(s, nb)[j].unwrap().len() == NODE_SIZE,
{
    let t = node_table(s, nb);
    lemma_wf_facts(s, nb * BUCKET_SIZE);
    let chains = choose|chains: Seq<Seq<int>>| #[trigger] chains_ok(s, nb, chains);
    let (b, k) = choose|b: int, k: int| 0 <= b < nb && 0 <= k < chains[b].len() && #[trigger] chains[b][k] == j;
    if k + 1 < chains[b].len() {
        assert(occupied(t, chains[b][k + 1]));
    }
}

/// A key absent from the chain of its bucket (from position `from` on, every
/// earlier node having been checked) is absent from the index.
proof fn lemma_absent_from_chain(s: Seq<u8>, nb: int, chains: Seq<Seq<int>>, key: u64, from: int)
    requires
        nb > 0,
        chains_ok(s, nb, chains),
        0 <= bucket_of(key, nb) < nb,
        from == chains[bucket_of(key, nb)].len(),
        forall|m: int|
            0 <= m < from ==> nkey(node_table(s, nb)[#[trigger] chains[bucket_of(key, nb)][m]].unwrap())
                != key,
    ensures
        !holds_key(node_table(s, nb), key),
{
    let t = node_table(s, nb);
    if holds_key(t, key) {
        let j = choose|j: int| #[trigger] occupied(t, j) && nkey(t[j].unwrap()) == key;
        let (b, k) = choose|b: int, k: int| 0 <= b < nb && 0 <= k < chains[b].len() && #[trigger] chains[b][k] == j;
        assert(bucket_of(nkey(t[chains[b][k]].unwrap()), nb) == b);
        assert(b == bucket_of(key, nb));
        assert(nkey(t[chains[b][k]].unwrap()) != key);
    }
}

/// The key each node slot holds, `None` for a free slot.
pub open spec fn node_keys(t: Seq<Option<Seq<u8>>>) -> Seq<Option<u64>> {
    Seq::new(
        t.len(),
        |j: int|
            if t[j] is Some {
                Some(nkey(t[j].unwrap()))
            } else {
                None
            },
    )
}

/// The keys of `k`, in slot order.
pub open spec fn listed_keys(k: Seq<Option<u64>>) -> Seq<u64>
    decreases k.len(),
{
    if k.len() == 0 {
        Seq::empty()
    } else {
        listed_keys(k.drop_last()) + match k.last() {
            Some(key) => seq![key],
            None => Seq::empty(),
        }
    }
}

/// The keys listed in slot order only depend on the key each slot holds.
pub proof fn lemma_listed_keys(t: Seq<Option<Seq<u8>>>)
    ensures
        keys_in_order(t) == listed_keys(node_keys(t)),
    decreases t.len(),
{
    if t.len() > 0 {
        lemma_listed_keys(t.drop_last());
        assert(node_keys(t.drop_last()) =~= node_keys(t).drop_last());
    }
}

/// The keys of the occupied nodes, in slot order.
pub open spec fn keys_in_order(t: Seq<Option<Seq<u8>>>) -> Seq<u64>
    decreases t.len(),
{
    if t.len() == 0 {
        Seq::empty()
    } else {
        keys_in_order(t.drop_last()) + match t.last() {
            Some(d) => seq![nkey(d)],
            None => Seq::empty(),
        }
    }
}

/// A cursor over the keys of an index, in slot order.
#[derive(Debug, Clone, Copy)]
pub struct IndexIterator {
    pub index: Index,
    pub position: usize,
}

impl IndexIterator {
    /// The key of the next occupied node at or after the cursor, which then
    /// moves past it; `None` once no occupied node is left.
    pub fn next(&mut self, mem: &[u8]) -> (r: Option<u64>)
        requires
            old(self).index.wf(mem@),
        ensures
            final(self).index == old(self).index,
            ({
                let t = node_table(mem@, old(self).index.nb());
                match r {
                    Some(k) => {
                        &&& old(self).position <= final(self).position - 1
                        &&& occupied(t, final(self).position - 1)
                        &&& nkey(t[final(self).position - 1].unwrap()) == k
                        &&& forall|i: int|
                            old(self).position <= i < final(self).position - 1 ==> !#[trigger] occupied(t, i)
                    },
                    None => {
                        &&& forall|i: int| old(self).position <= i < t.len() ==> !#[trigger] occupied(t, i)
                        &&& final(self).position >= t.len()
                    },
                }
            }),
            old(self).position >= node_table(mem@, old(self).index.nb()).len() ==> r is None
                && final(self).position == old(self).position,
    {
        let ghost t = node_table(mem@, self.index.nb());
        proof {
            lemma_wf_facts(mem@, self.index.slots.base());
        }
        let capacity = self.index.slots.capacity(mem);
        let ghost start = self.position as int;
        while self.position < capacity
            invariant
                self.index.wf(mem@),
                self.index == old(self).index,
                t == node_table(mem@, self.index.nb()),
                capacity == t.len(),
                start == old(self).position,
                start <= self.position,
                forall|i: int| start <= i < self.position ==> !#[trigger] occupied(t, i),
                start >= capacity ==> self.position == start,
            decreases capacity - self.position,
        {
            let j = self.position;
            if self.index.slots.is_occupied(mem, j) {
                let node = self.index.read_node(mem, j);
                self.position = j + 1;
                return Some(node.key);
            }
            self.position = j + 1;
        }
        None
    }
}

impl Index {
    /// A cursor at the first slot.
    pub fn iter(&self) -> (r: IndexIterator)
        ensures
            r.index == *self,
            r.position == 0,
    {
        IndexIterator { index: *self, position: 0 }
    }

    /// Every key of the index, in slot order.
    pub fn keys(&self, mem: &[u8]) -> (r: Vec<u64>)
        requires
            self.wf(mem@),
        ensures
            r@ == keys_in_order(node_table(mem@, self.nb())),
    {
        let ghost t = node_table(mem@, self.nb());
        proof {
            lemma_wf_facts(mem@, self.slots.base());
        }
        let capacity = self.slots.capacity(mem);
        let mut keys: Vec<u64> = Vec::new();
        let mut j: usize = 0;
        while j < capacity
            invariant
                self.wf(mem@),
                t == node_table(mem@, self.nb()),
                capacity == t.len(),
                j <= capacity,
                keys@ == keys_in_order(t.subrange(0, j as int)),
            decreases capacity - j,
        {
            proof {
                assert(t.subrange(0, j + 1).drop_last() =~= t.subrange(0, j as int));
            }
            if self.slots.is_occupied(mem, j) {
                let node = self.read_node(mem, j);
                keys.push(node.key);
            }
            j = j + 1;
        }
        proof {
            assert(t.subrange(0, capacity as int) =~= t);
        }
        keys
    }
}

// ---------------------------------------------------------------------------
// Checking a region.
// ---------------------------------------------------------------------------

/// The nodes `ch` hold pairwise distinct keys.
pub open spec fn chain_keys_distinct(t: Seq<Option<Seq<u8>>>, ch: Seq<int>) -> bool {
    forall|k1: int, k2: int|
        0 <= k1 < ch.len() && 0 <= k2 < ch.len() && k1 != k2 ==> nkey(t[#[trigger] ch[k1]].unwrap())
            != nkey(t[#[trigger] ch[k2]].unwrap())
}

/// What `chains_ok` asks of the chains of the first `chains.len()` buckets,
/// the coverage of every node aside, with the keys of each chain distinct.
pub open spec fn chains_prefix_ok(s: Seq<u8>, nb: int, chains: Seq<Seq<int>>) -> bool {
    let t = node_table(s, nb);
    &&& chains.len() <= nb
    &&& forall|b: int, k: int|
        #![trigger chains[b][k]]
        0 <= b < chains.len() && 0 <= k < chains[b].len() ==> {
            &&& occupied(t, chains[b][k])
            &&& nnext(t[chains[b][k]].unwrap()) == if k + 1 < chains[b].len() {
                chains[b][k + 1] + 1
            } else {
                0
            }
            &&& bucket_of(nkey(t[chains[b][k]].unwrap()), nb) == b
        }
    &&& forall|b: int|
        0 <= b < chains.len() ==> #[trigger] bucket_word(s, b) == if chains[b].len() > 0 {
            chains[b][0] + 1
        } else {
            0
        }
    &&& forall|b1: int, k1: int, b2: int, k2: int|
        0 <= b1 < chains.len() && 0 <= k1 < chains[b1].len() && 0 <= b2 < chains.len() && 0 <= k2
            < chains[b2].len() && (b1 != b2 || k1 != k2) ==> #[trigger] chains[b1][k1]
            != #[trigger] chains[b2][k2]
    &&& forall|b: int| 0 <= b < chains.len() ==> chain_keys_distinct(t, #[trigger] chains[b])
}

/// What an index region holds apart from its chains: the buckets, a well
/// formed arena of nodes right after them, nodes of the node size holding
/// positions that fit a `usize`.
pub open spec fn nodes_ok(s: Seq<u8>, nb: int) -> bool {
    &&& nb > 0
    &&& nb * BUCKET_SIZE <= s.len()
    &&& wf(s, nb * BUCKET_SIZE)
    &&& max_data_of(s, nb * BUCKET_SIZE) == NODE_SIZE
    &&& nodes_sized(node_table(s, nb))
    &&& positions_fit(node_table(s, nb))
}

/// The keys of a node table are finitely many.
proof fn lemma_key_map_finite(t: Seq<Option<Seq<u8>>>)
    ensures
        key_map(t).dom().finite(),
{
    let keys = Seq::new(t.len(), |j: int| if t[j] is Some { nkey(t[j].unwrap()) } else { 0u64 });
    assert forall|k: u64| key_map(t).dom().contains(k) implies keys.to_set().contains(k) by {
        let j = choose|j: int| #[trigger] occupied(t, j) && nkey(t[j].unwrap()) == k;
        assert(keys[j] == k);
    }
    vstd::set_lib::lemma_len_subset(key_map(t).dom(), keys.to_set());
}

/// A sequence of distinct slots below `cap` is at most `cap` long.
proof fn lemma_distinct_slots(v: Seq<int>, cap: int)
    requires
        0 <= cap,
        v.no_duplicates(),
        forall|i: int| 0 <= i < v.len() ==> 0 <= #[trigger] v[i] < cap,
    ensures
        v.len() <= cap,
{
    v.unique_seq_to_set();
    vstd::set_lib::lemma_int_range(0, cap);
    assert(v.to_set().subset_of(vstd::set_lib::set_int_range(0, cap)));
    vstd::set_lib::lemma_len_subset(v.to_set(), vstd::set_lib::set_int_range(0, cap));
}

/// Keys of nodes in different chains, or at different places of one chain,
/// differ.
proof fn lemma_keys_unique_from_chains(s: Seq<u8>, nb: int, chains: Seq<Seq<int>>)
    requires
        nb > 0,
        chains.len() == nb,
        chains_prefix_ok(s, nb, chains),
        forall|j: int|
            #[trigger] occupied(node_table(s, nb), j) ==> exists|b: int, k: int|
                0 <= b < nb && 0 <= k < chains[b].len() && #[trigger] chains[b][k] == j,
    ensures
        keys_unique(node_table(s, nb)),
{
    let t = node_table(s, nb);
    assert forall|j1: int, j2: int|
        #[trigger] occupied(t, j1) && #[trigger] occupied(t, j2) && j1 != j2 implies nkey(
        t[j1].unwrap(),
    ) != nkey(t[j2].unwrap()) by {
        let (b1, k1) = choose|b: int, k: int| 0 <= b < nb && 0 <= k < chains[b].len() && #[trigger] chains[b][k] == j1;
        let (b2, k2) = choose|b: int, k: int| 0 <= b < nb && 0 <= k < chains[b].len() && #[trigger] chains[b][k] == j2;
        if b1 == b2 {
            assert(chain_keys_distinct(t, chains[b1]));
            assert(k1 != k2);
        } else {
            assert(bucket_of(nkey(t[chains[b1][k1]].unwrap()), nb) == b1);
            assert(bucket_of(nkey(t[chains[b2][k2]].unwrap()), nb) == b2);
        }
    }
}

/// Whether `v` holds `x`.
fn contains_word(v: &Vec<u64>, x: u64) -> (r: bool)
    ensures
        r == v@.contains(x),
{
    let mut i: usize = 0;
    while i < v.len()
        invariant
            i <= v@.len(),
            forall|k: int| 0 <= k < i ==> v@[k] != x,
        decreases v@.len() - i,
    {
        if v[i] == x {
            assert(v@[i as int] == x);
            return true;
        }
        i = i + 1;
    }
    false
}

/// A well-formed index holds as many keys as its arena counts nodes.
pub proof fn lemma_key_count(s: Seq<u8>, nb: int)
    requires
        index_wf(s, nb),
    ensures
        key_map(node_table(s, nb)).len() == count_of(s, nb * BUCKET_SIZE),
{
    let t = node_table(s, nb);
    let occ = occupied_set(t);
    let f = |j: int| nkey(t[j].unwrap());
    lemma_occupied_set(t);
    law_count_is_occupied(s, nb * BUCKET_SIZE);
    assert(vstd::relations::injective_on(f, occ)) by {
        assert forall|j1: int, j2: int| occ.contains(j1) && occ.contains(j2) && #[trigger] f(j1) == #[trigger] f(j2) implies j1 == j2 by {
            assert(occupied(t, j1) && occupied(t, j2));
        }
    }
    assert(occ.map(f) =~= key_map(t).dom()) by {
        assert forall|k: u64| occ.map(f).contains(k) implies key_map(t).dom().contains(k) by {
            let j = choose|j: int| occ.contains(j) && f(j) == k;
            assert(occupied(t, j));
        }
        assert forall|k: u64| key_map(t).dom().contains(k) implies occ.map(f).contains(k) by {
            let j = choose|j: int| #[trigger] occupied(t, j) && nkey(t[j].unwrap()) == k;
            assert(occ.contains(j) && f(j) == k);
        }
    }
    vstd::set_lib::lemma_map_size(occ, key_map(t).dom(), f);
}

impl Index {
    /// Whether every occupied node holds a node's bytes with a record
    /// position that fits a `usize`.
    fn check_nodes(&self, mem: &[u8]) -> (r: bool)
        requires
            self.slots.base() == self.nb() * BUCKET_SIZE,
            self.nb() > 0,
            wf(mem@, self.slots.base()),
        ensures
            r == (nodes_sized(node_table(mem@, self.nb())) && positions_fit(
                node_table(mem@, self.nb()),
            )),
    {
        let ghost t = node_table(mem@, self.nb());
        proof {
            lemma_wf_facts(mem@, self.slots.base());
        }
        let cap = self.slots.capacity(mem);
        let mut j: usize = 0;
        while j < cap
            invariant
                self.slots.base() == self.nb() * BUCKET_SIZE,
                wf(mem@, self.slots.base()),
                t == node_table(mem@, self.nb()),
                cap == t.len(),
                j <= cap,
                forall|i: int|
                    #[trigger] occupied(t, i) && i < j ==> t[i].unwrap().len() == NODE_SIZE && npos(
                        t[i].unwrap(),
                    ) <= usize::MAX,
            decreases cap - j,
        {
            if self.slots.is_occupied(mem, j) {
                let d = self.slots.get(mem, j);
                assert(d@ == t[j as int].unwrap());
                if d.len() != NODE_SIZE {
                    assert(occupied(t, j as int));
                    return false;
                }
                let pos = read_word(d, 8);
                if pos > usize::MAX as u64 {
                    assert(occupied(t, j as int));
                    return false;
                }
            }
            j = j + 1;
        }
        true
    }

    /// Whether the buckets chain every node, each node once and in the
    /// bucket of its key, and no chain holds a key twice.
    #[verifier::rlimit(60)]
    #[verifier::spinoff_prover]
    fn check_chains(&self, mem: &[u8]) -> (r: bool)
        requires
            self.slots.base() == self.nb() * BUCKET_SIZE,
            nodes_ok(mem@, self.nb()),
        ensures
            r == (has_chains(mem@, self.nb()) && keys_unique(node_table(mem@, self.nb()))),
    {
        let ghost s = mem@;
        let ghost nb = self.nb();
        let ghost t = node_table(s, nb);
        let ghost good = has_chains(s, nb) && keys_unique(t);
        let ghost big = choose|chains: Seq<Seq<int>>| #[trigger] chains_ok(s, nb, chains);
        proof {
            lemma_wf_facts(s, self.slots.base());
        }
        assert(mem@.len() == mem.len());
        let cap = self.slots.capacity(mem);
        let mut visited: Vec<bool> = Vec::new();
        let mut v: usize = 0;
        while v < cap
            invariant
                v <= cap,
                visited@.len() == v,
                forall|i: int| 0 <= i < v ==> !#[trigger] visited@[i],
            decreases cap - v,
        {
            visited.push(false);
            v = v + 1;
        }
        let ghost mut chains: Seq<Seq<int>> = Seq::empty();
        let ghost mut all: Seq<int> = Seq::empty();
        let mut total: usize = 0;
        let mut bkt: usize = 0;
        while bkt < self.total_buckets
            invariant
                s == mem@,
                nb == self.nb(),
                t == node_table(s, nb),
                self.slots.base() == nb * BUCKET_SIZE,
                nodes_ok(s, nb),
                cap == t.len(),
                good == (has_chains(s, nb) && keys_unique(t)),
                good ==> chains_ok(s, nb, big) && keys_unique(t),
                bkt <= nb,
                chains.len() == bkt,
                chains_prefix_ok(s, nb, chains),
                visited@.len() == cap,
                all.no_duplicates(),
                all.len() == total,
                forall|i: int| 0 <= i < all.len() ==> 0 <= #[trigger] all[i] < cap,
                forall|x: int|
                    0 <= x < cap ==> (#[trigger] visited@[x] <==> all.contains(x)),
                forall|x: int|
                    0 <= x < cap ==> (all.contains(x) <==> exists|b: int, k: int|
                        0 <= b < chains.len() && 0 <= k < chains[b].len() && #[trigger] chains[b][k]
                            == x),
                good ==> chains == big.subrange(0, bkt as int),
            decreases nb - bkt,
        {
            let w = read_word(mem, bkt * BUCKET_SIZE);
            let ghost mut ch: Seq<int> = Seq::empty();
            proof {
                lemma_distinct_slots(all, cap as int);
                if good {
                    assert(bucket_word(s, bkt as int) == if big[bkt as int].len() > 0 {
                        big[bkt as int][0] + 1
                    } else {
                        0
                    });
                    assert(ch =~= big[bkt as int].subrange(0, 0));
                }
            }
            let mut keys: Vec<u64> = Vec::new();
            let mut cur: u64 = w;
            while cur != 0
                invariant
                    s == mem@,
                    nb == self.nb(),
                    t == node_table(s, nb),
                    self.slots.base() == nb * BUCKET_SIZE,
                    nodes_ok(s, nb),
                    cap == t.len(),
                    good == (has_chains(s, nb) && keys_unique(t)),
                    good ==> chains_ok(s, nb, big) && keys_unique(t),
                    bkt < nb,
                    chains.len() == bkt,
                    chains_prefix_ok(s, nb, chains),
                    w == bucket_word(s, bkt as int),
                    visited@.len() == cap,
                    all.no_duplicates(),
                    all.len() == total,
                    total <= cap,
                    forall|i: int| 0 <= i < all.len() ==> 0 <= #[trigger] all[i] < cap,
                    forall|x: int|
                        0 <= x < cap ==> (#[trigger] visited@[x] <==> all.contains(x)),
                    forall|x: int|
                        0 <= x < cap ==> (all.contains(x) <==> (ch.contains(x) || exists|b: int, k: int|
                            0 <= b < chains.len() && 0 <= k < chains[b].len() && #[trigger] chains[b][k]
                                == x)),
                    keys@.len() == ch.len(),
                    forall|k: int|
                        0 <= k < ch.len() ==> {
                            &&& occupied(t, #[trigger] ch[k])
                            &&& keys@[k] == nkey(t[ch[k]].unwrap())
                            &&& bucket_of(nkey(t[ch[k]].unwrap()), nb) == bkt
                            &&& nnext(t[ch[k]].unwrap()) == if k + 1 < ch.len() {
                                ch[k + 1] + 1
                            } else {
                                cur as int
                            }
                        },
                    w == if ch.len() > 0 {
                        ch[0] + 1
                    } else {
                        cur as int
                    },
                    ch.no_duplicates(),
                    forall|b: int, k: int, m: int|
                        0 <= b < chains.len() && 0 <= k < chains[b].len() && 0 <= m < ch.len()
                            ==> #[trigger] chains[b][k] != #[trigger] ch[m],
                    chain_keys_distinct(t, ch),
                    good ==> chains == big.subrange(0, bkt as int),
                    good ==> ch.len() <= big[bkt as int].len() && ch == big[bkt as int].subrange(
                        0,
                        ch.len() as int,
                    ) && cur == if ch.len() < big[bkt as int].len() {
                        big[bkt as int][ch.len() as int] + 1
                    } else {
                        0
                    },
                decreases cap - total,
            {
                if cur > cap as u64 || total >= cap {
                    proof {
                        if good {
                            let c = big[bkt as int];
                            assert(ch.len() < c.len());
                            assert(occupied(t, c[ch.len() as int]));
                            let nxt = c[ch.len() as int];
                            assert(!all.contains(nxt)) by {
                                if all.contains(nxt) {
                                    if ch.contains(nxt) {
                                        let m = choose|m: int| 0 <= m < ch.len() && ch[m] == nxt;
                                        assert(c[m] == c[ch.len() as int]);
                                    } else {
                                        let (b, k) = choose|b: int, k: int|
                                            0 <= b < chains.len() && 0 <= k < chains[b].len()
                                                && #[trigger] chains[b][k] == nxt;
                                        assert(big[b][k] == big[bkt as int][ch.len() as int]);
                                    }
                                }
                            }
                            lemma_distinct_slots(all.push(nxt), cap as int);
                        }
                    }
                    return false;
                }
                let j = (cur - 1) as usize;
                if !self.slots.is_occupied(mem, j) || visited[j] {
                    proof {
                        if good {
                            let c = big[bkt as int];
                            assert(ch.len() < c.len());
                            assert(c[ch.len() as int] == j);
                            assert(occupied(t, j as int));
                            if visited@[j as int] {
                                assert(all.contains(j as int));
                                if ch.contains(j as int) {
                                    let m = choose|m: int| 0 <= m < ch.len() && ch[m] == j;
                                    assert(c[m] == c[ch.len() as int]);
                                } else {
                                    let (b, k) = choose|b: int, k: int|
                                        0 <= b < chains.len() && 0 <= k < chains[b].len()
                                            && #[trigger] chains[b][k] == j;
                                    assert(big[b][k] == big[bkt as int][ch.len() as int]);
                                }
                            }
                        }
                    }
                    return false;
                }
                assert(occupied(t, j as int));
                let d = self.slots.get(mem, j);
                assert(d@ == t[j as int].unwrap());
                let key = read_word(d, 0);
                let next = read_word(d, 16);
                let h = hash_key(key);
                if h % (self.total_buckets as u64) != bkt as u64 {
                    proof {
                        if good {
                            let c = big[bkt as int];
                            assert(c[ch.len() as int] == j);
                            assert(bucket_of(nkey(t[c[ch.len() as int]].unwrap()), nb) == bkt);
                        }
                    }
                    return false;
                }
                if contains_word(&keys, key) {
                    proof {
                        if good {
                            let c = big[bkt as int];
                            let m = choose|m: int| 0 <= m < keys@.len() && keys@[m] == key;
                            assert(occupied(t, ch[m]));
                            assert(ch[m] != j as int) by {
                                if ch[m] == j as int {
                                    assert(ch.contains(j as int));
                                    assert(all.contains(j as int));
                                }
                            }
                            assert(occupied(t, j as int));
                        }
                    }
                    return false;
                }
                visited.set(j, true);
                keys.push(key);
                proof {
                    let old_all = all;
                    let old_ch = ch;
                    assert(!old_all.contains(j as int));
                    all = all.push(j as int);
                    ch = ch.push(j as int);
                    assert forall|x: int| 0 <= x < cap implies (#[trigger] visited@[x] <==> all.contains(x)) by {
                        if x == j {
                            assert(all[all.len() - 1] == x);
                        } else {
                            if old_all.contains(x) {
                                let w2 = choose|w2: int| 0 <= w2 < old_all.len() && old_all[w2] == x;
                                assert(all[w2] == x);
                            }
                            if all.contains(x) {
                                let w2 = choose|w2: int| 0 <= w2 < all.len() && all[w2] == x;
                                assert(old_all[w2] == x);
                            }
                        }
                    }
                    assert forall|x: int| 0 <= x < cap implies (all.contains(x) <==> (ch.contains(x) || exists|b: int, k: int|
                        0 <= b < chains.len() && 0 <= k < chains[b].len() && #[trigger] chains[b][k] == x)) by {
                        if x == j {
                            assert(all[all.len() - 1] == x);
                            assert(ch[ch.len() - 1] == x);
                        } else {
                            if old_all.contains(x) {
                                let w2 = choose|w2: int| 0 <= w2 < old_all.len() && old_all[w2] == x;
                                assert(all[w2] == x);
                            }
                            if all.contains(x) {
                                let w2 = choose|w2: int| 0 <= w2 < all.len() && all[w2] == x;
                                assert(old_all[w2] == x);
                            }
                            if old_ch.contains(x) {
                                let w2 = choose|w2: int| 0 <= w2 < old_ch.len() && old_ch[w2] == x;
                                assert(ch[w2] == x);
                            }
                            if ch.contains(x) {
                                let w2 = choose|w2: int| 0 <= w2 < ch.len() && ch[w2] == x;
                                assert(old_ch[w2] == x);
                            }
                        }
                    }
                    assert(all.no_duplicates()) by {
                        assert forall|x: int, y: int| 0 <= x < y < all.len() implies all[x] != all[y] by {
                            if y == all.len() - 1 {
                                assert(old_all.contains(old_all[x]));
                            }
                        }
                    }
                    assert forall|b: int, k: int, mm: int|
                        0 <= b < chains.len() && 0 <= k < chains[b].len() && 0 <= mm < ch.len()
                            implies #[trigger] chains[b][k] != #[trigger] ch[mm] by {
                        if mm == ch.len() - 1 {
                            if chains[b][k] == j {
                                assert(old_all.contains(j as int));
                            }
                        } else {
                            assert(ch[mm] == old_ch[mm]);
                        }
                    }
                    assert(ch.no_duplicates()) by {
                        assert forall|x: int, y: int| 0 <= x < y < ch.len() implies ch[x] != ch[y] by {
                            if y == ch.len() - 1 {
                                assert(old_ch[x] == ch[x]);
                                assert(old_all.contains(old_ch[x]));
                            }
                        }
                    }
                    assert forall|k1: int, k2: int|
                        0 <= k1 < ch.len() && 0 <= k2 < ch.len() && k1 != k2 implies nkey(
                        t[#[trigger] ch[k1]].unwrap(),
                    ) != nkey(t[#[trigger] ch[k2]].unwrap()) by {
                        if k1 < old_ch.len() && k2 < old_ch.len() {
                            assert(ch[k1] == old_ch[k1] && ch[k2] == old_ch[k2]);
                        } else if k1 == old_ch.len() {
                            assert(keys@[k2] == nkey(t[old_ch[k2]].unwrap()));
                        } else {
                            assert(keys@[k1] == nkey(t[old_ch[k1]].unwrap()));
                        }
                    }
                    if good {
                        assert(ch =~= big[bkt as int].subrange(0, ch.len() as int));
                    }
                }
                total = total + 1;
                cur = next;
            }
            proof {
                let old_chains = chains;
                if good {
                    if ch.len() < big[bkt as int].len() {
                        assert(occupied(t, big[bkt as int][ch.len() as int]));
                    }
                    assert(ch =~= big[bkt as int]);
                }
                chains = chains.push(ch);
                assert forall|b: int, k: int|
                    #![trigger chains[b][k]]
                    0 <= b < chains.len() && 0 <= k < chains[b].len() implies {
                        &&& occupied(t, chains[b][k])
                        &&& nnext(t[chains[b][k]].unwrap()) == if k + 1 < chains[b].len() {
                            chains[b][k + 1] + 1
                        } else {
                            0
                        }
                        &&& bucket_of(nkey(t[chains[b][k]].unwrap()), nb) == b
                    } by {
                    if b < bkt {
                        assert(chains[b] == old_chains[b]);
                    } else {
                        assert(chains[b] == ch);
                    }
                }
                assert forall|b: int| 0 <= b < chains.len() implies #[trigger] bucket_word(s, b) == if chains[b].len() > 0 {
                    chains[b][0] + 1
                } else {
                    0
                } by {
                    if b < bkt {
                        assert(chains[b] == old_chains[b]);
                    } else {
                        assert(chains[b] == ch);
                    }
                }
                assert forall|b1: int, k1: int, b2: int, k2: int|
                    0 <= b1 < chains.len() && 0 <= k1 < chains[b1].len() && 0 <= b2 < chains.len() && 0 <= k2
                        < chains[b2].len() && (b1 != b2 || k1 != k2) implies #[trigger] chains[b1][k1]
                        != #[trigger] chains[b2][k2] by {
                    if b1 < bkt && b2 < bkt {
                        assert(chains[b1] == old_chains[b1] && chains[b2] == old_chains[b2]);
                    } else if b1 < bkt {
                        assert(chains[b1] == old_chains[b1] && chains[b2] == ch);
                        assert(old_chains[b1][k1] != ch[k2]);
                    } else if b2 < bkt {
                        assert(chains[b2] == old_chains[b2] && chains[b1] == ch);
                        assert(old_chains[b2][k2] != ch[k1]);
                    } else {
                        assert(chains[b1] == ch && chains[b2] == ch);
                    }
                }
                assert forall|b: int| 0 <= b < chains.len() implies chain_keys_distinct(t, #[trigger] chains[b]) by {
                    if b < bkt {
                        assert(chains[b] == old_chains[b]);
                    } else {
                        assert(chains[b] == ch);
                    }
                }
                assert forall|x: int| 0 <= x < cap implies (all.contains(x) <==> exists|b: int, k: int|
                    0 <= b < chains.len() && 0 <= k < chains[b].len() && #[trigger] chains[b][k] == x) by {
                    if all.contains(x) {
                        if ch.contains(x) {
                            let m = choose|m: int| 0 <= m < ch.len() && ch[m] == x;
                            assert(chains[bkt as int][m] == x);
                        } else {
                            let (b, k) = choose|b: int, k: int|
                                0 <= b < old_chains.len() && 0 <= k < old_chains[b].len() && #[trigger] old_chains[b][k] == x;
                            assert(chains[b][k] == x);
                        }
                    }
                    if exists|b: int, k: int| 0 <= b < chains.len() && 0 <= k < chains[b].len() && #[trigger] chains[b][k] == x {
                        let (b, k) = choose|b: int, k: int|
                            0 <= b < chains.len() && 0 <= k < chains[b].len() && #[trigger] chains[b][k] == x;
                        if b < bkt {
                            assert(old_chains[b][k] == x);
                        } else {
                            assert(ch[k] == x);
                        }
                    }
                }
                if good {
                    assert(chains =~= big.subrange(0, bkt + 1));
                }
            }
            bkt = bkt + 1;
        }
        let mut j: usize = 0;
        while j < cap
            invariant
                s == mem@,
                nb == self.nb(),
                t == node_table(s, nb),
                self.slots.base() == nb * BUCKET_SIZE,
                nodes_ok(s, nb),
                cap == t.len(),
                visited@.len() == cap,
                forall|x: int|
                    0 <= x < cap ==> (#[trigger] visited@[x] <==> all.contains(x)),
                j <= cap,
                forall|i: int| 0 <= i < j && #[trigger] occupied(t, i) ==> visited@[i],
                good == (has_chains(s, nb) && keys_unique(t)),
                chains.len() == nb,
                forall|x: int|
                    0 <= x < cap ==> (all.contains(x) <==> exists|b: int, k: int|
                        0 <= b < chains.len() && 0 <= k < chains[b].len() && #[trigger] chains[b][k]
                            == x),
                good ==> chains_ok(s, nb, big) && chains == big,
            decreases cap - j,
        {
            if self.slots.is_occupied(mem, j) && !visited[j] {
                proof {
                    if good {
                        assert(occupied(t, j as int));
                        let (b, k) = choose|b: int, k: int|
                            0 <= b < nb && 0 <= k < big[b].len() && #[trigger] big[b][k] == j;
                        assert(chains[b][k] == j);
                        assert(exists|b2: int, k2: int|
                            0 <= b2 < chains.len() && 0 <= k2 < chains[b2].len() && #[trigger] chains[b2][k2]
                                == j);
                        assert(all.contains(j as int));
                        assert(visited@[j as int]);
                    }
                }
                return false;
            }
            j = j + 1;
        }
        proof {
            assert forall|x: int| #[trigger] occupied(t, x) implies exists|b: int, k: int|
                0 <= b < nb && 0 <= k < chains[b].len() && #[trigger] chains[b][k] == x by {
                assert(visited@[x]);
                assert(all.contains(x));
            }
            assert(chains_ok(s, nb, chains));
            lemma_keys_unique_from_chains(s, nb, chains);
        }
        true
    }

    /// Whether `mem` holds a well-formed index laid out for this handle.
    pub fn check(&self, mem: &[u8]) -> (r: bool)
        ensures
            r == self.wf(mem@),
    {
        let nb = self.total_buckets;
        assert(mem@.len() == mem.len());
        if nb == 0 || nb > mem.len() / BUCKET_SIZE {
            return false;
        }
        if self.slots.header.base != nb * BUCKET_SIZE {
            return false;
        }
        if !self.slots.check(mem) {
            return false;
        }
        if self.slots.max_data_size(mem) != NODE_SIZE {
            return false;
        }
        if !self.check_nodes(mem) {
            return false;
        }
        proof {
            lemma_key_map_finite(node_table(mem@, self.nb()));
        }
        self.check_chains(mem)
    }
}

/// Each key held by the index appears exactly once among the keys listed in
/// slot order, and only those keys appear.
pub proof fn law_keys_listed_once(t: Seq<Option<Seq<u8>>>)
    requires
        keys_unique(t),
    ensures
        keys_in_order(t).no_duplicates(),
        forall|k: u64| keys_in_order(t).contains(k) <==> key_map(t).contains_key(k),
    decreases t.len(),
{
    if t.len() > 0 {
        let u = t.drop_last();
        assert forall|j1: int, j2: int|
            #[trigger] occupied(u, j1) && #[trigger] occupied(u, j2) && j1 != j2 implies nkey(
            u[j1].unwrap(),
        ) != nkey(u[j2].unwrap()) by {
            assert(occupied(t, j1) && occupied(t, j2));
        }
        law_keys_listed_once(u);
        let last = t.len() - 1;
        assert forall|k: u64| holds_key(t, k) <==> holds_key(u, k) || (t[last] is Some && nkey(
            t[last].unwrap(),
        ) == k) by {
            if holds_key(t, k) {
                let w = choose|w: int| #[trigger] occupied(t, w) && nkey(t[w].unwrap()) == k;
                if w != last {
                    assert(occupied(u, w));
                }
            }
            if holds_key(u, k) {
                let w = choose|w: int| #[trigger] occupied(u, w) && nkey(u[w].unwrap()) == k;
                assert(occupied(t, w));
            }
            if t[last] is Some && nkey(t[last].unwrap()) == k {
                assert(occupied(t, last));
            }
        }
        match t.last() {
            Some(d) => {
                if holds_key(u, nkey(d)) {
                    let w = choose|w: int| #[trigger] occupied(u, w) && nkey(u[w].unwrap()) == nkey(d);
                    assert(occupied(t, w) && occupied(t, last));
                }
                let ks = keys_in_order(u);
                assert(keys_in_order(t) == ks + seq![nkey(d)]);
                assert(!ks.contains(nkey(d)));
                let all = keys_in_order(t);
                assert forall|i: int, j: int| 0 <= i < all.len() && 0 <= j < all.len() && i != j implies all[i]
                    != all[j] by {
                    if i < ks.len() && j < ks.len() {
                        assert(all[i] == ks[i] && all[j] == ks[j]);
                    } else if i < ks.len() {
                        assert(all[i] == ks[i]);
                        assert(ks.contains(ks[i]));
                    } else if j < ks.len() {
                        assert(all[j] == ks[j]);
                        assert(ks.contains(ks[j]));
                    }
                }
                assert forall|k: u64| keys_in_order(t).contains(k) <==> key_map(t).contains_key(k) by {
                    if keys_in_order(t).contains(k) {
                        let w = choose|w: int| 0 <= w < keys_in_order(t).len() && keys_in_order(t)[w] == k;
                        if w < ks.len() {
                            assert(ks.contains(k));
                        }
                    }
                    if ks.contains(k) {
                        let w = choose|w: int| 0 <= w < ks.len() && ks[w] == k;
                        assert(keys_in_order(t)[w] == k);
                    }
                    if k == nkey(d) {
                        assert(keys_in_order(t)[ks.len() as int] == k);
                    }
                }
            },
            None => {
                assert(keys_in_order(t) == keys_in_order(u) + Seq::<u64>::empty());
                assert(keys_in_order(t) =~= keys_in_order(u));
            },
        }
    } else {
        assert forall|k: u64| !holds_key(t, k) by {}
    }
}

} // verus!
