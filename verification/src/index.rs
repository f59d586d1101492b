use crate::error::InMemoryTableError;
use crate::internal::index::Index;
use crate::internal::range_index::RangeIndex;
use crate::primitive::Id;
use vstd::prelude::*;
use vstd::bytes::*;
use vstd::string::StrSliceExecFns;
use vstd::utf8::encode_utf8;

verus! {

/// How a secondary index is organised.
#[derive(Debug, Copy, Clone, PartialEq, Eq, Structural)]
pub enum IndexKind {
    Hash,
    Range,
}

/// Secondary indexes a table may declare at most.
pub const MAX_INDEXES: usize = 16;

/// Bytes an index name may take at most.
pub const MAX_INDEX_NAME: usize = 31;

/// The definition of a secondary index: its name, its kind, and `extractor`,
/// the function that gives the indexed value of a record (for records of
/// type `T`, an `Fn(&T) -> Id`).
pub struct IndexDef<E> {
    pub name: String,
    pub kind: IndexKind,
    pub extractor: E,
}

/// The byte length of a name.
pub open spec fn name_len(name: String) -> int {
    encode_utf8(name@).len() as usize as int
}

/// The longest name among the first `n` definitions (0 for none).
pub open spec fn longest_name<E>(list: Seq<IndexDef<E>>, n: int) -> int
    decreases n,
{
    if n <= 0 {
        0
    } else {
        let rest = longest_name(list, n - 1);
        if name_len(list[n - 1].name) > rest {
            name_len(list[n - 1].name)
        } else {
            rest
        }
    }
}

/// The definitions are within the limits: at most [`MAX_INDEXES`] of them,
/// no name longer than [`MAX_INDEX_NAME`] bytes.
pub open spec fn within_limits<E>(list: Seq<IndexDef<E>>) -> bool {
    list.len() <= MAX_INDEXES && longest_name(list, list.len() as int) <= MAX_INDEX_NAME
}

/// The error for definitions out of the limits: `TooManyIndexes` when
/// there are too many, else `IndexNameTooLong` with the longest length.
pub open spec fn limits_error<E>(list: Seq<IndexDef<E>>) -> InMemoryTableError {
    if list.len() > MAX_INDEXES {
        InMemoryTableError::TooManyIndexes { current: list.len() as usize, max: MAX_INDEXES }
    } else {
        InMemoryTableError::IndexNameTooLong {
            current: longest_name(list, list.len() as int) as usize,
            max: MAX_INDEX_NAME,
        }
    }
}

/// The longest of the first `n` names is at least as long as each of them,
/// and is the length of one of them.
proof fn lemma_longest_name<E>(list: Seq<IndexDef<E>>, n: int)
    requires
        0 <= n <= list.len(),
    ensures
        forall|i: int| 0 <= i < n ==> name_len(#[trigger] list[i].name) <= longest_name(list, n),
        n > 0 ==> exists|i: int| 0 <= i < n && name_len(#[trigger] list[i].name) == longest_name(list, n),
        n == 0 ==> longest_name(list, n) == 0,
    decreases n,
{
    if n > 0 {
        lemma_longest_name(list, n - 1);
        if n - 1 > 0 {
            let i = choose|i: int| 0 <= i < n - 1 && name_len(#[trigger] list[i].name) == longest_name(list, n - 1);
            if name_len(list[n - 1].name) <= longest_name(list, n - 1) {
                assert(name_len(list[i].name) == longest_name(list, n));
            }
        }
        assert(name_len(list[n - 1].name) <= longest_name(list, n));
    }
}

/// A list of index definitions is accepted exactly when it has at most 16
/// definitions and every name is at most 31 bytes long. A refused list is
/// refused with `TooManyIndexes` exactly when it has more than 16
/// definitions, and otherwise with `IndexNameTooLong` carrying the length of
/// its longest name, which is over 31.
pub proof fn law_index_limits<E>(list: Seq<IndexDef<E>>)
    ensures
        within_limits(list) == (list.len() <= 16 && forall|i: int|
            0 <= i < list.len() ==> name_len(#[trigger] list[i].name) <= 31),
        list.len() > 16 ==> limits_error(list) == (InMemoryTableError::TooManyIndexes {
            current: list.len() as usize,
            max: 16,
        }),
        list.len() <= 16 && !within_limits(list) ==> exists|i: int|
            0 <= i < list.len() && limits_error(list) == (InMemoryTableError::IndexNameTooLong {
                current: name_len(#[trigger] list[i].name) as usize,
                max: 31,
            }) && name_len(list[i].name) > 31 && forall|j: int|
                0 <= j < list.len() ==> name_len(#[trigger] list[j].name) <= name_len(list[i].name),
{
    lemma_longest_name(list, list.len() as int);
    if list.len() <= 16 && !within_limits(list) {
        let i = choose|i: int| 0 <= i < list.len() && name_len(#[trigger] list[i].name) == longest_name(list, list.len() as int);
        assert(0 <= i < list.len());
    }
}

/// Checks a list of index definitions against the limits: at most
/// [`MAX_INDEXES`] definitions, no name longer than [`MAX_INDEX_NAME`] bytes.
///
/// Fails with `TooManyIndexes` when there are too many definitions, else with
/// `IndexNameTooLong`, giving the longest length, when a name is too long.
pub fn check_provided_indexes<E>(list: &[IndexDef<E>]) -> (r: Result<(), InMemoryTableError>)
    ensures
        r is Ok <==> within_limits(list@),
        r matches Err(e) ==> e == limits_error(list@),
{
    if list.len() > MAX_INDEXES {
        return Err(InMemoryTableError::TooManyIndexes { current: list.len(), max: MAX_INDEXES });
    }
    let mut max: usize = 0;
    let mut i: usize = 0;
    while i < list.len()
        invariant
            i <= list@.len(),
            max == longest_name(list@, i as int),
        decreases list@.len() - i,
    {
        let name = list[i].name.as_str();
        assert(name@ == list@[i as int].name@);
        let len = name.len();
        if len > max {
            max = len;
        }
        i = i + 1;
    }
    if max > MAX_INDEX_NAME {
        return Err(InMemoryTableError::IndexNameTooLong { current: max, max: MAX_INDEX_NAME });
    }
    Ok(())
}

/// Bytes of the name field of a registry slot: [`MAX_INDEX_NAME`]
/// characters, four bytes each.
pub const INDEX_NAME_FIELD_SIZE: usize = 124;

/// Bytes of one registry slot: the name field, the kind byte, padding.
pub const INDEX_SLOT_SIZE: usize = 128;

/// Bytes of the registry: [`MAX_INDEXES`] slots.
pub const INDEX_REGISTRY_SIZE: usize = 2048;

/// The byte that stands for a kind in a registry slot.
pub open spec fn kind_byte(kind: IndexKind) -> u8 {
    match kind {
        IndexKind::Hash => 0,
        IndexKind::Range => 1,
    }
}

/// Byte `i` of the registry slot of an index named `name` of kind `kind`:
/// the characters of the name as little-endian 32-bit code points, padded
/// with zeros to [`MAX_INDEX_NAME`] characters, then the kind's byte, then
/// three zero bytes.
pub open spec fn slot_byte(name: Seq<char>, kind: IndexKind, i: int) -> u8 {
    if i < INDEX_NAME_FIELD_SIZE {
        if i / 4 < name.len() {
            spec_u32_to_le_bytes(name[i / 4] as u32)[i % 4]
        } else {
            0
        }
    } else if i == INDEX_NAME_FIELD_SIZE {
        kind_byte(kind)
    } else {
        0
    }
}

/// Byte `i` of the registry of `list`: the slots of the definitions in
/// order, then unused slots (no name, kind `Range`) up to [`MAX_INDEXES`].
pub open spec fn registry_byte<E>(list: Seq<IndexDef<E>>, i: int) -> u8 {
    let slot = i / INDEX_SLOT_SIZE as int;
    if slot < list.len() {
        slot_byte(list[slot].name@, list[slot].kind, i % INDEX_SLOT_SIZE as int)
    } else {
        slot_byte(Seq::empty(), IndexKind::Range, i % INDEX_SLOT_SIZE as int)
    }
}

/// The registry of `list`, as it is stored.
pub open spec fn registry_bytes<E>(list: Seq<IndexDef<E>>) -> Seq<u8> {
    Seq::new(INDEX_REGISTRY_SIZE as nat, |i: int| registry_byte(list, i))
}

/// Appends the registry slot of an index named `name` of kind `kind`.
fn push_slot(v: &mut Vec<u8>, name: &str, kind: IndexKind)
    ensures
        final(v)@.len() == old(v)@.len() + INDEX_SLOT_SIZE,
        forall|i: int| 0 <= i < old(v)@.len() ==> final(v)@[i] == old(v)@[i],
        forall|i: int|
            0 <= i < INDEX_SLOT_SIZE ==> #[trigger] final(v)@[old(v)@.len() + i] == slot_byte(
                name@,
                kind,
                i,
            ),
{
    let ghost base = old(v)@.len();
    let n = name.unicode_len();
    let mut c: usize = 0;
    while c < MAX_INDEX_NAME
        invariant
            c <= MAX_INDEX_NAME,
            n == name@.len(),
            base == old(v)@.len(),
            v@.len() == base + 4 * c,
            forall|i: int| 0 <= i < base ==> v@[i] == old(v)@[i],
            forall|i: int| 0 <= i < 4 * c ==> #[trigger] v@[base + i] == slot_byte(name@, kind, i),
        decreases MAX_INDEX_NAME - c,
    {
        let ghost prev = v@;
        if c < n {
            let ch = name.get_char(c);
            let b = u32_to_le_bytes(ch as u32);
            v.push(b[0]);
            v.push(b[1]);
            v.push(b[2]);
            v.push(b[3]);
        } else {
            v.push(0);
            v.push(0);
            v.push(0);
            v.push(0);
        }
        proof {
            assert forall|i: int| 0 <= i < 4 * c + 4 implies #[trigger] v@[base + i] == slot_byte(
                name@,
                kind,
                i,
            ) by {
                if i < 4 * c {
                    assert(v@[base + i] == prev[base + i]);
                } else {
                    assert(i / 4 == c && i % 4 == i - 4 * c);
                }
            }
        }
        c = c + 1;
    }
    let k: u8 = match kind {
        IndexKind::Hash => 0,
        IndexKind::Range => 1,
    };
    let ghost prev = v@;
    v.push(k);
    v.push(0);
    v.push(0);
    v.push(0);
    assert forall|i: int| 0 <= i < INDEX_SLOT_SIZE implies #[trigger] v@[base + i] == slot_byte(
        name@,
        kind,
        i,
    ) by {
        if i < INDEX_NAME_FIELD_SIZE {
            assert(v@[base + i] == prev[base + i]);
        }
    }
}

/// The registry of a list of index definitions: one slot per definition, in
/// order, then unused slots up to [`MAX_INDEXES`].
///
/// Fails, as [`check_provided_indexes`] does, exactly when the definitions
/// are out of the limits.
pub fn encode_index_slots<E>(list: &[IndexDef<E>]) -> (r: Result<Vec<u8>, InMemoryTableError>)
    ensures
        r is Ok <==> within_limits(list@),
        r matches Err(e) ==> e == limits_error(list@),
        r matches Ok(bytes) ==> bytes@ == registry_bytes(list@),
{
    match check_provided_indexes(list) {
        Ok(()) => {},
        Err(e) => return Err(e),
    }
    let mut v: Vec<u8> = Vec::new();
    let mut slot: usize = 0;
    while slot < MAX_INDEXES
        invariant
            slot <= MAX_INDEXES,
            list@.len() <= MAX_INDEXES,
            v@.len() == INDEX_SLOT_SIZE * slot,
            forall|i: int| 0 <= i < v@.len() ==> #[trigger] v@[i] == registry_byte(list@, i),
        decreases MAX_INDEXES - slot,
    {
        let ghost prev = v@;
        let ghost base = v@.len();
        if slot < list.len() {
            push_slot(&mut v, list[slot].name.as_str(), list[slot].kind);
        } else {
            let empty = "";
            proof {
                reveal_strlit("");
            }
            push_slot(&mut v, empty, IndexKind::Range);
            assert(empty@ == Seq::<char>::empty());
        }
        proof {
            assert forall|i: int| 0 <= i < v@.len() implies #[trigger] v@[i] == registry_byte(
                list@,
                i,
            ) by {
                if i < base {
                    assert(v@[i] == prev[i]);
                } else {
                    let j = i - base;
                    assert(v@[base + j] == slot_byte(
                        if slot < list@.len() { list@[slot as int].name@ } else { Seq::empty() },
                        if slot < list@.len() { list@[slot as int].kind } else { IndexKind::Range },
                        j,
                    ));
                    assert(i / INDEX_SLOT_SIZE as int == slot && i % INDEX_SLOT_SIZE as int == j);
                }
            }
        }
        slot = slot + 1;
    }
    assert(v@ =~= registry_bytes(list@));
    Ok(v)
}

/// A query handle on a hash index.
#[derive(Debug, Clone, Copy)]
pub struct HashIndexRef(pub Index);

/// A query handle on a range index.
#[derive(Debug, Clone, Copy)]
pub struct RangeIndexRef(pub RangeIndex);

/// A query on a secondary index.
#[derive(Debug, Clone, Copy)]
pub struct IndexQuery<I> {
    pub index_ref: I,
}

impl IndexQuery<HashIndexRef> {
    /// The record whose key equals `value`; the lookup is not implemented and
    /// finds nothing.
    pub fn eq<V: Into<Id>>(&self, value: V) -> (r: Option<Vec<u8>>)
        ensures
            r is None,
    {
        None
    }
}

impl IndexQuery<RangeIndexRef> {
    /// The records whose key equals `value`; the lookup is not implemented and
    /// finds nothing.
    pub fn eq<V: Into<Id>>(&self, value: V) -> (r: Vec<Vec<u8>>)
        ensures
            r@.len() == 0,
    {
        Vec::new()
    }

    /// The records whose key is above `value`; the lookup is not implemented
    /// and finds nothing.
    pub fn gt<V: Into<Id>>(&self, value: V) -> (r: Vec<Vec<u8>>)
        ensures
            r@.len() == 0,
    {
        Vec::new()
    }

    /// The records whose key is below `value`; the lookup is not implemented
    /// and finds nothing.
    pub fn lt<V: Into<Id>>(&self, value: V) -> (r: Vec<Vec<u8>>)
        ensures
            r@.len() == 0,
    {
        Vec::new()
    }
}

} // verus!
