use vstd::bytes::{
    spec_u128_from_le_bytes, spec_u128_to_le_bytes, spec_u16_from_le_bytes, spec_u16_to_le_bytes,
    spec_u32_from_le_bytes, spec_u32_to_le_bytes, spec_u64_from_le_bytes, spec_u64_to_le_bytes,
    u128_from_le_bytes, u128_to_le_bytes, u16_from_le_bytes, u16_to_le_bytes, u32_from_le_bytes,
    u32_to_le_bytes, u64_from_le_bytes, u64_to_le_bytes,
};
use vstd::prelude::*;

verus! {

/// The primitive type a key value was taken from.
#[derive(Debug, PartialEq, Eq, PartialOrd, Ord, Copy, Clone, Hash, Structural)]
pub enum TypeTag {
    U8,
    U16,
    U32,
    U64,
    U128,
    I8,
    I16,
    I32,
    I64,
    I128,
    F32,
    F64,
    Bool,
}

/// The position of a tag in declaration order; keys of different types
/// order by it.
pub open spec fn tag_rank(t: TypeTag) -> int {
    match t {
        TypeTag::U8 => 0,
        TypeTag::U16 => 1,
        TypeTag::U32 => 2,
        TypeTag::U64 => 3,
        TypeTag::U128 => 4,
        TypeTag::I8 => 5,
        TypeTag::I16 => 6,
        TypeTag::I32 => 7,
        TypeTag::I64 => 8,
        TypeTag::I128 => 9,
        TypeTag::F32 => 10,
        TypeTag::F64 => 11,
        TypeTag::Bool => 12,
    }
}

pub proof fn lemma_tag_rank_injective(a: TypeTag, b: TypeTag)
    ensures
        tag_rank(a) == tag_rank(b) ==> a == b,
{
}

/// The byte width of a value of the type.
pub open spec fn tag_width(t: TypeTag) -> int {
    match t {
        TypeTag::U8 | TypeTag::I8 | TypeTag::Bool => 1,
        TypeTag::U16 | TypeTag::I16 => 2,
        TypeTag::U32 | TypeTag::I32 | TypeTag::F32 => 4,
        TypeTag::U64 | TypeTag::I64 | TypeTag::F64 => 8,
        TypeTag::U128 | TypeTag::I128 => 16,
    }
}

impl TypeTag {
    /// The tag's position in declaration order.
    pub fn rank(&self) -> (r: u8)
        ensures
            r == tag_rank(*self),
    {
        match self {
            TypeTag::U8 => 0,
            TypeTag::U16 => 1,
            TypeTag::U32 => 2,
            TypeTag::U64 => 3,
            TypeTag::U128 => 4,
            TypeTag::I8 => 5,
            TypeTag::I16 => 6,
            TypeTag::I32 => 7,
            TypeTag::I64 => 8,
            TypeTag::I128 => 9,
            TypeTag::F32 => 10,
            TypeTag::F64 => 11,
            TypeTag::Bool => 12,
        }
    }

    /// The tag at position `r` in declaration order.
    pub fn from_rank(r: u8) -> (t: Option<TypeTag>)
        ensures
            r < 13 <==> t is Some,
            t matches Some(tag) ==> tag_rank(tag) == r,
    {
        match r {
            0 => Some(TypeTag::U8),
            1 => Some(TypeTag::U16),
            2 => Some(TypeTag::U32),
            3 => Some(TypeTag::U64),
            4 => Some(TypeTag::U128),
            5 => Some(TypeTag::I8),
            6 => Some(TypeTag::I16),
            7 => Some(TypeTag::I32),
            8 => Some(TypeTag::I64),
            9 => Some(TypeTag::I128),
            10 => Some(TypeTag::F32),
            11 => Some(TypeTag::F64),
            12 => Some(TypeTag::Bool),
            _ => None,
        }
    }
}

/// The place of a 32-bit float's bit pattern in IEEE 754 total order
/// (`f32::total_cmp`): non-negative patterns as they are, negative ones reversed.
pub open spec fn f32_total_key(bits: u32) -> int {
    if bits < 0x8000_0000 {
        bits as int
    } else {
        0x7fff_ffff - bits
    }
}

/// The place of a 64-bit float's bit pattern in IEEE 754 total order
/// (`f64::total_cmp`).
pub open spec fn f64_total_key(bits: u64) -> int {
    if bits < 0x8000_0000_0000_0000 {
        bits as int
    } else {
        0x7fff_ffff_ffff_ffff - bits
    }
}

/// A primitive value as an index key: its little-endian bytes, their count and
/// the type they came from.
#[derive(Debug, Copy, Clone, Hash)]
pub struct Id {
    pub data: [u8; 16],
    pub len: usize,
    pub type_tag: TypeTag,
}

/// An id as plain values: its sixteen bytes, their count and its type.
pub struct IdView {
    pub data: Seq<u8>,
    pub len: int,
    pub type_tag: TypeTag,
}

impl View for Id {
    type V = IdView;

    open spec fn view(&self) -> IdView {
        IdView { data: self.data@, len: self.len as int, type_tag: self.type_tag }
    }
}

/// The value an id stands for, as an integer placed in its type's order.
pub open spec fn id_value(id: IdView) -> int {
    let d = id.data;
    match id.type_tag {
        TypeTag::U8 => d[0] as int,
        TypeTag::U16 => spec_u16_from_le_bytes(d.subrange(0, 2)) as int,
        TypeTag::U32 => spec_u32_from_le_bytes(d.subrange(0, 4)) as int,
        TypeTag::U64 => spec_u64_from_le_bytes(d.subrange(0, 8)) as int,
        TypeTag::U128 => spec_u128_from_le_bytes(d) as int,
        TypeTag::I8 => d[0] as i8 as int,
        TypeTag::I16 => spec_u16_from_le_bytes(d.subrange(0, 2)) as i16 as int,
        TypeTag::I32 => spec_u32_from_le_bytes(d.subrange(0, 4)) as i32 as int,
        TypeTag::I64 => spec_u64_from_le_bytes(d.subrange(0, 8)) as i64 as int,
        TypeTag::I128 => spec_u128_from_le_bytes(d) as i128 as int,
        TypeTag::F32 => f32_total_key(spec_u32_from_le_bytes(d.subrange(0, 4))),
        TypeTag::F64 => f64_total_key(spec_u64_from_le_bytes(d.subrange(0, 8))),
        TypeTag::Bool => if d[0] != 0 {
            1
        } else {
            0
        },
    }
}

/// The order on ids: by type first, then by value within the type.
/// `-1`, `0` or `1` as `a` sorts before, with or after `b`.
pub open spec fn id_order(a: IdView, b: IdView) -> int {
    if tag_rank(a.type_tag) < tag_rank(b.type_tag) {
        -1
    } else if tag_rank(a.type_tag) > tag_rank(b.type_tag) {
        1
    } else if id_value(a) < id_value(b) {
        -1
    } else if id_value(a) > id_value(b) {
        1
    } else {
        0
    }
}

/// The bytes of a value of `width` bytes, zero-padded to sixteen.
pub open spec fn padded(bytes: Seq<u8>) -> Seq<u8> {
    bytes + Seq::new((16 - bytes.len()) as nat, |i: int| 0u8)
}

/// An id as the constructors make one: sixteen bytes, the count of its
/// type's width, zeros after them, and a `bool` stored as 0 or 1.
pub open spec fn id_well_formed(v: IdView) -> bool {
    &&& v.data.len() == 16
    &&& v.len == tag_width(v.type_tag)
    &&& forall|i: int| v.len <= i < 16 ==> #[trigger] v.data[i] == 0
    &&& v.type_tag == TypeTag::Bool ==> v.data[0] <= 1
}

/// Two ids of one type holding the same value hold the same first bytes.
#[verifier::spinoff_prover]
proof fn lemma_value_determines_bytes(a: IdView, b: IdView)
    requires
        id_well_formed(a),
        id_well_formed(b),
        a.type_tag == b.type_tag,
        id_value(a) == id_value(b),
    ensures
        a.data.subrange(0, a.len) == b.data.subrange(0, b.len),
{
    vstd::bytes::lemma_auto_spec_u16_to_from_le_bytes();
    vstd::bytes::lemma_auto_spec_u32_to_from_le_bytes();
    vstd::bytes::lemma_auto_spec_u64_to_from_le_bytes();
    vstd::bytes::lemma_auto_spec_u128_to_from_le_bytes();
    let (da, db) = (a.data, b.data);
    let w = a.len;
    assert(w == tag_width(a.type_tag) && b.len == w);
    match a.type_tag {
        TypeTag::U8 => {
            assert(a.len == 1 && b.len == 1);
            assert(da[0] == db[0]);
            assert(da.subrange(0, 1) =~= db.subrange(0, 1));
            assert(da.subrange(0, w) =~= db.subrange(0, w));
        },
        TypeTag::Bool => {
            assert(a.len == 1 && b.len == 1);
            assert(da[0] <= 1 && db[0] <= 1);
            assert(da[0] == db[0]);
            assert(da.subrange(0, 1) =~= db.subrange(0, 1));
            assert(da.subrange(0, w) =~= db.subrange(0, w));
        },
        TypeTag::I8 => {
            let (x, y) = (da[0], db[0]);
            assert(x == y) by (bit_vector)
                requires
                    x as i8 == y as i8,
            ;
            assert(da.subrange(0, 1) =~= db.subrange(0, 1));
            assert(da.subrange(0, w) =~= db.subrange(0, w));
        },
        TypeTag::U16 => {
            assert(spec_u16_to_le_bytes(spec_u16_from_le_bytes(da.subrange(0, 2))) == da.subrange(0, 2));
            assert(spec_u16_to_le_bytes(spec_u16_from_le_bytes(db.subrange(0, 2))) == db.subrange(0, 2));
            assert(da.subrange(0, 2) == db.subrange(0, 2));
            assert(da.subrange(0, w) =~= db.subrange(0, w));
        },
        TypeTag::I16 => {
            let x = spec_u16_from_le_bytes(da.subrange(0, 2));
            let y = spec_u16_from_le_bytes(db.subrange(0, 2));
            assert(x == y) by (bit_vector)
                requires
                    x as i16 == y as i16,
            ;
            assert(spec_u16_to_le_bytes(spec_u16_from_le_bytes(da.subrange(0, 2))) == da.subrange(0, 2));
            assert(spec_u16_to_le_bytes(spec_u16_from_le_bytes(db.subrange(0, 2))) == db.subrange(0, 2));
            assert(da.subrange(0, 2) == db.subrange(0, 2));
            assert(da.subrange(0, w) =~= db.subrange(0, w));
        },
        TypeTag::U32 | TypeTag::F32 => {
            let x = spec_u32_from_le_bytes(da.subrange(0, 4));
            let y = spec_u32_from_le_bytes(db.subrange(0, 4));
            assert(x == y);
            assert(spec_u32_to_le_bytes(x) == da.subrange(0, 4));
            assert(spec_u32_to_le_bytes(y) == db.subrange(0, 4));
            assert(da.subrange(0, w) =~= db.subrange(0, w));
        },
        TypeTag::I32 => {
            let x = spec_u32_from_le_bytes(da.subrange(0, 4));
            let y = spec_u32_from_le_bytes(db.subrange(0, 4));
            assert(x == y) by (bit_vector)
                requires
                    x as i32 == y as i32,
            ;
            assert(spec_u32_to_le_bytes(x) == da.subrange(0, 4));
            assert(spec_u32_to_le_bytes(y) == db.subrange(0, 4));
            assert(da.subrange(0, w) =~= db.subrange(0, w));
        },
        TypeTag::U64 | TypeTag::F64 => {
            let x = spec_u64_from_le_bytes(da.subrange(0, 8));
            let y = spec_u64_from_le_bytes(db.subrange(0, 8));
            assert(x == y);
            assert(spec_u64_to_le_bytes(x) == da.subrange(0, 8));
            assert(spec_u64_to_le_bytes(y) == db.subrange(0, 8));
            assert(da.subrange(0, w) =~= db.subrange(0, w));
        },
        TypeTag::I64 => {
            let x = spec_u64_from_le_bytes(da.subrange(0, 8));
            let y = spec_u64_from_le_bytes(db.subrange(0, 8));
            assert(x == y) by (bit_vector)
                requires
                    x as i64 == y as i64,
            ;
            assert(spec_u64_to_le_bytes(x) == da.subrange(0, 8));
            assert(spec_u64_to_le_bytes(y) == db.subrange(0, 8));
            assert(da.subrange(0, w) =~= db.subrange(0, w));
        },
        TypeTag::U128 => {
            assert(spec_u128_from_le_bytes(da) == spec_u128_from_le_bytes(db));
            assert(spec_u128_to_le_bytes(spec_u128_from_le_bytes(da)) == da);
            assert(spec_u128_to_le_bytes(spec_u128_from_le_bytes(db)) == db);
            assert(da.subrange(0, 16) =~= da);
            assert(db.subrange(0, 16) =~= db);
            assert(da.subrange(0, w) =~= db.subrange(0, w));
        },
        TypeTag::I128 => {
            let x = spec_u128_from_le_bytes(da);
            let y = spec_u128_from_le_bytes(db);
            assert(x == y) by (bit_vector)
                requires
                    x as i128 == y as i128,
            ;
            assert(spec_u128_to_le_bytes(x) == da);
            assert(spec_u128_to_le_bytes(y) == db);
            assert(da.subrange(0, 16) =~= da);
            assert(db.subrange(0, 16) =~= db);
            assert(da.subrange(0, w) =~= db.subrange(0, w));
        },
    }
}

/// Ids as the constructors make them are equal exactly when they compare
/// equal, which is exactly when they are of one type and stand for one
/// value: equal values give equal ids, and ids of different types differ.
pub proof fn law_ids_equal_iff_same_type_and_value(a: IdView, b: IdView)
    requires
        id_well_formed(a),
        id_well_formed(b),
    ensures
        (id_order(a, b) == 0) == (a == b),
        (a == b) == (a.type_tag == b.type_tag && id_value(a) == id_value(b)),
{
    lemma_tag_rank_injective(a.type_tag, b.type_tag);
    if a.type_tag == b.type_tag && id_value(a) == id_value(b) {
        lemma_value_determines_bytes(a, b);
        assert forall|i: int| 0 <= i < 16 implies a.data[i] == b.data[i] by {
            if i < a.len {
                assert(a.data.subrange(0, a.len)[i] == b.data.subrange(0, b.len)[i]);
            }
        }
        assert(a.data =~= b.data);
    }
}

/// `-1`, `0` or `1` as `a` is below, equal to or above `b`.
fn sign_u128(a: u128, b: u128) -> (r: i8)
    ensures
        r == if a < b { -1int } else if a > b { 1int } else { 0int },
{
    if a < b {
        -1
    } else if a > b {
        1
    } else {
        0
    }
}

/// `-1`, `0` or `1` as `a` is below, equal to or above `b`.
fn sign_i128(a: i128, b: i128) -> (r: i8)
    ensures
        r == if a < b { -1int } else if a > b { 1int } else { 0int },
{
    if a < b {
        -1
    } else if a > b {
        1
    } else {
        0
    }
}

impl Id {
    /// An id from the little-endian bytes of a value of type `tag`.
    fn from_bytes(bytes: Vec<u8>, tag: TypeTag) -> (r: Id)
        requires
            bytes@.len() == tag_width(tag),
            tag == TypeTag::Bool ==> bytes@[0] <= 1,
        ensures
            id_well_formed(r@),
            r.data@ == padded(bytes@),
            r.len == bytes@.len(),
            r.type_tag == tag,
    {
        let mut data = [0u8; 16];
        let n = bytes.len();
        let mut i: usize = 0;
        while i < n
            invariant
                n == bytes@.len(),
                n <= 16,
                i <= n,
                data@.len() == 16,
                forall|k: int| 0 <= k < i ==> #[trigger] data@[k] == bytes@[k],
                forall|k: int| n <= k < 16 ==> #[trigger] data@[k] == 0,
            decreases n - i,
        {
            data[i] = bytes[i];
            i = i + 1;
        }
        assert(data@ =~= padded(bytes@));
        Id { data, len: n, type_tag: tag }
    }

    /// The id of a `u8`: its byte, zero-padded.
    pub fn from_u8(value: u8) -> (r: Id)
        ensures
            id_well_formed(r@),
            r.data@ == padded(seq![value]),
            r.type_tag == TypeTag::U8,
            r.len == 1,
            id_value(r@) == value,
    {
        let mut v: Vec<u8> = Vec::new();
        v.push(value);
        assert(v@ =~= seq![value]);
        Self::from_bytes(v, TypeTag::U8)
    }

    /// The id of a `u16`: its little-endian bytes, zero-padded.
    pub fn from_u16(value: u16) -> (r: Id)
        ensures
            id_well_formed(r@),
            r.data@ == padded(spec_u16_to_le_bytes(value)),
            r.type_tag == TypeTag::U16,
            r.len == 2,
            id_value(r@) == value,
    {
        let b = u16_to_le_bytes(value);
        proof {
            vstd::bytes::lemma_auto_spec_u16_to_from_le_bytes();
        }
        let r = Self::from_bytes(b, TypeTag::U16);
        assert(r.data@.subrange(0, 2) =~= spec_u16_to_le_bytes(value));
        r
    }

    /// The id of a `u32`: its little-endian bytes, zero-padded.
    pub fn from_u32(value: u32) -> (r: Id)
        ensures
            id_well_formed(r@),
            r.data@ == padded(spec_u32_to_le_bytes(value)),
            r.type_tag == TypeTag::U32,
            r.len == 4,
            id_value(r@) == value,
    {
        let b = u32_to_le_bytes(value);
        proof {
            vstd::bytes::lemma_auto_spec_u32_to_from_le_bytes();
        }
        let r = Self::from_bytes(b, TypeTag::U32);
        assert(r.data@.subrange(0, 4) =~= spec_u32_to_le_bytes(value));
        r
    }

    /// The id of a `u64`: its little-endian bytes, zero-padded.
    pub fn from_u64(value: u64) -> (r: Id)
        ensures
            id_well_formed(r@),
            r.data@ == padded(spec_u64_to_le_bytes(value)),
            r.type_tag == TypeTag::U64,
            r.len == 8,
            id_value(r@) == value,
    {
        let b = u64_to_le_bytes(value);
        proof {
            vstd::bytes::lemma_auto_spec_u64_to_from_le_bytes();
        }
        let r = Self::from_bytes(b, TypeTag::U64);
        assert(r.data@.subrange(0, 8) =~= spec_u64_to_le_bytes(value));
        r
    }

    /// The id of a `u128`: its little-endian bytes.
    pub fn from_u128(value: u128) -> (r: Id)
        ensures
            id_well_formed(r@),
            r.data@ == padded(spec_u128_to_le_bytes(value)),
            r.type_tag == TypeTag::U128,
            r.len == 16,
            id_value(r@) == value,
    {
        let b = u128_to_le_bytes(value);
        proof {
            vstd::bytes::lemma_auto_spec_u128_to_from_le_bytes();
        }
        let r = Self::from_bytes(b, TypeTag::U128);
        assert(r.data@ =~= spec_u128_to_le_bytes(value));
        r
    }

    /// The id of an `i8`: its byte, zero-padded.
    pub fn from_i8(value: i8) -> (r: Id)
        ensures
            id_well_formed(r@),
            r.data@ == padded(seq![value as u8]),
            r.type_tag == TypeTag::I8,
            r.len == 1,
            id_value(r@) == value,
    {
        let mut v: Vec<u8> = Vec::new();
        v.push(value as u8);
        assert(v@ =~= seq![value as u8]);
        let r = Self::from_bytes(v, TypeTag::I8);
        let ghost b0 = r.data@[0];
        assert(b0 == value as u8);
        assert(b0 as i8 == value) by (bit_vector)
            requires
                b0 == value as u8,
        ;
        r
    }

    /// The id of an `i16`: its little-endian bytes, zero-padded.
    pub fn from_i16(value: i16) -> (r: Id)
        ensures
            id_well_formed(r@),
            r.data@ == padded(spec_u16_to_le_bytes(value as u16)),
            r.type_tag == TypeTag::I16,
            r.len == 2,
            id_value(r@) == value,
    {
        let b = u16_to_le_bytes(value as u16);
        proof {
            vstd::bytes::lemma_auto_spec_u16_to_from_le_bytes();
        }
        let r = Self::from_bytes(b, TypeTag::I16);
        assert(r.data@.subrange(0, 2) =~= spec_u16_to_le_bytes(value as u16));
        let ghost x = spec_u16_from_le_bytes(r.data@.subrange(0, 2));
        assert(x as i16 == value) by (bit_vector)
            requires
                x == value as u16,
        ;
        r
    }

    /// The id of an `i32`: its little-endian bytes, zero-padded.
    pub fn from_i32(value: i32) -> (r: Id)
        ensures
            id_well_formed(r@),
            r.data@ == padded(spec_u32_to_le_bytes(value as u32)),
            r.type_tag == TypeTag::I32,
            r.len == 4,
            id_value(r@) == value,
    {
        let b = u32_to_le_bytes(value as u32);
        proof {
            vstd::bytes::lemma_auto_spec_u32_to_from_le_bytes();
        }
        let r = Self::from_bytes(b, TypeTag::I32);
        assert(r.data@.subrange(0, 4) =~= spec_u32_to_le_bytes(value as u32));
        let ghost x = spec_u32_from_le_bytes(r.data@.subrange(0, 4));
        assert(x as i32 == value) by (bit_vector)
            requires
                x == value as u32,
        ;
        r
    }

    /// The id of an `i64`: its little-endian bytes, zero-padded.
    pub fn from_i64(value: i64) -> (r: Id)
        ensures
            id_well_formed(r@),
            r.data@ == padded(spec_u64_to_le_bytes(value as u64)),
            r.type_tag == TypeTag::I64,
            r.len == 8,
            id_value(r@) == value,
    {
        let b = u64_to_le_bytes(value as u64);
        proof {
            vstd::bytes::lemma_auto_spec_u64_to_from_le_bytes();
        }
        let r = Self::from_bytes(b, TypeTag::I64);
        assert(r.data@.subrange(0, 8) =~= spec_u64_to_le_bytes(value as u64));
        let ghost x = spec_u64_from_le_bytes(r.data@.subrange(0, 8));
        assert(x as i64 == value) by (bit_vector)
            requires
                x == value as u64,
        ;
        r
    }

    /// The id of an `i128`: its little-endian bytes.
    pub fn from_i128(value: i128) -> (r: Id)
        ensures
            id_well_formed(r@),
            r.data@ == padded(spec_u128_to_le_bytes(value as u128)),
            r.type_tag == TypeTag::I128,
            r.len == 16,
            id_value(r@) == value,
    {
        let b = u128_to_le_bytes(value as u128);
        proof {
            vstd::bytes::lemma_auto_spec_u128_to_from_le_bytes();
        }
        let r = Self::from_bytes(b, TypeTag::I128);
        assert(r.data@ =~= spec_u128_to_le_bytes(value as u128));
        let ghost x = spec_u128_from_le_bytes(r.data@);
        assert(x as i128 == value) by (bit_vector)
            requires
                x == value as u128,
        ;
        r
    }

    /// The id of a 32-bit float, given by its bit pattern.
    pub fn from_f32_bits(bits: u32) -> (r: Id)
        ensures
            id_well_formed(r@),
            r.data@ == padded(spec_u32_to_le_bytes(bits)),
            r.type_tag == TypeTag::F32,
            r.len == 4,
            id_value(r@) == f32_total_key(bits),
    {
        let b = u32_to_le_bytes(bits);
        proof {
            vstd::bytes::lemma_auto_spec_u32_to_from_le_bytes();
        }
        let r = Self::from_bytes(b, TypeTag::F32);
        assert(r.data@.subrange(0, 4) =~= spec_u32_to_le_bytes(bits));
        r
    }

    /// The id of a 64-bit float, given by its bit pattern.
    pub fn from_f64_bits(bits: u64) -> (r: Id)
        ensures
            id_well_formed(r@),
            r.data@ == padded(spec_u64_to_le_bytes(bits)),
            r.type_tag == TypeTag::F64,
            r.len == 8,
            id_value(r@) == f64_total_key(bits),
    {
        let b = u64_to_le_bytes(bits);
        proof {
            vstd::bytes::lemma_auto_spec_u64_to_from_le_bytes();
        }
        let r = Self::from_bytes(b, TypeTag::F64);
        assert(r.data@.subrange(0, 8) =~= spec_u64_to_le_bytes(bits));
        r
    }

    /// The id of a `bool`: the byte 1 or 0, zero-padded.
    pub fn from_bool(value: bool) -> (r: Id)
        ensures
            id_well_formed(r@),
            r.data@ == padded(seq![if value { 1u8 } else { 0u8 }]),
            r.type_tag == TypeTag::Bool,
            r.len == 1,
            id_value(r@) == if value { 1int } else { 0int },
    {
        let mut v: Vec<u8> = Vec::new();
        v.push(if value { 1u8 } else { 0u8 });
        assert(v@ =~= seq![if value { 1u8 } else { 0u8 }]);
        Self::from_bytes(v, TypeTag::Bool)
    }

    /// The first `n` bytes of the value.
    fn prefix(&self, n: usize) -> (r: &[u8])
        requires
            n <= 16,
        ensures
            r@ == self.data@.subrange(0, n as int),
    {
        vstd::slice::slice_subrange(self.data.as_slice(), 0, n)
    }

    /// `-1`, `0` or `1` as this id sorts before, with or after `other`.
    pub fn compare(&self, other: &Id) -> (r: i8)
        ensures
            r == id_order(self@, other@),
    {
        let ta = self.type_tag.rank();
        let tb = other.type_tag.rank();
        if ta < tb {
            return -1;
        }
        if ta > tb {
            return 1;
        }
        proof {
            lemma_tag_rank_injective(self.type_tag, other.type_tag);
        }
        let r = match self.type_tag {
            TypeTag::U8 => {
                let r = sign_u128(self.data[0] as u128, other.data[0] as u128);
                assert(r == id_order(self@, other@));
                r
            },
            TypeTag::U16 => {
                let r = sign_u128(
                    u16_from_le_bytes(self.prefix(2)) as u128,
                    u16_from_le_bytes(other.prefix(2)) as u128,
                );
                assert(r == id_order(self@, other@));
                r
            },
            TypeTag::U32 => {
                let r = sign_u128(
                    u32_from_le_bytes(self.prefix(4)) as u128,
                    u32_from_le_bytes(other.prefix(4)) as u128,
                );
                assert(r == id_order(self@, other@));
                r
            },
            TypeTag::U64 => {
                let r = sign_u128(
                    u64_from_le_bytes(self.prefix(8)) as u128,
                    u64_from_le_bytes(other.prefix(8)) as u128,
                );
                assert(r == id_order(self@, other@));
                r
            },
            TypeTag::U128 => {
                let r = sign_u128(
                    u128_from_le_bytes(self.prefix(16)),
                    u128_from_le_bytes(other.prefix(16)),
                );
                assert(self.data@.subrange(0, 16) =~= self.data@);
                assert(other.data@.subrange(0, 16) =~= other.data@);
                assert(r == id_order(self@, other@));
                r
            },
            TypeTag::I8 => {
                let r = sign_i128(self.data[0] as i8 as i128, other.data[0] as i8 as i128);
                assert(r == id_order(self@, other@));
                r
            },
            TypeTag::I16 => {
                let r = sign_i128(
                    u16_from_le_bytes(self.prefix(2)) as i16 as i128,
                    u16_from_le_bytes(other.prefix(2)) as i16 as i128,
                );
                assert(r == id_order(self@, other@));
                r
            },
            TypeTag::I32 => {
                let r = sign_i128(
                    u32_from_le_bytes(self.prefix(4)) as i32 as i128,
                    u32_from_le_bytes(other.prefix(4)) as i32 as i128,
                );
                assert(r == id_order(self@, other@));
                r
            },
            TypeTag::I64 => {
                let r = sign_i128(
                    u64_from_le_bytes(self.prefix(8)) as i64 as i128,
                    u64_from_le_bytes(other.prefix(8)) as i64 as i128,
                );
                assert(r == id_order(self@, other@));
                r
            },
            TypeTag::I128 => {
                let r = sign_i128(
                    u128_from_le_bytes(self.prefix(16)) as i128,
                    u128_from_le_bytes(other.prefix(16)) as i128,
                );
                assert(self.data@.subrange(0, 16) =~= self.data@);
                assert(other.data@.subrange(0, 16) =~= other.data@);
                assert(r == id_order(self@, other@));
                r
            },
            TypeTag::F32 => {
                let a = u32_from_le_bytes(self.prefix(4));
                let b = u32_from_le_bytes(other.prefix(4));
                let ka: i128 = if a < 0x8000_0000 { a as i128 } else { 0x7fff_ffff - a as i128 };
                let kb: i128 = if b < 0x8000_0000 { b as i128 } else { 0x7fff_ffff - b as i128 };
                let r = sign_i128(ka, kb);
                assert(r == id_order(self@, other@));
                r
            },
            TypeTag::F64 => {
                let a = u64_from_le_bytes(self.prefix(8));
                let b = u64_from_le_bytes(other.prefix(8));
                let ka: i128 = if a < 0x8000_0000_0000_0000 {
                    a as i128
                } else {
                    0x7fff_ffff_ffff_ffff - a as i128
                };
                let kb: i128 = if b < 0x8000_0000_0000_0000 {
                    b as i128
                } else {
                    0x7fff_ffff_ffff_ffff - b as i128
                };
                let r = sign_i128(ka, kb);
                assert(r == id_order(self@, other@));
                r
            },
            TypeTag::Bool => {
                let a: u128 = if self.data[0] != 0 { 1 } else { 0 };
                let b: u128 = if other.data[0] != 0 { 1 } else { 0 };
                let r = sign_u128(a, b);
                assert(r == id_order(self@, other@));
                r
            },
        };
        r
    }
}

impl Id {
    /// The order of two ids: by type, then by value (floats in IEEE 754 total order).
    pub fn cmp(&self, other: &Id) -> (r: core::cmp::Ordering)
        ensures
            id_order(self@, other@) < 0 <==> r == core::cmp::Ordering::Less,
            id_order(self@, other@) == 0 <==> r == core::cmp::Ordering::Equal,
            id_order(self@, other@) > 0 <==> r == core::cmp::Ordering::Greater,
    {
        let c = self.compare(other);
        if c < 0 {
            core::cmp::Ordering::Less
        } else if c > 0 {
            core::cmp::Ordering::Greater
        } else {
            core::cmp::Ordering::Equal
        }
    }

    /// Whether the two ids hold the same bytes, count and type.
    pub fn same(&self, other: &Id) -> (r: bool)
        ensures
            r == (self@ == other@),
    {
        let mut i: usize = 0;
        while i < 16
            invariant
                i <= 16,
                self.data@.len() == 16,
                other.data@.len() == 16,
                forall|k: int| 0 <= k < i ==> self.data@[k] == other.data@[k],
            decreases 16 - i,
        {
            if self.data[i] != other.data[i] {
                return false;
            }
            i = i + 1;
        }
        assert(self.data@ =~= other.data@);
        self.len == other.len && self.type_tag == other.type_tag
    }
}

/// The array `a` holds the bytes `data`.
pub open spec fn holds_bytes(a: [u8; 16], data: Seq<u8>) -> bool {
    a@ == data
}

/// The id whose sixteen bytes are `data`, of `len` bytes and type `tag`.
pub open spec fn id_of(data: Seq<u8>, len: usize, tag: TypeTag) -> Id {
    Id { data: choose|a: [u8; 16]| #[trigger] holds_bytes(a, data), len, type_tag: tag }
}

/// An id is the one its bytes, count and type make.
proof fn lemma_id_of(r: Id)
    ensures
        r == id_of(r.data@, r.len, r.type_tag),
{
    assert(holds_bytes(r.data, r.data@));
    let a = choose|a: [u8; 16]| #[trigger] holds_bytes(a, r.data@);
    assert(a@ == r.data@);
    assert(a =~= r.data) by {
        assert forall|i: int| 0 <= i < 16 implies a[i] == r.data[i] by {
            assert(a@[i] == r.data@[i]);
        }
    }
}

impl From<u8> for Id {
    fn from(v: u8) -> (r: Id) {
        let r = Id::from_u8(v);
        proof {
            lemma_id_of(r);
        }
        r
    }
}

impl vstd::std_specs::convert::FromSpecImpl<u8> for Id {
    open spec fn obeys_from_spec() -> bool {
        true
    }

    open spec fn from_spec(v: u8) -> Id {
        id_of(padded(seq![v]), 1, TypeTag::U8)
    }
}

impl From<u16> for Id {
    fn from(v: u16) -> (r: Id) {
        let r = Id::from_u16(v);
        proof {
            lemma_id_of(r);
        }
        r
    }
}

impl vstd::std_specs::convert::FromSpecImpl<u16> for Id {
    open spec fn obeys_from_spec() -> bool {
        true
    }

    open spec fn from_spec(v: u16) -> Id {
        id_of(padded(spec_u16_to_le_bytes(v)), 2, TypeTag::U16)
    }
}

impl From<u32> for Id {
    fn from(v: u32) -> (r: Id) {
        let r = Id::from_u32(v);
        proof {
            lemma_id_of(r);
        }
        r
    }
}

impl vstd::std_specs::convert::FromSpecImpl<u32> for Id {
    open spec fn obeys_from_spec() -> bool {
        true
    }

    open spec fn from_spec(v: u32) -> Id {
        id_of(padded(spec_u32_to_le_bytes(v)), 4, TypeTag::U32)
    }
}

impl From<u64> for Id {
    fn from(v: u64) -> (r: Id) {
        let r = Id::from_u64(v);
        proof {
            lemma_id_of(r);
        }
        r
    }
}

impl vstd::std_specs::convert::FromSpecImpl<u64> for Id {
    open spec fn obeys_from_spec() -> bool {
        true
    }

    open spec fn from_spec(v: u64) -> Id {
        id_of(padded(spec_u64_to_le_bytes(v)), 8, TypeTag::U64)
    }
}

impl From<u128> for Id {
    fn from(v: u128) -> (r: Id) {
        let r = Id::from_u128(v);
        proof {
            lemma_id_of(r);
        }
        r
    }
}

impl vstd::std_specs::convert::FromSpecImpl<u128> for Id {
    open spec fn obeys_from_spec() -> bool {
        true
    }

    open spec fn from_spec(v: u128) -> Id {
        id_of(padded(spec_u128_to_le_bytes(v)), 16, TypeTag::U128)
    }
}

impl From<i8> for Id {
    fn from(v: i8) -> (r: Id) {
        let r = Id::from_i8(v);
        proof {
            lemma_id_of(r);
        }
        r
    }
}

impl vstd::std_specs::convert::FromSpecImpl<i8> for Id {
    open spec fn obeys_from_spec() -> bool {
        true
    }

    open spec fn from_spec(v: i8) -> Id {
        id_of(padded(seq![v as u8]), 1, TypeTag::I8)
    }
}

impl From<i16> for Id {
    fn from(v: i16) -> (r: Id) {
        let r = Id::from_i16(v);
        proof {
            lemma_id_of(r);
        }
        r
    }
}

impl vstd::std_specs::convert::FromSpecImpl<i16> for Id {
    open spec fn obeys_from_spec() -> bool {
        true
    }

    open spec fn from_spec(v: i16) -> Id {
        id_of(padded(spec_u16_to_le_bytes(v as u16)), 2, TypeTag::I16)
    }
}

impl From<i32> for Id {
    fn from(v: i32) -> (r: Id) {
        let r = Id::from_i32(v);
        proof {
            lemma_id_of(r);
        }
        r
    }
}

impl vstd::std_specs::convert::FromSpecImpl<i32> for Id {
    open spec fn obeys_from_spec() -> bool {
        true
    }

    open spec fn from_spec(v: i32) -> Id {
        id_of(padded(spec_u32_to_le_bytes(v as u32)), 4, TypeTag::I32)
    }
}

impl From<i64> for Id {
    fn from(v: i64) -> (r: Id) {
        let r = Id::from_i64(v);
        proof {
            lemma_id_of(r);
        }
        r
    }
}

impl vstd::std_specs::convert::FromSpecImpl<i64> for Id {
    open spec fn obeys_from_spec() -> bool {
        true
    }

    open spec fn from_spec(v: i64) -> Id {
        id_of(padded(spec_u64_to_le_bytes(v as u64)), 8, TypeTag::I64)
    }
}

impl From<i128> for Id {
    fn from(v: i128) -> (r: Id) {
        let r = Id::from_i128(v);
        proof {
            lemma_id_of(r);
        }
        r
    }
}

impl vstd::std_specs::convert::FromSpecImpl<i128> for Id {
    open spec fn obeys_from_spec() -> bool {
        true
    }

    open spec fn from_spec(v: i128) -> Id {
        id_of(padded(spec_u128_to_le_bytes(v as u128)), 16, TypeTag::I128)
    }
}

impl From<bool> for Id {
    fn from(v: bool) -> (r: Id) {
        let r = Id::from_bool(v);
        proof {
            lemma_id_of(r);
        }
        r
    }
}

impl vstd::std_specs::convert::FromSpecImpl<bool> for Id {
    open spec fn obeys_from_spec() -> bool {
        true
    }

    open spec fn from_spec(v: bool) -> Id {
        id_of(padded(seq![if v { 1u8 } else { 0u8 }]), 1, TypeTag::Bool)
    }
}

/// Ids of one type compare as the values they stand for, and an id of an
/// earlier type sorts before any id of a later one.
pub proof fn law_ids_order_by_type_then_value(a: IdView, b: IdView)
    ensures
        a.type_tag == b.type_tag ==> (id_order(a, b) < 0 <==> id_value(a) < id_value(b)),
        a.type_tag == b.type_tag ==> (id_order(a, b) == 0 <==> id_value(a) == id_value(b)),
        tag_rank(a.type_tag) < tag_rank(b.type_tag) ==> id_order(a, b) < 0,
{
}

/// The ids of two 32-bit float bit patterns, as `from_f32_bits` makes them,
/// follow IEEE 754 total order (`f32::total_cmp`): every pattern with the sign
/// bit set sorts before every pattern without it; among non-negative
/// patterns a larger pattern sorts later; among negative patterns a larger
/// pattern (a larger magnitude) sorts earlier; and only equal patterns compare
/// equal.
pub proof fn law_f32_ids_follow_total_order(a: IdView, b: IdView, x: u32, y: u32)
    requires
        a.type_tag == TypeTag::F32,
        b.type_tag == TypeTag::F32,
        a.data == padded(spec_u32_to_le_bytes(x)),
        b.data == padded(spec_u32_to_le_bytes(y)),
    ensures
        x < 0x8000_0000 && y < 0x8000_0000 ==> ((id_order(a, b) < 0) == (x < y)),
        x >= 0x8000_0000 && y >= 0x8000_0000 ==> ((id_order(a, b) < 0) == (x > y)),
        x >= 0x8000_0000 && y < 0x8000_0000 ==> id_order(a, b) < 0,
        x < 0x8000_0000 && y >= 0x8000_0000 ==> id_order(a, b) > 0,
        (id_order(a, b) == 0) == (x == y),
{
    vstd::bytes::lemma_auto_spec_u32_to_from_le_bytes();
    assert(a.data.subrange(0, 4) =~= spec_u32_to_le_bytes(x));
    assert(b.data.subrange(0, 4) =~= spec_u32_to_le_bytes(y));
    assert(id_value(a) == f32_total_key(x));
    assert(id_value(b) == f32_total_key(y));
}

/// The ids of two 64-bit float bit patterns, as `from_f64_bits` makes them,
/// follow IEEE 754 total order (`f64::total_cmp`): every pattern with the sign
/// bit set sorts before every pattern without it; among non-negative
/// patterns a larger pattern sorts later; among negative patterns a larger
/// pattern (a larger magnitude) sorts earlier; and only equal patterns compare
/// equal.
pub proof fn law_f64_ids_follow_total_order(a: IdView, b: IdView, x: u64, y: u64)
    requires
        a.type_tag == TypeTag::F64,
        b.type_tag == TypeTag::F64,
        a.data == padded(spec_u64_to_le_bytes(x)),
        b.data == padded(spec_u64_to_le_bytes(y)),
    ensures
        x < 0x8000_0000_0000_0000 && y < 0x8000_0000_0000_0000 ==> ((id_order(a, b) < 0) == (x < y)),
        x >= 0x8000_0000_0000_0000 && y >= 0x8000_0000_0000_0000 ==> ((id_order(a, b) < 0) == (x
            > y)),
        x >= 0x8000_0000_0000_0000 && y < 0x8000_0000_0000_0000 ==> id_order(a, b) < 0,
        x < 0x8000_0000_0000_0000 && y >= 0x8000_0000_0000_0000 ==> id_order(a, b) > 0,
        (id_order(a, b) == 0) == (x == y),
{
    vstd::bytes::lemma_auto_spec_u64_to_from_le_bytes();
    assert(a.data.subrange(0, 8) =~= spec_u64_to_le_bytes(x));
    assert(b.data.subrange(0, 8) =~= spec_u64_to_le_bytes(y));
    assert(id_value(a) == f64_total_key(x));
    assert(id_value(b) == f64_total_key(y));
}

/// Two ids are equal when they hold the same bytes, count and type.
impl PartialEq for Id {
    fn eq(&self, other: &Id) -> (r: bool) {
        self.same(other)
    }
}

impl Eq for Id {
}

impl vstd::std_specs::cmp::PartialEqSpecImpl for Id {
    open spec fn obeys_eq_spec() -> bool {
        true
    }

    open spec fn eq_spec(&self, other: &Id) -> bool {
        self@ == other@
    }
}

/// Ids compare as [`Id::cmp`] orders them: every two ids are comparable.
impl PartialOrd for Id {
    fn partial_cmp(&self, other: &Id) -> (r: Option<core::cmp::Ordering>) {
        Some(self.cmp(other))
    }
}

impl vstd::std_specs::cmp::PartialOrdSpecImpl for Id {
    open spec fn obeys_partial_cmp_spec() -> bool {
        true
    }

    open spec fn partial_cmp_spec(&self, other: &Id) -> Option<core::cmp::Ordering> {
        if id_order(self@, other@) < 0 {
            Some(core::cmp::Ordering::Less)
        } else if id_order(self@, other@) > 0 {
            Some(core::cmp::Ordering::Greater)
        } else {
            Some(core::cmp::Ordering::Equal)
        }
    }
}

/// Ids are totally ordered: the order is reflexive, antisymmetric and transitive,
/// and any two ids compare one way or the other.
pub proof fn law_id_order_total(a: IdView, b: IdView, c: IdView)
    ensures
        id_order(a, a) == 0,
        id_order(a, b) == -id_order(b, a),
        -1 <= id_order(a, b) <= 1,
        id_order(a, b) <= 0 && id_order(b, c) <= 0 ==> id_order(a, c) <= 0,
        id_order(a, b) < 0 && id_order(b, c) <= 0 ==> id_order(a, c) < 0,
        id_order(a, b) <= 0 && id_order(b, c) < 0 ==> id_order(a, c) < 0,
{
    lemma_tag_rank_injective(a.type_tag, b.type_tag);
    lemma_tag_rank_injective(b.type_tag, c.type_tag);
    lemma_tag_rank_injective(a.type_tag, c.type_tag);
}

/// A primitive type whose values can key an index.
pub trait Primitive: Copy + Sized {
    /// The type's tag.
    spec fn tag_spec() -> TypeTag;

    /// The value as an integer placed in its type's order (`false` < `true`).
    spec fn value_of(self) -> int;

    /// The type's tag.
    fn type_tag() -> (r: TypeTag)
        ensures
            r == Self::tag_spec(),
    ;

    /// The value as an id.
    fn to_id(self) -> (r: Id)
        ensures
            r@.type_tag == Self::tag_spec(),
            id_value(r@) == self.value_of(),
            id_well_formed(r@),
    ;
}

/// Through `to_id`, the ids of two values of one primitive type compare as
/// the values do, and are equal exactly when the values are.
pub proof fn law_to_id_keeps_the_order<T: Primitive>(x: T, y: T, a: IdView, b: IdView)
    requires
        a.type_tag == T::tag_spec(),
        b.type_tag == T::tag_spec(),
        id_value(a) == x.value_of(),
        id_value(b) == y.value_of(),
        id_well_formed(a),
        id_well_formed(b),
    ensures
        (id_order(a, b) < 0) == (x.value_of() < y.value_of()),
        (id_order(a, b) > 0) == (x.value_of() > y.value_of()),
        (a == b) == (x.value_of() == y.value_of()),
{
    law_ids_equal_iff_same_type_and_value(a, b);
}

impl Primitive for u8 {
    open spec fn tag_spec() -> TypeTag {
        TypeTag::U8
    }

    open spec fn value_of(self) -> int {
        self as int
    }

    fn type_tag() -> (r: TypeTag) {
        TypeTag::U8
    }

    fn to_id(self) -> (r: Id) {
        Id::from_u8(self)
    }
}

impl Primitive for u16 {
    open spec fn tag_spec() -> TypeTag {
        TypeTag::U16
    }

    open spec fn value_of(self) -> int {
        self as int
    }

    fn type_tag() -> (r: TypeTag) {
        TypeTag::U16
    }

    fn to_id(self) -> (r: Id) {
        Id::from_u16(self)
    }
}

impl Primitive for u32 {
    open spec fn tag_spec() -> TypeTag {
        TypeTag::U32
    }

    open spec fn value_of(self) -> int {
        self as int
    }

    fn type_tag() -> (r: TypeTag) {
        TypeTag::U32
    }

    fn to_id(self) -> (r: Id) {
        Id::from_u32(self)
    }
}

impl Primitive for u64 {
    open spec fn tag_spec() -> TypeTag {
        TypeTag::U64
    }

    open spec fn value_of(self) -> int {
        self as int
    }

    fn type_tag() -> (r: TypeTag) {
        TypeTag::U64
    }

    fn to_id(self) -> (r: Id) {
        Id::from_u64(self)
    }
}

impl Primitive for u128 {
    open spec fn tag_spec() -> TypeTag {
        TypeTag::U128
    }

    open spec fn value_of(self) -> int {
        self as int
    }

    fn type_tag() -> (r: TypeTag) {
        TypeTag::U128
    }

    fn to_id(self) -> (r: Id) {
        Id::from_u128(self)
    }
}

impl Primitive for i8 {
    open spec fn tag_spec() -> TypeTag {
        TypeTag::I8
    }

    open spec fn value_of(self) -> int {
        self as int
    }

    fn type_tag() -> (r: TypeTag) {
        TypeTag::I8
    }

    fn to_id(self) -> (r: Id) {
        Id::from_i8(self)
    }
}

impl Primitive for i16 {
    open spec fn tag_spec() -> TypeTag {
        TypeTag::I16
    }

    open spec fn value_of(self) -> int {
        self as int
    }

    fn type_tag() -> (r: TypeTag) {
        TypeTag::I16
    }

    fn to_id(self) -> (r: Id) {
        Id::from_i16(self)
    }
}

impl Primitive for i32 {
    open spec fn tag_spec() -> TypeTag {
        TypeTag::I32
    }

    open spec fn value_of(self) -> int {
        self as int
    }

    fn type_tag() -> (r: TypeTag) {
        TypeTag::I32
    }

    fn to_id(self) -> (r: Id) {
        Id::from_i32(self)
    }
}

impl Primitive for i64 {
    open spec fn tag_spec() -> TypeTag {
        TypeTag::I64
    }

    open spec fn value_of(self) -> int {
        self as int
    }

    fn type_tag() -> (r: TypeTag) {
        TypeTag::I64
    }

    fn to_id(self) -> (r: Id) {
        Id::from_i64(self)
    }
}

impl Primitive for i128 {
    open spec fn tag_spec() -> TypeTag {
        TypeTag::I128
    }

    open spec fn value_of(self) -> int {
        self as int
    }

    fn type_tag() -> (r: TypeTag) {
        TypeTag::I128
    }

    fn to_id(self) -> (r: Id) {
        Id::from_i128(self)
    }
}

impl Primitive for bool {
    open spec fn tag_spec() -> TypeTag {
        TypeTag::Bool
    }

    open spec fn value_of(self) -> int {
        if self { 1 } else { 0 }
    }

    fn type_tag() -> (r: TypeTag) {
        TypeTag::Bool
    }

    fn to_id(self) -> (r: Id) {
        Id::from_bool(self)
    }
}

} // verus!
