use inmemorytable::primitive::{Id, Primitive, TypeTag};
use std::cmp::Ordering;

#[test]
fn ids_of_one_type_order_by_value() {
    assert_eq!(Id::from_u8(3).cmp(&Id::from_u8(200)), Ordering::Less);
    assert_eq!(Id::from_u16(500).cmp(&Id::from_u16(499)), Ordering::Greater);
    assert_eq!(Id::from_u32(7).cmp(&Id::from_u32(7)), Ordering::Equal);
    assert_eq!(Id::from_u64(u64::MAX).cmp(&Id::from_u64(1)), Ordering::Greater);
    assert_eq!(Id::from_u128(1 << 100).cmp(&Id::from_u128(1 << 99)), Ordering::Greater);
    assert_eq!(Id::from_i8(-1).cmp(&Id::from_i8(1)), Ordering::Less);
    assert_eq!(Id::from_i16(-300).cmp(&Id::from_i16(-2)), Ordering::Less);
    assert_eq!(Id::from_i32(i32::MIN).cmp(&Id::from_i32(0)), Ordering::Less);
    assert_eq!(Id::from_i64(-5).cmp(&Id::from_i64(-5)), Ordering::Equal);
    assert_eq!(Id::from_i128(-1).cmp(&Id::from_i128(i128::MIN)), Ordering::Greater);
    assert_eq!(Id::from_bool(false).cmp(&Id::from_bool(true)), Ordering::Less);
}

#[test]
fn ids_of_different_types_order_by_type() {
    assert_eq!(Id::from_u128(u128::MAX).cmp(&Id::from_i8(-128)), Ordering::Less);
    assert_eq!(Id::from_bool(false).cmp(&Id::from_u8(255)), Ordering::Greater);
    assert_eq!(Id::from_u8(1).partial_cmp(&Id::from_u16(1)), Some(Ordering::Less));
}

#[test]
fn float_ids_follow_total_order() {
    let f32s = [f32::NEG_INFINITY, -2.5, -0.0, 0.0, 1.0e-30, 3.0, f32::INFINITY];
    for a in f32s {
        for b in f32s {
            let got = Id::from_f32_bits(a.to_bits()).cmp(&Id::from_f32_bits(b.to_bits()));
            assert_eq!(got, a.total_cmp(&b), "{} vs {}", a, b);
        }
    }
    let f64s = [f64::NEG_INFINITY, -1.0e300, -0.0, 0.0, 2.0, f64::INFINITY, f64::NAN];
    for a in f64s {
        for b in f64s {
            let got = Id::from_f64_bits(a.to_bits()).cmp(&Id::from_f64_bits(b.to_bits()));
            assert_eq!(got, a.total_cmp(&b), "{} vs {}", a, b);
        }
    }
}

#[test]
fn ids_hold_little_endian_bytes() {
    let id = Id::from_u32(0x0a0b0c0d);
    assert_eq!(&id.data[..4], &[0x0d, 0x0c, 0x0b, 0x0a]);
    assert!(id.data[4..].iter().all(|&b| b == 0));
    assert_eq!(id.len, 4);
    assert_eq!(id.type_tag, TypeTag::U32);
    assert_eq!(Id::from_i128(-1).len, 16);
    assert_eq!(Id::from_bool(true).data[0], 1);
}

#[test]
fn same_compares_bytes_length_and_type() {
    assert!(Id::from_i32(5).same(&Id::from_i32(5)));
    assert!(!Id::from_i32(5).same(&Id::from_u32(5)));
    assert!(!Id::from_i32(5).same(&Id::from_i32(6)));
}

#[test]
fn primitive_values_convert_to_ids() {
    assert_eq!(<u8 as Primitive>::type_tag(), TypeTag::U8);
    assert_eq!(<i64 as Primitive>::type_tag(), TypeTag::I64);
    assert_eq!(<bool as Primitive>::type_tag(), TypeTag::Bool);
    assert!(7u16.to_id().same(&Id::from_u16(7)));
    assert!((-7i32).to_id().same(&Id::from_i32(-7)));
    assert!(true.to_id().same(&Id::from_bool(true)));
}

#[test]
fn type_tags_round_trip_through_their_rank() {
    for r in 0..13u8 {
        assert_eq!(TypeTag::from_rank(r).unwrap().rank(), r);
    }
    assert_eq!(TypeTag::from_rank(13), None);
    assert_eq!(TypeTag::F64.rank(), 11);
}

#[test]
fn ids_compare_with_operators() {
    assert_eq!(Id::from_i32(5), Id::from_i32(5));
    assert_ne!(Id::from_i32(5), Id::from_u32(5));
    assert!(Id::from_u8(1) < Id::from_u8(2));
    assert!(Id::from_i64(-1) < Id::from_i64(0));
    assert!(Id::from_u64(9) > Id::from_u64(3));
    assert!(Id::from_u16(7) <= Id::from_u16(7));
    // by type first: every u8 sorts before every u16
    assert!(Id::from_u8(200) < Id::from_u16(1));
}

#[test]
fn ids_convert_from_primitives() {
    assert_eq!(Id::from(5u8), Id::from_u8(5));
    assert_eq!(Id::from(-5i16), Id::from_i16(-5));
    let id: Id = 70_000u32.into();
    assert_eq!(id, Id::from_u32(70_000));
    assert_eq!(Id::from(u64::MAX).data[..8], [0xff; 8]);
    assert_eq!(Id::from(u64::MAX).data[8..], [0; 8]);
    assert_eq!(Id::from(-1i128).data, [0xff; 16]);
    assert_eq!(Id::from(true), Id::from_bool(true));
    assert_eq!(Id::from(true).len, 1);
}

#[test]
fn ids_are_equal_exactly_for_one_type_and_value() {
    assert_eq!(7u32.to_id(), Id::from_u32(7));
    assert_ne!(Id::from_u8(5), Id::from_u16(5));
    assert_ne!(Id::from_i8(-1), Id::from_u8(255));
    assert_eq!(Id::from_i64(-3).cmp(&Id::from_i64(-3)), std::cmp::Ordering::Equal);
    assert!((-3i64).to_id() < 2i64.to_id());
    assert!(false.to_id() < true.to_id());
}
