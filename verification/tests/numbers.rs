use pubsub_expect::decimal::{decimal_of_i64, decimal_of_u64, whole_from_text};
use pubsub_expect::float::{
    double_of_i64, double_of_single, double_of_u64, is_finite_double, is_finite_single,
    single_of_double,
};
use pubsub_expect::text::{Json, Member, Number};

fn object(members: Vec<(&str, Json)>) -> Json {
    Json::Object(
        members.into_iter().map(|(k, v)| Member { key: k.to_string(), value: v }).collect(),
    )
}

fn whole(n: i64) -> Json {
    Json::Number(if n >= 0 { Number::PosInt(n as u64) } else { Number::NegInt(n) })
}

fn float(x: f64) -> Json {
    Json::Number(Number::Float(x.to_bits()))
}

fn next(state: &mut u64) -> u64 {
    *state ^= *state << 13;
    *state ^= *state >> 7;
    *state ^= *state << 17;
    *state
}

fn same_single(got: u32, expected: f32) -> bool {
    if expected.is_nan() {
        f32::from_bits(got).is_nan()
    } else {
        got == expected.to_bits()
    }
}

#[test]
fn double_of_u64_gives_exact_values() {
    assert_eq!(double_of_u64(0), 0);
    assert_eq!(double_of_u64(1), 0x3ff0_0000_0000_0000);
    assert_eq!(double_of_u64(2), 0x4000_0000_0000_0000);
    assert_eq!(double_of_u64(3), 0x4008_0000_0000_0000);
    assert_eq!(double_of_u64(1 << 52), 0x4330_0000_0000_0000);
    assert_eq!(double_of_u64((1 << 53) - 1), 0x433f_ffff_ffff_ffff);
    assert_eq!(double_of_u64(1 << 53), 0x4340_0000_0000_0000);
}

#[test]
fn double_of_u64_rounds_ties_to_even() {
    assert_eq!(double_of_u64((1 << 53) + 1), 0x4340_0000_0000_0000);
    assert_eq!(double_of_u64((1 << 53) + 2), 0x4340_0000_0000_0001);
    assert_eq!(double_of_u64((1 << 53) + 3), 0x4340_0000_0000_0002);
    assert_eq!(double_of_u64(u64::MAX), 0x43f0_0000_0000_0000);
}

#[test]
fn double_of_u64_agrees_with_the_machine() {
    let mut state: u64 = 0x9e37_79b9_7f4a_7c15;
    for _ in 0..20000 {
        let n = next(&mut state);
        let shift = (next(&mut state) % 64) as u32;
        for candidate in [n, n >> shift, (n >> shift) | 1, (n >> shift) << (shift % 11)] {
            assert_eq!(double_of_u64(candidate), (candidate as f64).to_bits(), "{}", candidate);
        }
    }
    for bit in 0..64u32 {
        for delta in 0..4u64 {
            let n = (1u64 << bit).wrapping_add(delta);
            assert_eq!(double_of_u64(n), (n as f64).to_bits());
            let n = (1u64 << bit).wrapping_sub(delta);
            assert_eq!(double_of_u64(n), (n as f64).to_bits());
        }
    }
}

#[test]
fn double_of_i64_agrees_with_the_machine() {
    assert_eq!(double_of_i64(-1), 0xbff0_0000_0000_0000);
    assert_eq!(double_of_i64(i64::MIN), 0xc3e0_0000_0000_0000);
    assert_eq!(double_of_i64(i64::MAX), 0x43e0_0000_0000_0000);
    let mut state: u64 = 0x2545_f491_4f6c_dd1d;
    for _ in 0..20000 {
        let n = next(&mut state) as i64;
        let shift = (next(&mut state) % 64) as u32;
        for candidate in [n, n >> shift, -(n >> 1), i64::MIN + (n >> shift).abs()] {
            assert_eq!(double_of_i64(candidate), (candidate as f64).to_bits(), "{}", candidate);
        }
    }
}

#[test]
fn double_of_single_gives_exact_values() {
    assert_eq!(double_of_single(0), 0);
    assert_eq!(double_of_single(0x8000_0000), 0x8000_0000_0000_0000);
    assert_eq!(double_of_single(0x3f80_0000), 0x3ff0_0000_0000_0000);
    assert_eq!(double_of_single(0xc040_0000), 0xc008_0000_0000_0000);
    assert_eq!(double_of_single(0x0000_0001), 0x36a0_0000_0000_0000);
    assert_eq!(double_of_single(0x007f_ffff), (f32::from_bits(0x007f_ffff) as f64).to_bits());
    assert_eq!(double_of_single(0x7f80_0000), 0x7ff0_0000_0000_0000);
}

#[test]
fn double_of_single_agrees_with_the_machine() {
    let mut state: u64 = 0x1234_5678_9abc_def1;
    for _ in 0..50000 {
        let bits = next(&mut state) as u32;
        let value = f32::from_bits(bits);
        if !value.is_nan() {
            assert_eq!(double_of_single(bits), (value as f64).to_bits(), "{:#x}", bits);
        }
        let small = bits & 0x807f_ffff;
        assert_eq!(double_of_single(small), (f32::from_bits(small) as f64).to_bits());
    }
}

#[test]
fn single_of_double_gives_exact_values() {
    assert_eq!(single_of_double(0), 0);
    assert_eq!(single_of_double(0x8000_0000_0000_0000), 0x8000_0000);
    assert_eq!(single_of_double(0x3ff0_0000_0000_0000), 0x3f80_0000);
    assert_eq!(single_of_double((0.1f64).to_bits()), 0x3dcc_cccd);
    assert_eq!(single_of_double((1.0e300f64).to_bits()), 0x7f80_0000);
    assert_eq!(single_of_double((-1.0e300f64).to_bits()), 0xff80_0000);
    assert_eq!(single_of_double((1.0e-300f64).to_bits()), 0);
    assert_eq!(single_of_double(0x7ff0_0000_0000_0000), 0x7f80_0000);
}

#[test]
fn single_of_double_rounds_ties_to_even() {
    let one_and_half_step = 0x3ff0_0000_1000_0000u64;
    assert_eq!(single_of_double(one_and_half_step), 0x3f80_0000);
    assert_eq!(single_of_double(one_and_half_step + 1), 0x3f80_0001);
    let odd_and_half_step = 0x3ff0_0000_3000_0000u64;
    assert_eq!(single_of_double(odd_and_half_step), 0x3f80_0002);
    assert_eq!(single_of_double(0x47ef_ffff_f000_0000), 0x7f80_0000);
    assert_eq!(single_of_double(0x47ef_ffff_efff_ffff), 0x7f7f_ffff);
}

#[test]
fn single_of_double_reaches_the_smallest_singles() {
    assert_eq!(single_of_double((f32::from_bits(1) as f64).to_bits()), 1);
    assert_eq!(single_of_double((f32::from_bits(1) as f64 / 2.0).to_bits()), 0);
    assert_eq!(single_of_double((f32::from_bits(3) as f64 / 2.0).to_bits()), 2);
    assert_eq!(single_of_double((f32::MIN_POSITIVE as f64).to_bits()), 0x0080_0000);
    let below = f64::from_bits((f32::MIN_POSITIVE as f64).to_bits() - 1);
    assert_eq!(single_of_double(below.to_bits()), (below as f32).to_bits());
}

#[test]
fn single_of_double_agrees_with_the_machine() {
    let mut state: u64 = 0x0f0f_1234_5678_9abd;
    for _ in 0..50000 {
        let bits = next(&mut state);
        assert!(same_single(single_of_double(bits), f64::from_bits(bits) as f32), "{:#x}", bits);
        let single = next(&mut state) as u32;
        let near = (f32::from_bits(single) as f64).to_bits().wrapping_add(next(&mut state) % 3)
            ^ ((next(&mut state) % 4) << 28);
        assert!(same_single(single_of_double(near), f64::from_bits(near) as f32), "{:#x}", near);
        let exponent = 0x3690_0000_0000_0000 + ((next(&mut state) % 0x40) << 52);
        let tiny = exponent | (bits & 0x800f_ffff_ffff_ffff);
        assert!(same_single(single_of_double(tiny), f64::from_bits(tiny) as f32), "{:#x}", tiny);
    }
}

#[test]
fn finiteness_goes_by_the_exponent() {
    assert!(is_finite_double((1.5f64).to_bits()));
    assert!(is_finite_double(f64::MAX.to_bits()));
    assert!(is_finite_double(0));
    assert!(!is_finite_double(f64::INFINITY.to_bits()));
    assert!(!is_finite_double(f64::NEG_INFINITY.to_bits()));
    assert!(!is_finite_double(f64::NAN.to_bits()));
    assert!(is_finite_single((1.5f32).to_bits()));
    assert!(is_finite_single(f32::MIN.to_bits()));
    assert!(!is_finite_single(f32::INFINITY.to_bits()));
    assert!(!is_finite_single(f32::NAN.to_bits()));
}

#[test]
fn decimal_text_of_whole_numbers() {
    assert_eq!(decimal_of_u64(0), "0");
    assert_eq!(decimal_of_u64(7), "7");
    assert_eq!(decimal_of_u64(10), "10");
    assert_eq!(decimal_of_u64(1234567890), "1234567890");
    assert_eq!(decimal_of_u64(u64::MAX), "18446744073709551615");
    assert_eq!(decimal_of_i64(0), "0");
    assert_eq!(decimal_of_i64(-1), "-1");
    assert_eq!(decimal_of_i64(-1050), "-1050");
    assert_eq!(decimal_of_i64(i64::MAX), "9223372036854775807");
    assert_eq!(decimal_of_i64(i64::MIN), "-9223372036854775808");
}

#[test]
fn decimal_text_agrees_with_the_formatter() {
    let mut state: u64 = 0x7777_1234_5678_9abd;
    for _ in 0..2000 {
        let n = next(&mut state) >> (next(&mut state) % 64);
        assert_eq!(decimal_of_u64(n), format!("{}", n));
        assert_eq!(decimal_of_i64(n as i64), format!("{}", n as i64));
        assert_eq!(decimal_of_i64((n as i64).wrapping_neg()), format!("{}", (n as i64).wrapping_neg()));
    }
}

#[test]
fn numbers_are_equal_within_their_form() {
    assert!(Number::PosInt(5).equals(&Number::PosInt(5)));
    assert!(!Number::PosInt(5).equals(&Number::PosInt(6)));
    assert!(Number::NegInt(-5).equals(&Number::NegInt(-5)));
    assert!(!Number::NegInt(-5).equals(&Number::NegInt(-6)));
    assert!(!Number::PosInt(5).equals(&Number::Float((5.0f64).to_bits())));
    assert!(!Number::Float((5.0f64).to_bits()).equals(&Number::PosInt(5)));
    assert!(Number::Float((0.5f64).to_bits()).equals(&Number::Float((0.5f64).to_bits())));
    assert!(!Number::Float((0.5f64).to_bits()).equals(&Number::Float((0.25f64).to_bits())));
}

#[test]
fn zero_and_negative_zero_are_equal() {
    assert!(Number::Float((0.0f64).to_bits()).equals(&Number::Float((-0.0f64).to_bits())));
    assert!(Number::Float((-0.0f64).to_bits()).equals(&Number::Float((0.0f64).to_bits())));
    assert!(!Number::Float((0.0f64).to_bits()).equals(&Number::Float((1.0f64).to_bits())));
    assert!(!Number::Float((0.0f64).to_bits()).equals(&Number::PosInt(0)));
}

#[test]
fn numbers_read_as_whole_numbers() {
    assert_eq!(Number::PosInt(5).to_i64(), Some(5));
    assert_eq!(Number::PosInt(i64::MAX as u64).to_i64(), Some(i64::MAX));
    assert_eq!(Number::PosInt(i64::MAX as u64 + 1).to_i64(), None);
    assert_eq!(Number::NegInt(-5).to_i64(), Some(-5));
    assert_eq!(Number::Float((5.0f64).to_bits()).to_i64(), None);
    assert_eq!(Number::PosInt(u64::MAX).to_u64(), Some(u64::MAX));
    assert_eq!(Number::NegInt(-5).to_u64(), None);
    assert_eq!(Number::Float((5.0f64).to_bits()).to_u64(), None);
    assert_eq!(Number::PosInt(5).to_double(), (5.0f64).to_bits());
    assert_eq!(Number::NegInt(-5).to_double(), (-5.0f64).to_bits());
    assert_eq!(Number::Float((0.1f64).to_bits()).to_double(), (0.1f64).to_bits());
}

#[test]
fn numbers_of_whole_numbers_take_the_form_of_their_sign() {
    assert!(matches!(Number::from_i64(0), Number::PosInt(0)));
    assert!(matches!(Number::from_i64(7), Number::PosInt(7)));
    assert!(matches!(Number::from_i64(-7), Number::NegInt(-7)));
}

#[test]
fn documents_are_equal_whatever_the_order_of_members() {
    let a = object(vec![("x", whole(1)), ("y", float(2.5))]);
    let b = object(vec![("y", float(2.5)), ("x", whole(1))]);
    assert!(a.equals(&b));
    assert!(b.equals(&a));
    assert!(!a.equals(&object(vec![("x", whole(1))])));
    assert!(!object(vec![("x", whole(1))]).equals(&a));
    assert!(!a.equals(&object(vec![("x", whole(1)), ("y", float(2.0))])));
    assert!(!a.equals(&object(vec![("x", whole(1)), ("z", float(2.5))])));
}

#[test]
fn arrays_are_equal_item_by_item() {
    let a = Json::Array(vec![whole(1), whole(2)]);
    assert!(a.equals(&Json::Array(vec![whole(1), whole(2)])));
    assert!(!a.equals(&Json::Array(vec![whole(2), whole(1)])));
    assert!(!a.equals(&Json::Array(vec![whole(1)])));
    assert!(!a.equals(&Json::Array(vec![whole(1), whole(2), whole(3)])));
}

#[test]
fn a_copy_is_equal_to_the_document() {
    let doc = object(vec![
        ("x", Json::Array(vec![whole(1), Json::Null, Json::Bool(true)])),
        ("y", object(vec![("z", Json::Text("t".to_string()))])),
    ]);
    assert!(doc.deep_copy().equals(&doc));
}

#[test]
fn set_member_replaces_or_appends() {
    let mut members = vec![
        Member { key: "a".to_string(), value: whole(1) },
        Member { key: "b".to_string(), value: whole(2) },
    ];
    Json::set_member(&mut members, "a".to_string(), whole(3));
    Json::set_member(&mut members, "c".to_string(), whole(4));
    assert_eq!(members.len(), 3);
    assert_eq!(members[0].key, "a");
    assert!(members[0].value.equals(&whole(3)));
    assert_eq!(members[2].key, "c");
    assert_eq!(Json::find(&members, &"b".to_string()), Some(1));
    assert_eq!(Json::find(&members, &"z".to_string()), None);
}

#[test]
fn every_finite_single_survives_widening() {
    let mut state: u64 = 0x5151_1234_5678_9abd;
    for _ in 0..50000 {
        let bits = next(&mut state) as u32;
        if is_finite_single(bits) {
            assert_eq!(single_of_double(double_of_single(bits)), bits, "{:#x}", bits);
        }
        let small = bits & 0x807f_ffff;
        assert_eq!(single_of_double(double_of_single(small)), small, "{:#x}", small);
    }
    for bits in [0u32, 1, 0x007f_ffff, 0x0080_0000, 0x7f7f_ffff, 0x8000_0000, 0x8000_0001] {
        assert_eq!(single_of_double(double_of_single(bits)), bits);
    }
}

#[test]
fn a_whole_number_is_read_from_its_decimal_text_only() {
    let read = |s: &str, low: i128, high: i128| whole_from_text(&s.to_string(), low, high);
    let (low, high) = (i64::MIN as i128, u64::MAX as i128);
    assert_eq!(read("0", low, high), Some(0));
    assert_eq!(read("7", low, high), Some(7));
    assert_eq!(read("-7", low, high), Some(-7));
    assert_eq!(read("1234567890", low, high), Some(1234567890));
    assert_eq!(read("18446744073709551615", low, high), Some(u64::MAX as i128));
    assert_eq!(read("18446744073709551616", low, high), None);
    assert_eq!(read("-9223372036854775808", low, high), Some(i64::MIN as i128));
    assert_eq!(read("-9223372036854775809", low, high), None);
    for text in ["", "-", "--1", "-0", "00", "01", "+1", "1 ", " 1", "1.0", "1e3", "0x1", "\u{661}"] {
        assert_eq!(read(text, low, high), None, "{:?}", text);
    }
    assert_eq!(read("5", 6, 9), None);
    assert_eq!(read("10", 6, 9), None);
    assert_eq!(read("6", 6, 9), Some(6));
    assert_eq!(read("9", 6, 9), Some(9));
}

#[test]
fn whole_numbers_are_read_back_from_their_decimal_text() {
    let mut state: u64 = 0x4242_1234_5678_9abd;
    for _ in 0..2000 {
        let n = next(&mut state) >> (next(&mut state) % 64);
        let text = decimal_of_u64(n);
        assert_eq!(whole_from_text(&text, 0, u64::MAX as i128), Some(n as i128));
        let signed = (n as i64).wrapping_neg();
        let text = decimal_of_i64(signed);
        assert_eq!(
            whole_from_text(&text, i64::MIN as i128, i64::MAX as i128),
            Some(signed as i128)
        );
    }
}
