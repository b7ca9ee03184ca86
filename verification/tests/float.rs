use kv_squeeze::float::decimal::parse;
use kv_squeeze::float::{Binary16, Binary32, Binary64};

/// Bit patterns of every kind: specials, edges of the ranges, and a spread of
/// others.
fn patterns_32() -> Vec<u32> {
    let mut v: Vec<u32> = Vec::new();
    for e in [0u32, 1, 2, 23, 24, 100, 126, 127, 128, 150, 230, 253, 254, 255] {
        for m in [0u32, 1, 2, 0x40_0000, 0x3F_FFFF, 0x7F_FFFE, 0x7F_FFFF, 0x12_3456] {
            v.push((e << 23) | m);
            v.push(0x8000_0000 | (e << 23) | m);
        }
    }
    let mut x: u32 = 1;
    for _ in 0..120 {
        x = x.wrapping_mul(1664525).wrapping_add(1013904223);
        v.push(x);
    }
    v
}

fn patterns_64() -> Vec<u64> {
    let mut v: Vec<u64> = Vec::new();
    for e in [0u64, 1, 52, 53, 600, 1022, 1023, 1024, 1075, 1500, 2045, 2046, 2047] {
        for m in [0u64, 1, 0x8_0000_0000_0000, 0x7_FFFF_FFFF_FFFF, 0xF_FFFF_FFFF_FFFF] {
            v.push((e << 52) | m);
            v.push((1 << 63) | (e << 52) | m);
        }
    }
    let mut x: u64 = 1;
    for _ in 0..100 {
        x = x.wrapping_mul(6364136223846793005).wrapping_add(1442695040888963407);
        v.push(x);
    }
    v
}

fn check_32(r: Binary32, expected: f32, what: &str, a: u32, b: u32) {
    if expected.is_nan() {
        assert!(r.is_nan(), "{} {:x} {:x}", what, a, b);
    } else {
        assert_eq!(r.bits, expected.to_bits(), "{} {:x} {:x}", what, a, b);
    }
}

fn check_64(r: Binary64, expected: f64, what: &str, a: u64, b: u64) {
    if expected.is_nan() {
        assert!(r.is_nan(), "{} {:x} {:x}", what, a, b);
    } else {
        assert_eq!(r.bits, expected.to_bits(), "{} {:x} {:x}", what, a, b);
    }
}

#[test]
fn single_arithmetic_is_that_of_the_machine() {
    let all = patterns_32();
    for &a in &all {
        for &b in &all {
            let (x, y) = (f32::from_bits(a), f32::from_bits(b));
            let (p, q) = (Binary32 { bits: a }, Binary32 { bits: b });
            check_32(p.times(q), x * y, "times", a, b);
            check_32(p.over(q), x / y, "over", a, b);
            check_32(p.plus(q), x + y, "plus", a, b);
            check_32(p.minus(q), x - y, "minus", a, b);
            assert_eq!(p.is_below(q), x < y);
        }
        assert_eq!(Binary32 { bits: a }.abs().bits, a & 0x7FFF_FFFF);
    }
}

#[test]
fn double_arithmetic_is_that_of_the_machine() {
    let all = patterns_64();
    for &a in &all {
        for &b in &all {
            let (x, y) = (f64::from_bits(a), f64::from_bits(b));
            let (p, q) = (Binary64 { bits: a }, Binary64 { bits: b });
            check_64(p.times(q), x * y, "times", a, b);
            check_64(p.over(q), x / y, "over", a, b);
            check_64(p.plus(q), x + y, "plus", a, b);
            check_64(p.minus(q), x - y, "minus", a, b);
            assert_eq!(p.is_below(q), x < y);
        }
        assert_eq!(Binary64 { bits: a }.abs().bits, a & 0x7FFF_FFFF_FFFF_FFFF);
        assert_eq!(Binary64 { bits: a }.to_usize(), f64::from_bits(a) as usize);
    }
}

#[test]
fn numbers_compare_by_their_order_keys() {
    let all = patterns_64();
    for &a in &all {
        for &b in &all {
            let (x, y) = (f64::from_bits(a), f64::from_bits(b));
            if !x.is_nan() && !y.is_nan() {
                let (p, q) = (Binary64 { bits: a }, Binary64 { bits: b });
                assert_eq!(p.to_order_key() < q.to_order_key(), x < y);
            }
        }
    }
}

#[test]
fn conversions_are_those_of_the_machine() {
    for &a in &patterns_32() {
        let x = f32::from_bits(a);
        let p = Binary32 { bits: a };
        check_64(p.widen(), x as f64, "widen", a as u64, 0);
        let limit = 8;
        let expected = (x.round() as i32).clamp(-limit, limit);
        assert_eq!(p.round_to_integer(limit), expected, "{}", x);
    }
    for n in [
        0u64,
        1,
        2,
        7,
        1024,
        0xFF_FFFF,
        0x100_0001,
        0x100_0003,
        0x1F_FFFF_FFFF_FFFF,
        0x20_0000_0000_0001,
        0x20_0000_0000_0003,
        u64::MAX - 1,
        u64::MAX,
    ] {
        assert_eq!(Binary32::from_unsigned(n).bits, (n as f32).to_bits());
        assert_eq!(Binary64::from_unsigned(n).bits, (n as f64).to_bits());
    }
    for n in -9..=9 {
        assert_eq!(Binary32::from_signed(n).bits, (n as f32).to_bits());
    }
    for x in [0.4f32, 0.5, 0.6, 1.5, 2.5, -0.5, -1.5, -2.5, 6.9, 7.5, 8.5, -8.5, 1e30, -1e30] {
        let p = Binary32 { bits: x.to_bits() };
        assert_eq!(p.round_to_integer(100), (x.round() as i32).clamp(-100, 100));
    }
}

#[test]
fn half_conversions_are_those_of_the_half_crate() {
    for bits in 0..=u16::MAX {
        let expected = half::f16::from_bits(bits).to_f32();
        let got = Binary16 { bits }.widen();
        if expected.is_nan() {
            assert!(got.is_nan());
        } else {
            assert_eq!(got.bits, expected.to_bits());
        }
    }
    let mut all = patterns_32();
    // Around every binary16 number, and midway to the next.
    for h in (0..0x7C00u32).step_by(61) {
        let x = half::f16::from_bits(h as u16).to_f32().to_bits();
        let y = half::f16::from_bits(h as u16 + 1).to_f32().to_bits();
        let mid = ((f32::from_bits(x) as f64 + f32::from_bits(y) as f64) / 2.0) as f32;
        for bits in [x, x + 1, mid.to_bits(), mid.to_bits() + 1, mid.to_bits().max(1) - 1] {
            all.push(bits);
            all.push(bits | 0x8000_0000);
        }
    }
    for a in all {
        let expected = half::f16::from_f32(f32::from_bits(a)).to_bits();
        let got = Binary32 { bits: a }.narrow();
        assert_eq!(got.bits, expected, "{:x}", a);
    }
}

#[test]
fn decimal_text_is_read_as_std_reads_it() {
    let mut cases: Vec<String> = Vec::new();
    for s in [
        "0", "-0", "1", "+1", "007", "3.25", "3.", ".5", "1e10", "1E-10", "1e+5", "123456789",
        "0.1", "0.2", "0.3", "1e22", "1e23", "9007199254740993", "9007199254740992.5",
        "1.7976931348623157e308", "1.7976931348623159e308", "1e309", "4.9e-324", "2.4e-324",
        "2.5e-324", "2.2250738585072014e-308", "2.2250738585072011e-308", "1e-400", "1e400",
        "0e99999999999999999999999999", "1e99999999999999999999999999999",
        "1e-99999999999999999999999999999", "0.000000000000000000000000000001e30",
        "100000000000000000000000000000000000000000e-41", "inf", "-INF", "Infinity", "+infinity",
        "nan", "-NaN", "", "+", "-", ".", "e", "1e", "1e+", "1.2.3", "1 ", " 1", "0x1", "infin",
        "nan1", "--1", "+-1", "1e5.5", "1_000", "e5", ".e5", "\u{0661}",
    ] {
        cases.push(s.to_string());
    }
    // The exact midpoint between 1 and the next number, and its neighbours.
    let mid = "1.00000000000000011102230246251565404236316680908203125";
    cases.push(mid.to_string());
    cases.push(format!("{}0000000000000000000000000000001", mid));
    cases.push(mid.replace("3125", "3124"));
    for &a in &patterns_64() {
        let x = f64::from_bits(a);
        cases.push(format!("{}", x));
        cases.push(format!("{:e}", x));
    }
    for s in &cases {
        let chars: Vec<char> = s.chars().collect();
        match (parse(&chars), s.parse::<f64>()) {
            (Some(got), Ok(expected)) => check_64(got, expected, s, 0, 0),
            (None, Err(_)) => {}
            (got, expected) => panic!("{}: {:?} {:?}", s, got, expected),
        }
    }
}
