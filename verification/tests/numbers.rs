use lpudp::bignat::{BigNat, Relation};
use lpudp::double::Double;
use lpudp::number::{parse_decimal, parse_whole, DecimalFault, WholeFault};

fn double(value: f64) -> Double {
    Double::from_bits(value.to_bits())
}

/// Numbers of every kind: ordinary ones, extreme ones, and patterns spread over all exponents.
fn specimens() -> Vec<f64> {
    let mut list = vec![
        0.0,
        -0.0,
        1.0,
        -1.0,
        0.5,
        1.5,
        2.5,
        3.95,
        0.9,
        100.0,
        600.0,
        1000.0,
        1.0e-300,
        1.0e300,
        5.0e-324,
        -5.0e-324,
        f64::MIN_POSITIVE,
        f64::MAX,
        f64::MIN,
        f64::EPSILON,
        f64::INFINITY,
        f64::NEG_INFINITY,
        f64::NAN,
        9_007_199_254_740_991.0,
        9_007_199_254_740_992.0,
        18_446_744_073_709_551_615.0,
        4_503_599_627_370_495.5,
    ];
    let mut state: u64 = 0x9e37_79b9_7f4a_7c15;
    for _ in 0..40 {
        state = state
            .wrapping_mul(6_364_136_223_846_793_005)
            .wrapping_add(1_442_695_040_888_963_407);
        list.push(f64::from_bits(state));
        list.push(f64::from_bits((state >> 12) | 0x3ff0_0000_0000_0000));
        list.push((state >> 40) as f64 / 1000.0);
    }
    list
}

fn same(a: Double, b: f64) -> bool {
    if b.is_nan() {
        f64::from_bits(a.bits).is_nan()
    } else {
        a.bits == b.to_bits()
    }
}

#[test]
fn products_are_nearest() {
    for &a in &specimens() {
        for &b in &specimens() {
            assert!(same(double(a).times(double(b)), a * b), "{a} * {b}");
        }
    }
}

#[test]
fn quotients_are_nearest() {
    for &a in &specimens() {
        for &b in &specimens() {
            assert!(same(double(a).over(double(b)), a / b), "{a} / {b}");
        }
    }
}

#[test]
fn sums_and_differences_are_nearest() {
    for &a in &specimens() {
        for &b in &specimens() {
            assert!(same(double(a).plus(double(b)), a + b), "{a} + {b}");
            assert!(same(double(a).minus(double(b)), a - b), "{a} - {b}");
        }
    }
}

#[test]
fn comparisons_follow_values() {
    for &a in &specimens() {
        for &b in &specimens() {
            assert_eq!(double(a).is_below(double(b)), a < b, "{a} < {b}");
            assert_eq!(double(a).is_at_most(double(b)), a <= b, "{a} <= {b}");
            assert_eq!(double(a).is_same(double(b)), a == b, "{a} == {b}");
            if a != b || a.is_nan() {
                assert!(same(double(a).larger(double(b)), a.max(b)), "{a} max {b}");
            }
        }
    }
}

#[test]
fn whole_numbers_are_cut_and_rounded() {
    for &a in &specimens() {
        assert_eq!(double(a).to_u64(), a as u64, "{a}");
        assert_eq!(double(a).round_to_u64(), a.round() as u64, "{a}");
    }
    assert_eq!(double(2.5).round_to_u64(), 3);
    assert_eq!(double(0.49999999999999994).round_to_u64(), 0);
    assert_eq!(double(-3.0).round_to_u64(), 0);
    assert_eq!(double(f64::INFINITY).to_u64(), u64::MAX);
}

#[test]
fn whole_numbers_become_nearest() {
    for n in [
        0u64,
        1,
        2,
        25,
        9_007_199_254_740_991,
        9_007_199_254_740_992,
        9_007_199_254_740_993,
        9_007_199_254_740_995,
        u64::MAX,
        u64::MAX - 1024,
        1 << 63,
    ] {
        assert_eq!(Double::from_u64(n).bits, (n as f64).to_bits(), "{n}");
    }
}

fn decimal(text: &str) -> Result<u64, DecimalFault> {
    let chars = text.chars().collect::<Vec<_>>();
    parse_decimal(&chars, 0, chars.len()).map(|value| value.bits)
}

#[test]
fn decimals_become_nearest() {
    for text in [
        "0",
        "-0",
        "1",
        "+1",
        "1.",
        ".5",
        "0.1",
        "3.95",
        "1700000000.125",
        "1e3",
        "1E+3",
        "1e-3",
        "123456789012345678901234567890",
        "0.1234567890123456789012345678901234567890",
        "9007199254740993",
        "9007199254740992.9999999999999999999999",
        "2.2250738585072011e-308",
        "4.9e-324",
        "2.4703282292062327e-324",
        "2.4703282292062328e-324",
        "1.7976931348623157e308",
        "1.7976931348623159e308",
        "1e400",
        "1e-400",
        "1e401",
        "0e999999999999999999999999999999999999",
        "1e999999999999999999999999999999999999",
        "1e-999999999999999999999999999999999999",
        "inf",
        "-Infinity",
        "INF",
        "00000000000000000000000000000000000001",
    ] {
        assert_eq!(decimal(text), Ok(text.parse::<f64>().unwrap().to_bits()), "{text}");
    }
    assert!(f64::from_bits(decimal("NaN").unwrap()).is_nan());
}

#[test]
fn decimals_are_checked() {
    assert_eq!(decimal(""), Err(DecimalFault::Empty));
    for text in [
        "+", "-", ".", "e3", ".e3", "1e", "1e+", "1.2.3", "1,5", "0x10", " 1", "1 ", "--1", "infi",
        "1e3x", "\u{661}",
    ] {
        assert!(text.parse::<f64>().is_err(), "{text}");
        assert_eq!(decimal(text), Err(DecimalFault::Invalid), "{text}");
    }
}

fn whole(text: &str) -> Result<i32, WholeFault> {
    let chars = text.chars().collect::<Vec<_>>();
    parse_whole(&chars, 0, chars.len())
}

#[test]
fn whole_samples_are_read() {
    for text in [
        "0", "-0", "+7", "-2147483648", "2147483647", "0000000000000000001", "42",
    ] {
        assert_eq!(whole(text), Ok(text.parse::<i32>().unwrap()), "{text}");
    }
    assert_eq!(whole(""), Err(WholeFault::Empty));
    for text in ["+", "-", "1x", "x", "--1", "1.5", "\u{661}", "2147483x48"] {
        assert_eq!(whole(text), Err(WholeFault::InvalidDigit), "{text}");
    }
    assert_eq!(whole("2147483648"), Err(WholeFault::TooLarge));
    assert_eq!(whole("99999999999x"), Err(WholeFault::TooLarge));
    assert_eq!(whole("-2147483649"), Err(WholeFault::TooSmall));
}

#[test]
fn large_numbers_are_exact() {
    let a = BigNat::from_u64(u64::MAX).mul_add(u64::MAX, 5);
    let b = BigNat::from_u64(1).shift_left(128);
    assert_eq!(a.relate(&b), Relation::Less);
    assert_eq!(b.relate(&a), Relation::More);
    let sum = a.plus(&b);
    assert_eq!(sum.minus(&b).relate(&a), Relation::Same);
    assert_eq!(BigNat::from_u64(3).shift_left(0).relate(&BigNat::from_u64(3)), Relation::Same);
}
