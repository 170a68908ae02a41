use llm_multimodal::decimal::{append_decimal, append_signed_decimal};
use llm_multimodal::float::binary32::Binary32;
use llm_multimodal::float::binary64::Binary64;

fn double(v: f64) -> Binary64 {
    Binary64::from_bits(v.to_bits())
}

fn single(v: f32) -> Binary32 {
    Binary32::from_bits(v.to_bits())
}

fn agrees(ours: Binary64, native: f64) -> bool {
    if native.is_nan() {
        f64::from_bits(ours.to_bits()).is_nan()
    } else {
        ours.to_bits() == native.to_bits()
    }
}

fn next_random(state: &mut u64) -> u64 {
    *state ^= *state << 13;
    *state ^= *state >> 7;
    *state ^= *state << 17;
    *state
}

/// Special values, values around the format's edges, and random ones.
fn doubles() -> Vec<f64> {
    let mut values = vec![
        0.0,
        -0.0,
        1.0,
        -1.0,
        0.5,
        1.5,
        2.5,
        -2.5,
        0.1,
        1e-4,
        30.0,
        29.97,
        f64::NAN,
        f64::INFINITY,
        f64::NEG_INFINITY,
        f64::MAX,
        f64::MIN,
        f64::MIN_POSITIVE,
        f64::from_bits(1),
        f64::from_bits(0x000F_FFFF_FFFF_FFFF),
        4503599627370495.5,
        4503599627370496.5,
        9007199254740991.0,
        9007199254740993.0,
        18446744073709551615.0,
        18446744073709551616.0,
    ];
    let mut state: u64 = 0x9E37_79B9_7F4A_7C15;
    for _ in 0..60 {
        values.push(f64::from_bits(next_random(&mut state)));
        values.push((next_random(&mut state) % 100_000) as f64 / 64.0);
        values.push(-((next_random(&mut state) >> 11) as f64) / 7.0);
    }
    values
}

#[test]
fn double_arithmetic_equals_the_machine() {
    for a in doubles() {
        for b in doubles() {
            assert!(agrees(double(a).times(double(b)), a * b), "{a} * {b}");
            assert!(agrees(double(a).over(double(b)), a / b), "{a} / {b}");
            assert!(agrees(double(a).plus(double(b)), a + b), "{a} + {b}");
            assert!(agrees(double(a).minus(double(b)), a - b), "{a} - {b}");
            assert_eq!(double(a).less(double(b)), a < b);
            assert_eq!(double(a).at_most(double(b)), a <= b);
            assert_eq!(double(a).equals(double(b)), a == b);
            assert_eq!(double(a) == double(b), a == b);
        }
    }
}

#[test]
fn double_rounding_equals_the_machine() {
    for a in doubles() {
        assert!(agrees(double(a).floor(), a.floor()), "floor {a}");
        assert!(agrees(double(a).ceil(), a.ceil()), "ceil {a}");
        assert!(agrees(double(a).round(), a.round()), "round {a}");
        assert!(agrees(double(a).negated(), -a), "- {a}");
        assert_eq!(double(a).to_usize(), a as usize, "usize {a}");
        assert_eq!(double(a).to_unsigned(u64::MAX), a as u64, "u64 {a}");
        assert_eq!(double(a).is_finite(), a.is_finite());
        assert_eq!(double(a).is_positive(), a > 0.0);
        assert_eq!(double(a).is_known(), a.is_finite() && a > 0.0);
    }
}

#[test]
fn integers_become_doubles_as_on_the_machine() {
    let mut state: u64 = 88172645463325252;
    for shift in 0..64 {
        for _ in 0..20 {
            let n = next_random(&mut state) >> shift;
            assert!(agrees(Binary64::from_u64(n), n as f64), "{n}");
            assert!(agrees(Binary64::from_usize(n as usize), n as usize as f64));
            assert!(agrees(Binary64::from_i64(n as i64), n as i64 as f64));
            assert_eq!(Binary32::from_usize(n as usize).to_bits(), (n as usize as f32).to_bits());
        }
    }
    for n in [0, 1, u64::MAX, 1 << 53, (1 << 53) + 1, (1 << 53) + 3] {
        assert!(agrees(Binary64::from_u64(n), n as f64), "{n}");
    }
    assert!(agrees(Binary64::from_i64(i64::MIN), i64::MIN as f64));
}

#[test]
fn single_arithmetic_equals_the_machine() {
    let mut values: Vec<f32> = vec![
        0.0,
        -0.0,
        1.0,
        0.1,
        -2.5,
        f32::NAN,
        f32::INFINITY,
        f32::NEG_INFINITY,
        f32::MAX,
        f32::MIN_POSITIVE,
        f32::from_bits(1),
        f32::from_bits(0x007F_FFFF),
        16777217.0,
    ];
    let mut state: u64 = 362436069;
    for _ in 0..120 {
        values.push(f32::from_bits(next_random(&mut state) as u32));
        values.push((next_random(&mut state) % 10_000) as f32 / 33.0);
    }
    for &a in &values {
        assert!(agrees(single(a).to_double(), f64::from(a)), "{a}");
        for &b in &values {
            let native = a * b;
            let ours = f32::from_bits(single(a).times(single(b)).to_bits());
            assert!(
                native.is_nan() && ours.is_nan() || native.to_bits() == ours.to_bits(),
                "{a} * {b}"
            );
            assert_eq!(single(a) == single(b), a == b);
        }
    }
}

#[test]
fn one_decimal_equals_the_formatter() {
    let mut values = doubles();
    for i in 0..2000 {
        values.push(i as f64 / 40.0);
        values.push(-(i as f64) / 16.0);
    }
    for a in values {
        let mut text = String::from("<");
        double(a).append_one_decimal(&mut text);
        assert_eq!(text, format!("<{a:.1}"));
    }
}

#[test]
fn decimals_equal_the_formatter() {
    for n in [0, 9, 10, 99, 100, 12345, u64::MAX] {
        let mut text = String::from(":");
        append_decimal(&mut text, n);
        assert_eq!(text, format!(":{n}"));
    }
    for n in [0, -1, 7, -10, i32::MAX, i32::MIN] {
        let mut text = String::from(":");
        append_signed_decimal(&mut text, n);
        assert_eq!(text, format!(":{n}"));
    }
}
