use spawnado::axis::{find_line, find_value, nice_axis_max};
use spawnado::binary64::Float;
use spawnado::number::Number;

fn next(state: &mut u64) -> u64 {
    *state = state.wrapping_mul(6364136223846793005).wrapping_add(1442695040888963407);
    *state >> 20
}

fn ratio(a: u128, b: u128) -> Number {
    Number::ratio_of(Float::from_whole(a), Float::from_whole(b))
}

fn float_axis_max(v: f64) -> f64 {
    if v <= 0.0 {
        return 1.0;
    }
    let mag = 10.0_f64.powf(v.log10().floor());
    let n = v / mag;
    let nice = if n <= 1.0 {
        1.0
    } else if n <= 2.0 {
        2.0
    } else if n <= 5.0 {
        5.0
    } else {
        10.0
    };
    nice * mag
}

fn float_line(share: f64) -> usize {
    let row = ((1.0 - share) * 10.0).round() as usize;
    row.min(10)
}

#[test]
fn nice_ends() {
    for (v, end) in [
        (0u128, "1"),
        (1, "1"),
        (2, "2"),
        (3, "5"),
        (5, "5"),
        (6, "10"),
        (10, "10"),
        (11, "20"),
        (2_000, "2000"),
        (2_001, "5000"),
        (810, "1000"),
        (500_001, "1000000"),
        (1_000_000, "1000000"),
    ] {
        assert_eq!(nice_axis_max(ratio(v, 1)).show(0), end, "{v}");
    }
    assert_eq!(nice_axis_max(ratio(1, 4)).show(6), "0.500000");
    assert_eq!(nice_axis_max(ratio(1, 1_000)).show(6), "0.001000");
    assert_eq!(nice_axis_max(ratio(1, 0)).show(0), "inf");
}

#[test]
fn nice_ends_agree_with_floats() {
    let mut state = 17u64;
    for _ in 0..4_000 {
        let a = next(&mut state) as u128;
        let b = (next(&mut state) >> (next(&mut state) % 44)) as u128 + 1;
        let x = a as f64 / b as f64;
        let end = nice_axis_max(ratio(a, b));
        assert_eq!(end.show(6), format!("{:.6}", float_axis_max(x)), "{a}/{b}");
        assert!(!end.is_less(ratio(a, b)), "{a}/{b}");
    }
}

#[test]
fn lines_agree_with_floats() {
    for b in [1u128, 3, 7, 10, 20, 97, 1_000] {
        for a in 0..=b + 3 {
            let line = find_line(ratio(a, b), 10);
            assert_eq!(line, float_line(a as f64 / b as f64), "{a}/{b}");
        }
    }
    assert_eq!(find_line(ratio(1, 0), 10), 0);
    assert_eq!(find_line(ratio(0, 0), 10), 0);
    assert_eq!(find_line(ratio(1, u128::MAX), 10), 10);
    // Half way between two lines the lower one is taken.
    assert_eq!(find_line(ratio(3, 4), 10), 3);
    assert_eq!(find_line(ratio(1, 4), 10), 8);
}

#[test]
fn larger_shares_are_not_lower() {
    let mut last = 10;
    for a in 0..=500u128 {
        let line = find_line(ratio(a, 500), 10);
        assert!(line <= last);
        last = line;
    }
    assert_eq!(last, 0);
}

#[test]
fn values_agree_with_floats() {
    for top in [1u128, 5, 1_000, 2_000_000] {
        for i in 0..=10usize {
            let expected = top as f64 * (1.0 - i as f64 / 10.0);
            let value = find_value(ratio(top, 1), i, 10);
            assert_eq!(value.show(6), format!("{expected:.6}"));
        }
    }
    assert_eq!(find_value(ratio(1, 0), 0, 10).show(0), "inf");
    assert_eq!(find_value(ratio(1, 0), 10, 10).show(0), "NaN");
}

/// `m * 10^k` as a figure.
fn scaled(m: u128, k: i32) -> Number {
    let mut f = Float::from_whole(m);
    for _ in 0..k.abs() {
        let ten = Float::from_whole(10);
        f = if k > 0 { f.times(ten) } else { f.over(ten) };
    }
    Number::Finite(f)
}

/// How far `v` is from `expected`, which is about `10^k`.
fn error(v: Number, expected: f64, k: i32) -> f64 {
    // Both are brought near to a thousand by a power of two, which is exact.
    let shift = (f64::from(3 - k) * 3.32) as i32;
    let factor = if shift > 0 {
        Float::from_whole(2)
    } else {
        Float::from_whole(1).over(Float::from_whole(2))
    };
    let (mut near, mut target) = (v, expected);
    for _ in 0..shift.abs() {
        near = near.times(factor);
        target *= if shift > 0 { 2.0 } else { 0.5 };
    }
    let near: f64 = near.show(6).parse().unwrap();
    (near / target - 1.0).abs()
}

#[test]
fn nice_ends_far_from_one() {
    for k in [-300, -200, -100, -60, -23, -22, 38, 39, 60, 100, 200, 300] {
        for (m, end) in [(11u128, 2.0), (19, 2.0), (21, 5.0), (49, 5.0), (51, 10.0), (99, 10.0)] {
            let v = scaled(m, k - 1);
            let r = nice_axis_max(v);
            assert!(!r.is_less(v), "{m}e{}", k - 1);
            assert!(error(r, end * 10f64.powi(k), k) < 1e-9, "{m}e{}", k - 1);
        }
    }
}

#[test]
fn nice_ends_at_the_ends_of_the_format() {
    // Two to the 252nd, about 7.2e75.
    let mut v = Float::from_whole(1);
    for _ in 0..252 {
        v = v.times(Float::from_whole(2));
    }
    let end = nice_axis_max(Number::Finite(v));
    assert!(!end.is_less(Number::Finite(v)));
    let digits = end.show(0);
    assert_eq!(digits, format!("{:.0}", 1e76));
    // The largest and the smallest binary64 numbers.
    let mut big = Float::from_whole((1 << 53) - 1);
    let mut small = Float::from_whole(1);
    for _ in 0..971 {
        big = big.times(Float::from_whole(2));
    }
    for _ in 0..1074 {
        small = small.over(Float::from_whole(2));
    }
    for v in [Number::Finite(big), Number::Finite(small)] {
        let end = nice_axis_max(v);
        assert!(!end.is_less(v));
        let four = v.times(Float::from_whole(4));
        assert!(end.is_less(four));
    }
}

#[test]
fn nice_ends_are_kept_and_never_fall() {
    let mut last = nice_axis_max(ratio(1, 1_000));
    for a in 1..5_000u128 {
        let v = ratio(a, 1_000);
        let end = nice_axis_max(v);
        assert!(!end.is_less(last) && !end.is_less(v));
        let again = nice_axis_max(end);
        assert!(!again.is_less(end) && !end.is_less(again));
        last = end;
    }
    for (m, k) in [(1u128, -300), (2, -25), (5, -1), (1, 0), (2, 15), (5, 22), (1, 22)] {
        let v = nice_axis_max(scaled(m, k));
        let end = nice_axis_max(v);
        assert!(!end.is_less(v) && !v.is_less(end));
    }
}

#[test]
fn end_of_a_value_just_above_a_nice_number() {
    // The next number above 5e-8 is not rounded down.
    let five = 5e-8f64;
    let above = f64::from_bits(five.to_bits() + 1);
    let mantissa = (above.to_bits() & ((1 << 52) - 1)) | (1 << 52);
    let exponent = ((above.to_bits() >> 52) as i32) - 1075;
    let mut v = Float::from_whole(mantissa as u128);
    for _ in 0..-exponent {
        v = v.over(Float::from_whole(2));
    }
    let end = nice_axis_max(Number::Finite(v));
    assert!(!end.is_less(Number::Finite(v)));
}
