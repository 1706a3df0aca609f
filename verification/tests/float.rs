use spawnado::binary64::Float;
use spawnado::decimal::show;
use spawnado::number::Number;

/// A simple generator, so that every run sees the same values.
fn next(state: &mut u128) -> u128 {
    *state = state
        .wrapping_mul(0x2360_ED05_1FC6_5DA4_4385_DF64_9FCC_F645)
        .wrapping_add(0x5851_F42D_4C95_7F2D_1405_7B7E_F767_814F);
    *state >> 34
}

fn whole(n: u128) -> Float {
    Float::from_whole(n)
}

/// All digits of a number that is a multiple of two to the power of -100.
fn digits(f: Float) -> String {
    show(f.times(whole(1 << 100)), 0)
}

fn float_digits(x: f64) -> String {
    format!("{:.0}", x * (1u128 << 100) as f64)
}

/// Integers of very different sizes.
fn samples(count: usize) -> Vec<u128> {
    let mut state = 11u128;
    let mut all = vec![0, 1, 2, 3, 5, 10, 1_000, 999_999, (1 << 53) - 1, 1 << 53, (1 << 53) + 1];
    all.extend([(1 << 54) + 2, (1 << 54) + 6, u64::MAX as u128, u128::MAX]);
    for _ in 0..count {
        let x = next(&mut state);
        let shift = next(&mut state) % 94;
        all.push(x >> shift);
    }
    all
}

#[test]
fn integers_agree_with_floats() {
    for n in samples(2_000) {
        assert_eq!(show(whole(n), 0), format!("{:.0}", n as f64), "{n}");
        assert_eq!(whole(n).is_zero(), n == 0);
    }
    assert_eq!(show(whole((1 << 53) + 1), 0), "9007199254740992");
    assert_eq!(show(Float::zero(), 3), "0.000");
}

#[test]
fn operations_agree_with_floats() {
    let all = samples(120);
    for &a in &all {
        for &b in &all {
            let (x, y) = (a as f64, b as f64);
            let (p, q) = (whole(a), whole(b));
            assert_eq!(show(p.plus(q), 0), format!("{:.0}", x + y), "{a} + {b}");
            assert_eq!(show(p.minus(q), 0), format!("{:.0}", (x - y).abs()), "{a} - {b}");
            assert_eq!(show(p.times(q), 0), format!("{:.0}", x * y), "{a} * {b}");
            assert_eq!(p.is_less(q), x < y, "{a} < {b}");
            if b != 0 {
                assert_eq!(digits(p.over(q)), float_digits(x / y), "{a} / {b}");
            }
        }
        assert_eq!(digits(whole(a).sqrt()), float_digits((a as f64).sqrt()), "{a}");
    }
}

#[test]
fn operations_on_fractions_agree_with_floats() {
    let mut state = 23u128;
    for _ in 0..3_000 {
        let (a, b) = (next(&mut state) >> 50, (next(&mut state) >> 60) + 1);
        let (c, d) = (next(&mut state) >> 70, (next(&mut state) >> 55) + 1);
        let (x, y) = (a as f64 / b as f64, c as f64 / d as f64);
        let (p, q) = (whole(a).over(whole(b)), whole(c).over(whole(d)));
        assert_eq!(digits(p.plus(q)), float_digits(x + y));
        assert_eq!(digits(p.minus(q)), float_digits((x - y).abs()));
        assert_eq!(digits(p.times(q)), float_digits(x * y));
        assert_eq!(digits(p.sqrt()), float_digits(x.sqrt()));
        assert_eq!(p.is_less(q), x < y);
    }
}

#[test]
fn places_agree_with_floats() {
    let mut state = 31u128;
    for _ in 0..2_000 {
        let (a, b) = (next(&mut state) >> 60, (next(&mut state) >> 64) + 1);
        let x = a as f64 / b as f64;
        let f = whole(a).over(whole(b));
        assert_eq!(show(f, 0), format!("{x:.0}"));
        assert_eq!(show(f, 1), format!("{x:.1}"));
        assert_eq!(show(f, 2), format!("{x:.2}"));
        assert_eq!(show(f, 3), format!("{x:.3}"));
        assert_eq!(show(f, 6), format!("{x:.6}"));
    }
    // Ties go to the even digit.
    for (a, b) in [(1u128, 8u128), (3, 8), (5, 8), (1, 2), (3, 2), (5, 2), (1, 16), (1, 128)] {
        let x = a as f64 / b as f64;
        for places in 0..=6u32 {
            let text = format!("{:.*}", places as usize, x);
            assert_eq!(show(whole(a).over(whole(b)), places), text);
        }
    }
    assert_eq!(show(whole(1).over(whole(3)), 6), "0.333333");
}

#[test]
fn figures_that_are_not_finite() {
    let (zero, one, two) = (Float::zero(), whole(1), whole(2));
    let inf = Number::ratio_of(one, zero);
    let nan = Number::ratio_of(zero, zero);
    let half = Number::ratio_of(one, two);
    assert_eq!(inf.show(2), format!("{:.2}", 1.0 / 0.0));
    assert_eq!(nan.show(2), format!("{:.2}", 0.0 / 0.0));
    assert_eq!(half.show(2), "0.50");
    assert_eq!(half.over(inf).show(2), "0.00");
    assert_eq!(inf.over(half).show(2), "inf");
    assert_eq!(inf.over(inf).show(2), "NaN");
    assert_eq!(nan.over(half).show(2), "NaN");
    assert_eq!(half.over(half).show(2), "1.00");
    assert_eq!(inf.times(one).show(0), "inf");
    assert_eq!(inf.times(zero).show(0), "NaN");
    assert_eq!(half.times(two).show(0), "1");
    assert!(half.is_less(inf));
    assert!(!inf.is_less(half) && !inf.is_less(inf));
    assert!(!nan.is_less(inf) && !half.is_less(nan));
}

#[test]
fn whole_numbers_below_two_to_the_53rd_are_exact() {
    for (a, b) in [(1u128, 2u128), (1 << 52, (1 << 52) - 1), (123_456_789, 987_654_321)] {
        assert_eq!(show(whole(a).plus(whole(b)), 0), (a + b).to_string());
    }
    // From there on they are not.
    assert_eq!(show(whole(1 << 53).plus(whole(1)), 0), (1u128 << 53).to_string());
}

#[test]
fn order_is_kept() {
    let all = samples(200);
    let by = whole(7).over(whole(3));
    let top = whole(u128::MAX);
    for pair in all.windows(2) {
        let (low, high) = (pair[0].min(pair[1]), pair[0].max(pair[1]));
        let (a, b) = (whole(low), whole(high));
        assert!(!b.is_less(a));
        assert!(!b.over(by).is_less(a.over(by)));
        assert!(!b.times(by).is_less(a.times(by)));
        assert!(!top.minus(a).is_less(top.minus(b)));
    }
}
