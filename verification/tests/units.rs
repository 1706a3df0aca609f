use std::time::Duration;

use spawnado::binary64::Float;
use spawnado::units::{fmt_dur, fmt_scaled, pick_unit};

/// The longest time that `Duration` holds.
fn longest_ns() -> u128 {
    Duration::MAX.as_nanos()
}

fn float_dur(ns: u128) -> String {
    let x = ns as f64;
    let (div, label) = if x < 1_000.0 {
        (1.0, "ns")
    } else if x < 1_000_000.0 {
        (1_000.0, "µs")
    } else if x < 1_000_000_000.0 {
        (1_000_000.0, "ms")
    } else {
        (1_000_000_000.0, "s")
    };
    format!("{:.2} {}", x / div, label)
}

/// A simple generator, so that every run sees the same values.
fn next(state: &mut u128) -> u128 {
    *state = state
        .wrapping_mul(0x2360_ED05_1FC6_5DA4_4385_DF64_9FCC_F645)
        .wrapping_add(0x5851_F42D_4C95_7F2D_1405_7B7E_F767_814F);
    *state >> 34
}

fn unit(num: u128, den: u128) -> (u64, &'static str) {
    pick_unit(Float::from_whole(num).over(Float::from_whole(den)))
}

#[test]
fn pick_unit_thresholds() {
    assert_eq!(unit(0, 1), (1, "ns"));
    assert_eq!(unit(999, 1), (1, "ns"));
    assert_eq!(unit(1_999, 2), (1, "ns"));
    assert_eq!(unit(1_000, 1), (1_000, "µs"));
    assert_eq!(unit(999_999, 1), (1_000, "µs"));
    assert_eq!(unit(999_999_999, 1_000), (1_000, "µs"));
    assert_eq!(unit(1_000_000, 1), (1_000_000, "ms"));
    assert_eq!(unit(999_999_999, 1), (1_000_000, "ms"));
    assert_eq!(unit(1_000_000_000, 1), (1_000_000_000, "s"));
    assert_eq!(unit(u128::MAX, 1), (1_000_000_000, "s"));
}

#[test]
fn fmt_dur_known_texts() {
    assert_eq!(fmt_dur(0), "0.00 ns");
    assert_eq!(fmt_dur(999), "999.00 ns");
    assert_eq!(fmt_dur(1_000), "1.00 µs");
    assert_eq!(fmt_dur(1_005), "1.00 µs");
    assert_eq!(fmt_dur(1_125), "1.12 µs");
    assert_eq!(fmt_dur(1_135), "1.14 µs");
    assert_eq!(fmt_dur(1_375), "1.38 µs");
    assert_eq!(fmt_dur(999_999), "1000.00 µs");
    assert_eq!(fmt_dur(1_500_000), "1.50 ms");
    assert_eq!(fmt_dur(61_234_567_890), "61.23 s");
    assert_eq!(fmt_dur(longest_ns()), "18446744073709551616.00 s");
}

#[test]
fn fmt_dur_agrees_with_floats() {
    for ns in 0..30_000u128 {
        assert_eq!(fmt_dur(ns), float_dur(ns), "{ns}");
    }
    for k in 0..5_000u128 {
        for base in [1_000_000u128, 5_000_000, 1_000_000_000, 5_000_000_000] {
            let ns = base + k * 5_000;
            assert_eq!(fmt_dur(ns), float_dur(ns), "{ns}");
        }
    }
    let mut state = 1u128;
    for _ in 0..2_000 {
        let x = next(&mut state);
        for shift in [0u32, 20, 30, 40, 41, 42, 43, 50, 60, 70] {
            let ns = x >> shift;
            assert_eq!(fmt_dur(ns), float_dur(ns), "{ns}");
        }
    }
    assert_eq!(fmt_dur(u128::MAX), float_dur(u128::MAX));
}

#[test]
fn fmt_scaled_agrees_with_floats() {
    let mut state = 7u128;
    for _ in 0..1_000 {
        let x = next(&mut state);
        for shift in [0u32, 30, 41, 60, 70, 80, 90] {
            let ns = x >> shift;
            for div in [1u64, 1_000, 1_000_000, 1_000_000_000] {
                assert_eq!(
                    fmt_scaled(Float::from_whole(ns), div),
                    format!("{:.2}", ns as f64 / div as f64),
                    "{ns}/{div}"
                );
            }
        }
    }
    assert_eq!(fmt_scaled(Float::from_whole(0), 1_000), "0.00");
    assert_eq!(fmt_scaled(Float::from_whole(4), 1_000), "0.00");
    assert_eq!(fmt_scaled(Float::from_whole(6), 1_000), "0.01");
}

#[test]
fn whole_units_end_in_zeros() {
    for k in [0u128, 1, 7, 1_000, 8_999_999] {
        for div in [1u64, 1_000, 1_000_000, 1_000_000_000] {
            let ns = Float::from_whole(k * div as u128);
            assert_eq!(fmt_scaled(ns, div), format!("{k}.00"));
        }
    }
}
