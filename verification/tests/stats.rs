use spawnado::binary64::Float;
use spawnado::decimal::show;
use spawnado::order::sorted;
use spawnado::report::finish_run;
use spawnado::stats::{percentile_index, sample_total, Stats};

fn next(state: &mut u64) -> u64 {
    *state = state.wrapping_mul(6364136223846793005).wrapping_add(1442695040888963407);
    *state >> 33
}

#[test]
fn sorting_agrees_with_the_standard_library() {
    let mut state = 3u64;
    for len in 0..200usize {
        let values: Vec<u128> = (0..len).map(|_| (next(&mut state) % 50) as u128).collect();
        let mut expected = values.clone();
        expected.sort_unstable();
        assert_eq!(sorted(&values), expected);
        let mut reversed = values;
        reversed.reverse();
        assert_eq!(sorted(&reversed), expected);
    }
    assert_eq!(sorted(&[3usize, 1, 2]), [1, 2, 3]);
}

#[test]
fn sorting_many() {
    let mut state = 9u64;
    let values: Vec<u128> = (0..100_000).map(|_| next(&mut state) as u128).collect();
    let mut expected = values.clone();
    expected.sort_unstable();
    assert_eq!(sorted(&values), expected);
}

#[test]
fn percentile_agrees_with_floats() {
    let by_float = |n: usize, p: f64| -> usize {
        let idx = ((n as f64) * p).ceil() as usize;
        idx.saturating_sub(1).min(n - 1)
    };
    let mut sizes: Vec<usize> = (1..20_000).collect();
    let mut state = 5u64;
    for _ in 0..5_000 {
        sizes.push(next(&mut state) as usize + 1);
        sizes.push((next(&mut state) as usize + 1) * 100);
        sizes.push((next(&mut state) as usize + 1) * 4_096);
    }
    for n in sizes {
        assert_eq!(percentile_index(n, 50), by_float(n, 0.50), "{n}");
        assert_eq!(percentile_index(n, 95), by_float(n, 0.95), "{n}");
        assert_eq!(percentile_index(n, 99), by_float(n, 0.99), "{n}");
        assert_eq!(percentile_index(n, 100), n - 1);
        assert_eq!(percentile_index(n, 0), 0);
    }
}

/// All digits of a number that is a multiple of two to the power of -100.
fn digits(f: Float) -> String {
    show(f.times(Float::from_whole(1 << 100)), 0)
}

fn float_digits(x: f64) -> String {
    format!("{:.0}", x * (1u128 << 100) as f64)
}

fn float_moments(samples: &[u128]) -> (f64, f64) {
    let n = samples.len() as f64;
    let sum: f64 = samples.iter().map(|&ns| ns as f64).sum();
    let mean = sum / n;
    let var: f64 = samples
        .iter()
        .map(|&ns| {
            let x = ns as f64 - mean;
            x * x
        })
        .sum::<f64>()
        / n;
    (mean, var.sqrt())
}

#[test]
fn moments_agree_with_floats() {
    let mut state = 13u64;
    for round in 0..300usize {
        let len = 1 + round % 40;
        let shift = (round % 31) as u32;
        let samples: Vec<u128> = (0..len).map(|_| next(&mut state) as u128 >> shift).collect();
        let (mean, stddev) = float_moments(&samples);
        let s = Stats::from_sorted(&samples);
        assert_eq!(digits(s.mean_ns), float_digits(mean), "{samples:?}");
        assert_eq!(digits(s.stddev_ns), float_digits(stddev), "{samples:?}");
    }
    for samples in [vec![u128::MAX >> 34; 7], vec![0, 0, 0], vec![1, u64::MAX as u128, 3]] {
        let (mean, stddev) = float_moments(&samples);
        let s = Stats::from_sorted(&samples);
        assert_eq!(digits(s.mean_ns), float_digits(mean));
        assert_eq!(digits(s.stddev_ns), float_digits(stddev));
    }
}

#[test]
fn moments_of_known_samples() {
    let s = Stats::from_sorted(&[2, 4, 4, 4, 5, 5, 7, 9]);
    assert_eq!(show(s.mean_ns, 3), "5.000");
    assert_eq!(show(s.stddev_ns, 3), "2.000");
    let s = Stats::from_sorted(&[1, 2]);
    assert_eq!((show(s.mean_ns, 2), show(s.stddev_ns, 2)), ("1.50".into(), "0.50".into()));
}

#[test]
fn mean_is_between_the_ends() {
    let mut state = 19u64;
    for _ in 0..200 {
        let samples: Vec<u128> = (0..9).map(|_| next(&mut state) as u128).collect();
        let s = Stats::from_sorted(&sorted(&samples));
        assert!(!s.mean_ns.is_less(Float::from_whole(s.min_ns)));
        assert!(!Float::from_whole(s.max_ns).is_less(s.mean_ns));
    }
}

#[test]
fn finished_run() {
    let r = finish_run(3, &[50, 10, 40, 20, 30], 777);
    assert_eq!((r.threads, r.wall_ns, r.stats.n), (3, 777, 5));
    assert_eq!((r.stats.min_ns, r.stats.p50_ns, r.stats.max_ns), (10, 30, 50));
    assert_eq!(show(r.stats.mean_ns, 2), "30.00");
}

#[test]
fn statistics_of_one_sample() {
    let s = Stats::from_sorted(&[42]);
    assert_eq!(show(s.mean_ns, 3), "42.000");
    assert_eq!(show(s.stddev_ns, 3), "0.000");
    assert_eq!(
        (s.n, s.min_ns, s.max_ns, s.p50_ns, s.p95_ns, s.p99_ns),
        (1, 42, 42, 42, 42, 42)
    );
}

#[test]
fn statistics_of_a_hundred_samples() {
    let samples: Vec<u128> = (1..=100).collect();
    let s = Stats::from_sorted(&samples);
    assert_eq!(
        (s.n, s.min_ns, s.max_ns, s.p50_ns, s.p95_ns, s.p99_ns),
        (100, 1, 100, 50, 95, 99)
    );
}

#[test]
fn statistics_of_few_samples() {
    let s = Stats::from_sorted(&[10, 20, 30, 40]);
    assert_eq!((s.p50_ns, s.p95_ns, s.p99_ns), (20, 40, 40));
    assert!(s.min_ns <= s.p50_ns && s.p50_ns <= s.p95_ns && s.p99_ns <= s.max_ns);
}

#[test]
fn total_of_samples() {
    assert_eq!(sample_total(1000, 8), 8000);
    assert_eq!(sample_total(0, 8), 0);
    assert_eq!(sample_total(usize::MAX, 2), usize::MAX);
    for (a, b) in [(usize::MAX, 1), (usize::MAX / 2, 2), (1 << 40, 1 << 30)] {
        assert_eq!(sample_total(a, b), a.saturating_mul(b));
    }
}

#[test]
fn only_equal_samples_have_no_deviation() {
    for n in 1..40usize {
        for x in [0u128, 1, 7, 333_333, 999_999_999] {
            let s = Stats::from_sorted(&vec![x; n]);
            assert!(s.stddev_ns.is_zero());
            let mut samples = vec![x; n];
            samples.push(x + 1);
            assert!(!Stats::from_sorted(&samples).stddev_ns.is_zero());
        }
    }
}
