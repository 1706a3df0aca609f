//! Statistics of the measured times.

use vstd::prelude::*;

use crate::binary64::{self, Binary, Float};
use crate::order::{self, Ranked};
use crate::rounding;

verus! {

/// The number of samples that make up at least `percent` percent of `n`: the
/// least `k` with `100 * k >= percent * n`.
pub open spec fn share(n: nat, percent: nat) -> nat {
    (percent * n + 99) / 100
}

/// The position of the nearest-rank percentile among `n` values in ascending
/// order: the last of the first `share(n, percent)` positions, kept within
/// `0..n`.
pub open spec fn percentile_position(n: nat, percent: nat) -> nat {
    let k = share(n, percent);
    if k == 0 {
        0
    } else if k > n {
        (n - 1) as nat
    } else {
        (k - 1) as nat
    }
}

/// The position of the nearest-rank percentile among `n` values in ascending
/// order.
pub fn percentile_index(n: usize, percent: u8) -> (i: usize)
    requires
        n > 0,
    ensures
        i == percentile_position(n as nat, percent as nat),
        i < n,
{
    assert(percent * n <= 255 * n) by (nonlinear_arith)
        requires
            percent <= 255,
    ;
    let k: u128 = (percent as u128 * n as u128 + 99) / 100;
    if k == 0 {
        0
    } else if k > n as u128 {
        n - 1
    } else {
        (k - 1) as usize
    }
}

/// The sum of the samples, added up one after the other.
pub open spec fn total_of(samples: Seq<u128>) -> Binary
    decreases samples.len(),
{
    if samples.len() == 0 {
        Binary { m: 0, e: 0 }
    } else {
        binary64::sum(
            total_of(samples.drop_last()),
            binary64::whole(samples.last() as nat),
        )
    }
}

/// The mean of the samples.
pub open spec fn mean_of(samples: Seq<u128>) -> Binary {
    binary64::quotient(total_of(samples), binary64::whole(samples.len()))
}

/// The square of the distance of a sample from the mean.
pub open spec fn squared_deviation(sample: u128, mean: Binary) -> Binary {
    let x = binary64::difference(binary64::whole(sample as nat), mean);
    binary64::product(x, x)
}

/// The sum of the squared deviations, added up one after the other.
pub open spec fn spread_of(samples: Seq<u128>, mean: Binary) -> Binary
    decreases samples.len(),
{
    if samples.len() == 0 {
        Binary { m: 0, e: 0 }
    } else {
        binary64::sum(
            spread_of(samples.drop_last(), mean),
            squared_deviation(samples.last(), mean),
        )
    }
}

/// The standard deviation of the samples: the root of the mean squared
/// deviation.
pub open spec fn stddev_of(samples: Seq<u128>) -> Binary {
    binary64::root(
        binary64::quotient(
            spread_of(samples, mean_of(samples)),
            binary64::whole(samples.len()),
        ),
    )
}

/// What a run's samples come to, in nanoseconds.
#[derive(Clone, Copy, Debug)]
pub struct Stats {
    pub n: usize,
    pub mean_ns: Float,
    pub stddev_ns: Float,
    pub min_ns: u128,
    pub max_ns: u128,
    pub p50_ns: u128,
    pub p95_ns: u128,
    pub p99_ns: u128,
}

impl Stats {
    /// The statistics of samples in the given order, which is meant to be
    /// ascending.
    pub open spec fn of(self, samples: Seq<u128>) -> bool {
        &&& self.n == samples.len()
        &&& self.mean_ns@ == mean_of(samples)
        &&& self.stddev_ns@ == stddev_of(samples)
        &&& self.min_ns == samples.first()
        &&& self.max_ns == samples.last()
        &&& self.p50_ns == samples[percentile_position(samples.len(), 50) as int]
        &&& self.p95_ns == samples[percentile_position(samples.len(), 95) as int]
        &&& self.p99_ns == samples[percentile_position(samples.len(), 99) as int]
    }

    /// There is room to calculate with the mean and the deviation.
    pub open spec fn in_range(self) -> bool {
        &&& binary64::reach(self.mean_ns@) <= binary64::exponent_room()
        &&& binary64::reach(self.stddev_ns@) <= binary64::exponent_room()
    }

    /// The statistics of samples in ascending order.
    pub fn from_sorted(sorted: &[u128]) -> (stats: Stats)
        requires
            sorted@.len() > 0,
        ensures
            stats.of(sorted@),
            stats.in_range(),
    {
        let n: usize = sorted.len();
        let count = Float::from_whole(n as u128);
        proof {
            binary64::lemma_whole_positive(n as nat);
        }
        let mean = total(sorted).over(count);
        let variance = spread(sorted, mean).over(count);
        Stats {
            n,
            mean_ns: mean,
            stddev_ns: variance.sqrt(),
            min_ns: sorted[0],
            max_ns: sorted[n - 1],
            p50_ns: sorted[percentile_index(n, 50)],
            p95_ns: sorted[percentile_index(n, 95)],
            p99_ns: sorted[percentile_index(n, 99)],
        }
    }
}

/// Adds up the samples.
fn total(samples: &[u128]) -> (r: Float)
    ensures
        r@ == total_of(samples@),
        binary64::reach(r@) <= 129 * (samples@.len() + 1),
{
    let mut r = Float::zero();
    assert(samples@.take(0) =~= Seq::<u128>::empty());
    for i in 0..samples.len()
        invariant
            r@ == total_of(samples@.take(i as int)),
            binary64::reach(r@) <= 129 * (i + 1),
    {
        assert(samples@.take(i + 1).drop_last() =~= samples@.take(i as int));
        r = r.plus(Float::from_whole(samples[i]));
    }
    assert(samples@.take(samples@.len() as int) =~= samples@);
    r
}

/// Adds up the squared deviations from the mean.
fn spread(samples: &[u128], mean: Float) -> (r: Float)
    requires
        binary64::reach(mean@) <= 129 * (samples@.len() + 3),
    ensures
        r@ == spread_of(samples@, mean@),
        binary64::reach(r@) <= 387 * (samples@.len() + 4),
{
    let mut r = Float::zero();
    assert(samples@.take(0) =~= Seq::<u128>::empty());
    for i in 0..samples.len()
        invariant
            binary64::reach(mean@) <= 129 * (samples@.len() + 3),
            r@ == spread_of(samples@.take(i as int), mean@),
            binary64::reach(r@) <= 258 * (samples@.len() + 5) + 129 * (i + 1),
    {
        assert(samples@.take(i + 1).drop_last() =~= samples@.take(i as int));
        let x = Float::from_whole(samples[i]).minus(mean);
        r = r.plus(x.times(x));
    }
    assert(samples@.take(samples@.len() as int) =~= samples@);
    r
}

/// How many samples a run takes: `iterations` on each of `threads`, or
/// `usize::MAX` where that is more.
pub open spec fn run_total(iterations: nat, threads: nat) -> nat {
    if iterations * threads <= usize::MAX {
        iterations * threads
    } else {
        usize::MAX as nat
    }
}

/// How many samples a run takes.
pub fn sample_total(iterations: usize, threads: usize) -> (total: usize)
    ensures
        total == run_total(iterations as nat, threads as nat),
{
    match iterations.checked_mul(threads) {
        Some(total) => total,
        None => usize::MAX,
    }
}

/// How many of the samples are at most `bound`.
pub open spec fn at_most(samples: Seq<u128>, bound: u128) -> nat
    decreases samples.len(),
{
    if samples.len() == 0 {
        0
    } else {
        at_most(samples.drop_last(), bound) + if samples.last() <= bound {
            1nat
        } else {
            0nat
        }
    }
}

proof fn lemma_at_most_prefix(samples: Seq<u128>, k: nat, bound: u128)
    requires
        k <= samples.len(),
        forall|i: int| 0 <= i < k ==> #[trigger] samples[i] <= bound,
    ensures
        at_most(samples, bound) >= k,
    decreases samples.len(),
{
    if samples.len() > 0 {
        let before = samples.drop_last();
        if k == samples.len() {
            assert forall|i: int| 0 <= i < k - 1 implies #[trigger] before[i] <= bound by {
                assert(samples[i] <= bound);
            }
            lemma_at_most_prefix(before, (k - 1) as nat, bound);
            assert(samples[k - 1] <= bound);
        } else {
            assert forall|i: int| 0 <= i < k implies #[trigger] before[i] <= bound by {
                assert(samples[i] <= bound);
            }
            lemma_at_most_prefix(before, k, bound);
        }
    }
}

proof fn lemma_at_most_below(samples: Seq<u128>, k: nat, bound: u128)
    requires
        k <= samples.len(),
        forall|i: int| k <= i < samples.len() ==> #[trigger] samples[i] > bound,
    ensures
        at_most(samples, bound) <= k,
    decreases samples.len(),
{
    if samples.len() > 0 {
        let before = samples.drop_last();
        if k == samples.len() {
            lemma_at_most_below(before, (k - 1) as nat, bound);
        } else {
            assert forall|i: int| k <= i < before.len() implies #[trigger] before[i] > bound by {
                assert(samples[i] > bound);
            }
            lemma_at_most_below(before, k, bound);
            assert(samples[samples.len() - 1] > bound);
        }
    }
}

/// The nearest-rank percentile of samples in ascending order is the least of
/// them that at least `percent` percent of the samples do not exceed.
pub proof fn percentile_is_nearest_rank(samples: Seq<u128>, percent: nat)
    requires
        samples.len() > 0,
        order::ascending(samples),
        1 <= percent <= 100,
    ensures
        ({
            let value = samples[percentile_position(samples.len(), percent) as int];
            &&& 100 * at_most(samples, value) >= percent * samples.len()
            &&& forall|i: int|
                0 <= i < samples.len() && #[trigger] samples[i] < value ==> 100 * at_most(
                    samples,
                    samples[i],
                ) < percent * samples.len()
        }),
{
    let n = samples.len();
    let k = share(n, percent);
    assert(1 <= k <= n) by (nonlinear_arith)
        requires
            k == (percent * n + 99) / 100,
            1 <= percent <= 100,
            n >= 1,
    ;
    let p = percentile_position(n, percent) as int;
    let value = samples[p];
    assert forall|i: int| 0 <= i < k implies #[trigger] samples[i] <= value by {
        assert(samples[i].rank() <= samples[p].rank());
    }
    lemma_at_most_prefix(samples, k, value);
    assert forall|i: int| 0 <= i < n && #[trigger] samples[i] < value implies 100 * at_most(
        samples,
        samples[i],
    ) < percent * n by {
        let low = samples[i];
        assert forall|j: int| k - 1 <= j < n implies #[trigger] samples[j] > low by {
            assert(samples[p].rank() <= samples[j].rank());
        }
        lemma_at_most_below(samples, (k - 1) as nat, low);
    }
}

/// The hundredth percentile is the last sample.
pub proof fn full_percentile_is_last(n: nat)
    requires
        n > 0,
    ensures
        percentile_position(n, 100) == n - 1,
{
}

/// A higher percentile never stands before a lower one.
pub proof fn percentiles_are_monotone(n: nat, low: nat, high: nat)
    requires
        n > 0,
        low <= high,
    ensures
        percentile_position(n, low) <= percentile_position(n, high) < n,
{
    assert(low * n <= high * n) by (nonlinear_arith)
        requires
            low <= high,
    ;
}

/// The statistics of samples in ascending order rise from the minimum through
/// the percentiles to the maximum, and every sample lies between the two ends.
pub proof fn statistics_are_ordered(stats: Stats, samples: Seq<u128>)
    requires
        samples.len() > 0,
        order::ascending(samples),
        stats.of(samples),
    ensures
        stats.min_ns <= stats.p50_ns <= stats.p95_ns <= stats.p99_ns <= stats.max_ns,
        forall|i: int|
            0 <= i < samples.len() ==> stats.min_ns <= #[trigger] samples[i] <= stats.max_ns,
{
    let n = samples.len();
    percentiles_are_monotone(n, 50, 95);
    percentiles_are_monotone(n, 95, 99);
    let p50 = percentile_position(n, 50) as int;
    let p95 = percentile_position(n, 95) as int;
    let p99 = percentile_position(n, 99) as int;
    assert(samples[0].rank() <= samples[p50].rank());
    assert(samples[p50].rank() <= samples[p95].rank());
    assert(samples[p95].rank() <= samples[p99].rank());
    assert(samples[p99].rank() <= samples[n - 1].rank());
    assert forall|i: int| 0 <= i < n implies stats.min_ns <= #[trigger] samples[i]
        <= stats.max_ns by {
        assert(samples[0].rank() <= samples[i].rank());
        assert(samples[i].rank() <= samples[n - 1].rank());
    }
}

/// The exact sum of the samples.
pub open spec fn exact_total(samples: Seq<u128>) -> nat
    decreases samples.len(),
{
    if samples.len() == 0 {
        0
    } else {
        exact_total(samples.drop_last()) + samples.last() as nat
    }
}

proof fn lemma_small_total(samples: Seq<u128>)
    requires
        exact_total(samples) < binary64::BEYOND_FULL,
    ensures
        total_of(samples) == binary64::whole(exact_total(samples)),
    decreases samples.len(),
{
    if samples.len() > 0 {
        lemma_small_total(samples.drop_last());
        rounding::small_sums_are_exact(
            exact_total(samples.drop_last()),
            samples.last() as nat,
        );
    }
}

/// As long as the samples come to less than two to the 53rd nanoseconds, the
/// mean is the number nearest to the exact mean.
pub proof fn mean_is_rounded_once(samples: Seq<u128>)
    requires
        0 < samples.len() < binary64::BEYOND_FULL,
        exact_total(samples) < binary64::BEYOND_FULL,
    ensures
        mean_of(samples) == binary64::nearest_binary(
            exact_total(samples),
            samples.len(),
            0,
        ),
{
    lemma_small_total(samples);
    rounding::small_quotients_round_once(exact_total(samples), samples.len());
}

proof fn lemma_total_bounds(samples: Seq<u128>, low: u128, high: u128)
    requires
        forall|i: int| 0 <= i < samples.len() ==> low <= #[trigger] samples[i] <= high,
    ensures
        low * samples.len() <= exact_total(samples) <= high * samples.len(),
    decreases samples.len(),
{
    if samples.len() > 0 {
        let n = samples.len() as int;
        lemma_total_bounds(samples.drop_last(), low, high);
        assert(low <= samples[n - 1] <= high);
        assert(low * n == low * (n - 1) + low) by (nonlinear_arith);
        assert(high * n == high * (n - 1) + high) by (nonlinear_arith);
    }
}

/// As long as the samples come to less than two to the 53rd nanoseconds, the
/// mean lies between the shortest and the longest.
pub proof fn mean_lies_between_the_ends(stats: Stats, samples: Seq<u128>)
    requires
        0 < samples.len() < binary64::BEYOND_FULL,
        exact_total(samples) < binary64::BEYOND_FULL,
        order::ascending(samples),
        stats.of(samples),
    ensures
        !binary64::less(stats.mean_ns@, binary64::whole(stats.min_ns as nat)),
        !binary64::less(binary64::whole(stats.max_ns as nat), stats.mean_ns@),
{
    let n = samples.len();
    let low = stats.min_ns;
    let high = stats.max_ns;
    statistics_are_ordered(stats, samples);
    mean_is_rounded_once(samples);
    lemma_total_bounds(samples, low, high);
    rounding::lemma_extended(low as nat, 1, 0, n);
    rounding::lemma_extended(high as nat, 1, 0, n);
    assert(n * low == low * n && n * high == high * n) by (nonlinear_arith);
    assert(n * 1 == n);
    rounding::rounding_keeps_order((n * low) as nat, exact_total(samples), n, 0);
    rounding::rounding_keeps_order(exact_total(samples), (n * high) as nat, n, 0);
}

/// A single sample is its own mean, with no deviation.
pub proof fn single_sample_does_not_deviate(stats: Stats, sample: u128)
    requires
        stats.of(seq![sample]),
    ensures
        stats.mean_ns@ == binary64::whole(sample as nat),
        stats.stddev_ns@ == (Binary { m: 0, e: 0 }),
{
    let samples = seq![sample];
    let x = binary64::whole(sample as nat);
    let zero = Binary { m: 0, e: 0 };
    assert(samples.drop_last() =~= Seq::<u128>::empty());
    rounding::results_are_close(sample as nat, 1, 0);
    reveal_with_fuel(total_of, 2);
    reveal_with_fuel(spread_of, 2);
    rounding::neutral_elements(x);
    assert(mean_of(samples) == x);
    assert(binary64::difference(x, x) == zero);
    assert(squared_deviation(sample, x) == zero) by {
        assert(0nat * 0nat == 0);
    }
    rounding::neutral_elements(zero);
}

/// All samples are equal.
pub open spec fn all_equal(samples: Seq<u128>) -> bool {
    forall|i: int, j: int|
        0 <= i < samples.len() && 0 <= j < samples.len() ==> #[trigger] samples[i]
            == #[trigger] samples[j]
}

/// The deviations add up to zero only where every sample is the mean.
proof fn lemma_no_spread(samples: Seq<u128>, mean: Binary)
    requires
        mean.normal(),
    ensures
        spread_of(samples, mean).m == 0 <==> forall|i: int|
            0 <= i < samples.len() ==> binary64::whole(#[trigger] samples[i] as nat) == mean,
    decreases samples.len(),
{
    if samples.len() > 0 {
        let before = samples.drop_last();
        let last = samples.last();
        let x = binary64::difference(binary64::whole(last as nat), mean);
        lemma_no_spread(before, mean);
        rounding::only_zeros_add_up_to_zero(
            spread_of(before, mean),
            squared_deviation(last, mean),
        );
        rounding::results_are_close(last as nat, 1, 0);
        rounding::only_equals_do_not_differ(binary64::whole(last as nat), mean);
        assert(x.m * x.m == 0 <==> x.m == 0) by (nonlinear_arith);
        if x.m > 0 {
            binary64::lemma_nearest_positive(x.m * x.m, 1, x.e + x.e);
        }
        let all_before = forall|i: int|
            0 <= i < before.len() ==> binary64::whole(#[trigger] before[i] as nat) == mean;
        let all = forall|i: int|
            0 <= i < samples.len() ==> binary64::whole(#[trigger] samples[i] as nat) == mean;
        if all {
            assert forall|i: int| 0 <= i < before.len() implies binary64::whole(
                #[trigger] before[i] as nat,
            ) == mean by {
                assert(binary64::whole(samples[i] as nat) == mean);
            }
            assert(binary64::whole(samples[samples.len() - 1] as nat) == mean);
        }
        if all_before && binary64::whole(last as nat) == mean {
            assert forall|i: int| 0 <= i < samples.len() implies binary64::whole(
                #[trigger] samples[i] as nat,
            ) == mean by {
                if i < before.len() {
                    assert(binary64::whole(before[i] as nat) == mean);
                }
            }
        }
    }
}

proof fn lemma_sample_below_total(samples: Seq<u128>, i: int)
    requires
        0 <= i < samples.len(),
    ensures
        samples[i] <= exact_total(samples),
    decreases samples.len(),
{
    if i < samples.len() - 1 {
        lemma_sample_below_total(samples.drop_last(), i);
    }
}

/// As long as the samples come to less than two to the 53rd nanoseconds, the
/// deviation is zero if and only if all samples are equal.
pub proof fn only_equal_samples_do_not_deviate(samples: Seq<u128>)
    requires
        0 < samples.len() < binary64::BEYOND_FULL,
        exact_total(samples) < binary64::BEYOND_FULL,
    ensures
        stddev_of(samples) == (Binary { m: 0, e: 0 }) <==> all_equal(samples),
{
    let n = samples.len();
    let mean = mean_of(samples);
    let spread = spread_of(samples, mean);
    let count = binary64::whole(n);
    let variance = binary64::quotient(spread, count);
    mean_is_rounded_once(samples);
    rounding::results_are_close(exact_total(samples), n, 0);
    binary64::lemma_whole_positive(n);
    lemma_no_spread(samples, mean);
    if spread.m > 0 {
        binary64::lemma_nearest_positive(spread.m, count.m, spread.e - count.e);
    }
    binary64::lemma_root_positive(variance);
    if all_equal(samples) {
        let x = samples[0];
        assert forall|i: int| 0 <= i < n implies x <= #[trigger] samples[i] <= x by {
            assert(samples[i] == samples[0]);
        }
        lemma_total_bounds(samples, x, x);
        rounding::lemma_extended(x as nat, 1, 0, n);
        assert(n * x == x * n) by (nonlinear_arith);
        assert(n * 1 == n);
        assert(mean == binary64::whole(x as nat));
        assert forall|i: int| 0 <= i < n implies binary64::whole(#[trigger] samples[i] as nat)
            == mean by {
            assert(samples[i] == samples[0]);
        }
    } else {
        let (i, j) = choose|i: int, j: int|
            0 <= i < n && 0 <= j < n && #[trigger] samples[i] != #[trigger] samples[j];
        lemma_sample_below_total(samples, i);
        lemma_sample_below_total(samples, j);
        if spread.m == 0 {
            assert(binary64::whole(samples[i] as nat) == mean);
            assert(binary64::whole(samples[j] as nat) == mean);
            rounding::small_integers_are_exact(samples[i] as nat);
            rounding::small_integers_are_exact(samples[j] as nat);
            let t = binary64::two_to((-mean.e) as nat);
            binary64::lemma_two_to_grows(0, (-mean.e) as nat);
            assert(samples[i] == samples[j]) by (nonlinear_arith)
                requires
                    samples[i] * t == samples[j] * t,
                    t >= 1,
            ;
        }
    }
}

} // verus!
