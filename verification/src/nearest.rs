//! Every step of the arithmetic gives the binary64 number nearest to its exact
//! result, and which steps the figures are made of.

use vstd::prelude::*;

use crate::binary64::{self, Binary};
use crate::decimal;
use crate::exact::{self, apart, scale, value};
use crate::number::{self, Figure};
use crate::outputs;
use crate::plot;
use crate::report::{self, RunResult};
use crate::rounding;
use crate::stats::{self, Stats};
use crate::units;

verus! {

/// `a` is the binary64 number nearest to `x`: no other is nearer, and where
/// another is as near the last bit of `a` is zero.
pub open spec fn is_nearest(a: Binary, x: real) -> bool {
    &&& a.normal()
    &&& forall|b: Binary| b.normal() ==> apart(value(a), x) <= apart(#[trigger] value(b), x)
    &&& forall|b: Binary|
        b.normal() && apart(value(a), x) == apart(#[trigger] value(b), x) && value(a) != value(b)
            ==> a.m % 2 == 0
}

/// Rounding takes the nearest.
pub proof fn rounding_takes_the_nearest(num: nat, den: nat, e: int)
    requires
        den > 0,
    ensures
        is_nearest(
            binary64::nearest_binary(num, den, e),
            num as real / den as real * scale(e),
        ),
{
    let a = binary64::nearest_binary(num, den, e);
    let x = num as real / den as real * scale(e);
    rounding::results_are_close(num, den, e);
    assert forall|b: Binary| b.normal() implies apart(value(a), x) <= apart(
        #[trigger] value(b),
        x,
    ) && (apart(value(a), x) == apart(value(b), x) && value(a) != value(b) ==> a.m % 2 == 0) by {
        exact::no_number_is_nearer(num, den, e, b);
    }
}

/// An integer is rounded to the nearest number.
pub proof fn whole_numbers_are_nearest(n: nat)
    ensures
        is_nearest(binary64::whole(n), n as real),
{
    let x = n as real;
    rounding_takes_the_nearest(n, 1, 0);
    vstd::arithmetic::power2::lemma2_to64();
    assert(x / 1 as real * 1 as real == x);
}

/// A sum is the number nearest to the exact sum.
pub proof fn sums_are_nearest(a: Binary, b: Binary)
    ensures
        is_nearest(binary64::sum(a, b), value(a) + value(b)),
{
    let e = binary64::common_exponent(a, b);
    let x = binary64::at_exponent(a, e);
    let y = binary64::at_exponent(b, e);
    exact::lemma_value_at(a, e);
    exact::lemma_value_at(b, e);
    rounding_takes_the_nearest(x + y, 1, e);
    let z = (x + y) as real;
    let s = scale(e);
    assert(z / 1 as real * s == x as real * s + y as real * s) by (nonlinear_arith)
        requires
            z == x as real + y as real,
    ;
}

/// A difference is the number nearest to the exact difference.
pub proof fn differences_are_nearest(a: Binary, b: Binary)
    ensures
        is_nearest(binary64::difference(a, b), apart(value(a), value(b))),
{
    let e = binary64::common_exponent(a, b);
    let x = binary64::at_exponent(a, e);
    let y = binary64::at_exponent(b, e);
    let s = scale(e);
    exact::lemma_value_at(a, e);
    exact::lemma_value_at(b, e);
    exact::lemma_scale(e);
    let gap = binary64::distance(x, y);
    rounding_takes_the_nearest(gap, 1, e);
    let z = gap as real;
    let p = x as real;
    let q = y as real;
    if x >= y {
        assert(z / 1 as real * s == p * s - q * s) by (nonlinear_arith)
            requires
                z == p - q,
        ;
        assert(p * s >= q * s) by (nonlinear_arith)
            requires
                s > 0 as real,
                p >= q,
        ;
    } else {
        assert(z / 1 as real * s == q * s - p * s) by (nonlinear_arith)
            requires
                z == q - p,
        ;
        assert(p * s < q * s) by (nonlinear_arith)
            requires
                s > 0 as real,
                p < q,
        ;
    }
}

/// A product is the number nearest to the exact product.
pub proof fn products_are_nearest(a: Binary, b: Binary)
    ensures
        is_nearest(binary64::product(a, b), value(a) * value(b)),
{
    rounding_takes_the_nearest(a.m * b.m, 1, a.e + b.e);
    exact::lemma_times(a.m, b.m);
    exact::lemma_scale_adds(a.e, b.e);
    let x = a.m as real;
    let y = b.m as real;
    let z = (a.m * b.m) as real;
    let s = scale(a.e);
    let t = scale(b.e);
    assert(z / 1 as real * (s * t) == (x * s) * (y * t)) by (nonlinear_arith)
        requires
            z == x * y,
    ;
}

/// A quotient is the number nearest to the exact quotient.
pub proof fn quotients_are_nearest(a: Binary, b: Binary)
    requires
        b.m > 0,
    ensures
        is_nearest(binary64::quotient(a, b), value(a) / value(b)),
{
    rounding_takes_the_nearest(a.m, b.m, a.e - b.e);
    exact::lemma_scale_adds(a.e - b.e, b.e);
    exact::lemma_scale(b.e);
    let x = a.m as real;
    let y = b.m as real;
    let s = scale(a.e);
    let t = scale(b.e);
    let d = scale(a.e - b.e);
    assert(x / y * d == (x * s) / (y * t)) by (nonlinear_arith)
        requires
            s == d * t,
            y > 0 as real,
            t > 0 as real,
    ;
}

/// Seconds are made in two steps: the nanoseconds beyond the whole seconds are
/// divided by a billion, and then added to the whole seconds.
pub proof fn seconds_are_rounded_in_two_steps(ns: nat) -> (rest: Binary)
    ensures
        is_nearest(rest, (ns % 1_000_000_000) as real / 1_000_000_000 as real),
        is_nearest(
            report::seconds(ns),
            value(binary64::whole(ns / 1_000_000_000)) + value(rest),
        ),
{
    let r = binary64::whole(ns % 1_000_000_000);
    let g = binary64::whole(1_000_000_000);
    let rest = binary64::quotient(r, g);
    exact::whole_numbers_stay_near(ns % 1_000_000_000);
    exact::whole_numbers_stay_near(1_000_000_000);
    binary64::lemma_whole_positive(1_000_000_000);
    quotients_are_nearest(r, g);
    sums_are_nearest(binary64::whole(ns / 1_000_000_000), rest);
    rest
}

/// The throughput is the number of samples over the seconds, rounded once, and
/// the speedup of one run over another is the quotient of their throughputs,
/// rounded once.
pub proof fn throughputs_and_speedups_are_rounded_once(fast: RunResult, slow: RunResult)
    requires
        fast.wall_ns > 0,
        slow.wall_ns > 0,
        slow.stats.n > 0,
    ensures
        fast.rate() is Finite && is_nearest(
            fast.rate()->Finite_0,
            value(binary64::whole(fast.stats.n as nat)) / value(
                report::seconds(fast.wall_ns as nat),
            ),
        ),
        slow.rate() is Finite,
        number::figure_ratio(fast.rate(), slow.rate()) matches Figure::Finite(z) && is_nearest(
            z,
            value(fast.rate()->Finite_0) / value(slow.rate()->Finite_0),
        ),
{
    let n = binary64::whole(fast.stats.n as nat);
    let s = report::seconds(fast.wall_ns as nat);
    report::lemma_seconds_positive(fast.wall_ns as nat);
    quotients_are_nearest(n, s);
    outputs::lemma_rate_defined(slow);
    quotients_are_nearest(fast.rate()->Finite_0, slow.rate()->Finite_0);
}

/// A time in units is the time over the length of the unit, rounded once, with
/// two places.
pub proof fn times_in_units_are_rounded_once(ns: Binary, div: nat) -> (q: Binary)
    requires
        0 < div < 9_007_199_254_740_992,
    ensures
        units::time_text(ns, div) == decimal::shown(q, 2),
        is_nearest(q, value(ns) / div as real),
{
    let c = binary64::whole(div);
    exact::whole_numbers_stay_near(div);
    binary64::lemma_whole_positive(div);
    quotients_are_nearest(ns, c);
    binary64::quotient(ns, c)
}

/// The samples are added up one after the other from zero, each step rounded
/// once.
pub open spec fn adds_up(steps: Seq<Binary>, terms: Seq<real>) -> bool {
    &&& steps.len() == terms.len() + 1
    &&& value(steps[0]) == 0 as real
    &&& forall|i: int|
        0 <= i < terms.len() ==> is_nearest(
            #[trigger] steps[i + 1],
            value(steps[i]) + terms[i],
        )
}

/// The values of the samples.
pub open spec fn sample_values(samples: Seq<u128>) -> Seq<real> {
    Seq::new(samples.len(), |i: int| value(binary64::whole(samples[i] as nat)))
}

proof fn lemma_total_steps(samples: Seq<u128>) -> (steps: Seq<Binary>)
    ensures
        adds_up(steps, sample_values(samples)),
        steps.last() == stats::total_of(samples),
    decreases samples.len(),
{
    if samples.len() == 0 {
        let zero = Binary { m: 0, e: 0 };
        exact::lemma_value_sign(zero);
        seq![zero]
    } else {
        let before = samples.drop_last();
        let last = binary64::whole(samples.last() as nat);
        let head = lemma_total_steps(before);
        let terms = sample_values(samples);
        let steps = head.push(stats::total_of(samples));
        sums_are_nearest(stats::total_of(before), last);
        assert forall|i: int| 0 <= i < terms.len() implies is_nearest(
            #[trigger] steps[i + 1],
            value(steps[i]) + terms[i],
        ) by {
            if i < before.len() {
                assert(steps[i + 1] == head[i + 1]);
                assert(sample_values(before)[i] == terms[i]);
            }
        }
        steps
    }
}

/// The mean is the sum of the samples, added up one after the other, over their
/// number, every step rounded once.
pub proof fn means_are_rounded_step_by_step(stats: Stats, samples: Seq<u128>) -> (steps: Seq<
    Binary,
>)
    requires
        0 < samples.len() < 9_007_199_254_740_992,
        stats.of(samples),
    ensures
        adds_up(steps, sample_values(samples)),
        is_nearest(stats.mean_ns@, value(steps.last()) / samples.len() as real),
{
    let n = samples.len() as nat;
    exact::whole_numbers_stay_near(n);
    binary64::lemma_whole_positive(n);
    quotients_are_nearest(stats::total_of(samples), binary64::whole(n));
    lemma_total_steps(samples)
}

/// The squares of the distances of the samples from the mean, as they are
/// added up: each distance is rounded once, and so is its square.
pub open spec fn are_squares(squares: Seq<Binary>, samples: Seq<u128>, mean: Binary) -> bool {
    &&& squares.len() == samples.len()
    &&& forall|i: int|
        0 <= i < samples.len() ==> is_square_of_distance(
            #[trigger] squares[i],
            value(binary64::whole(samples[i] as nat)),
            value(mean),
        )
}

/// The square of the rounded distance of two numbers, rounded.
pub open spec fn is_square_of_distance(square: Binary, x: real, y: real) -> bool {
    exists|d: Binary| #[trigger]
        is_nearest(d, apart(x, y)) && is_nearest(square, value(d) * value(d))
}

proof fn lemma_spread_steps(samples: Seq<u128>, mean: Binary) -> (found: (
    Seq<Binary>,
    Seq<Binary>,
))
    ensures
        are_squares(found.0, samples, mean),
        adds_up(found.1, Seq::new(samples.len(), |i: int| value(found.0[i]))),
        found.1.last() == stats::spread_of(samples, mean),
    decreases samples.len(),
{
    if samples.len() == 0 {
        let zero = Binary { m: 0, e: 0 };
        exact::lemma_value_sign(zero);
        (Seq::<Binary>::empty(), seq![zero])
    } else {
        let before = samples.drop_last();
        let (some, head) = lemma_spread_steps(before, mean);
        let a = binary64::whole(samples.last() as nat);
        let d = binary64::difference(a, mean);
        let square = stats::squared_deviation(samples.last(), mean);
        let squares = some.push(square);
        let steps = head.push(stats::spread_of(samples, mean));
        let terms = Seq::new(samples.len(), |i: int| value(squares[i]));
        let fewer = Seq::new(before.len(), |i: int| value(some[i]));
        differences_are_nearest(a, mean);
        products_are_nearest(d, d);
        assert(is_square_of_distance(square, value(a), value(mean)));
        sums_are_nearest(stats::spread_of(before, mean), square);
        assert forall|i: int| 0 <= i < samples.len() implies is_square_of_distance(
            #[trigger] squares[i],
            value(binary64::whole(samples[i] as nat)),
            value(mean),
        ) by {
            if i < before.len() {
                assert(squares[i] == some[i]);
                assert(before[i] == samples[i]);
            }
        }
        assert forall|i: int| 0 <= i < terms.len() implies is_nearest(
            #[trigger] steps[i + 1],
            value(steps[i]) + terms[i],
        ) by {
            if i < before.len() {
                assert(steps[i + 1] == head[i + 1]);
                assert(fewer[i] == terms[i]);
            }
        }
        (squares, steps)
    }
}

/// The standard deviation is the root of the mean of the squares of the
/// distances from the mean, every step up to the root rounded once. The square
/// of the root is that mean, but for three parts.
pub proof fn deviations_are_rounded_step_by_step(stats: Stats, samples: Seq<u128>) -> (found: (
    Seq<Binary>,
    Seq<Binary>,
    Binary,
))
    requires
        0 < samples.len() < 9_007_199_254_740_992,
        stats.of(samples),
    ensures
        are_squares(found.0, samples, stats.mean_ns@),
        adds_up(found.1, Seq::new(samples.len(), |i: int| value(found.0[i]))),
        is_nearest(found.2, value(found.1.last()) / samples.len() as real),
        exact::near(
            value(stats.stddev_ns@) * value(stats.stddev_ns@),
            value(found.2),
            3 as real,
        ),
{
    let n = samples.len() as nat;
    let mean = stats.mean_ns@;
    let spread = stats::spread_of(samples, mean);
    let variance = binary64::quotient(spread, binary64::whole(n));
    let (squares, steps) = lemma_spread_steps(samples, mean);
    exact::whole_numbers_stay_near(n);
    binary64::lemma_whole_positive(n);
    quotients_are_nearest(spread, binary64::whole(n));
    exact::roots_stay_near(variance);
    (squares, steps, variance)
}

/// The line of a run in the plot goes by its throughput over the end of the
/// axis, by what that leaves of one, and by ten times what is left, each rounded
/// once, and then to the nearest line, or to the upper of two that are equally
/// near.
pub proof fn lines_are_rounded_step_by_step(result: RunResult, end: Binary) -> (found: (
    Binary,
    Binary,
    Binary,
))
    requires
        result.wall_ns > 0,
        end.normal(),
        end.m > 0,
    ensures
        result.rate() matches Figure::Finite(rate) && is_nearest(
            found.0,
            value(rate) / value(end),
        ),
        value(found.0) > 1 as real ==> plot::run_line(result, Figure::Finite(end)) == 0,
        value(found.0) <= 1 as real ==> {
            let line = plot::run_line(result, Figure::Finite(end)) as real;
            &&& is_nearest(found.1, 1 as real - value(found.0))
            &&& is_nearest(found.2, value(found.1) * 10 as real)
            &&& line <= 10 as real
            &&& line < 10 as real ==> -(1 as real) < 2 as real * (line - value(found.2))
                <= 1 as real
            &&& line == 10 as real ==> 2 as real * (line - value(found.2)) <= 1 as real
        },
{
    let one = binary64::whole(1);
    let ten = binary64::whole(10);
    report::lemma_seconds_positive(result.wall_ns as nat);
    let rate = result.rate()->Finite_0;
    let share = binary64::quotient(rate, end);
    let left = binary64::difference(one, share);
    let down = binary64::product(left, ten);
    quotients_are_nearest(rate, end);
    differences_are_nearest(one, share);
    products_are_nearest(left, ten);
    exact::whole_numbers_stay_near(1);
    exact::whole_numbers_stay_near(10);
    exact::order_is_that_of_the_values(one, share);
    outputs::lines_are_rounded_to_the_nearest(down);
    (share, left, down)
}

} // verus!
