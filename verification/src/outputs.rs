//! What the reports, the table, the plot and the CSV say of the runs.

use vstd::arithmetic::power::pow;
use vstd::prelude::*;

use crate::axis;
use crate::binary64::{self, Binary};
use crate::closing;
use crate::decimal;
use crate::digits;
use crate::exact::{self, apart, near, part, value};
use crate::figures;
use crate::number::{self, Figure};
use crate::plot;
use crate::report::{self, RunResult};
use crate::rounding;
use crate::scan;
use crate::style::Style;
use crate::text;
use crate::wording;

verus! {

/// Under each name in the first line of the CSV stands the value of that name,
/// in the line of every run.
pub proof fn csv_values_stand_under_their_names(result: RunResult)
    ensures
        ({
            let names = scan::pieces(report::csv_header_text(), ',');
            let cells = scan::pieces(report::csv_line(result), ',');
            let stats = result.stats;
            &&& names.len() == 11 && cells.len() == 11
            &&& names[0] == "threads"@ && cells[0] == text::decimal(result.threads as nat)
            &&& names[1] == "samples"@ && cells[1] == text::decimal(stats.n as nat)
            &&& names[2] == "mean_ns"@ && cells[2] == decimal::shown(stats.mean_ns@, 3)
            &&& names[3] == "stddev_ns"@ && cells[3] == decimal::shown(stats.stddev_ns@, 3)
            &&& names[4] == "min_ns"@ && cells[4] == decimal::shown(
                binary64::whole(stats.min_ns as nat),
                3,
            )
            &&& names[5] == "max_ns"@ && cells[5] == decimal::shown(
                binary64::whole(stats.max_ns as nat),
                3,
            )
            &&& names[6] == "p50_ns"@ && cells[6] == decimal::shown(
                binary64::whole(stats.p50_ns as nat),
                3,
            )
            &&& names[7] == "p95_ns"@ && cells[7] == decimal::shown(
                binary64::whole(stats.p95_ns as nat),
                3,
            )
            &&& names[8] == "p99_ns"@ && cells[8] == decimal::shown(
                binary64::whole(stats.p99_ns as nat),
                3,
            )
            &&& names[9] == "throughput_per_sec"@ && cells[9] == number::figure_text(
                result.rate(),
                3,
            )
            &&& names[10] == "wall_secs"@ && cells[10] == decimal::shown(
                report::seconds(result.wall_ns as nat),
                6,
            )
        }),
{
    report::csv_lines_split_into_cells(result);
    report::csv_header_splits_into_columns();
}

/// The CSV has the line of names and then one line for each run, in order.
pub proof fn csv_has_a_line_for_each_run(results: Seq<RunResult>, i: int)
    requires
        0 <= i < results.len(),
    ensures
        closing::csv_text(results).len() == results.len() + 1,
        closing::csv_text(results)[0] == report::csv_header_text(),
        closing::csv_text(results)[i + 1] == report::csv_line(results[i]),
{
}

/// A whole number of nanoseconds below two to the 53rd stands in the CSV as it
/// is, with three zeros.
pub proof fn csv_times_read_back(ns: nat)
    requires
        ns < 9_007_199_254_740_992,
    ensures
        decimal::shown(binary64::whole(ns), 3) == text::decimal(ns) + ".000"@,
{
    let a = binary64::whole(ns);
    let t = decimal::shown(a, 3);
    let whole = t.take(t.len() - 4);
    let rest = t.skip(t.len() - 3);
    wording::figures_are_written_to_the_nearest(a, 3);
    wording::ten_to_is_a_power_of_ten(3);
    assert(digits::ten_to(3) == 1000) by {
        reveal_with_fuel(digits::ten_to, 4);
    }
    exact::whole_numbers_stay_near(ns);
    let h = binary64::scaled(a, 1000);
    assert(h == 1000 * ns) by {
        wording::lemma_scaled_nearest(a, 1000);
        exact::lemma_times(ns, 1000);
    }
    reveal_strlit(".");
    reveal_strlit(".000");
    reveal_with_fuel(decimal::last_digits, 4);
    assert(h / 1000 == ns && h % 10 == 0 && (h / 10) % 10 == 0 && (h / 100) % 10 == 0);
    assert((h / 10) / 10 == h / 100);
    assert(decimal::last_digits(h, 3) =~= seq!['0', '0', '0']);
    assert(text::decimal(ns) + "."@ + seq!['0', '0', '0'] =~= text::decimal(ns) + ".000"@);
}

/// The value of a figure that is finite.
pub open spec fn finite(x: Figure) -> real {
    match x {
        Figure::Finite(a) => value(a),
        _ => 0 as real,
    }
}

/// One figure is not above another: an infinite one is above all finite ones.
pub open spec fn not_above(x: Figure, y: Figure) -> bool {
    match (x, y) {
        (Figure::Finite(a), Figure::Finite(b)) => value(a) <= value(b),
        (Figure::Finite(_), Figure::Infinite) => true,
        (Figure::Infinite, Figure::Infinite) => true,
        _ => false,
    }
}

/// Figures are compared by their values.
pub proof fn figures_are_compared_by_their_values(x: Figure, y: Figure)
    requires
        x !is Undefined,
        y !is Undefined,
    ensures
        number::figure_less(x, y) <==> !not_above(y, x),
        not_above(x, y) || not_above(y, x),
{
    if let (Figure::Finite(a), Figure::Finite(b)) = (x, y) {
        exact::order_is_that_of_the_values(a, b);
    }
}

/// A run with samples has a throughput.
pub(crate) proof fn lemma_rate_defined(r: RunResult)
    requires
        r.stats.n > 0,
    ensures
        r.rate() !is Undefined,
        r.rate() matches Figure::Finite(a) ==> a.normal() && a.m > 0 && value(a) > 0 as real,
        r.wall_ns > 0 <==> r.rate() is Finite,
{
    let n = binary64::whole(r.stats.n as nat);
    let s = report::seconds(r.wall_ns as nat);
    figures::throughput_is_samples_per_second(r);
    binary64::lemma_whole_positive(r.stats.n as nat);
    if r.wall_ns > 0 {
        report::lemma_seconds_positive(r.wall_ns as nat);
        rounding::results_are_close(n.m, s.m, n.e - s.e);
        binary64::lemma_nearest_positive(n.m, s.m, n.e - s.e);
        exact::lemma_value_sign(r.rate()->Finite_0);
    }
}

/// The largest throughput is that of a run, and no run has a larger one.
proof fn lemma_largest(results: Seq<RunResult>) -> (j: int)
    requires
        results.len() > 0,
        forall|k: int| 0 <= k < results.len() ==> (#[trigger] results[k]).stats.n > 0,
    ensures
        0 <= j < results.len(),
        plot::largest_rate(results) == results[j].rate(),
        forall|k: int|
            0 <= k < results.len() ==> not_above((#[trigger] results[k]).rate(), results[j].rate()),
    decreases results.len(),
{
    let before = results.drop_last();
    let last = results.len() - 1;
    lemma_rate_defined(results[last]);
    if before.len() == 0 {
        let zero = Binary { m: 0, e: 0 };
        exact::lemma_value_sign(zero);
        assert(plot::largest_rate(before) == Figure::Finite(zero));
        figures_are_compared_by_their_values(Figure::Finite(zero), results[last].rate());
        last
    } else {
        assert forall|k: int| 0 <= k < before.len() implies (#[trigger] before[k]).stats.n > 0 by {
            assert(results[k].stats.n > 0);
        }
        let i = lemma_largest(before);
        lemma_rate_defined(results[i]);
        figures_are_compared_by_their_values(results[i].rate(), results[last].rate());
        let j = if number::figure_less(results[i].rate(), results[last].rate()) {
            last
        } else {
            i
        };
        assert forall|k: int| 0 <= k < results.len() implies not_above(
            (#[trigger] results[k]).rate(),
            results[j].rate(),
        ) by {
            lemma_rate_defined(results[k]);
            if k < last {
                assert(not_above(before[k].rate(), before[i].rate()));
            }
        }
        j
    }
}

/// The axis of the plot reaches the throughput of every run, and it ends where
/// the axis for the throughput of one of the runs does.
pub proof fn axis_reaches_every_run(results: Seq<RunResult>) -> (j: int)
    requires
        results.len() > 0,
        forall|k: int| 0 <= k < results.len() ==> (#[trigger] results[k]).stats.n > 0,
    ensures
        0 <= j < results.len(),
        plot::axis_of(results) == axis::axis_end(results[j].rate()),
        forall|k: int|
            0 <= k < results.len() ==> not_above(
                (#[trigger] results[k]).rate(),
                plot::axis_of(results),
            ),
{
    let j = lemma_largest(results);
    lemma_rate_defined(results[j]);
    let end = plot::axis_of(results);
    assert(not_above(results[j].rate(), end)) by {
        if let Figure::Finite(v) = results[j].rate() {
            axis::axis_ends_at_a_nice_number(v);
            figures_are_compared_by_their_values(end, results[j].rate());
        }
    }
    assert forall|k: int| 0 <= k < results.len() implies not_above(
        (#[trigger] results[k]).rate(),
        end,
    ) by {
        assert(not_above(results[k].rate(), results[j].rate()));
    }
    j
}

/// A share of the axis falls on the line that is nearest to it, counted from the
/// top in as many steps as there are, but for three parts of the number of
/// steps. What lies above the axis falls on the first line.
pub proof fn shares_fall_on_the_nearest_line(share: Binary, steps: nat)
    requires
        steps <= 4_503_599_627_370_496,
    ensures
        ({
            let line = axis::line_of(Figure::Finite(share), steps);
            let n = steps as real;
            &&& line <= steps
            &&& value(share) > 1 as real ==> line == 0
            &&& value(share) <= 1 as real ==> apart(
                line as real,
                n * (1 as real - value(share)),
            ) <= 1 as real / 2 as real + 3 as real * (n * part())
        }),
{
    let one = binary64::whole(1);
    let count = binary64::whole(steps);
    let n = steps as real;
    let u = part();
    let q = value(share);
    exact::whole_numbers_stay_near(1);
    exact::whole_numbers_stay_near(steps);
    exact::order_is_that_of_the_values(one, share);
    exact::lemma_value_sign(share);
    if q <= 1 as real {
        let d = binary64::difference(one, share);
        let p = binary64::product(d, count);
        let g = 1 as real - q;
        let e = value(d);
        let f = value(p);
        exact::differences_stay_near(one, share);
        exact::products_stay_near(d, count);
        lines_are_rounded_to_the_nearest(p);
        assert(g - u <= e <= g + u) by {
            figures::lemma_scaled(g, 1 as real, u);
            assert(g * (1 as real + 1 as real * u) == g + g * u) by (nonlinear_arith);
            assert(g * (1 as real - 1 as real * u) == g - g * u) by (nonlinear_arith);
        }
        let w = e * n;
        assert(g * n - u * n <= w <= g * n + u * n) by {
            figures::lemma_scaled(g - u, e, n);
            figures::lemma_scaled(e, g + u, n);
            assert((g + u) * n == g * n + u * n) by (nonlinear_arith);
            assert((g - u) * n == g * n - u * n) by (nonlinear_arith);
        }
        assert(w <= 2 as real * n) by {
            figures::lemma_scaled(e, 2 as real, n);
        }
        assert(w - 2 as real * (n * u) <= f <= w + 2 as real * (n * u)) by {
            figures::lemma_scaled(w, 2 as real * n, u);
            assert((2 as real * n) * u == 2 as real * (n * u)) by (nonlinear_arith);
            assert(w * (1 as real + 1 as real * u) == w + w * u) by (nonlinear_arith);
            assert(w * (1 as real - 1 as real * u) == w - w * u) by (nonlinear_arith);
        }
        assert(u * n == n * u) by (nonlinear_arith);
        assert(n * g == g * n) by (nonlinear_arith);
        assert(g * n <= n) by {
            figures::lemma_scaled(g, 1 as real, n);
        }
    }
}

/// The line of the plot on which a value falls.
proof fn lemma_line(a: Binary, end: Binary)
    requires
        value(a) <= value(end),
        end.normal(),
        end.m > 0,
    ensures
        ({
            let share = Figure::Finite(binary64::quotient(a, end));
            let line = axis::line_of(share, 10);
            &&& line <= 10
            &&& apart(line as real, 10 as real * (1 as real - value(a) / value(end))) <= 1 as real
                / 2 as real + 100 as real * part()
        }),
{
    let one = binary64::whole(1);
    let s = binary64::quotient(a, end);
    let u = part();
    let x = value(a) / value(end);
    exact::lemma_value_sign(a);
    exact::lemma_value_sign(end);
    exact::whole_numbers_stay_near(1);
    exact::order_is_that_of_the_values(end, a);
    rounding::quotients_keep_order(a, end, end);
    rounding::lemma_extended(1, 1, 0, end.m);
    assert(end.m * 1 == end.m);
    assert(binary64::quotient(end, end) == one);
    exact::order_is_that_of_the_values(one, s);
    exact::quotients_stay_near(a, end);
    figures::lemma_unit_quotient(value(a), value(end));
    shares_fall_on_the_nearest_line(s, 10);
    assert(x - u <= value(s) <= x + u) by {
        figures::lemma_scaled(x, 1 as real, u);
        assert(x * (1 as real + 1 as real * u) == x + x * u) by (nonlinear_arith);
        assert(x * (1 as real - 1 as real * u) == x - x * u) by (nonlinear_arith);
    }
}

/// The value of a line falls evenly from the end of the axis at the top to zero
/// at the bottom, but for six parts of the end.
pub proof fn values_fall_evenly_along_the_axis(end: Binary, i: nat, steps: nat)
    requires
        i <= steps,
        0 < steps < 9_007_199_254_740_992,
    ensures
        axis::value_at(Figure::Finite(end), i, steps) matches Figure::Finite(r) && apart(
            value(r),
            value(end) * (1 as real - i as real / steps as real),
        ) <= 6 as real * (value(end) * part()),
{
    let one = binary64::whole(1);
    let b = binary64::whole(steps);
    let s = binary64::quotient(binary64::whole(i), b);
    let d = binary64::difference(one, s);
    let r = binary64::product(end, d);
    let u = part();
    let x = i as real / steps as real;
    let q = value(s);
    let e = value(end);
    let f = value(d);
    exact::whole_numbers_stay_near(1);
    exact::whole_numbers_stay_near(i);
    exact::whole_numbers_stay_near(steps);
    binary64::lemma_whole_positive(steps);
    exact::quotients_stay_near(binary64::whole(i), b);
    figures::lemma_unit_quotient(i as real, steps as real);
    exact::differences_stay_near(one, s);
    exact::products_stay_near(end, d);
    exact::lemma_value_sign(end);
    assert(x - u <= q <= x + u) by {
        figures::lemma_scaled(x, 1 as real, u);
        assert(x * (1 as real + 1 as real * u) == x + x * u) by (nonlinear_arith);
        assert(x * (1 as real - 1 as real * u) == x - x * u) by (nonlinear_arith);
    }
    let g = apart(1 as real, q);
    let y = 1 as real - x;
    assert(y - u <= g <= y + u);
    assert(g - 2 as real * u <= f <= g + 2 as real * u) by {
        figures::lemma_scaled(g, 2 as real, u);
        assert(g * (1 as real + 1 as real * u) == g + g * u) by (nonlinear_arith);
        assert(g * (1 as real - 1 as real * u) == g - g * u) by (nonlinear_arith);
    }
    let w = e * f;
    assert(e * y - 3 as real * (e * u) <= w <= e * y + 3 as real * (e * u)) by {
        figures::lemma_scaled(y - 3 as real * u, f, e);
        figures::lemma_scaled(f, y + 3 as real * u, e);
        assert(e * (y + 3 as real * u) == e * y + 3 as real * (e * u)) by (nonlinear_arith);
        assert(e * (y - 3 as real * u) == e * y - 3 as real * (e * u)) by (nonlinear_arith);
    }
    assert(w <= 2 as real * e) by {
        figures::lemma_scaled(f, 2 as real, e);
        assert(e * 2 as real == 2 as real * e);
    }
    assert(w - 2 as real * (e * u) <= value(r) <= w + 2 as real * (e * u)) by {
        figures::lemma_scaled(w, 2 as real * e, u);
        assert((2 as real * e) * u == 2 as real * (e * u)) by (nonlinear_arith);
        assert(w * (1 as real + 1 as real * u) == w + w * u) by (nonlinear_arith);
        assert(w * (1 as real - 1 as real * u) == w - w * u) by (nonlinear_arith);
    }
}

/// Lines are counted in whole numbers: a value is rounded to the nearest, and
/// half a line upwards.
pub proof fn lines_are_rounded_to_the_nearest(a: Binary)
    ensures
        -(1 as real) < 2 as real * (axis::rounded_up(a) as real - value(a)) <= 1 as real,
{
    let m = a.m as real;
    let r = axis::rounded_up(a);
    exact::lemma_scale(a.e);
    if a.e >= 0 {
        exact::lemma_times(a.m, binary64::two_to(a.e as nat));
    } else {
        let p = binary64::two_to((-a.e) as nat);
        let q = p as real;
        exact::two_to_is_a_power_of_two((-a.e) as nat);
        binary64::lemma_two_to_grows(0, (-a.e) as nat);
        vstd::arithmetic::div_mod::lemma_fundamental_div_mod((2 * a.m + p) as int, (2 * p) as int);
        vstd::arithmetic::div_mod::lemma_mod_bound((2 * a.m + p) as int, (2 * p) as int);
        exact::lemma_times(2 * p, r);
        let x = r as real;
        let v = value(a);
        assert(v * q == m) by (nonlinear_arith)
            requires
                v == m * (1 as real / q),
                q > 0 as real,
        ;
        let g = 2 as real * (x - v);
        assert(g * q == (2 as real * q) * x - 2 as real * m) by (nonlinear_arith)
            requires
                v * q == m,
                g == 2 as real * (x - v),
        ;
        assert(-(1 as real) < g <= 1 as real) by (nonlinear_arith)
            requires
                -q < g * q <= q,
                q > 0 as real,
        ;
    }
}

/// Ten to the power of `k`.
pub open spec fn ten_to_the(k: int) -> real {
    if k >= 0 {
        pow(10, k as nat) as real
    } else {
        1 as real / pow(10, (-k) as nat) as real
    }
}

/// A nice number in binary64 is the number itself, but for four parts.
proof fn lemma_nice(m: nat, k: int)
    requires
        m == 1 || m == 2 || m == 5,
    ensures
        near(
            value(binary64::product(binary64::whole(m), axis::power_of_ten(k))),
            m as real * ten_to_the(k),
            4 as real,
        ),
        ten_to_the(k) > 0 as real,
{
    let a = binary64::whole(m);
    let b = axis::power_of_ten(k);
    exact::whole_numbers_stay_near(m);
    assert(near(value(b), ten_to_the(k), 1 as real) && ten_to_the(k) > 0 as real) by {
        if k >= 0 {
            wording::ten_to_is_a_power_of_ten(k as nat);
            digits::lemma_ten_to_positive(k as nat);
            exact::whole_numbers_stay_near(digits::ten_to(k as nat));
        } else {
            let t = digits::ten_to((-k) as nat);
            wording::ten_to_is_a_power_of_ten((-k) as nat);
            digits::lemma_ten_to_positive((-k) as nat);
            exact::rounding_stays_near(1, t, 0);
            vstd::arithmetic::power2::lemma2_to64();
            assert(1 as real / t as real * 1 as real == 1 as real / t as real);
            assert(1 as real / t as real > 0 as real) by (nonlinear_arith)
                requires
                    t as real > 0 as real,
            ;
        }
    }
    figures::lemma_same(value(a), 0 as real);
    figures::lemma_product(value(a), m as real, 0 as real, value(b), ten_to_the(k), 1 as real);
    assert(m as real * ten_to_the(k) >= 0 as real) by (nonlinear_arith)
        requires
            m as real >= 0 as real,
            ten_to_the(k) > 0 as real,
    ;
    exact::products_stay_near(a, b);
    figures::lemma_through(
        value(binary64::product(a, b)),
        value(a) * value(b),
        m as real * ten_to_the(k),
        1 as real,
        2 as real,
    );
}

/// The axis ends at one, two or five times a power of ten, but for four parts.
/// It is not below the value that it is for, and at most two and a half times
/// that value, but for four parts.
pub proof fn axes_end_at_one_two_or_five_times_a_power_of_ten(v: Binary) -> (found: (nat, int))
    requires
        v.normal(),
        v.m > 0,
    ensures
        found.0 == 1 || found.0 == 2 || found.0 == 5,
        axis::axis_end(Figure::Finite(v)) matches Figure::Finite(end) && near(
            value(end),
            found.0 as real * ten_to_the(found.1),
            4 as real,
        ) && value(v) <= value(end) && value(end) <= (5 as real / 2 as real * value(v)) * (1 as real
            + 4 as real * part()),
{
    axis::axis_ends_at_a_nice_number(v);
    let (m, k): (nat, int) = choose|m: nat, k: int|
        (m == 1 || m == 2 || m == 5) && axis::axis_end(Figure::Finite(v)) == Figure::Finite(
            #[trigger] binary64::product(binary64::whole(m), axis::power_of_ten(k)),
        );
    lemma_nice(m, k);
    axis::lemma_end_positive(v);
    let end = axis::axis_end(Figure::Finite(v))->Finite_0;
    exact::order_is_that_of_the_values(end, v);
    axis::axis_end_is_near(v);
    let c = binary64::quotient(binary64::whole(5), binary64::whole(2));
    let most = axis::two_and_a_half_times(v);
    let half = 5 as real / 2 as real;
    exact::order_is_that_of_the_values(most, end);
    exact::whole_numbers_stay_near(5);
    exact::whole_numbers_stay_near(2);
    binary64::lemma_whole_positive(2);
    exact::quotients_stay_near(binary64::whole(5), binary64::whole(2));
    exact::lemma_value_sign(v);
    figures::lemma_same(value(v), 0 as real);
    figures::lemma_product(value(c), half, 1 as real, value(v), value(v), 0 as real);
    exact::products_stay_near(c, v);
    figures::lemma_through(
        value(most),
        value(c) * value(v),
        half * value(v),
        1 as real,
        2 as real,
    );
    (m, k)
}

/// No nice number that reaches a value is below the end of the axis for it, but
/// for four parts.
pub proof fn axes_end_at_the_first_nice_number(v: Binary, m: nat, k: int)
    requires
        v.normal(),
        v.m > 0,
        m == 1 || m == 2 || m == 5,
        (m as real * ten_to_the(k)) * (1 as real - 4 as real * part()) >= value(v),
    ensures
        axis::axis_end(Figure::Finite(v)) matches Figure::Finite(end) && value(end) <= (m as real
            * ten_to_the(k)) * (1 as real + 4 as real * part()),
{
    let nice = binary64::product(binary64::whole(m), axis::power_of_ten(k));
    lemma_nice(m, k);
    exact::order_is_that_of_the_values(nice, v);
    axis::axis_end_is_the_least(v, m, k);
    axis::lemma_end_positive(v);
    exact::order_is_that_of_the_values(nice, axis::axis_end(Figure::Finite(v))->Finite_0);
}

/// The axis for a value of zero ends at one, and one that is not finite stays as
/// it is.
pub proof fn axes_without_a_value_end_at_one()
    ensures
        axis::axis_end(Figure::Finite(Binary { m: 0, e: 0 })) matches Figure::Finite(end) && value(
            end,
        ) == 1 as real,
        axis::axis_end(Figure::Infinite) is Infinite,
        axis::axis_end(Figure::Undefined) is Undefined,
{
    exact::whole_numbers_stay_near(1);
}

/// A run stands in the plot as far from the top as its throughput is from the
/// end of the axis: on the nearest of ten steps, but for a hundred parts. Where
/// a run took no time it stands at the top, and all others at the bottom.
pub proof fn runs_stand_where_their_throughput_is(results: Seq<RunResult>, k: int)
    requires
        0 <= k < results.len(),
        forall|i: int| 0 <= i < results.len() ==> (#[trigger] results[i]).stats.n > 0,
    ensures
        ({
            let end = plot::axis_of(results);
            let rate = results[k].rate();
            let line = plot::run_line(results[k], end);
            &&& 0 <= line <= 10
            &&& end is Finite ==> finite(end) > 0 as real && apart(
                line as real,
                10 as real * (1 as real - finite(rate) / finite(end)),
            ) <= 1 as real / 2 as real + 100 as real * part()
            &&& end is Infinite && rate is Infinite ==> line == 0
            &&& end is Infinite && rate is Finite ==> line == 10
        }),
{
    let j = axis_reaches_every_run(results);
    lemma_rate_defined(results[j]);
    lemma_rate_defined(results[k]);
    let end = plot::axis_of(results);
    let rate = results[k].rate();
    assert(not_above(rate, end));
    match end {
        Figure::Finite(e) => {
            axis::lemma_end_positive(results[j].rate()->Finite_0);
            exact::lemma_value_sign(e);
            lemma_line(rate->Finite_0, e);
        },
        _ => {
            let zero = Binary { m: 0, e: 0 };
            exact::lemma_value_sign(zero);
            lemma_line_of_zero();
        },
    }
}

/// Nothing stands at the bottom.
proof fn lemma_line_of_zero()
    ensures
        axis::line_of(Figure::Finite(Binary { m: 0, e: 0 }), 10) == 10,
{
    let zero = Binary { m: 0, e: 0 };
    let one = binary64::whole(1);
    exact::lemma_value_sign(zero);
    exact::whole_numbers_stay_near(1);
    rounding::results_are_close(1, 1, 0);
    binary64::lemma_whole_positive(1);
    lemma_line(zero, one);
    assert(binary64::quotient(zero, one) == zero);
    assert(value(zero) / value(one) == 0 as real);
    assert(100 as real * part() < 1 as real / 4 as real);
}

/// A product with one is the other number.
proof fn lemma_times_one(a: Binary)
    requires
        a.normal(),
    ensures
        value(binary64::product(a, binary64::whole(1))) == value(a),
{
    let one = binary64::whole(1);
    exact::whole_numbers_stay_near(1);
    exact::no_number_is_nearer(a.m * one.m, 1, a.e + one.e, a);
    exact::lemma_times(a.m, one.m);
    exact::lemma_scale_adds(a.e, one.e);
    let x = a.m as real;
    let y = one.m as real;
    let z = (a.m * one.m) as real;
    let s = exact::scale(a.e);
    let t = exact::scale(one.e);
    assert(z / 1 as real * (s * t) == (x * s) * (y * t)) by (nonlinear_arith)
        requires
            z == x * y,
    ;
    assert((x * s) * 1 as real == x * s) by (nonlinear_arith);
}

/// The shares of the axis at the top, in the middle and at the bottom.
proof fn lemma_shares()
    ensures
        ({
            let one = binary64::whole(1);
            let ten = binary64::whole(10);
            let top = binary64::difference(one, binary64::quotient(binary64::whole(0), ten));
            let middle = binary64::difference(one, binary64::quotient(binary64::whole(5), ten));
            let bottom = binary64::difference(one, binary64::quotient(ten, ten));
            &&& top == one
            &&& middle.m > 0
            &&& near(value(middle), 1 as real / 2 as real, 3 as real)
            &&& bottom.m == 0
        }),
{
    let one = binary64::whole(1);
    let ten = binary64::whole(10);
    let zero = Binary { m: 0, e: 0 };
    rounding::results_are_close(1, 1, 0);
    rounding::results_are_close(10, 1, 0);
    binary64::lemma_whole_positive(1);
    binary64::lemma_whole_positive(10);
    exact::whole_numbers_stay_near(1);
    exact::whole_numbers_stay_near(5);
    exact::whole_numbers_stay_near(10);
    // At the top.
    assert(binary64::whole(0) == zero);
    assert(binary64::quotient(zero, ten) == zero);
    let e = binary64::common_exponent(one, zero);
    rounding::small_integers_are_exact(1);
    assert(e == one.e);
    assert(binary64::at_exponent(one, e) == one.m) by (nonlinear_arith)
        requires
            binary64::at_exponent(one, e) == one.m * binary64::two_to(0),
            binary64::two_to(0) == 1,
    ;
    assert(binary64::at_exponent(zero, e) == 0) by (nonlinear_arith)
        requires
            binary64::at_exponent(zero, e) == 0 * binary64::two_to((0 - e) as nat),
    ;
    rounding::normal_numbers_are_kept(one);
    // At the bottom.
    rounding::lemma_extended(1, 1, 0, ten.m);
    assert(ten.m * 1 == ten.m);
    rounding::only_equals_do_not_differ(one, one);
    // In the middle.
    let half = 1 as real / 2 as real;
    let five = binary64::whole(5);
    let q = value(binary64::quotient(five, ten));
    let d = binary64::difference(one, binary64::quotient(five, ten));
    let u = part();
    exact::quotients_stay_near(five, ten);
    assert(5 as real / 10 as real == half);
    assert(near(apart(1 as real, q), half, 1 as real)) by {
        assert(half * (1 as real + 1 as real * u) == half + half * u);
        assert(half * (1 as real - 1 as real * u) == half - half * u);
    }
    exact::differences_stay_near(one, binary64::quotient(five, ten));
    figures::lemma_through(value(d), apart(1 as real, q), half, 1 as real, 1 as real);
    assert(value(d) > 0 as real) by {
        assert(half * (1 as real - 3 as real * u) > 0 as real);
    }
    exact::lemma_value_sign(d);
}

/// A line of the plot: the label, the bar and the stars. The labels are the
/// value at the end of the axis on the top line, half of it in the middle and
/// zero at the bottom, each with no places and against the right edge of eight
/// characters. In the six characters of a run only the third is a star, and
/// only on the line of the run.
pub proof fn plot_lines_show_the_runs(
    results: Seq<RunResult>,
    style: Style,
    i: int,
    k: int,
) -> (parts: (Seq<char>, Figure, Seq<char>))
    requires
        0 <= i <= 10,
        0 <= k < results.len(),
        forall|r: int| 0 <= r < results.len() ==> (#[trigger] results[r]).stats.n > 0,
    ensures
        ({
            let lines = plot::plot_lines(results, style);
            let (label, mark, stars) = parts;
            let end = plot::axis_of(results);
            &&& lines.len() == 16
            &&& lines[2 + i] == seq![' ', ' '] + style.dim@ + label + seq![' ', '|'] + style.reset@
                + style.cyan@ + stars + style.reset@
            &&& i == 0 || i == 5 || i == 10 ==> label == text::right_aligned(
                number::figure_text(mark, 0),
                8,
            )
            &&& i != 0 && i != 5 && i != 10 ==> label == seq![
                ' ',
                ' ',
                ' ',
                ' ',
                ' ',
                ' ',
                ' ',
                ' ',
            ]
            &&& end is Finite ==> mark is Finite
            &&& end is Finite && i == 0 ==> finite(mark) == finite(end)
            &&& end is Finite && i == 5 ==> near(
                finite(mark),
                finite(end) / 2 as real,
                6 as real,
            )
            &&& end is Finite && i == 10 ==> finite(mark) == 0 as real
            &&& end is Infinite && i <= 5 ==> mark is Infinite
            &&& end is Infinite && i == 10 ==> mark is Undefined
            &&& i == 0 ==> not_above(results[k].rate(), mark)
            &&& stars.len() == 6 * results.len()
            &&& forall|c: int|
                0 <= c < 6 ==> #[trigger] stars[6 * k + c] == if c == 2 && i == plot::run_line(
                    results[k],
                    end,
                ) {
                    '*'
                } else {
                    ' '
                }
        }),
{
    let end = plot::axis_of(results);
    let rows = plot::run_lines(results);
    let label = plot::label_text(end, i as nat);
    let stars = plot::grid_line(rows, i);
    let j = axis_reaches_every_run(results);
    lemma_rate_defined(results[j]);
    lemma_shares();
    binary64::lemma_whole_positive(1);
    reveal_strlit("  ");
    reveal_strlit(" |");
    assert("  "@ =~= seq![' ', ' ']);
    assert(" |"@ =~= seq![' ', '|']);
    assert(text::blanks(8) =~= seq![' ', ' ', ' ', ' ', ' ', ' ', ' ', ' ']);
    let share = if i == 0 {
        binary64::whole(0)
    } else if i == 5 {
        binary64::whole(5)
    } else {
        binary64::whole(10)
    };
    let left = binary64::difference(
        binary64::whole(1),
        binary64::quotient(share, binary64::whole(10)),
    );
    let mark = if i == 0 || i == 5 || i == 10 {
        axis::value_at(end, i as nat, 10)
    } else {
        end
    };
    assert(i == 0 || i == 5 || i == 10 ==> mark == number::figure_product(end, left));
    if let Figure::Finite(e) = end {
        axis::lemma_end_positive(results[j].rate()->Finite_0);
        exact::lemma_value_sign(e);
        if i == 0 {
            lemma_times_one(e);
        } else if i == 5 {
            exact::products_stay_near(e, left);
            figures::lemma_same(value(e), 0 as real);
            figures::lemma_product(
                value(e),
                value(e),
                0 as real,
                value(left),
                1 as real / 2 as real,
                3 as real,
            );
            figures::lemma_through(
                value(binary64::product(e, left)),
                value(e) * value(left),
                value(e) * (1 as real / 2 as real),
                1 as real,
                4 as real,
            );
        } else if i == 10 {
            assert(e.m * 0 == 0);
            exact::lemma_value_sign(binary64::product(e, left));
        }
    }
    assert(not_above(results[k].rate(), end));
    assert forall|c: int| 0 <= c < 6 implies #[trigger] stars[6 * k + c] == (if c == 2 && i
        == plot::run_line(results[k], end) {
        '*'
    } else {
        ' '
    }) by {
        runs_stand_where_their_throughput_is(results, k);
        assert((6 * k + c) / 6 == k && (6 * k + c) % 6 == c);
        assert(rows[k] == plot::run_line(results[k], end));
    }
    (label, mark, stars)
}

/// Where a decimal number stands in the row of thread counts under the plot.
proof fn lemma_column(results: Seq<RunResult>, k: int)
    requires
        0 <= k < results.len(),
        forall|r: int| 0 <= r < results.len() ==> (#[trigger] results[r]).threads < 1_000_000,
    ensures
        plot::column_labels(results).len() == 6 * results.len(),
        plot::column_labels(results).subrange(6 * k, 6 * k + 6) == text::centred(
            text::decimal(results[k].threads as nat),
            6,
        ),
    decreases results.len(),
{
    let before = results.drop_last();
    let last = text::centred(text::decimal(results.last().threads as nat), 6);
    let all = plot::column_labels(results);
    plot::plot_lines_up(results, 0);
    assert forall|r: int| 0 <= r < before.len() implies (#[trigger] before[r]).threads
        < 1_000_000 by {
        assert(results[r].threads < 1_000_000);
    }
    plot::plot_lines_up(before, 0);
    if k < before.len() {
        lemma_column(before, k);
        assert(all.subrange(6 * k, 6 * k + 6) =~= plot::column_labels(before).subrange(
            6 * k,
            6 * k + 6,
        ));
    } else {
        assert(all.subrange(6 * k, 6 * k + 6) =~= last);
    }
}

/// Around the lines of the plot stand a blank line and the title, and below
/// them the axis, the thread counts and the caption. Each count is in the middle
/// of six characters, which are those of its run as long as none has more than
/// six digits.
pub proof fn plots_have_a_title_an_axis_and_thread_counts(
    results: Seq<RunResult>,
    style: Style,
    k: int,
) -> (counts: Seq<char>)
    requires
        0 <= k < results.len(),
    ensures
        ({
            let lines = plot::plot_lines(results, style);
            &&& lines.len() == 16
            &&& lines[0].len() == 0
            &&& lines[1] == style.bold@ + "Throughput vs threads (spawns/sec):"@ + style.reset@
            &&& lines[13] == "  "@ + style.dim@ + "         +"@ + Seq::new(
                6 * results.len(),
                |c: int| '-',
            ) + style.reset@
            &&& lines[14] == "            "@ + style.dim@ + counts + style.reset@
            &&& lines[15] == "            "@ + style.dim@ + "threads"@ + style.reset@
            &&& counts == text::joined(
                Seq::new(
                    results.len(),
                    |r: int| text::centred(text::decimal(results[r].threads as nat), 6),
                ),
                Seq::<char>::empty(),
            )
            &&& (forall|r: int|
                0 <= r < results.len() ==> (#[trigger] results[r]).threads < 1_000_000) ==> {
                &&& counts.len() == 6 * results.len()
                &&& counts.subrange(6 * k, 6 * k + 6) == text::centred(
                    text::decimal(results[k].threads as nat),
                    6,
                )
            }
        }),
{
    let lines = plot::plot_lines(results, style);
    let counts = plot::column_labels(results);
    thread_counts_stand_one_behind_the_other(results);
    if forall|r: int| 0 <= r < results.len() ==> (#[trigger] results[r]).threads < 1_000_000 {
        lemma_column(results, k);
    }
    reveal_strlit("");
    reveal_strlit("  ");
    reveal_strlit(" +");
    reveal_strlit("         +");
    reveal_strlit("            ");
    reveal_strlit("threads");
    let dashes = Seq::new(6 * results.len(), |c: int| '-');
    assert(text::blanks(8) + " +"@ =~= "         +"@);
    assert("  "@ + text::blanks(8) + "  "@ =~= "            "@);
    assert(lines[13] =~= "  "@ + style.dim@ + (text::blanks(8) + " +"@) + dashes + style.reset@);
    counts
}

/// The axis reaches every throughput, of runs with samples and without. It ends
/// where the axis for one of the throughputs does, or at one where there is
/// none.
pub proof fn axis_reaches_every_throughput(results: Seq<RunResult>) -> (j: int)
    ensures
        forall|k: int|
            0 <= k < results.len() && (#[trigger] results[k]).rate() !is Undefined ==> not_above(
                results[k].rate(),
                plot::axis_of(results),
            ),
        0 <= j < results.len() ==> results[j].rate() !is Undefined && plot::axis_of(results)
            == axis::axis_end(results[j].rate()),
        !(0 <= j < results.len()) ==> (plot::axis_of(results) matches Figure::Finite(end) && value(
            end,
        ) == 1 as real) && forall|k: int|
            0 <= k < results.len() ==> (#[trigger] results[k]).rate() is Undefined,
{
    let j = lemma_largest_of_all(results);
    let top = plot::largest_rate(results);
    let end = plot::axis_of(results);
    axes_without_a_value_end_at_one();
    assert(not_above(top, end)) by {
        if let Figure::Finite(v) = top {
            exact::lemma_value_sign(v);
            if v.m > 0 {
                axis::axis_ends_at_a_nice_number(v);
                axis::lemma_end_positive(v);
                figures_are_compared_by_their_values(end, top);
            }
        }
    }
    assert forall|k: int|
        0 <= k < results.len() && (#[trigger] results[k]).rate() !is Undefined implies not_above(
        results[k].rate(),
        end,
    ) by {
        assert(not_above(results[k].rate(), top));
    }
    j
}

/// A throughput is normal where it is finite.
proof fn lemma_rate_normal(r: RunResult)
    ensures
        r.rate() matches Figure::Finite(a) ==> a.normal(),
{
    let n = binary64::whole(r.stats.n as nat);
    let s = report::seconds(r.wall_ns as nat);
    if s.m != 0 {
        rounding::results_are_close(n.m, s.m, n.e - s.e);
    }
}

proof fn lemma_largest_of_all(results: Seq<RunResult>) -> (j: int)
    ensures
        plot::largest_rate(results) !is Undefined,
        plot::largest_rate(results) matches Figure::Finite(a) ==> a.normal(),
        forall|k: int|
            0 <= k < results.len() && (#[trigger] results[k]).rate() !is Undefined ==> not_above(
                results[k].rate(),
                plot::largest_rate(results),
            ),
        0 <= j < results.len() ==> results[j].rate() == plot::largest_rate(results),
        !(0 <= j < results.len()) ==> plot::largest_rate(results) == Figure::Finite(
            Binary { m: 0, e: 0 },
        ) && forall|k: int|
            0 <= k < results.len() ==> (#[trigger] results[k]).rate() is Undefined,
    decreases results.len(),
{
    if results.len() == 0 {
        -1
    } else {
        let before = results.drop_last();
        let last = results.len() - 1;
        let i = lemma_largest_of_all(before);
        let top = plot::largest_rate(before);
        let rate = results[last].rate();
        lemma_rate_normal(results[last]);
        if rate !is Undefined {
            figures_are_compared_by_their_values(top, rate);
            figures_are_compared_by_their_values(rate, top);
        }
        let j = if number::figure_less(top, rate) {
            last
        } else if 0 <= i < before.len() {
            i
        } else if rate is Undefined {
            -1
        } else {
            // The first throughput of all, and it is not above zero.
            let a = rate->Finite_0;
            exact::lemma_value_sign(a);
            exact::lemma_value_sign(Binary { m: 0, e: 0 });
            last
        };
        assert forall|k: int| 0 <= k < results.len() && (#[trigger] results[k]).rate() !is Undefined
            implies not_above(results[k].rate(), plot::largest_rate(results)) by {
            if k < last {
                assert(before[k].rate() !is Undefined);
                assert(not_above(before[k].rate(), top));
            }
        }
        if !(0 <= j < results.len()) {
            assert forall|k: int| 0 <= k < results.len() implies (
            #[trigger] results[k]).rate() is Undefined by {
                if k < last {
                    assert(before[k].rate() is Undefined);
                }
            }
        }
        j
    }
}

/// The thread counts under the plot stand one behind the other, each in the
/// middle of six characters or wider.
pub proof fn thread_counts_stand_one_behind_the_other(results: Seq<RunResult>)
    ensures
        plot::column_labels(results) == text::joined(
            Seq::new(
                results.len(),
                |k: int| text::centred(text::decimal(results[k].threads as nat), 6),
            ),
            Seq::<char>::empty(),
        ),
    decreases results.len(),
{
    let all = Seq::new(
        results.len(),
        |k: int| text::centred(text::decimal(results[k].threads as nat), 6),
    );
    if results.len() > 0 {
        let before = results.drop_last();
        thread_counts_stand_one_behind_the_other(before);
        assert(all.drop_last() =~= Seq::new(
            before.len(),
            |k: int| text::centred(text::decimal(before[k].threads as nat), 6),
        ));
        assert(plot::column_labels(results) =~= text::joined(all, Seq::<char>::empty()));
    }
}

} // verus!
