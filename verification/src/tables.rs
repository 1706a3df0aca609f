//! What the report on a run and the table of a sweep say of the runs.

use vstd::prelude::*;

use crate::binary64::{self, Binary};
use crate::decimal;
use crate::exact::{self, near, value};
use crate::figures;
use crate::number::{self, Figure};
use crate::outputs;
use crate::report::{self, RunResult};
use crate::style::Style;
use crate::summary;
use crate::text;
use crate::units;
use crate::wording;

verus! {

/// The unit for a time of `ns` nanoseconds: its length and its label.
pub open spec fn unit_for(ns: real) -> (real, Seq<char>) {
    if ns < 1_000 as real {
        (1 as real, "ns"@)
    } else if ns < 1_000_000 as real {
        (1_000 as real, "µs"@)
    } else if ns < 1_000_000_000 as real {
        (1_000_000 as real, "ms"@)
    } else {
        (1_000_000_000 as real, "s"@)
    }
}

/// A number of threads in words.
pub open spec fn threads_text(n: nat) -> Seq<char> {
    text::decimal(n) + if n == 1 {
        " thread"@
    } else {
        " threads"@
    }
}

pub(crate) proof fn lemma_threads_text(n: nat)
    ensures
        text::decimal(n) + " thread"@ + text::plural_suffix(n) == threads_text(n),
{
    wording::only_one_is_singular(n);
    assert(text::decimal(n) + " thread"@ + text::plural_suffix(n) =~= text::decimal(n) + (
    " thread"@ + text::plural_suffix(n)));
}

/// A time in a unit, of a number that need not be whole.
proof fn lemma_time(ns: Binary, typical: Binary) -> (q: Binary)
    ensures
        units::time_text(ns, units::unit_length(typical) as nat) == decimal::shown(q, 2),
        near(value(q), value(ns) / unit_for(value(typical)).0, 1 as real),
        units::unit_label(typical) == unit_for(value(typical)).1,
{
    wording::units_go_by_thousands(typical);
    wording::times_are_written_in_units(ns, units::unit_length(typical) as nat)
}

/// A time of whole nanoseconds in a unit.
proof fn lemma_whole_time(ns: u128, typical: Binary) -> (q: Binary)
    ensures
        report::whole_text(ns, units::unit_length(typical) as nat) == decimal::shown(q, 2),
        near(value(q), ns as real / unit_for(value(typical)).0, 5 as real),
{
    let a = binary64::whole(ns as nat);
    let q = lemma_time(a, typical);
    let div = unit_for(value(typical)).0;
    exact::whole_numbers_stay_near(ns as nat);
    figures::lemma_same(div, 0 as real);
    figures::lemma_ratio(value(a), ns as real, 1 as real, div, div, 0 as real);
    assert(ns as real / div >= 0 as real) by (nonlinear_arith)
        requires
            ns as real >= 0 as real,
            div > 0 as real,
    ;
    figures::lemma_through(value(q), value(a) / div, ns as real / div, 1 as real, 3 as real);
    q
}

/// The first line of the report is the mean and the standard deviation, each
/// in the unit for the mean with two places.
pub proof fn reports_start_with_the_mean_and_the_deviation(result: RunResult, style: Style) -> (q: (
    Binary,
    Binary,
))
    ensures
        ({
            let lines = report::report_lines(result, style);
            let mean = value(result.stats.mean_ns@);
            let (div, label) = unit_for(mean);
            &&& lines.len() == 5
            &&& lines[0] == "  "@ + style.bold@ + "Time (mean ± σ):"@ + style.reset@ + "     "@
                + style.green@ + text::right_aligned(decimal::shown(q.0, 2), 9) + " "@ + label
                + style.reset@ + " ± "@ + text::right_aligned(decimal::shown(q.1, 2), 8) + " "@
                + label
            &&& near(value(q.0), mean / div, 1 as real)
            &&& near(value(q.1), value(result.stats.stddev_ns@) / div, 1 as real)
        }),
{
    let mean = result.stats.mean_ns@;
    (lemma_time(mean, mean), lemma_time(result.stats.stddev_ns@, mean))
}

/// The second line of the report is the shortest and the longest time, in the
/// unit for the mean with two places, and the number of samples.
pub proof fn reports_go_on_with_the_range(result: RunResult, style: Style) -> (q: (Binary, Binary))
    ensures
        ({
            let lines = report::report_lines(result, style);
            let (div, label) = unit_for(value(result.stats.mean_ns@));
            &&& lines[1] == "  "@ + style.dim@ + "Range (min … max):"@ + style.reset@ + "   "@
                + text::right_aligned(decimal::shown(q.0, 2), 9) + " "@ + label + " … "@
                + text::right_aligned(decimal::shown(q.1, 2), 8) + " "@ + label + "    "@
                + text::decimal(result.stats.n as nat) + " runs"@
            &&& near(value(q.0), result.stats.min_ns as real / div, 5 as real)
            &&& near(value(q.1), result.stats.max_ns as real / div, 5 as real)
        }),
{
    let mean = result.stats.mean_ns@;
    let q = lemma_time(mean, mean);
    (lemma_whole_time(result.stats.min_ns, mean), lemma_whole_time(result.stats.max_ns, mean))
}

/// The third line of the report is the percentiles, each behind its name, in
/// the unit for the mean with two places.
pub proof fn reports_name_the_percentiles(result: RunResult, style: Style) -> (q: (
    Binary,
    Binary,
    Binary,
))
    ensures
        ({
            let lines = report::report_lines(result, style);
            let (div, label) = unit_for(value(result.stats.mean_ns@));
            &&& lines[2] == "  "@ + style.dim@ + "Percentiles:"@ + style.reset@
                + "         p50 "@ + decimal::shown(q.0, 2) + " "@ + label + "   p95 "@
                + decimal::shown(q.1, 2) + " "@ + label + "   p99 "@ + decimal::shown(q.2, 2)
                + " "@ + label
            &&& near(value(q.0), result.stats.p50_ns as real / div, 5 as real)
            &&& near(value(q.1), result.stats.p95_ns as real / div, 5 as real)
            &&& near(value(q.2), result.stats.p99_ns as real / div, 5 as real)
        }),
{
    let mean = result.stats.mean_ns@;
    let q = lemma_time(mean, mean);
    (
        lemma_whole_time(result.stats.p50_ns, mean),
        lemma_whole_time(result.stats.p95_ns, mean),
        lemma_whole_time(result.stats.p99_ns, mean),
    )
}

/// The report ends with a blank line and the throughput, with no places, and
/// beside it the time that the run took, in its own unit with two places, and
/// the number of threads.
pub proof fn reports_end_with_the_throughput(result: RunResult, style: Style) -> (q: Binary)
    ensures
        ({
            let lines = report::report_lines(result, style);
            let took = value(binary64::whole(result.wall_ns as nat));
            let (div, label) = unit_for(took);
            &&& lines[3].len() == 0
            &&& lines[4] == "  "@ + style.bold@ + "Throughput:"@ + style.reset@ + "         "@
                + style.cyan@ + text::right_aligned(number::figure_text(result.rate(), 0), 9)
                + style.reset@ + " spawns/sec   ("@ + (decimal::shown(q, 2) + " "@ + label)
                + " wall, "@ + threads_text(result.threads as nat) + ")"@
            &&& near(value(q), took / div, 1 as real)
        }),
{
    let took = binary64::whole(result.wall_ns as nat);
    let n = result.threads as nat;
    reveal_strlit("");
    lemma_threads_text(n);
    let q = lemma_time(took, took);
    let head = "  "@ + style.bold@ + "Throughput:"@ + style.reset@ + "         "@ + style.cyan@
        + text::right_aligned(number::figure_text(result.rate(), 0), 9) + style.reset@
        + " spawns/sec   ("@ + units::duration_text(result.wall_ns as nat) + " wall, "@;
    assert(head + text::decimal(n) + " thread"@ + text::plural_suffix(n) =~= head + (
    text::decimal(n) + " thread"@ + text::plural_suffix(n)));
    q
}

/// The largest mean is that of a run, and no run has a larger one.
pub(crate) proof fn lemma_top(results: Seq<RunResult>) -> (j: int)
    requires
        results.len() > 0,
    ensures
        0 <= j < results.len(),
        value(summary::largest_mean(results)) == value(results[j].stats.mean_ns@),
        forall|k: int|
            0 <= k < results.len() ==> value((#[trigger] results[k]).stats.mean_ns@) <= value(
                results[j].stats.mean_ns@,
            ),
    decreases results.len(),
{
    let before = results.drop_last();
    let last = results.len() - 1;
    let mean = results[last].stats.mean_ns@;
    let rest = summary::largest_mean(before);
    exact::lemma_value_sign(mean);
    exact::order_is_that_of_the_values(rest, mean);
    if before.len() == 0 {
        exact::lemma_value_sign(rest);
        last
    } else {
        let i = lemma_top(before);
        let j = if binary64::less(rest, mean) {
            last
        } else {
            i
        };
        assert forall|k: int| 0 <= k < results.len() implies value(
            (#[trigger] results[k]).stats.mean_ns@,
        ) <= value(results[j].stats.mean_ns@) by {
            if k < last {
                assert(value(before[k].stats.mean_ns@) <= value(before[i].stats.mean_ns@));
            }
        }
        j
    }
}

/// One of the runs is the last with the highest throughput.
proof fn lemma_best_exists(results: Seq<RunResult>) -> (best: int)
    requires
        results.len() > 0,
        forall|k: int| 0 <= k < results.len() ==> (#[trigger] results[k]).stats.n > 0,
    ensures
        summary::is_last_highest(summary::rates(results), best),
    decreases results.len(),
{
    let before = results.drop_last();
    let last = results.len() - 1;
    let all = summary::rates(results);
    if before.len() == 0 {
        assert(summary::is_last_highest(all, 0)) by {
            outputs::lemma_rate_defined(results[0]);
            outputs::figures_are_compared_by_their_values(all[0], all[0]);
        }
        0
    } else {
        assert forall|k: int| 0 <= k < before.len() implies (#[trigger] before[k]).stats.n > 0 by {
            assert(results[k].stats.n > 0);
        }
        let i = lemma_best_exists(before);
        assert forall|k: int| 0 <= k < last implies #[trigger] all[k] == summary::rates(
            before,
        )[k] by {}
        let best = if number::figure_less(all[last], all[i]) {
            i
        } else {
            last
        };
        assert forall|k: int| 0 <= k < all.len() implies !number::figure_less(
            all[best],
            #[trigger] all[k],
        ) && (best < k ==> number::figure_less(all[k], all[best])) by {
            outputs::lemma_rate_defined(results[k]);
            outputs::lemma_rate_defined(results[i]);
            outputs::lemma_rate_defined(results[last]);
            outputs::figures_are_compared_by_their_values(all[best], all[k]);
            outputs::figures_are_compared_by_their_values(all[k], all[best]);
            outputs::figures_are_compared_by_their_values(all[last], all[i]);
            outputs::figures_are_compared_by_their_values(all[i], all[last]);
            if k < last {
                assert(all[k] == summary::rates(before)[k]);
                outputs::figures_are_compared_by_their_values(all[i], all[k]);
                outputs::figures_are_compared_by_their_values(all[k], all[i]);
            }
        }
        best
    }
}

/// The best run, by its place: no run has a higher throughput, and every later
/// one has a lower.
pub proof fn best_run_is_the_last_of_the_fastest(results: Seq<RunResult>) -> (best: int)
    requires
        results.len() > 0,
        forall|k: int| 0 <= k < results.len() ==> (#[trigger] results[k]).stats.n > 0,
    ensures
        0 <= best < results.len(),
        best == summary::best_of(summary::rates(results)),
        forall|k: int|
            0 <= k < results.len() ==> outputs::not_above(
                (#[trigger] results[k]).rate(),
                results[best].rate(),
            ),
        forall|k: int|
            best < k < results.len() ==> !outputs::not_above(
                results[best].rate(),
                (#[trigger] results[k]).rate(),
            ),
{
    let all = summary::rates(results);
    let found = lemma_best_exists(results);
    let best = summary::best_of(all);
    assert(summary::is_last_highest(all, best));
    assert forall|k: int| 0 <= k < results.len() implies outputs::not_above(
        (#[trigger] results[k]).rate(),
        results[best].rate(),
    ) && (best < k ==> !outputs::not_above(results[best].rate(), results[k].rate())) by {
        outputs::lemma_rate_defined(results[k]);
        outputs::lemma_rate_defined(results[best]);
        assert(all[k] == results[k].rate());
        assert(all[best] == results[best].rate());
        outputs::figures_are_compared_by_their_values(all[best], all[k]);
        outputs::figures_are_compared_by_their_values(all[k], all[best]);
    }
    best
}

/// What stands around the rows of the table: a blank line, the title with the
/// thread count of the first run, the names of the columns and a rule below
/// them, and after the rows a blank line and the thread count and throughput of
/// the best run.
pub proof fn tables_name_the_baseline_and_the_best(results: Seq<RunResult>, style: Style) -> (best:
    int)
    requires
        results.len() > 0,
        forall|k: int| 0 <= k < results.len() ==> (#[trigger] results[k]).stats.n > 0,
    ensures
        ({
            let lines = summary::summary_lines(results, style);
            let n = results.len() as int;
            &&& 0 <= best < n
            &&& forall|k: int|
                0 <= k < n ==> outputs::not_above(
                    (#[trigger] results[k]).rate(),
                    results[best].rate(),
                )
            &&& forall|k: int|
                best < k < n ==> !outputs::not_above(
                    results[best].rate(),
                    (#[trigger] results[k]).rate(),
                )
            &&& lines.len() == n + 6
            &&& lines[0].len() == 0
            &&& lines[1] == style.bold@ + "Summary"@ + style.reset@ + " "@ + style.dim@
                + "(baseline = "@ + threads_text(results[0].threads as nat) + ")"@ + style.reset@
            &&& lines[2] == style.bold@
                + "  Threads          Mean        StdDev           Min           Max      Throughput    Speedup"@
                + style.reset@
            &&& lines[3] == "  "@ + Seq::new(90, |c: int| '─')
            &&& lines[n + 4].len() == 0
            &&& lines[n + 5] == "  "@ + style.bold@ + "Best throughput:"@ + style.reset@ + " "@
                + style.cyan@ + number::figure_text(results[best].rate(), 0) + " spawns/sec"@
                + style.reset@ + " at "@ + threads_text(results[best].threads as nat)
        }),
{
    let lines = summary::summary_lines(results, style);
    let n = results.len() as int;
    let best = best_run_is_the_last_of_the_fastest(results);
    let low = results[0].threads as nat;
    let high = results[best].threads as nat;
    reveal_strlit("");
    lemma_threads_text(low);
    lemma_threads_text(high);
    let head = style.bold@ + "Summary"@ + style.reset@ + " "@ + style.dim@ + "(baseline = "@;
    assert(head + text::decimal(low) + " thread"@ + text::plural_suffix(low) =~= head + (
    text::decimal(low) + " thread"@ + text::plural_suffix(low)));
    let lead = "  "@ + style.bold@ + "Best throughput:"@ + style.reset@ + " "@ + style.cyan@
        + number::figure_text(results[best].rate(), 0) + " spawns/sec"@ + style.reset@ + " at "@;
    assert(lead + text::decimal(high) + " thread"@ + text::plural_suffix(high) =~= lead + (
    text::decimal(high) + " thread"@ + text::plural_suffix(high)));
    lemma_header();
    best
}

/// The names of the columns, written out.
proof fn lemma_header()
    ensures
        summary::header_text()
            == "  Threads          Mean        StdDev           Min           Max      Throughput    Speedup"@,
        summary::header_text().len() == 92,
{
    reveal_strlit("  ");
    reveal_strlit("Threads");
    reveal_strlit("Mean");
    reveal_strlit("StdDev");
    reveal_strlit("Min");
    reveal_strlit("Max");
    reveal_strlit("Throughput");
    reveal_strlit("Speedup");
    reveal_strlit(
        "  Threads          Mean        StdDev           Min           Max      Throughput    Speedup",
    );
    assert(summary::header_text()
        =~= "  Threads          Mean        StdDev           Min           Max      Throughput    Speedup"@);
}

/// The speedup of one run over another, whatever their numbers of threads.
proof fn lemma_speedup(fast: RunResult, slow: RunResult)
    requires
        fast.stats.n > 0,
        slow.stats.n > 0,
    ensures
        ({
            let speedup = number::figure_ratio(fast.rate(), slow.rate());
            &&& fast.wall_ns > 0 && slow.wall_ns > 0 ==> (speedup matches Figure::Finite(x) && near(
                value(x),
                figures::times_as_fast(fast, slow),
                20 as real,
            ))
            &&& fast.wall_ns == 0 && slow.wall_ns > 0 ==> speedup is Infinite
            &&& fast.wall_ns > 0 && slow.wall_ns == 0 ==> (speedup matches Figure::Finite(x)
                && value(x) == 0 as real)
            &&& fast.wall_ns == 0 && slow.wall_ns == 0 ==> speedup is Undefined
        }),
{
    outputs::lemma_rate_defined(fast);
    outputs::lemma_rate_defined(slow);
    exact::lemma_value_sign(Binary { m: 0, e: 0 });
    if fast.wall_ns > 0 && slow.wall_ns > 0 {
        figures::speedup_is_the_quotient_of_throughputs(fast, slow);
    }
}

/// A row of the table: under each name of a column stands the value of the run
/// of that row. The times are in one unit, that for the largest mean of all the
/// runs, with two places. The throughput has no places. The last cell is the
/// throughput of the run over that of the first run, with two places, whatever
/// the thread counts; in the first row it is `1.00` if the run took any time.
/// Only the row of the best run is in green.
pub proof fn table_rows_show_the_runs(results: Seq<RunResult>, style: Style, i: int) -> (found: (
    int,
    int,
    (Binary, Binary, Binary, Binary),
    Figure,
))
    requires
        0 <= i < results.len(),
        forall|k: int| 0 <= k < results.len() ==> (#[trigger] results[k]).stats.n > 0,
    ensures
        ({
            let lines = summary::summary_lines(results, style);
            let (best, slowest, q, speedup) = found;
            let run = results[i];
            let first = results[0];
            let (div, label) = unit_for(value(results[slowest].stats.mean_ns@));
            &&& 0 <= best < results.len()
            &&& forall|k: int|
                0 <= k < results.len() ==> outputs::not_above(
                    (#[trigger] results[k]).rate(),
                    results[best].rate(),
                )
            &&& forall|k: int|
                best < k < results.len() ==> !outputs::not_above(
                    results[best].rate(),
                    (#[trigger] results[k]).rate(),
                )
            &&& 0 <= slowest < results.len()
            &&& forall|k: int|
                0 <= k < results.len() ==> value((#[trigger] results[k]).stats.mean_ns@) <= value(
                    results[slowest].stats.mean_ns@,
                )
            &&& lines[4 + i] == "  "@ + (if i == best {
                style.green@
            } else {
                ""@
            }) + text::right_aligned(text::decimal(run.threads as nat), 7) + "  "@
                + text::right_aligned(
                decimal::shown(q.0, 2) + " "@ + label,
                12,
            ) + "  "@ + text::right_aligned(
                decimal::shown(q.1, 2) + " "@ + label,
                12,
            ) + "  "@ + text::right_aligned(
                decimal::shown(q.2, 2) + " "@ + label,
                12,
            ) + "  "@ + text::right_aligned(
                decimal::shown(q.3, 2) + " "@ + label,
                12,
            ) + "  "@ + text::right_aligned(number::figure_text(run.rate(), 0) + "/s"@, 14)
                + "  "@ + text::right_aligned(number::figure_text(speedup, 2), 8) + "×"@ + (if i
                == best {
                style.reset@
            } else {
                ""@
            })
            &&& near(value(q.0), value(run.stats.mean_ns@) / div, 1 as real)
            &&& near(value(q.1), value(run.stats.stddev_ns@) / div, 1 as real)
            &&& near(value(q.2), run.stats.min_ns as real / div, 5 as real)
            &&& near(value(q.3), run.stats.max_ns as real / div, 5 as real)
            &&& speedup == number::figure_ratio(run.rate(), first.rate())
            &&& run.wall_ns > 0 && first.wall_ns > 0 ==> (speedup matches Figure::Finite(x) && near(
                value(x),
                (run.stats.n as real / run.wall_ns as real) / (first.stats.n as real
                    / first.wall_ns as real),
                20 as real,
            ))
            &&& run.wall_ns == 0 && first.wall_ns > 0 ==> speedup is Infinite
            &&& run.wall_ns > 0 && first.wall_ns == 0 ==> (speedup matches Figure::Finite(x)
                && value(x) == 0 as real)
            &&& run.wall_ns == 0 && first.wall_ns == 0 ==> speedup is Undefined
            &&& i == 0 && first.wall_ns > 0 ==> number::figure_text(speedup, 2) == "1.00"@
        }),
{
    let run = results[i];
    let first = results[0];
    let top = summary::largest_mean(results);
    let best = best_run_is_the_last_of_the_fastest(results);
    let slowest = lemma_top(results);
    let q = (
        lemma_time(run.stats.mean_ns@, top),
        lemma_time(run.stats.stddev_ns@, top),
        lemma_whole_time(run.stats.min_ns, top),
        lemma_whole_time(run.stats.max_ns, top),
    );
    let speedup = number::figure_ratio(run.rate(), first.rate());
    lemma_speedup(run, first);
    if i == 0 && first.wall_ns > 0 {
        summary::baseline_speedup_is_one(first);
    }
    assert(summary::summary_lines(results, style)[4 + i] == summary::row_lines(
        results,
        best,
        style,
    )[i]);
    (best, slowest, q, speedup)
}

} // verus!
