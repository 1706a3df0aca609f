//! The table that compares the runs of a sweep.

use vstd::prelude::*;

use crate::binary64::{self, Binary, Float};
use crate::number::{self, Figure, Number};
use crate::report::{self, fmt_whole, RunResult};
use crate::rounding;
use crate::style::Style;
use crate::text::{self, align_right, plural, to_decimal};
use crate::units::{self, fmt_scaled, pick_unit};

verus! {

/// The largest of the means; zero where there is none.
pub open spec fn largest_mean(results: Seq<RunResult>) -> Binary
    decreases results.len(),
{
    if results.len() == 0 {
        Binary { m: 0, e: 0 }
    } else {
        let before = largest_mean(results.drop_last());
        let mean = results.last().stats.mean_ns@;
        if binary64::less(before, mean) {
            mean
        } else {
            before
        }
    }
}

/// Picks a single unit for the runs, that for the largest of the means, so
/// that the columns line up.
pub fn common_unit(results: &[RunResult]) -> (unit: (u64, &'static str))
    ensures
        unit.0 == units::unit_length(largest_mean(results@)),
        unit.1@ == units::unit_label(largest_mean(results@)),
{
    let mut top = Float::zero();
    assert(results@.take(0) =~= Seq::<RunResult>::empty());
    for i in 0..results.len()
        invariant
            top@ == largest_mean(results@.take(i as int)),
    {
        assert(results@.take(i + 1).drop_last() =~= results@.take(i as int));
        if top.is_less(results[i].stats.mean_ns) {
            top = results[i].stats.mean_ns;
        }
    }
    assert(results@.take(results@.len() as int) =~= results@);
    pick_unit(top)
}

/// The throughputs of the runs.
pub open spec fn rates(results: Seq<RunResult>) -> Seq<Figure> {
    results.map_values(|r: RunResult| r.rate())
}

/// `best` is the position of the highest throughput; of several, the last.
pub open spec fn is_last_highest(rates: Seq<Figure>, best: int) -> bool {
    &&& 0 <= best < rates.len()
    &&& forall|i: int|
        0 <= i < rates.len() ==> !number::figure_less(rates[best], #[trigger] rates[i])
    &&& forall|i: int|
        best < i < rates.len() ==> number::figure_less(#[trigger] rates[i], rates[best])
}

/// The position of the highest throughput; of several, the last.
pub open spec fn best_of(rates: Seq<Figure>) -> int {
    choose|best: int| is_last_highest(rates, best)
}

/// Every run has at least one sample.
pub open spec fn all_sampled(results: Seq<RunResult>) -> bool {
    forall|i: int| 0 <= i < results.len() ==> (#[trigger] results[i]).stats.n > 0
}

/// The position of the run with the highest throughput; of several, the last.
pub fn best_index(results: &[RunResult]) -> (best: usize)
    requires
        results@.len() > 0,
        all_sampled(results@),
    ensures
        is_last_highest(rates(results@), best as int),
        best == best_of(rates(results@)),
{
    let ghost all = rates(results@);
    let mut best: usize = 0;
    let mut top: Number = results[0].throughput();
    proof {
        lemma_not_less_itself(all[0]);
    }
    for i in 1..results.len()
        invariant
            all_sampled(results@),
            all == rates(results@),
            best < i,
            i <= results@.len(),
            top@ == all[best as int],
            forall|k: int|
                0 <= k < i ==> !number::figure_less(all[best as int], #[trigger] all[k]),
            forall|k: int|
                best < k < i ==> number::figure_less(#[trigger] all[k], all[best as int]),
    {
        let rate = results[i].throughput();
        proof {
            lemma_not_less_itself(all[i as int]);
            assert forall|k: int|
                0 <= k < i && !number::figure_less(
                    all[i as int],
                    all[best as int],
                ) implies !number::figure_less(all[i as int], #[trigger] all[k]) by {
                lemma_defined(results@[i as int]);
                lemma_defined(results@[best as int]);
                lemma_defined(results@[k]);
                lemma_order(all[i as int], all[best as int], all[k]);
            }
        }
        if !rate.is_less(top) {
            best = i;
            top = rate;
        }
    }
    proof {
        assert(is_last_highest(all, best as int));
        best_run_is_unique(results@, best as int, best_of(all));
    }
    best
}

/// No figure is less than itself.
proof fn lemma_not_less_itself(x: Figure)
    ensures
        !number::figure_less(x, x),
{
}

/// A run with samples has a defined throughput.
proof fn lemma_defined(r: RunResult)
    requires
        r.stats.n > 0,
    ensures
        r.rate() !is Undefined,
{
    binary64::lemma_whole_positive(r.stats.n as nat);
}

/// What is not less than something not less than `z` is not less than `z`.
proof fn lemma_order(x: Figure, y: Figure, z: Figure)
    requires
        x !is Undefined,
        y !is Undefined,
        z !is Undefined,
        !number::figure_less(x, y),
        !number::figure_less(y, z),
    ensures
        !number::figure_less(x, z),
{
    if let (Figure::Finite(a), Figure::Finite(b)) = (x, y) {
        if let Figure::Finite(c) = z {
            binary64::lemma_less_order(a, b, c);
        }
    }
}

/// The line above the table.
pub open spec fn title_line(baseline: nat, style: Style) -> Seq<char> {
    style.bold@ + "Summary"@ + style.reset@ + " "@ + style.dim@ + "(baseline = "@
        + text::decimal(baseline) + " thread"@ + text::plural_suffix(baseline) + ")"@
        + style.reset@
}

/// The names of the columns.
pub open spec fn header_text() -> Seq<char> {
    "  "@ + text::right_aligned("Threads"@, 7) + "  "@ + text::right_aligned(
        "Mean"@,
        12,
    ) + "  "@ + text::right_aligned("StdDev"@, 12) + "  "@ + text::right_aligned(
        "Min"@,
        12,
    ) + "  "@ + text::right_aligned("Max"@, 12) + "  "@ + text::right_aligned(
        "Throughput"@,
        14,
    ) + "  "@ + text::right_aligned("Speedup"@, 9)
}

/// The line under the names of the columns, as long as they are.
pub open spec fn rule_line() -> Seq<char> {
    "  "@ + Seq::new((header_text().len() - 2) as nat, |i: int| '─')
}

/// One line of the table, in green where `best`.
pub open spec fn row_line(
    row: RunResult,
    speedup: Figure,
    div: nat,
    label: Seq<char>,
    best: bool,
    style: Style,
) -> Seq<char> {
    let on = if best {
        style.green@
    } else {
        ""@
    };
    let off = if best {
        style.reset@
    } else {
        ""@
    };
    "  "@ + on + text::right_aligned(
        text::decimal(row.threads as nat),
        7,
    ) + "  "@ + text::right_aligned(
        units::time_text(row.stats.mean_ns@, div) + " "@ + label,
        12,
    ) + "  "@ + text::right_aligned(
        units::time_text(row.stats.stddev_ns@, div) + " "@ + label,
        12,
    ) + "  "@
        + text::right_aligned(
        report::whole_text(row.stats.min_ns, div) + " "@ + label,
        12,
    ) + "  "@ + text::right_aligned(
        report::whole_text(row.stats.max_ns, div) + " "@ + label,
        12,
    ) + "  "@ + text::right_aligned(number::figure_text(row.rate(), 0) + "/s"@, 14) + "  "@
        + text::right_aligned(number::figure_text(speedup, 2), 8) + "×"@ + off
}

/// The line that names the best run.
pub open spec fn best_line(row: RunResult, style: Style) -> Seq<char> {
    "  "@ + style.bold@ + "Best throughput:"@ + style.reset@ + " "@ + style.cyan@
        + number::figure_text(row.rate(), 0) + " spawns/sec"@ + style.reset@ + " at "@
        + text::decimal(row.threads as nat) + " thread"@ + text::plural_suffix(
        row.threads as nat,
    )
}

/// The lines of the table. The speedup is that over the first run.
pub open spec fn row_lines(results: Seq<RunResult>, best: int, style: Style) -> Seq<Seq<char>> {
    let top = largest_mean(results);
    let div = units::unit_length(top) as nat;
    let label = units::unit_label(top);
    Seq::new(
        results.len(),
        |i: int|
            row_line(
                results[i],
                number::figure_ratio(results[i].rate(), results[0].rate()),
                div,
                label,
                i == best,
                style,
            ),
    )
}

/// All lines of the summary.
pub open spec fn summary_lines(results: Seq<RunResult>, style: Style) -> Seq<Seq<char>> {
    let best = best_of(rates(results));
    seq![
        ""@,
        title_line(results[0].threads as nat, style),
        style.bold@ + header_text() + style.reset@,
        rule_line(),
    ] + row_lines(results, best, style) + seq![""@, best_line(results[best], style)]
}

fn write_title(baseline: usize, style: Style) -> (s: String)
    ensures
        s@ == title_line(baseline as nat, style),
{
    let mut s = style.bold.to_owned();
    s.append("Summary");
    s.append(style.reset);
    s.append(" ");
    s.append(style.dim);
    s.append("(baseline = ");
    s.append(to_decimal(baseline as u128).as_str());
    s.append(" thread");
    s.append(plural(baseline));
    s.append(")");
    s.append(style.reset);
    s
}

fn write_header() -> (s: String)
    ensures
        s@ == header_text(),
{
    let mut s = "  ".to_owned();
    s.append(align_right("Threads", 7).as_str());
    s.append("  ");
    s.append(align_right("Mean", 12).as_str());
    s.append("  ");
    s.append(align_right("StdDev", 12).as_str());
    s.append("  ");
    s.append(align_right("Min", 12).as_str());
    s.append("  ");
    s.append(align_right("Max", 12).as_str());
    s.append("  ");
    s.append(align_right("Throughput", 14).as_str());
    s.append("  ");
    s.append(align_right("Speedup", 9).as_str());
    s
}

fn write_rule(header: &str) -> (s: String)
    requires
        header@ == header_text(),
    ensures
        s@ == rule_line(),
{
    let len: usize = header.unicode_len();
    proof {
        reveal_strlit("  ");
    }
    let mut s = "  ".to_owned();
    let ghost start = s@;
    assert(s@ =~= start + Seq::new(0, |i: int| '─'));
    for k in 2..len
        invariant
            s@ == start + Seq::new((k - 2) as nat, |i: int| '─'),
    {
        s.push('─');
        assert(s@ =~= start + Seq::new((k - 1) as nat, |i: int| '─'));
    }
    s
}

fn write_labelled(number: &str, label: &str) -> (s: String)
    ensures
        s@ == text::right_aligned(number@ + " "@ + label@, 12),
{
    let mut s = number.to_owned();
    s.append(" ");
    s.append(label);
    align_right(s.as_str(), 12)
}

fn write_row(
    row: &RunResult,
    speedup: Number,
    div: u64,
    label: &str,
    best: bool,
    style: Style,
) -> (s: String)
    requires
        row.stats.in_range(),
        div > 0,
    ensures
        s@ == row_line(*row, speedup@, div as nat, label@, best, style),
{
    let stats = row.stats;
    let mut rate = row.throughput().show(0);
    rate.append("/s");

    let mut s = "  ".to_owned();
    s.append(if best { style.green } else { "" });
    s.append(align_right(to_decimal(row.threads as u128).as_str(), 7).as_str());
    s.append("  ");
    s.append(write_labelled(fmt_scaled(stats.mean_ns, div).as_str(), label).as_str());
    s.append("  ");
    s.append(write_labelled(fmt_scaled(stats.stddev_ns, div).as_str(), label).as_str());
    s.append("  ");
    s.append(write_labelled(fmt_whole(stats.min_ns, div).as_str(), label).as_str());
    s.append("  ");
    s.append(write_labelled(fmt_whole(stats.max_ns, div).as_str(), label).as_str());
    s.append("  ");
    s.append(align_right(rate.as_str(), 14).as_str());
    s.append("  ");
    s.append(align_right(speedup.show(2).as_str(), 8).as_str());
    s.append("×");
    s.append(if best { style.reset } else { "" });
    s
}

fn write_best(row: &RunResult, style: Style) -> (s: String)
    ensures
        s@ == best_line(*row, style),
{
    let mut s = "  ".to_owned();
    s.append(style.bold);
    s.append("Best throughput:");
    s.append(style.reset);
    s.append(" ");
    s.append(style.cyan);
    s.append(row.throughput().show(0).as_str());
    s.append(" spawns/sec");
    s.append(style.reset);
    s.append(" at ");
    s.append(to_decimal(row.threads as u128).as_str());
    s.append(" thread");
    s.append(plural(row.threads));
    s
}

/// The comparison of the runs: nothing where there are none, else a table with
/// the best run in green. The first run is the baseline.
pub fn sweep_summary(results: &[RunResult], style: Style) -> (lines: Vec<String>)
    requires
        all_sampled(results@),
        forall|i: int| 0 <= i < results@.len() ==> (#[trigger] results@[i]).stats.in_range(),
    ensures
        results@.len() == 0 ==> lines@.len() == 0,
        results@.len() > 0 ==> text::views(lines@) == summary_lines(results@, style),
{
    let mut lines: Vec<String> = Vec::new();
    if results.len() == 0 {
        return lines;
    }
    let best: usize = best_index(results);
    let (div, label) = common_unit(results);
    let baseline = results[0].throughput();

    let blank = "".to_owned();
    let title = write_title(results[0].threads, style);
    let header = write_header();
    let rule = write_rule(header.as_str());
    let mut names = style.bold.to_owned();
    names.append(header.as_str());
    names.append(style.reset);
    let ghost head = seq![blank@, title@, names@, rule@];
    lines.push(blank);
    lines.push(title);
    lines.push(names);
    lines.push(rule);
    let ghost body = row_lines(results@, best as int, style);
    assert(text::views(lines@) =~= head + body.take(0));
    for i in 0..results.len()
        invariant
            forall|k: int| 0 <= k < results@.len() ==> (#[trigger] results@[k]).stats.in_range(),
            div > 0,
            div == units::unit_length(largest_mean(results@)),
            label@ == units::unit_label(largest_mean(results@)),
            baseline@ == results@[0].rate(),
            number::figure_reach(baseline@) <= 1_000,
            body == row_lines(results@, best as int, style),
            text::views(lines@) == head + body.take(i as int),
    {
        let speedup = results[i].throughput().over(baseline);
        let line = write_row(&results[i], speedup, div, label, i == best, style);
        let ghost text = line@;
        let ghost before = text::views(lines@);
        lines.push(line);
        assert(text::views(lines@) =~= before.push(text));
        assert(before.push(text) =~= head + body.take(i + 1));
    }
    assert(body.take(results@.len() as int) =~= body);
    let ghost before = text::views(lines@);
    let blank = "".to_owned();
    let last = write_best(&results[best], style);
    let ghost tail = seq![blank@, last@];
    lines.push(blank);
    lines.push(last);
    assert(text::views(lines@) =~= before + tail);
    lines
}

/// The table lines up: the rule is as long as the names of the columns, and so
/// is every row whose cells fit their columns, but for the escape sequences
/// around the best.
pub proof fn table_lines_up(
    row: RunResult,
    speedup: Figure,
    div: nat,
    label: Seq<char>,
    best: bool,
    style: Style,
)
    requires
        text::decimal(row.threads as nat).len() <= 7,
        units::time_text(row.stats.mean_ns@, div).len() + 1 + label.len() <= 12,
        units::time_text(row.stats.stddev_ns@, div).len() + 1 + label.len() <= 12,
        report::whole_text(row.stats.min_ns, div).len() + 1 + label.len() <= 12,
        report::whole_text(row.stats.max_ns, div).len() + 1 + label.len() <= 12,
        number::figure_text(row.rate(), 0).len() + 2 <= 14,
        number::figure_text(speedup, 2).len() <= 8,
    ensures
        rule_line().len() == header_text().len(),
        row_line(row, speedup, div, label, best, style).len() == header_text().len() + if best {
            style.green@.len() + style.reset@.len()
        } else {
            0
        },
{
    reveal_strlit("");
    reveal_strlit(" ");
    reveal_strlit("  ");
    reveal_strlit("/s");
    reveal_strlit("×");
    reveal_strlit("Threads");
    reveal_strlit("Mean");
    reveal_strlit("StdDev");
    reveal_strlit("Min");
    reveal_strlit("Max");
    reveal_strlit("Throughput");
    reveal_strlit("Speedup");
}

/// There is only one best run.
pub proof fn best_run_is_unique(results: Seq<RunResult>, a: int, b: int)
    requires
        is_last_highest(rates(results), a),
        is_last_highest(rates(results), b),
    ensures
        a == b,
{
    let all = rates(results);
    if a < b {
        assert(number::figure_less(all[b], all[a]));
    } else if b < a {
        assert(number::figure_less(all[a], all[b]));
    }
}

/// The first run is shown with a speedup of one, if it took any time.
pub proof fn baseline_speedup_is_one(result: RunResult)
    requires
        result.stats.n > 0,
        result.wall_ns > 0,
    ensures
        number::figure_text(
            number::figure_ratio(result.rate(), result.rate()),
            2,
        ) == "1.00"@,
{
    let n = binary64::whole(result.stats.n as nat);
    let secs = report::seconds(result.wall_ns as nat);
    binary64::lemma_whole_positive(result.stats.n as nat);
    report::lemma_seconds_positive(result.wall_ns as nat);
    let rate = binary64::quotient(n, secs);
    binary64::lemma_nearest_positive(n.m, secs.m, n.e - secs.e);
    rounding::lemma_extended(1, 1, 0, rate.m);
    assert(rate.m * 1 == rate.m);
    units::lemma_whole_shown(1);
    reveal_strlit(".00");
    reveal_strlit("1.00");
    assert(text::decimal(1) + ".00"@ =~= "1.00"@);
}

} // verus!
