//! The result of a run, the report on it, and CSV.

use vstd::prelude::*;

use crate::binary64::{self, Binary, Float};
use crate::decimal::{self, show};
use crate::number::{self, Figure, Number};
use crate::order::{self, sorted};
use crate::scan;
use crate::stats::Stats;
use crate::style::Style;
use crate::text::{self, align_right, plural, to_decimal};
use crate::units::{self, fmt_dur, fmt_scaled, pick_unit};

verus! {

/// One run of the benchmark.
#[derive(Clone, Copy, Debug)]
pub struct RunResult {
    pub threads: usize,
    pub stats: Stats,
    pub wall_ns: u128,
}

/// The result of a run on `threads` threads that took `wall_ns` nanoseconds,
/// from the samples of all of its threads in any order.
pub fn finish_run(threads: usize, samples: &[u128], wall_ns: u128) -> (result: RunResult)
    requires
        samples@.len() > 0,
    ensures
        result.threads == threads,
        result.wall_ns == wall_ns,
        exists|s: Seq<u128>| #[trigger]
            order::is_sorted_from(s, samples@) && result.stats.of(s),
        result.stats.n == samples@.len(),
        result.stats.in_range(),
{
    let all = sorted(samples);
    proof {
        all@.to_multiset_ensures();
        samples@.to_multiset_ensures();
    }
    let result = RunResult { threads, stats: Stats::from_sorted(all.as_slice()), wall_ns };
    assert(order::is_sorted_from(all@, samples@) && result.stats.of(all@));
    result
}

/// `ns` nanoseconds in seconds: the whole seconds and the rest of a second are
/// rounded apart and then added.
pub open spec fn seconds(ns: nat) -> Binary {
    binary64::sum(
        binary64::whole(ns / 1_000_000_000),
        binary64::quotient(
            binary64::whole(ns % 1_000_000_000),
            binary64::whole(1_000_000_000),
        ),
    )
}

/// Converts nanoseconds to seconds.
pub fn to_seconds(ns: u128) -> (secs: Float)
    ensures
        secs@ == seconds(ns as nat),
        binary64::reach(secs@) <= 600,
{
    let billion = Float::from_whole(1_000_000_000);
    proof {
        binary64::lemma_whole_positive(1_000_000_000);
    }
    let rest = Float::from_whole(ns % 1_000_000_000).over(billion);
    Float::from_whole(ns / 1_000_000_000).plus(rest)
}

impl RunResult {
    /// Samples per second of wall-clock time.
    pub open spec fn rate(self) -> Figure {
        number::ratio(
            binary64::whole(self.stats.n as nat),
            seconds(self.wall_ns as nat),
        )
    }

    /// Samples per second of wall-clock time.
    pub fn throughput(&self) -> (r: Number)
        ensures
            r@ == self.rate(),
            number::figure_reach(r@) <= 1_000,
    {
        Number::ratio_of(Float::from_whole(self.stats.n as u128), to_seconds(self.wall_ns))
    }
}

/// A time other than zero is not rounded to zero seconds.
pub(crate) proof fn lemma_seconds_positive(ns: nat)
    requires
        ns > 0,
    ensures
        seconds(ns).m != 0,
{
    let a = binary64::whole(ns / 1_000_000_000);
    let r = binary64::whole(ns % 1_000_000_000);
    let d = binary64::whole(1_000_000_000);
    binary64::lemma_whole_positive(1_000_000_000);
    if ns / 1_000_000_000 > 0 {
        binary64::lemma_whole_positive(ns / 1_000_000_000);
    } else {
        binary64::lemma_whole_positive(ns % 1_000_000_000);
        binary64::lemma_nearest_positive(r.m, d.m, r.e - d.e);
    }
    let b = binary64::quotient(r, d);
    let e = binary64::common_exponent(a, b);
    let x = binary64::at_exponent(a, e);
    let y = binary64::at_exponent(b, e);
    binary64::lemma_two_to_grows(0, (a.e - e) as nat);
    binary64::lemma_two_to_grows(0, (b.e - e) as nat);
    assert(a.m > 0 ==> x > 0) by (nonlinear_arith)
        requires
            x == a.m * binary64::two_to((a.e - e) as nat),
            binary64::two_to((a.e - e) as nat) >= 1,
    ;
    assert(b.m > 0 ==> y > 0) by (nonlinear_arith)
        requires
            y == b.m * binary64::two_to((b.e - e) as nat),
            binary64::two_to((b.e - e) as nat) >= 1,
    ;
    binary64::lemma_nearest_positive(x + y, 1, e);
}

/// No time is no seconds.
pub(crate) proof fn lemma_no_seconds()
    ensures
        seconds(0).m == 0,
{
    let d = binary64::whole(1_000_000_000);
    let zero = binary64::whole(0);
    assert(zero.m == 0 && zero.e == 0);
    assert(binary64::quotient(zero, d).m == 0 && binary64::quotient(zero, d).e == 0);
    assert(0 * binary64::two_to(0) == 0);
}

/// A time of whole nanoseconds in units of `div` nanoseconds.
pub open spec fn whole_text(ns: u128, div: nat) -> Seq<char> {
    units::time_text(binary64::whole(ns as nat), div)
}

/// The line with the mean and the standard deviation.
pub open spec fn time_line(stats: Stats, div: nat, label: Seq<char>, style: Style) -> Seq<char> {
    "  "@ + style.bold@ + "Time (mean ± σ):"@ + style.reset@ + "     "@ + style.green@
        + text::right_aligned(units::time_text(stats.mean_ns@, div), 9) + " "@ + label
        + style.reset@ + " ± "@ + text::right_aligned(
        units::time_text(stats.stddev_ns@, div),
        8,
    ) + " "@ + label
}

/// The line with the shortest and the longest time.
pub open spec fn range_line(stats: Stats, div: nat, label: Seq<char>, style: Style) -> Seq<char> {
    "  "@ + style.dim@ + "Range (min … max):"@ + style.reset@ + "   "@
        + text::right_aligned(whole_text(stats.min_ns, div), 9)
        + " "@ + label + " … "@ + text::right_aligned(
        whole_text(stats.max_ns, div),
        8,
    ) + " "@ + label + "    "@ + text::decimal(stats.n as nat) + " runs"@
}

/// The line with the percentiles.
pub open spec fn percentile_line(
    stats: Stats,
    div: nat,
    label: Seq<char>,
    style: Style,
) -> Seq<char> {
    "  "@ + style.dim@ + "Percentiles:"@ + style.reset@ + "         p50 "@
        + whole_text(stats.p50_ns, div) + " "@ + label + "   p95 "@
        + whole_text(stats.p95_ns, div) + " "@ + label + "   p99 "@
        + whole_text(stats.p99_ns, div) + " "@ + label
}

/// The line with the throughput.
pub open spec fn throughput_line(result: RunResult, style: Style) -> Seq<char> {
    "  "@ + style.bold@ + "Throughput:"@ + style.reset@ + "         "@ + style.cyan@
        + text::right_aligned(number::figure_text(result.rate(), 0), 9) + style.reset@
        + " spawns/sec   ("@
        + units::duration_text(result.wall_ns as nat) + " wall, "@ + text::decimal(
        result.threads as nat,
    ) + " thread"@ + text::plural_suffix(result.threads as nat) + ")"@
}

/// Writes a time of whole nanoseconds in units of `div` nanoseconds.
pub(crate) fn fmt_whole(ns: u128, div: u64) -> (s: String)
    requires
        div > 0,
    ensures
        s@ == whole_text(ns, div as nat),
{
    fmt_scaled(Float::from_whole(ns), div)
}

fn write_time(stats: Stats, div: u64, label: &str, style: Style) -> (s: String)
    requires
        stats.in_range(),
        div > 0,
    ensures
        s@ == time_line(stats, div as nat, label@, style),
{
    let mut s = "  ".to_owned();
    s.append(style.bold);
    s.append("Time (mean ± σ):");
    s.append(style.reset);
    s.append("     ");
    s.append(style.green);
    s.append(align_right(fmt_scaled(stats.mean_ns, div).as_str(), 9).as_str());
    s.append(" ");
    s.append(label);
    s.append(style.reset);
    s.append(" ± ");
    s.append(align_right(fmt_scaled(stats.stddev_ns, div).as_str(), 8).as_str());
    s.append(" ");
    s.append(label);
    s
}

fn write_range(stats: Stats, div: u64, label: &str, style: Style) -> (s: String)
    requires
        div > 0,
    ensures
        s@ == range_line(stats, div as nat, label@, style),
{
    let mut s = "  ".to_owned();
    s.append(style.dim);
    s.append("Range (min … max):");
    s.append(style.reset);
    s.append("   ");
    s.append(align_right(fmt_whole(stats.min_ns, div).as_str(), 9).as_str());
    s.append(" ");
    s.append(label);
    s.append(" … ");
    s.append(align_right(fmt_whole(stats.max_ns, div).as_str(), 8).as_str());
    s.append(" ");
    s.append(label);
    s.append("    ");
    s.append(to_decimal(stats.n as u128).as_str());
    s.append(" runs");
    s
}

fn write_percentiles(stats: Stats, div: u64, label: &str, style: Style) -> (s: String)
    requires
        div > 0,
    ensures
        s@ == percentile_line(stats, div as nat, label@, style),
{
    let mut s = "  ".to_owned();
    s.append(style.dim);
    s.append("Percentiles:");
    s.append(style.reset);
    s.append("         p50 ");
    s.append(fmt_whole(stats.p50_ns, div).as_str());
    s.append(" ");
    s.append(label);
    s.append("   p95 ");
    s.append(fmt_whole(stats.p95_ns, div).as_str());
    s.append(" ");
    s.append(label);
    s.append("   p99 ");
    s.append(fmt_whole(stats.p99_ns, div).as_str());
    s.append(" ");
    s.append(label);
    s
}

fn write_throughput(result: &RunResult, style: Style) -> (s: String)
    ensures
        s@ == throughput_line(*result, style),
{
    let mut s = "  ".to_owned();
    s.append(style.bold);
    s.append("Throughput:");
    s.append(style.reset);
    s.append("         ");
    s.append(style.cyan);
    s.append(align_right(result.throughput().show(0).as_str(), 9).as_str());
    s.append(style.reset);
    s.append(" spawns/sec   (");
    s.append(fmt_dur(result.wall_ns).as_str());
    s.append(" wall, ");
    s.append(to_decimal(result.threads as u128).as_str());
    s.append(" thread");
    s.append(plural(result.threads));
    s.append(")");
    s
}

/// The lines of the report on one run, in the unit for its mean.
pub open spec fn report_lines(result: RunResult, style: Style) -> Seq<Seq<char>> {
    let div = units::unit_length(result.stats.mean_ns@) as nat;
    let label = units::unit_label(result.stats.mean_ns@);
    seq![
        time_line(result.stats, div, label, style),
        range_line(result.stats, div, label, style),
        percentile_line(result.stats, div, label, style),
        ""@,
        throughput_line(result, style),
    ]
}

/// The report on one run.
pub fn run_report(result: &RunResult, style: Style) -> (lines: Vec<String>)
    requires
        result.stats.in_range(),
    ensures
        text::views(lines@) == report_lines(*result, style),
{
    let (div, label) = pick_unit(result.stats.mean_ns);
    let time = write_time(result.stats, div, label, style);
    let range = write_range(result.stats, div, label, style);
    let percentiles = write_percentiles(result.stats, div, label, style);
    let blank = "".to_owned();
    let rate = write_throughput(result, style);
    let ghost expected = seq![time@, range@, percentiles@, blank@, rate@];
    let mut lines: Vec<String> = Vec::new();
    lines.push(time);
    lines.push(range);
    lines.push(percentiles);
    lines.push(blank);
    lines.push(rate);
    assert(text::views(lines@) =~= expected);
    lines
}

/// The lines after a run; none where the output is CSV.
pub fn run_outcome(csv: bool, result: &RunResult, style: Style) -> (lines: Vec<String>)
    requires
        result.stats.in_range(),
    ensures
        text::views(lines@) == (if csv {
            seq![]
        } else {
            report_lines(*result, style)
        }),
{
    if csv {
        let lines: Vec<String> = Vec::new();
        assert(text::views(lines@) =~= seq![]);
        lines
    } else {
        run_report(result, style)
    }
}

/// The first line of the CSV.
pub open spec fn csv_header_text() -> Seq<char> {
    "threads,samples,mean_ns,stddev_ns,min_ns,max_ns,p50_ns,p95_ns,p99_ns,throughput_per_sec,wall_secs"@
}

/// The first line of the CSV.
pub fn csv_header() -> (s: &'static str)
    ensures
        s@ == csv_header_text(),
{
    "threads,samples,mean_ns,stddev_ns,min_ns,max_ns,p50_ns,p95_ns,p99_ns,throughput_per_sec,wall_secs"
}

/// A time of whole nanoseconds with three places.
pub open spec fn thousandths_text(ns: u128) -> Seq<char> {
    decimal::shown(binary64::whole(ns as nat), 3)
}

/// The cells of the line of the CSV for one run.
pub open spec fn csv_cells(result: RunResult) -> Seq<Seq<char>> {
    seq![
        text::decimal(result.threads as nat),
        text::decimal(result.stats.n as nat),
        decimal::shown(result.stats.mean_ns@, 3),
        decimal::shown(result.stats.stddev_ns@, 3),
        thousandths_text(result.stats.min_ns),
        thousandths_text(result.stats.max_ns),
        thousandths_text(result.stats.p50_ns),
        thousandths_text(result.stats.p95_ns),
        thousandths_text(result.stats.p99_ns),
        number::figure_text(result.rate(), 3),
        decimal::shown(seconds(result.wall_ns as nat), 6),
    ]
}

/// The line of the CSV for one run.
pub open spec fn csv_line(result: RunResult) -> Seq<char> {
    text::joined(csv_cells(result), ","@)
}

/// Writes a time of whole nanoseconds with three places.
fn fmt_thousandths(ns: u128) -> (s: String)
    ensures
        s@ == thousandths_text(ns),
{
    show(Float::from_whole(ns), 3)
}

/// The line of the CSV for one run.
pub fn csv_row(result: &RunResult) -> (s: String)
    ensures
        s@ == csv_line(*result),
{
    let stats = result.stats;
    let mut cells: Vec<String> = Vec::new();
    cells.push(to_decimal(result.threads as u128));
    cells.push(to_decimal(stats.n as u128));
    cells.push(show(stats.mean_ns, 3));
    cells.push(show(stats.stddev_ns, 3));
    cells.push(fmt_thousandths(stats.min_ns));
    cells.push(fmt_thousandths(stats.max_ns));
    cells.push(fmt_thousandths(stats.p50_ns));
    cells.push(fmt_thousandths(stats.p95_ns));
    cells.push(fmt_thousandths(stats.p99_ns));
    cells.push(result.throughput().show(3));
    cells.push(show(to_seconds(result.wall_ns), 6));
    assert(text::views(cells@) =~= csv_cells(*result));
    text::join(cells.as_slice(), ",")
}

/// The names of the columns of the CSV.
pub open spec fn csv_columns() -> Seq<Seq<char>> {
    seq![
        "threads"@,
        "samples"@,
        "mean_ns"@,
        "stddev_ns"@,
        "min_ns"@,
        "max_ns"@,
        "p50_ns"@,
        "p95_ns"@,
        "p99_ns"@,
        "throughput_per_sec"@,
        "wall_secs"@,
    ]
}

/// A figure with places holds no comma.
proof fn lemma_figure_plain(x: Figure, places: nat)
    ensures
        !number::figure_text(x, places).contains(','),
{
    reveal_strlit("inf");
    reveal_strlit("NaN");
    match x {
        Figure::Finite(a) => {
            decimal::lemma_shown_plain(a, places);
        },
        _ => {},
    }
}

/// Splitting a line of the CSV at its commas gives back the cells, as many as
/// there are columns.
pub proof fn csv_lines_split_into_cells(result: RunResult)
    ensures
        scan::pieces(csv_line(result), ',') == csv_cells(result),
        csv_cells(result).len() == csv_columns().len(),
{
    let cells = csv_cells(result);
    reveal_strlit(",");
    assert(","@ =~= seq![',']);
    let stats = result.stats;
    scan::lemma_decimal_plain(result.threads as nat);
    scan::lemma_decimal_plain(stats.n as nat);
    decimal::lemma_shown_plain(stats.mean_ns@, 3);
    decimal::lemma_shown_plain(stats.stddev_ns@, 3);
    decimal::lemma_shown_plain(binary64::whole(stats.min_ns as nat), 3);
    decimal::lemma_shown_plain(binary64::whole(stats.max_ns as nat), 3);
    decimal::lemma_shown_plain(binary64::whole(stats.p50_ns as nat), 3);
    decimal::lemma_shown_plain(binary64::whole(stats.p95_ns as nat), 3);
    decimal::lemma_shown_plain(binary64::whole(stats.p99_ns as nat), 3);
    lemma_figure_plain(result.rate(), 3);
    decimal::lemma_shown_plain(seconds(result.wall_ns as nat), 6);
    assert forall|i: int| 0 <= i < cells.len() implies !(#[trigger] cells[i]).contains(',') by {}
    scan::splitting_undoes_joining(cells, ',');
}

/// Splitting the first line of the CSV at its commas gives the names of the
/// columns.
pub proof fn csv_header_splits_into_columns()
    ensures
        scan::pieces(csv_header_text(), ',') == csv_columns(),
{
    reveal_strlit(",");
    reveal_strlit("threads");
    reveal_strlit("samples");
    reveal_strlit("mean_ns");
    reveal_strlit("stddev_ns");
    reveal_strlit("min_ns");
    reveal_strlit("max_ns");
    reveal_strlit("p50_ns");
    reveal_strlit("p95_ns");
    reveal_strlit("p99_ns");
    reveal_strlit("throughput_per_sec");
    reveal_strlit("wall_secs");
    reveal_strlit(
        "threads,samples,mean_ns,stddev_ns,min_ns,max_ns,p50_ns,p95_ns,p99_ns,throughput_per_sec,wall_secs",
    );
    assert(","@ =~= seq![',']);
    let names = csv_columns();
    assert forall|i: int| 0 <= i < names.len() implies !(#[trigger] names[i]).contains(',') by {}
    scan::splitting_undoes_joining(names, ',');
    lemma_join_steps(names);
    assert(text::joined(names, seq![',']) =~= csv_header_text());
}

/// Eleven parts joined, written out.
proof fn lemma_join_steps(p: Seq<Seq<char>>)
    requires
        p.len() == 11,
    ensures
        text::joined(p, seq![',']) == p[0] + seq![','] + p[1] + seq![','] + p[2] + seq![',']
            + p[3] + seq![','] + p[4] + seq![','] + p[5] + seq![','] + p[6] + seq![','] + p[7]
            + seq![','] + p[8] + seq![','] + p[9] + seq![','] + p[10],
{
    assert forall|k: int| 1 < k <= 11 implies #[trigger] p.take(k).drop_last() == p.take(k - 1) by {
        assert(p.take(k).drop_last() =~= p.take(k - 1));
    }
    assert(p.take(11) =~= p);
    reveal_with_fuel(text::joined, 12);
    assert(p.take(2).drop_last() == p.take(1));
    assert(p.take(3).drop_last() == p.take(2));
    assert(p.take(4).drop_last() == p.take(3));
    assert(p.take(5).drop_last() == p.take(4));
    assert(p.take(6).drop_last() == p.take(5));
    assert(p.take(7).drop_last() == p.take(6));
    assert(p.take(8).drop_last() == p.take(7));
    assert(p.take(9).drop_last() == p.take(8));
    assert(p.take(10).drop_last() == p.take(9));
    assert(p.take(11).drop_last() == p.take(10));
}

} // verus!
