//! The plot of throughput against thread counts.

use vstd::prelude::*;

use crate::axis::{self, find_line, find_value, nice_axis_max};
use crate::binary64::{self, Binary, Float};
use crate::number::{self, Figure, Number};
use crate::report::RunResult;
use crate::rounding;
use crate::style::Style;
use crate::text::{self, align_right, centre, to_decimal};

verus! {

/// The number of lines that the plot is high.
pub const HEIGHT: usize = 11;

/// The number of characters that each run takes up.
pub const COL: usize = 6;

/// The number of characters for the values on the axis.
pub const LABEL: usize = 8;

/// The largest of the throughputs; zero where there is none.
pub open spec fn largest_rate(results: Seq<RunResult>) -> Figure
    decreases results.len(),
{
    if results.len() == 0 {
        Figure::Finite(Binary { m: 0, e: 0 })
    } else {
        let before = largest_rate(results.drop_last());
        let rate = results.last().rate();
        if number::figure_less(before, rate) {
            rate
        } else {
            before
        }
    }
}

/// Where the axis of throughputs ends.
pub open spec fn axis_of(results: Seq<RunResult>) -> Figure {
    axis::axis_end(largest_rate(results))
}

/// The line of the plot that a run falls on.
pub open spec fn run_line(result: RunResult, axis: Figure) -> int {
    axis::line_of(
        number::figure_ratio(result.rate(), axis),
        (HEIGHT - 1) as nat,
    ) as int
}

/// The lines that the runs fall on.
pub open spec fn run_lines(results: Seq<RunResult>) -> Seq<usize> {
    results.map_values(|r: RunResult| run_line(r, axis_of(results)) as usize)
}

/// The columns of line `i`: a star for each run that falls on it, in the third
/// character of the run's column.
pub open spec fn grid_line(rows: Seq<usize>, i: int) -> Seq<char> {
    Seq::new(
        rows.len() * COL as nat,
        |c: int|
            if c % (COL as int) == 2 && rows[c / (COL as int)] == i {
                '*'
            } else {
                ' '
            },
    )
}

/// What stands before line `i`: the value there at the top, in the middle and
/// at the bottom, else blanks.
pub open spec fn label_text(axis: Figure, i: nat) -> Seq<char> {
    if i == 0 || i == HEIGHT - 1 || i == HEIGHT / 2 {
        text::right_aligned(
            number::figure_text(
                axis::value_at(axis, i, (HEIGHT - 1) as nat),
                0,
            ),
            LABEL as nat,
        )
    } else {
        text::blanks(LABEL as nat)
    }
}

/// Line `i` of the plot.
pub open spec fn plot_line(rows: Seq<usize>, axis: Figure, i: nat, style: Style) -> Seq<char> {
    "  "@ + style.dim@ + label_text(axis, i) + " |"@ + style.reset@ + style.cyan@ + grid_line(
        rows,
        i as int,
    ) + style.reset@
}

/// The horizontal axis.
pub open spec fn axis_line(columns: nat, style: Style) -> Seq<char> {
    "  "@ + style.dim@ + text::blanks(LABEL as nat) + " +"@ + Seq::new(
        columns * COL as nat,
        |c: int| '-',
    ) + style.reset@
}

/// The thread counts, each in the middle of its column.
pub open spec fn column_labels(results: Seq<RunResult>) -> Seq<char>
    decreases results.len(),
{
    if results.len() == 0 {
        seq![]
    } else {
        column_labels(results.drop_last()) + text::centred(
            text::decimal(results.last().threads as nat),
            COL as nat,
        )
    }
}

/// The line of thread counts.
pub open spec fn labels_line(results: Seq<RunResult>, style: Style) -> Seq<char> {
    "  "@ + text::blanks(LABEL as nat) + "  "@ + style.dim@ + column_labels(results)
        + style.reset@
}

/// The last line.
pub open spec fn caption_line(style: Style) -> Seq<char> {
    "  "@ + text::blanks(LABEL as nat) + "  "@ + style.dim@ + "threads"@ + style.reset@
}

/// The lines of the grid, from the top.
pub open spec fn grid_lines(results: Seq<RunResult>, style: Style) -> Seq<Seq<char>> {
    Seq::new(
        HEIGHT as nat,
        |i: int| plot_line(run_lines(results), axis_of(results), i as nat, style),
    )
}

/// All lines of the plot.
pub open spec fn plot_lines(results: Seq<RunResult>, style: Style) -> Seq<Seq<char>> {
    seq![""@, style.bold@ + "Throughput vs threads (spawns/sec):"@ + style.reset@] + grid_lines(
        results,
        style,
    ) + seq![axis_line(results.len(), style), labels_line(results, style), caption_line(style)]
}

fn write_grid(rows: &[usize], i: usize) -> (s: String)
    ensures
        s@ == grid_line(rows@, i as int),
{
    let mut s = String::new();
    let ghost whole = grid_line(rows@, i as int);
    assert(s@ =~= whole.take(0));
    for k in 0..rows.len()
        invariant
            whole == grid_line(rows@, i as int),
            s@ == whole.take(k * COL),
    {
        let mark: char = if rows[k] == i { '*' } else { ' ' };
        let ghost before = s@;
        s.push(' ');
        s.push(' ');
        s.push(mark);
        s.push(' ');
        s.push(' ');
        s.push(' ');
        assert(s@ =~= whole.take((k + 1) * COL)) by {
            assert(before.len() == k * COL);
            assert forall|c: int| k * COL <= c < (k + 1) * COL implies #[trigger] whole[c] == (if c
                == k * COL + 2 {
                mark
            } else {
                ' '
            }) by {
                assert(c / (COL as int) == k);
                assert(c % (COL as int) == c - k * COL);
            }
        }
    }
    assert(whole.take(rows@.len() * COL) =~= whole);
    s
}

fn write_line(rows: &[usize], axis: Number, i: usize, style: Style) -> (s: String)
    requires
        i < HEIGHT,
        number::figure_reach(axis@) <= 1_000_000,
    ensures
        s@ == plot_line(rows@, axis@, i as nat, style),
{
    let label: String;
    if i == 0 || i == HEIGHT - 1 || i == HEIGHT / 2 {
        label = align_right(find_value(axis, i, HEIGHT - 1).show(0).as_str(), LABEL);
    } else {
        label = blank_label();
    }
    let mut s = "  ".to_owned();
    s.append(style.dim);
    s.append(label.as_str());
    s.append(" |");
    s.append(style.reset);
    s.append(style.cyan);
    s.append(write_grid(rows, i).as_str());
    s.append(style.reset);
    s
}

fn blank_label() -> (s: String)
    ensures
        s@ == text::blanks(LABEL as nat),
{
    let s = align_right("", LABEL);
    proof {
        reveal_strlit("");
    }
    assert(s@ =~= text::blanks(LABEL as nat));
    s
}

fn write_axis(columns: usize, style: Style) -> (s: String)
    ensures
        s@ == axis_line(columns as nat, style),
{
    let mut s = "  ".to_owned();
    s.append(style.dim);
    s.append(blank_label().as_str());
    s.append(" +");
    let ghost start = s@;
    assert(s@ =~= start + Seq::new(0, |c: int| '-'));
    for k in 0..columns
        invariant
            s@ == start + Seq::new((k * COL) as nat, |c: int| '-'),
    {
        for j in 0..COL
            invariant
                s@ == start + Seq::new((k * COL + j) as nat, |c: int| '-'),
        {
            s.push('-');
            assert(s@ =~= start + Seq::new((k * COL + j + 1) as nat, |c: int| '-'));
        }
    }
    s.append(style.reset);
    s
}

fn write_labels(results: &[RunResult], style: Style) -> (s: String)
    ensures
        s@ == labels_line(results@, style),
{
    let mut s = "  ".to_owned();
    s.append(blank_label().as_str());
    s.append("  ");
    s.append(style.dim);
    let mut labels = String::new();
    assert(results@.take(0) =~= Seq::<RunResult>::empty());
    for k in 0..results.len()
        invariant
            labels@ == column_labels(results@.take(k as int)),
    {
        assert(results@.take(k + 1).drop_last() =~= results@.take(k as int));
        labels.append(centre(to_decimal(results[k].threads as u128).as_str(), COL).as_str());
    }
    assert(results@.take(results@.len() as int) =~= results@);
    s.append(labels.as_str());
    s.append(style.reset);
    s
}

fn write_caption(style: Style) -> (s: String)
    ensures
        s@ == caption_line(style),
{
    let mut s = "  ".to_owned();
    s.append(blank_label().as_str());
    s.append("  ");
    s.append(style.dim);
    s.append("threads");
    s.append(style.reset);
    s
}

/// Finds where the axis of throughputs ends.
fn find_axis(results: &[RunResult]) -> (axis: Number)
    ensures
        axis@ == axis_of(results@),
        number::figure_reach(axis@) <= 1_000_000,
{
    let mut top = Number::Finite(Float::zero());
    assert(results@.take(0) =~= Seq::<RunResult>::empty());
    for i in 0..results.len()
        invariant
            top@ == largest_rate(results@.take(i as int)),
            number::figure_reach(top@) <= 1_000,
    {
        assert(results@.take(i + 1).drop_last() =~= results@.take(i as int));
        let rate = results[i].throughput();
        if top.is_less(rate) {
            top = rate;
        }
    }
    assert(results@.take(results@.len() as int) =~= results@);
    nice_axis_max(top)
}

/// The plot of the throughputs of two or more runs; nothing for fewer.
pub fn throughput_plot(results: &[RunResult], style: Style) -> (lines: Vec<String>)
    ensures
        results@.len() < 2 ==> lines@.len() == 0,
        results@.len() >= 2 ==> text::views(lines@) == plot_lines(results@, style),
{
    let mut lines: Vec<String> = Vec::new();
    if results.len() < 2 {
        return lines;
    }
    let axis = find_axis(results);
    let mut rows: Vec<usize> = Vec::new();
    for i in 0..results.len()
        invariant
            axis@ == axis_of(results@),
            number::figure_reach(axis@) <= 1_000_000,
            rows@ == run_lines(results@).take(i as int),
    {
        rows.push(find_line(results[i].throughput().over(axis), HEIGHT - 1));
        assert(rows@ =~= run_lines(results@).take(i + 1));
    }
    assert(rows@ =~= run_lines(results@));

    let blank = "".to_owned();
    let mut title = style.bold.to_owned();
    title.append("Throughput vs threads (spawns/sec):");
    title.append(style.reset);
    let ghost head = seq![blank@, title@];
    lines.push(blank);
    lines.push(title);
    let ghost body = grid_lines(results@, style);
    assert(text::views(lines@) =~= head + body.take(0));
    for i in 0..HEIGHT
        invariant
            axis@ == axis_of(results@),
            number::figure_reach(axis@) <= 1_000_000,
            rows@ == run_lines(results@),
            body == grid_lines(results@, style),
            text::views(lines@) == head + body.take(i as int),
    {
        let line = write_line(rows.as_slice(), axis, i, style);
        let ghost text = line@;
        let ghost before = text::views(lines@);
        lines.push(line);
        assert(text::views(lines@) =~= before.push(text));
        assert(before.push(text) =~= head + body.take(i + 1));
    }
    assert(body.take(HEIGHT as int) =~= body);
    let ghost before = text::views(lines@);
    let foot = write_axis(results.len(), style);
    let labels = write_labels(results, style);
    let caption = write_caption(style);
    let ghost tail = seq![foot@, labels@, caption@];
    lines.push(foot);
    lines.push(labels);
    lines.push(caption);
    assert(text::views(lines@) =~= before + tail);
    lines
}

/// Every run has one star in the plot: in its column, on the line that its
/// throughput falls on and on no other.
pub proof fn each_run_has_one_star(results: Seq<RunResult>, k: int, i: int)
    requires
        0 <= k < results.len(),
        0 <= i < HEIGHT,
    ensures
        0 <= run_line(results[k], axis_of(results)) < HEIGHT,
        grid_line(run_lines(results), i)[k * COL + 2] == '*' <==> i == run_line(
            results[k],
            axis_of(results),
        ),
        forall|c: int|
            k * COL <= c < (k + 1) * COL && c != k * COL + 2 ==> #[trigger] grid_line(
                run_lines(results),
                i,
            )[c] == ' ',
{
    let rows = run_lines(results);
    assert(rows.len() == results.len());
    assert(k * COL + 2 < rows.len() * COL);
    assert((k * COL + 2) / (COL as int) == k);
    assert forall|c: int|
        k * COL <= c < (k + 1) * COL && c != k * COL + 2 implies #[trigger] grid_line(
        rows,
        i,
    )[c] == ' ' by {
        assert(c % (COL as int) == c - k * COL);
    }
}

proof fn lemma_short_decimal(n: nat)
    requires
        n < 1_000_000,
    ensures
        text::decimal(n).len() <= COL,
{
    reveal_with_fuel(text::decimal, 7);
}

/// The plot lines up: the lines of the grid are as wide as the axis, and so
/// are the thread counts below it, as long as each has at most six digits.
pub proof fn plot_lines_up(results: Seq<RunResult>, i: int)
    requires
        forall|k: int| 0 <= k < results.len() ==> (#[trigger] results[k]).threads < 1_000_000,
    ensures
        grid_line(run_lines(results), i).len() == results.len() * COL,
        column_labels(results).len() == results.len() * COL,
    decreases results.len(),
{
    if results.len() > 0 {
        let before = results.drop_last();
        assert forall|k: int| 0 <= k < before.len() implies (#[trigger] before[k]).threads
            < 1_000_000 by {
            assert(results[k].threads < 1_000_000);
        }
        plot_lines_up(before, i);
        assert(results[results.len() - 1].threads < 1_000_000);
        let d = text::decimal(results.last().threads as nat);
        lemma_short_decimal(results.last().threads as nat);
        text::alignment_fills_the_field(d, COL as nat);
    }
}

/// A run with a higher throughput never stands lower in the plot.
pub proof fn higher_throughput_is_never_lower(results: Seq<RunResult>, slow: int, fast: int)
    requires
        0 <= slow < results.len(),
        0 <= fast < results.len(),
        results[slow].rate() !is Undefined,
        results[fast].rate() !is Undefined,
        !number::figure_less(results[fast].rate(), results[slow].rate()),
    ensures
        run_line(results[fast], axis_of(results)) <= run_line(results[slow], axis_of(results)),
{
    if let (Figure::Finite(low), Figure::Finite(high)) = (
        results[slow].rate(),
        results[fast].rate(),
    ) {
        if let Figure::Finite(end) = axis_of(results) {
            if end.m > 0 {
                rounding::quotients_keep_order(low, high, end);
                axis::larger_shares_stand_higher(
                    binary64::quotient(low, end),
                    binary64::quotient(high, end),
                    (HEIGHT - 1) as nat,
                );
            }
        }
    }
}

} // verus!
