//! What is printed when all runs are done.

use vstd::prelude::*;

use crate::plot::{self, throughput_plot};
use crate::report::{self, csv_header, csv_row, RunResult};
use crate::scan;
use crate::style::Style;
use crate::summary::{self, sweep_summary};
use crate::text;

verus! {

/// The lines of the CSV: the names of the columns, and one for each run.
pub open spec fn csv_text(results: Seq<RunResult>) -> Seq<Seq<char>> {
    seq![report::csv_header_text()] + results.map_values(
        |r: RunResult| report::csv_line(r),
    )
}

/// All runs as CSV.
pub fn csv_lines(results: &[RunResult]) -> (lines: Vec<String>)
    ensures
        text::views(lines@) == csv_text(results@),
{
    let header = csv_header().to_owned();
    let ghost head = seq![header@];
    let mut lines: Vec<String> = Vec::new();
    lines.push(header);
    let ghost body = results@.map_values(|r: RunResult| report::csv_line(r));
    assert(text::views(lines@) =~= head + body.take(0));
    for i in 0..results.len()
        invariant
            body == results@.map_values(|r: RunResult| report::csv_line(r)),
            text::views(lines@) == head + body.take(i as int),
    {
        let line = csv_row(&results[i]);
        let ghost text = line@;
        let ghost before = text::views(lines@);
        lines.push(line);
        assert(text::views(lines@) =~= before.push(text));
        assert(before.push(text) =~= head + body.take(i + 1));
    }
    assert(body.take(results@.len() as int) =~= body);
    lines
}

/// The plot, of two or more runs.
pub open spec fn plot_text(results: Seq<RunResult>, style: Style) -> Seq<Seq<char>> {
    if results.len() > 1 {
        plot::plot_lines(results, style)
    } else {
        seq![]
    }
}

/// What is printed at the end: all runs as CSV where that was asked for, else
/// in a sweep the comparison of the runs, with a plot of two or more.
pub open spec fn closing_text(
    csv: bool,
    sweep: bool,
    results: Seq<RunResult>,
    style: Style,
) -> Seq<Seq<char>> {
    if csv {
        csv_text(results)
    } else if sweep && results.len() > 0 {
        summary::summary_lines(results, style) + plot_text(results, style)
    } else {
        seq![]
    }
}

/// The lines to print at the end.
pub fn closing_lines(csv: bool, sweep: bool, results: &[RunResult], style: Style) -> (lines: Vec<
    String,
>)
    requires
        summary::all_sampled(results@),
        forall|i: int| 0 <= i < results@.len() ==> (#[trigger] results@[i]).stats.in_range(),
    ensures
        text::views(lines@) == closing_text(csv, sweep, results@, style),
{
    if csv {
        csv_lines(results)
    } else if sweep && results.len() > 0 {
        let mut lines = sweep_summary(results, style);
        let mut plot = throughput_plot(results, style);
        let ghost table = lines@;
        let ghost graph = plot@;
        assert(text::views(graph) =~= plot_text(results@, style));
        lines.append(&mut plot);
        assert(text::views(lines@) =~= text::views(table) + text::views(graph));
        lines
    } else {
        let lines: Vec<String> = Vec::new();
        assert(text::views(lines@) =~= seq![]);
        lines
    }
}

/// Every line of the CSV has a cell for each column.
pub proof fn csv_is_rectangular(results: Seq<RunResult>, i: int)
    requires
        0 <= i < csv_text(results).len(),
    ensures
        scan::pieces(csv_text(results)[i], ',').len()
            == report::csv_columns().len(),
{
    if i == 0 {
        report::csv_header_splits_into_columns();
    } else {
        report::csv_lines_split_into_cells(results[i - 1]);
    }
}

/// A sweep that is not printed as CSV ends with the table of all of its runs,
/// even where there is only one.
pub proof fn sweeps_end_with_the_table(results: Seq<RunResult>, style: Style)
    requires
        results.len() > 0,
    ensures
        summary::summary_lines(results, style).is_prefix_of(
            closing_text(false, true, results, style),
        ),
{
    let table = summary::summary_lines(results, style);
    assert(table =~= closing_text(false, true, results, style).take(table.len() as int));
}

} // verus!
