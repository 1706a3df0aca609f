//! Without colour no line holds an escape character.

use vstd::prelude::*;

use crate::binary64::{self, Binary};
use crate::closing;
use crate::decimal;
use crate::number::{self, Figure};
use crate::plan;
use crate::plot;
use crate::report::{self, RunResult};
use crate::scan;
use crate::style::Style;
use crate::summary;
use crate::text;
use crate::units;

verus! {

/// Text is free of the character that starts an escape sequence.
#[verifier::opaque]
pub open spec fn unescaped(s: Seq<char>) -> bool {
    forall|i: int| 0 <= i < s.len() ==> #[trigger] s[i] != '\u{1b}'
}

/// No line holds the character that starts an escape sequence.
pub open spec fn all_unescaped(lines: Seq<Seq<char>>) -> bool {
    forall|i: int| 0 <= i < lines.len() ==> unescaped(#[trigger] lines[i])
}

broadcast proof fn lemma_concat(a: Seq<char>, b: Seq<char>)
    ensures
        #[trigger] unescaped(a + b) <==> unescaped(a) && unescaped(b),
{
    reveal(unescaped);
    let ab = a + b;
    if unescaped(ab) {
        assert forall|i: int| 0 <= i < a.len() implies #[trigger] a[i] != '\u{1b}' by {
            assert(ab[i] != '\u{1b}');
        }
        assert forall|i: int| 0 <= i < b.len() implies #[trigger] b[i] != '\u{1b}' by {
            assert(ab[a.len() + i] != '\u{1b}');
        }
    }
}

broadcast proof fn lemma_decimal(n: nat)
    ensures
        #[trigger] unescaped(text::decimal(n)),
{
    reveal(unescaped);
    let d = text::decimal(n);
    scan::lemma_decimal_digits(n);
    assert forall|i: int| 0 <= i < d.len() implies #[trigger] d[i] != '\u{1b}' by {
        assert(scan::is_digit(d[i]));
    }
}

broadcast proof fn lemma_blanks(n: nat)
    ensures
        #[trigger] unescaped(text::blanks(n)),
{
    reveal(unescaped);
}

broadcast proof fn lemma_aligned(s: Seq<char>, width: nat)
    ensures
        #[trigger] unescaped(text::right_aligned(s, width)) <==> unescaped(s),
{
    let gap = text::shortfall(s, width);
    lemma_blanks(gap);
    lemma_concat(text::blanks(gap), s);
}

broadcast proof fn lemma_centred(s: Seq<char>, width: nat)
    ensures
        #[trigger] unescaped(text::centred(s, width)) <==> unescaped(s),
{
    let gap = text::shortfall(s, width);
    let left = text::blanks(gap / 2);
    lemma_blanks(gap / 2);
    lemma_blanks((gap - gap / 2) as nat);
    lemma_concat(left, s);
    lemma_concat(left + s, text::blanks((gap - gap / 2) as nat));
}

broadcast proof fn lemma_shown(a: Binary, places: nat)
    ensures
        #[trigger] unescaped(decimal::shown(a, places)),
{
    reveal(unescaped);
    let t = decimal::shown(a, places);
    decimal::lemma_shown_plain(a, places);
    assert forall|i: int| 0 <= i < t.len() implies #[trigger] t[i] != '\u{1b}' by {
        assert(scan::is_digit(t[i]) || t[i] == '.');
    }
}

broadcast proof fn lemma_time(ns: Binary, div: nat)
    ensures
        #[trigger] unescaped(units::time_text(ns, div)),
{
    lemma_shown(binary64::quotient(ns, binary64::whole(div)), 2);
}

broadcast proof fn lemma_figure(x: Figure, places: nat)
    ensures
        #[trigger] unescaped(number::figure_text(x, places)),
{
    match x {
        Figure::Finite(a) => {
            lemma_shown(a, places);
        },
        _ => {
            reveal(unescaped);
            reveal_strlit("inf");
            reveal_strlit("NaN");
        },
    }
}

broadcast proof fn lemma_plural(n: nat)
    ensures
        #[trigger] unescaped(text::plural_suffix(n)),
{
    reveal(unescaped);
    reveal_strlit("");
    reveal_strlit("s");
}

broadcast proof fn lemma_unit(ns: Binary)
    ensures
        #[trigger] unescaped(units::unit_label(ns)),
{
    reveal(unescaped);
    reveal_strlit("ns");
    reveal_strlit("µs");
    reveal_strlit("ms");
    reveal_strlit("s");
}

broadcast proof fn lemma_duration(ns: nat)
    ensures
        #[trigger] unescaped(units::duration_text(ns)),
{
    broadcast use {lemma_concat, lemma_time, lemma_unit};

    assert(unescaped(" "@)) by {
        reveal(unescaped);
        reveal_strlit(" ");
    }
}

broadcast group group_unescaped {
    lemma_duration,
    lemma_concat,
    lemma_decimal,
    lemma_blanks,
    lemma_aligned,
    lemma_centred,
    lemma_shown,
    lemma_time,
    lemma_figure,
    lemma_plural,
    lemma_unit,
}

proof fn lemma_run_report_literals()
    ensures
        unescaped(""@),
        unescaped(" "@),
        unescaped("  "@),
        unescaped("   "@),
        unescaped("    "@),
        unescaped("     "@),
        unescaped("         "@),
        unescaped("Time (mean ± σ):"@),
        unescaped(" ± "@),
        unescaped("Range (min … max):"@),
        unescaped(" … "@),
        unescaped(" runs"@),
        unescaped("Percentiles:"@),
        unescaped("         p50 "@),
        unescaped("   p95 "@),
        unescaped("   p99 "@),
        unescaped("Throughput:"@),
        unescaped(" spawns/sec   ("@),
        unescaped(" wall, "@),
        unescaped(" thread"@),
        unescaped(")"@),
{
    reveal(unescaped);
    reveal_strlit("");
    reveal_strlit(" ");
    reveal_strlit("  ");
    reveal_strlit("   ");
    reveal_strlit("    ");
    reveal_strlit("     ");
    reveal_strlit("         ");
    reveal_strlit("Time (mean ± σ):");
    reveal_strlit(" ± ");
    reveal_strlit("Range (min … max):");
    reveal_strlit(" … ");
    reveal_strlit(" runs");
    reveal_strlit("Percentiles:");
    reveal_strlit("         p50 ");
    reveal_strlit("   p95 ");
    reveal_strlit("   p99 ");
    reveal_strlit("Throughput:");
    reveal_strlit(" spawns/sec   (");
    reveal_strlit(" wall, ");
    reveal_strlit(" thread");
    reveal_strlit(")");
}

/// Without colour the report on a run holds no escape character.
pub proof fn plain_run_report(result: RunResult, style: Style)
    requires
        style.is_plain(),
    ensures
        all_unescaped(report::report_lines(result, style)),
{
    broadcast use group_unescaped;

    lemma_run_report_literals();
    let div = units::unit_length(result.stats.mean_ns@) as nat;
    let label = units::unit_label(result.stats.mean_ns@);
    assert(unescaped(label));
    assert(unescaped(report::time_line(result.stats, div, label, style)));
    assert(unescaped(report::range_line(result.stats, div, label, style)));
    assert(unescaped(report::percentile_line(result.stats, div, label, style)));
    assert(unescaped(report::throughput_line(result, style)));
}

proof fn lemma_headings_literals()
    ensures
        unescaped(""@),
        unescaped("Target"@),
        unescaped(": "@),
        unescaped("▶ Run "@),
        unescaped("/"@),
        unescaped(" thread"@),
        unescaped(", "@),
        unescaped("  Sweep:      "@),
        unescaped("  Threads:    "@),
        unescaped("  Iterations: "@),
        unescaped(" per thread"@),
        unescaped(" per run"@),
        unescaped("  Warmup:     "@),
{
    reveal(unescaped);
    reveal_strlit("");
    reveal_strlit("Target");
    reveal_strlit(": ");
    reveal_strlit("▶ Run ");
    reveal_strlit("/");
    reveal_strlit(" thread");
    reveal_strlit(", ");
    reveal_strlit("  Sweep:      ");
    reveal_strlit("  Threads:    ");
    reveal_strlit("  Iterations: ");
    reveal_strlit(" per thread");
    reveal_strlit(" per run");
    reveal_strlit("  Warmup:     ");
}

proof fn lemma_counts_text(counts: Seq<usize>)
    ensures
        unescaped(plan::counts_text(counts)),
    decreases counts.len(),
{
    broadcast use group_unescaped;

    lemma_headings_literals();
    let parts = plan::decimals(counts);
    if counts.len() == 0 {
        reveal(unescaped);
    } else if counts.len() > 1 {
        lemma_counts_text(counts.drop_last());
        assert(parts.drop_last() =~= plan::decimals(counts.drop_last()));
    }
}

/// Without colour the lines before the runs and above each hold no escape
/// character, if the command line holds none.
pub proof fn plain_headings(
    cmdline: Seq<char>,
    counts: Seq<usize>,
    iterations: nat,
    warmup: nat,
    index: nat,
    style: Style,
)
    requires
        style.is_plain(),
        unescaped(cmdline),
        index < counts.len(),
    ensures
        all_unescaped(plan::banner_lines(cmdline, counts, iterations, warmup, style)),
        all_unescaped(plan::intro_lines(index, counts, style)),
{
    broadcast use group_unescaped;

    lemma_headings_literals();
    lemma_counts_text(counts);
    assert(unescaped(plan::target_line(style.bold@, style.reset@, cmdline)));
    assert(unescaped(plan::counts_line(counts)));
    assert(unescaped(plan::iterations_line(iterations, counts.len() > 1)));
    assert(unescaped(plan::warmup_line(warmup)));
    assert(unescaped(
        plan::run_line(
            index,
            counts.len(),
            counts[index as int] as nat,
            style.bold@,
            style.reset@,
        ),
    ));
}

proof fn lemma_summary_literals()
    ensures
        unescaped(""@),
        unescaped(" "@),
        unescaped("  "@),
        unescaped("Summary"@),
        unescaped("(baseline = "@),
        unescaped(" thread"@),
        unescaped(")"@),
        unescaped("Threads"@),
        unescaped("Mean"@),
        unescaped("StdDev"@),
        unescaped("Min"@),
        unescaped("Max"@),
        unescaped("Throughput"@),
        unescaped("Speedup"@),
        unescaped("/s"@),
        unescaped("×"@),
        unescaped("Best throughput:"@),
        unescaped(" spawns/sec"@),
        unescaped(" at "@),
{
    reveal(unescaped);
    reveal_strlit("");
    reveal_strlit(" ");
    reveal_strlit("  ");
    reveal_strlit("Summary");
    reveal_strlit("(baseline = ");
    reveal_strlit(" thread");
    reveal_strlit(")");
    reveal_strlit("Threads");
    reveal_strlit("Mean");
    reveal_strlit("StdDev");
    reveal_strlit("Min");
    reveal_strlit("Max");
    reveal_strlit("Throughput");
    reveal_strlit("Speedup");
    reveal_strlit("/s");
    reveal_strlit("×");
    reveal_strlit("Best throughput:");
    reveal_strlit(" spawns/sec");
    reveal_strlit(" at ");
}

proof fn lemma_row(
    row: RunResult,
    speedup: Figure,
    div: nat,
    label: Seq<char>,
    best: bool,
    style: Style,
)
    requires
        style.is_plain(),
        unescaped(label),
    ensures
        unescaped(summary::row_line(row, speedup, div, label, best, style)),
{
    broadcast use group_unescaped;

    lemma_summary_literals();
}

/// Without colour the comparison of the runs holds no escape character.
pub proof fn plain_summary(results: Seq<RunResult>, style: Style)
    requires
        style.is_plain(),
    ensures
        all_unescaped(summary::summary_lines(results, style)),
{
    broadcast use group_unescaped;

    let best = summary::best_of(summary::rates(results));
    lemma_summary_literals();
    let top = summary::largest_mean(results);
    let label = units::unit_label(top);
    let div = units::unit_length(top) as nat;
    let title = summary::title_line(results[0].threads as nat, style);
    let names = style.bold@ + summary::header_text() + style.reset@;
    let rule = Seq::new((summary::header_text().len() - 2) as nat, |i: int| '─');
    assert(unescaped(rule)) by {
        reveal(unescaped);
    }
    assert(unescaped(title) && unescaped(names) && unescaped(summary::rule_line()));
    assert(unescaped(summary::best_line(results[best], style)));
    let rows = summary::row_lines(results, best, style);
    assert forall|i: int| 0 <= i < rows.len() implies unescaped(#[trigger] rows[i]) by {
        let speedup = number::figure_ratio(results[i].rate(), results[0].rate());
        lemma_row(results[i], speedup, div, label, i == best, style);
    }
}

proof fn lemma_column_labels(results: Seq<RunResult>)
    ensures
        unescaped(plot::column_labels(results)),
    decreases results.len(),
{
    broadcast use group_unescaped;

    if results.len() == 0 {
        reveal(unescaped);
    } else {
        lemma_column_labels(results.drop_last());
    }
}

proof fn lemma_plot_literals()
    ensures
        unescaped(""@),
        unescaped("  "@),
        unescaped(" |"@),
        unescaped(" +"@),
        unescaped("threads"@),
        unescaped("Throughput vs threads (spawns/sec):"@),
{
    reveal(unescaped);
    reveal_strlit("");
    reveal_strlit("  ");
    reveal_strlit(" |");
    reveal_strlit(" +");
    reveal_strlit("threads");
    reveal_strlit("Throughput vs threads (spawns/sec):");
}

proof fn lemma_grid(rows: Seq<usize>, axis: Figure, i: nat, style: Style)
    requires
        style.is_plain(),
    ensures
        unescaped(plot::plot_line(rows, axis, i, style)),
{
    broadcast use group_unescaped;

    lemma_plot_literals();
    assert(unescaped(plot::grid_line(rows, i as int))) by {
        reveal(unescaped);
    }
}

/// Without colour the plot holds no escape character.
pub proof fn plain_plot(results: Seq<RunResult>, style: Style)
    requires
        style.is_plain(),
    ensures
        all_unescaped(plot::plot_lines(results, style)),
{
    broadcast use group_unescaped;

    lemma_plot_literals();
    lemma_column_labels(results);
    let title = style.bold@ + "Throughput vs threads (spawns/sec):"@ + style.reset@;
    let dashes = Seq::new(results.len() * plot::COL as nat, |c: int| '-');
    assert(unescaped(dashes)) by {
        reveal(unescaped);
    }
    assert(unescaped(title) && unescaped(plot::axis_line(results.len(), style)));
    assert(unescaped(plot::labels_line(results, style)));
    assert(unescaped(plot::caption_line(style)));
    let grid = plot::grid_lines(results, style);
    let axis = plot::axis_of(results);
    assert forall|i: int| 0 <= i < grid.len() implies unescaped(#[trigger] grid[i]) by {
        lemma_grid(plot::run_lines(results), axis, i as nat, style);
    }
}

proof fn lemma_joined(parts: Seq<Seq<char>>, sep: Seq<char>)
    requires
        all_unescaped(parts),
        unescaped(sep),
    ensures
        unescaped(text::joined(parts, sep)),
    decreases parts.len(),
{
    broadcast use lemma_concat;

    if parts.len() == 0 {
        reveal(unescaped);
    } else {
        assert(unescaped(parts[parts.len() - 1]));
        if parts.len() > 1 {
            let before = parts.drop_last();
            assert forall|i: int| 0 <= i < before.len() implies unescaped(#[trigger] before[i]) by {
                assert(unescaped(parts[i]));
            }
            lemma_joined(before, sep);
        }
    }
}

proof fn lemma_csv_literals()
    ensures
        unescaped(","@),
        unescaped(report::csv_header_text()),
{
    reveal(unescaped);
    reveal_strlit(",");
    reveal_strlit(
        "threads,samples,mean_ns,stddev_ns,min_ns,max_ns,p50_ns,p95_ns,p99_ns,throughput_per_sec,wall_secs",
    );
}

/// CSV holds no escape character, whatever the style.
pub proof fn csv_is_plain(results: Seq<RunResult>)
    ensures
        all_unescaped(closing::csv_text(results)),
{
    broadcast use group_unescaped;

    lemma_csv_literals();
    let lines = closing::csv_text(results);
    assert forall|i: int| 0 <= i < lines.len() implies unescaped(#[trigger] lines[i]) by {
        if i > 0 {
            let cells = report::csv_cells(results[i - 1]);
            assert forall|c: int| 0 <= c < cells.len() implies unescaped(#[trigger] cells[c]) by {}
            lemma_joined(cells, ","@);
            assert(lines[i] == report::csv_line(results[i - 1]));
        }
    }
}

/// Without colour nothing that is printed at the end holds an escape
/// character.
pub proof fn plain_closing(csv: bool, sweep: bool, results: Seq<RunResult>, style: Style)
    requires
        style.is_plain(),
    ensures
        all_unescaped(closing::closing_text(csv, sweep, results, style)),
{
    csv_is_plain(results);
    plain_summary(results, style);
    plain_plot(results, style);
}

} // verus!
