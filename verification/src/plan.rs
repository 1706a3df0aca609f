//! Which runs to make, and what to say before them.

use vstd::prelude::*;

use crate::quote::{self, quote};
use crate::scan;
use crate::style::Style;
use crate::sweep::{self, try_parse_sweep};
use crate::text::{self, join, plural, to_decimal};

verus! {

/// Checks the numbers of threads and of iterations: both have to be at least
/// 1, and a fault in the first is reported first.
pub fn check_numbers(threads: usize, iterations: usize) -> (r: Result<(), &'static str>)
    ensures
        match r {
            Ok(_) => threads >= 1 && iterations >= 1,
            Err(message) => if threads == 0 {
                message@ == "--threads must be >= 1"@
            } else {
                iterations == 0 && message@ == "--iterations must be >= 1"@
            },
        },
{
    if threads == 0 {
        Err("--threads must be >= 1")
    } else if iterations == 0 {
        Err("--iterations must be >= 1")
    } else {
        Ok(())
    }
}

/// The message for a first spawn that failed for `reason`, of a binary that is
/// quoted as `quoted`.
pub open spec fn probe_text(quoted: Seq<char>, reason: Seq<char>) -> Seq<char> {
    "initial spawn of "@ + quoted + " failed: "@ + reason
}

/// The message for a first spawn that failed, given how the binary is quoted.
pub fn probe_message_with(quoted: &str, reason: &str) -> (s: String)
    ensures
        s@ == probe_text(quoted@, reason@),
{
    let mut s = "initial spawn of ".to_owned();
    s.append(quoted);
    s.append(" failed: ");
    s.append(reason);
    s
}

/// The message for a first spawn of `binary` that failed for `reason`.
pub fn probe_message(binary: &str, reason: &str) -> (s: String)
    ensures
        s@ == probe_text(quote::debug_quoted(binary@), reason@),
{
    probe_message_with(quote(binary).as_str(), reason)
}

/// What the options say of the thread counts: those of the sweep where there
/// is one, else the single count; a fault of the sweep is reported as such.
pub open spec fn planned(
    sweep: Option<&str>,
    threads: usize,
    r: Result<Vec<usize>, String>,
) -> bool {
    match sweep {
        Some(s) => match sweep::sweep_ranges(s@) {
            Ok(ranges) => r matches Ok(counts) && sweep::lists_counts(counts@, ranges),
            Err(fault) => r matches Err(message) && message@ == "--sweep: "@
                + sweep::fault_message(fault),
        },
        None => r matches Ok(counts) && counts@ == seq![threads],
    }
}

/// The thread counts to run with, in order, or `None` where the sweep lists
/// more values than fit in a vector.
pub fn thread_counts(sweep: Option<&str>, threads: usize) -> (r: Option<
    Result<Vec<usize>, String>,
>)
    ensures
        r is None <==> (sweep matches Some(s) && !sweep::listing_fits(s@)),
        r is None ==> (sweep matches Some(s) && sweep::listing(
            sweep::listed(scan::pieces(s@, ',')),
        ).len() > 0x800_0000),
        r matches Some(counts) ==> planned(sweep, threads, counts),
{
    match sweep {
        Some(s) => match try_parse_sweep(s) {
            None => None,
            Some(Ok(counts)) => Some(Ok(counts)),
            Some(Err(message)) => Some(Err("--sweep: ".to_owned().concat(message.as_str()))),
        },
        None => {
            let mut counts: Vec<usize> = Vec::new();
            counts.push(threads);
            assert(counts@ =~= seq![threads]);
            Some(Ok(counts))
        },
    }
}

/// Each count in decimal.
pub open spec fn decimals(counts: Seq<usize>) -> Seq<Seq<char>> {
    counts.map_values(|n: usize| text::decimal(n as nat))
}

/// The counts in decimal, with a comma and a blank between neighbours.
pub open spec fn counts_text(counts: Seq<usize>) -> Seq<char> {
    text::joined(decimals(counts), ", "@)
}

/// Writes the counts in decimal, with a comma and a blank between neighbours.
pub fn show_counts(counts: &[usize]) -> (s: String)
    ensures
        s@ == counts_text(counts@),
{
    let mut parts: Vec<String> = Vec::new();
    for i in 0..counts.len()
        invariant
            text::views(parts@) == decimals(counts@).take(i as int),
    {
        let part = to_decimal(counts[i] as u128);
        let ghost text = part@;
        let ghost before = text::views(parts@);
        parts.push(part);
        assert(text::views(parts@) =~= before.push(text));
        assert(text::views(parts@) =~= decimals(counts@).take(i + 1));
    }
    assert(decimals(counts@).take(counts@.len() as int) =~= decimals(counts@));
    join(parts.as_slice(), ", ")
}

/// The first line about a benchmark.
pub open spec fn target_line(bold: Seq<char>, reset: Seq<char>, cmdline: Seq<char>) -> Seq<char> {
    bold + "Target"@ + reset + ": "@ + cmdline
}

/// The line with the thread counts.
pub open spec fn counts_line(counts: Seq<usize>) -> Seq<char> {
    if counts.len() > 1 {
        "  Sweep:      "@ + counts_text(counts)
    } else {
        "  Threads:    "@ + text::decimal(counts[0] as nat)
    }
}

/// The line with the number of iterations.
pub open spec fn iterations_line(iterations: nat, sweep: bool) -> Seq<char> {
    "  Iterations: "@ + text::decimal(iterations) + " per thread"@ + if sweep {
        " per run"@
    } else {
        ""@
    }
}

/// The line with the number of warmup spawns.
pub open spec fn warmup_line(warmup: nat) -> Seq<char> {
    "  Warmup:     "@ + text::decimal(warmup) + " per thread"@
}

/// The lines that introduce a benchmark.
pub open spec fn banner_lines(
    cmdline: Seq<char>,
    counts: Seq<usize>,
    iterations: nat,
    warmup: nat,
    style: Style,
) -> Seq<Seq<char>> {
    seq![
        target_line(style.bold@, style.reset@, cmdline),
        counts_line(counts),
        iterations_line(iterations, counts.len() > 1),
        warmup_line(warmup),
    ]
}

/// The lines that introduce a benchmark.
pub fn banner(
    cmdline: &str,
    counts: &[usize],
    iterations: usize,
    warmup: usize,
    style: Style,
) -> (lines: Vec<String>)
    requires
        counts@.len() > 0,
    ensures
        text::views(lines@) == banner_lines(
            cmdline@,
            counts@,
            iterations as nat,
            warmup as nat,
            style,
        ),
{
    let sweep: bool = counts.len() > 1;

    let mut target = style.bold.to_owned();
    target.append("Target");
    target.append(style.reset);
    target.append(": ");
    target.append(cmdline);

    let mut threads: String;
    if sweep {
        threads = "  Sweep:      ".to_owned();
        threads.append(show_counts(counts).as_str());
    } else {
        threads = "  Threads:    ".to_owned();
        threads.append(to_decimal(counts[0] as u128).as_str());
    }

    let mut work = "  Iterations: ".to_owned();
    work.append(to_decimal(iterations as u128).as_str());
    work.append(" per thread");
    work.append(if sweep { " per run" } else { "" });

    let mut rest = "  Warmup:     ".to_owned();
    rest.append(to_decimal(warmup as u128).as_str());
    rest.append(" per thread");

    let ghost expected = seq![target@, threads@, work@, rest@];
    let mut lines: Vec<String> = Vec::new();
    lines.push(target);
    lines.push(threads);
    lines.push(work);
    lines.push(rest);
    assert(text::views(lines@) =~= expected);
    lines
}

/// The lines before the first run; none where the output is CSV.
pub fn opening_lines(
    csv: bool,
    cmdline: &str,
    counts: &[usize],
    iterations: usize,
    warmup: usize,
    style: Style,
) -> (lines: Vec<String>)
    requires
        counts@.len() > 0,
    ensures
        text::views(lines@) == (if csv {
            seq![]
        } else {
            banner_lines(cmdline@, counts@, iterations as nat, warmup as nat, style)
        }),
{
    if csv {
        let lines: Vec<String> = Vec::new();
        assert(text::views(lines@) =~= seq![]);
        lines
    } else {
        banner(cmdline, counts, iterations, warmup, style)
    }
}

/// The line above run `index + 1` of `total`.
pub open spec fn run_line(
    index: nat,
    total: nat,
    threads: nat,
    bold: Seq<char>,
    reset: Seq<char>,
) -> Seq<char> {
    bold + "▶ Run "@ + text::decimal(index + 1) + "/"@ + text::decimal(total) + ": "@
        + text::decimal(threads) + " thread"@ + text::plural_suffix(threads) + reset
}

/// The line above run `index + 1` of `total`, in a sweep.
pub fn run_heading(index: usize, total: usize, threads: usize, style: Style) -> (s: String)
    ensures
        s@ == run_line(
            index as nat,
            total as nat,
            threads as nat,
            style.bold@,
            style.reset@,
        ),
{
    let mut s = style.bold.to_owned();
    s.append("▶ Run ");
    s.append(to_decimal(index as u128 + 1).as_str());
    s.append("/");
    s.append(to_decimal(total as u128).as_str());
    s.append(": ");
    s.append(to_decimal(threads as u128).as_str());
    s.append(" thread");
    s.append(plural(threads));
    s.append(style.reset);
    s
}

/// The lines before a run: a blank one, and in a sweep the heading.
pub open spec fn intro_lines(index: nat, counts: Seq<usize>, style: Style) -> Seq<Seq<char>> {
    if counts.len() > 1 {
        seq![
            ""@,
            run_line(
                index,
                counts.len(),
                counts[index as int] as nat,
                style.bold@,
                style.reset@,
            ),
        ]
    } else {
        seq![""@]
    }
}

/// The lines before run `index + 1` of those with the given thread counts; none
/// where the output is CSV.
pub fn run_intro(csv: bool, index: usize, counts: &[usize], style: Style) -> (lines: Vec<String>)
    requires
        index < counts@.len(),
    ensures
        text::views(lines@) == (if csv {
            seq![]
        } else {
            intro_lines(index as nat, counts@, style)
        }),
{
    let mut lines: Vec<String> = Vec::new();
    if csv {
        assert(text::views(lines@) =~= seq![]);
        return lines;
    }
    let blank = "".to_owned();
    let ghost first = blank@;
    lines.push(blank);
    assert(text::views(lines@) =~= seq![first]);
    if counts.len() > 1 {
        let heading = run_heading(index, counts.len(), counts[index], style);
        let ghost second = heading@;
        lines.push(heading);
        assert(text::views(lines@) =~= seq![first, second]);
    }
    lines
}

/// The items of the counts as they are shown: all but the first have a blank
/// before them.
spec fn shown_items(counts: Seq<usize>) -> Seq<Seq<char>> {
    Seq::new(
        counts.len(),
        |i: int|
            if i == 0 {
                text::decimal(counts[i] as nat)
            } else {
                seq![' '] + text::decimal(counts[i] as nat)
            },
    )
}

/// Each count as the range from itself to itself.
pub open spec fn single_ranges(counts: Seq<usize>) -> Seq<(usize, usize)> {
    counts.map_values(|n: usize| (n, n))
}

/// A count with a blank before it holds no comma.
proof fn lemma_led(n: nat)
    ensures
        !(seq![' '] + text::decimal(n)).contains(','),
{
    let d = text::decimal(n);
    let led = seq![' '] + d;
    scan::lemma_decimal_plain(n);
    if led.contains(',') {
        let i = choose|i: int| 0 <= i < led.len() && led[i] == ',';
        assert(d[i - 1] == ',');
    }
}

/// The text of the counts up to the last, and the last behind a comma.
proof fn lemma_text_step(counts: Seq<usize>)
    requires
        counts.len() > 1,
    ensures
        counts_text(counts) == counts_text(counts.drop_last()).push(',') + (seq![' ']
            + text::decimal(counts.last() as nat)),
{
    let head = counts_text(counts.drop_last());
    let d = text::decimal(counts.last() as nat);
    assert(decimals(counts).drop_last() =~= decimals(counts.drop_last()));
    reveal_strlit(", ");
    assert(", "@ =~= seq![',', ' ']);
    assert(head + seq![',', ' '] + d =~= head.push(',') + (seq![' '] + d));
}

proof fn lemma_items_step(counts: Seq<usize>)
    requires
        counts.len() > 1,
    ensures
        shown_items(counts) == shown_items(counts.drop_last()).push(
            seq![' '] + text::decimal(counts.last() as nat),
        ),
{
    assert(shown_items(counts) =~= shown_items(counts.drop_last()).push(
        seq![' '] + text::decimal(counts.last() as nat),
    ));
}

proof fn lemma_shown_pieces(counts: Seq<usize>)
    requires
        counts.len() > 0,
    ensures
        scan::pieces(counts_text(counts), ',') == shown_items(counts),
    decreases counts.len(),
{
    let d = text::decimal(counts.last() as nat);
    if counts.len() == 1 {
        scan::lemma_decimal_plain(counts.last() as nat);
        scan::lemma_one_piece(d, ',');
        assert(shown_items(counts) =~= seq![d]);
    } else {
        lemma_shown_pieces(counts.drop_last());
        lemma_led(counts.last() as nat);
        lemma_text_step(counts);
        lemma_items_step(counts);
        scan::lemma_pieces_after(counts_text(counts.drop_last()), seq![' '] + d, ',');
    }
}

/// A single count in decimal, with a blank before it or without.
proof fn lemma_single_item(n: usize)
    requires
        n >= 1,
    ensures
        sweep::item_range(text::decimal(n as nat)) == Ok::<
            Option<(usize, usize)>,
            sweep::SweepFault,
        >(Some((n, n))),
        sweep::item_range(seq![' '] + text::decimal(n as nat)) == Ok::<
            Option<(usize, usize)>,
            sweep::SweepFault,
        >(Some((n, n))),
{
    scan::lemma_decimal_plain(n as nat);
    scan::lemma_decimal_digits(n as nat);
    scan::decimal_is_read_back(n);
}

proof fn lemma_shown_ranges(counts: Seq<usize>)
    requires
        forall|i: int| 0 <= i < counts.len() ==> #[trigger] counts[i] >= 1,
    ensures
        sweep::item_ranges(shown_items(counts)) == Ok::<
            Seq<(usize, usize)>,
            sweep::SweepFault,
        >(single_ranges(counts)),
    decreases counts.len(),
{
    if counts.len() == 0 {
        assert(single_ranges(counts) =~= Seq::<(usize, usize)>::empty());
    } else {
        let before = counts.drop_last();
        let last = counts.last();
        assert forall|i: int| 0 <= i < before.len() implies #[trigger] before[i] >= 1 by {
            assert(counts[i] >= 1);
        }
        lemma_shown_ranges(before);
        assert(shown_items(counts).drop_last() =~= shown_items(before));
        assert(counts[counts.len() - 1] >= 1);
        lemma_single_item(last);
        assert(sweep::item_range(shown_items(counts).last()) == Ok::<
            Option<(usize, usize)>,
            sweep::SweepFault,
        >(Some((last, last))));
        assert(single_ranges(counts) =~= single_ranges(before).push((last, last)));
    }
}

/// Single counts in decimal are read as the ranges from each to itself.
proof fn lemma_single_items(counts: Seq<usize>)
    requires
        forall|i: int| 0 <= i < counts.len() ==> #[trigger] counts[i] >= 1,
    ensures
        sweep::item_ranges(decimals(counts)) == Ok::<Seq<(usize, usize)>, sweep::SweepFault>(
            single_ranges(counts),
        ),
    decreases counts.len(),
{
    if counts.len() == 0 {
        assert(single_ranges(counts) =~= Seq::<(usize, usize)>::empty());
    } else {
        let before = counts.drop_last();
        let last = counts.last();
        assert forall|i: int| 0 <= i < before.len() implies #[trigger] before[i] >= 1 by {
            assert(counts[i] >= 1);
        }
        lemma_single_items(before);
        assert(decimals(counts).drop_last() =~= decimals(before));
        assert(counts[counts.len() - 1] >= 1);
        lemma_single_item(last);
        assert(single_ranges(counts) =~= single_ranges(before).push((last, last)));
    }
}

/// The thread counts with only a comma between neighbours are a sweep
/// specification that stands for the same counts.
pub proof fn listed_counts_are_read_back(counts: Seq<usize>)
    requires
        counts.len() > 0,
        sweep::strictly_ascending(counts),
        forall|i: int| 0 <= i < counts.len() ==> #[trigger] counts[i] >= 1,
    ensures
        sweep::sweeps_to(text::joined(decimals(counts), ","@), counts),
{
    let parts = decimals(counts);
    assert forall|i: int| 0 <= i < parts.len() implies !(#[trigger] parts[i]).contains(',') by {
        scan::lemma_decimal_plain(counts[i] as nat);
    }
    reveal_strlit(",");
    assert(","@ =~= seq![',']);
    scan::splitting_undoes_joining(parts, ',');
    lemma_single_items(counts);
    lemma_single_ranges(counts);
}

/// The counts of a sweep that is accepted, with only a comma between
/// neighbours, are a specification of the same sweep.
pub proof fn accepted_counts_are_read_back(spec_text: Seq<char>, counts: Seq<usize>)
    requires
        sweep::sweeps_to(spec_text, counts),
    ensures
        sweep::sweeps_to(text::joined(decimals(counts), ","@), counts),
{
    sweep::counts_are_positive(spec_text, counts);
    listed_counts_are_read_back(counts);
}

/// The thread counts as they are shown are a sweep specification that stands
/// for the same counts.
pub proof fn shown_counts_are_read_back(counts: Seq<usize>)
    requires
        counts.len() > 0,
        sweep::strictly_ascending(counts),
        forall|i: int| 0 <= i < counts.len() ==> #[trigger] counts[i] >= 1,
    ensures
        sweep::sweeps_to(counts_text(counts), counts),
{
    lemma_shown_pieces(counts);
    lemma_shown_ranges(counts);
    lemma_single_ranges(counts);
}

/// Counts in ascending order are those of their single ranges.
proof fn lemma_single_ranges(counts: Seq<usize>)
    requires
        sweep::strictly_ascending(counts),
    ensures
        sweep::lists_counts(counts, single_ranges(counts)),
{
    let ranges = single_ranges(counts);
    assert forall|n: usize| #[trigger] counts.contains(n) <==> sweep::covers(ranges, n) by {
        if counts.contains(n) {
            let i = choose|i: int| 0 <= i < counts.len() && counts[i] == n;
            assert(ranges[i].0 <= n <= ranges[i].1);
        }
        if sweep::covers(ranges, n) {
            let i = choose|i: int|
                0 <= i < ranges.len() && (#[trigger] ranges[i]).0 <= n <= ranges[i].1;
            assert(counts[i] == n);
        }
    }
}

} // verus!
