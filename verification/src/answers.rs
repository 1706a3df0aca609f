//! What the functions that plan, launch, report and compare promise of what
//! they return.

use vstd::prelude::*;

use crate::axis;
use crate::binary64::{self, Float};
use crate::closing::{self, closing_lines, csv_lines};
use crate::command::{
    self, c_bytes, nul_argument_message, nul_message, show_command, split_command, Argv,
};
use crate::decimal;
use crate::exact::{near, part, value};
use crate::figures;
use crate::launch::{self, prepare, Launch};
use crate::number::{self, Figure, Number};
use crate::order;
use crate::outputs::{self, finite, not_above};
use crate::plan::{
    self, banner, check_numbers, opening_lines, probe_message, probe_message_with, run_heading,
    run_intro, show_counts, thread_counts,
};
use crate::plot::{self, throughput_plot};
use crate::quote;
use crate::report::{
    self, csv_header, csv_row, finish_run, run_outcome, run_report, to_seconds, RunResult,
};
use crate::scan;
use crate::stats::Stats;
use crate::style::Style;
use crate::summary::{self, best_index, common_unit, sweep_summary};
use crate::sweep::{
    self, parse_sweep, read_item, read_sweep, try_parse_sweep, SweepError, SweepFault,
};
use crate::sweeps;
use crate::tables::{self, threads_text, unit_for};
use crate::text;
use crate::wording;

verus! {

/// The lines say just what the text does, line by line.
pub open spec fn say(lines: Seq<String>, text: Seq<Seq<char>>) -> bool {
    &&& lines.len() == text.len()
    &&& forall|i: int| 0 <= i < lines.len() ==> (#[trigger] lines[i])@ == text[i]
}

proof fn lemma_say(lines: Seq<String>, text: Seq<Seq<char>>)
    requires
        text::views(lines) == text,
    ensures
        say(lines, text),
{
    assert forall|i: int| 0 <= i < lines.len() implies (#[trigger] lines[i])@ == text[i] by {
        assert(text::views(lines)[i] == lines[i]@);
    }
}

/// Both numbers have to be one or more; a fault of the threads comes first.
pub proof fn numbers_have_to_be_positive(
    threads: usize,
    iterations: usize,
    r: Result<(), &'static str>,
)
    requires
        call_ensures(check_numbers, (threads, iterations), r),
    ensures
        r is Ok <==> threads > 0 && iterations > 0,
        threads == 0 ==> (r matches Err(m) && m@ == "--threads must be >= 1"@),
        threads > 0 && iterations == 0 ==> (r matches Err(m) && m@
            == "--iterations must be >= 1"@),
{
}

/// A first spawn that fails is reported with the binary in quotes and the
/// reason.
pub proof fn failed_probes_name_the_binary(
    binary: &str,
    quoted: &str,
    reason: &str,
    s: String,
    t: String,
)
    requires
        call_ensures(probe_message, (binary, reason), s),
        call_ensures(probe_message_with, (quoted, reason), t),
    ensures
        s@ == "initial spawn of "@ + quote::debug_quoted(binary@) + " failed: "@ + reason@,
        t@ == "initial spawn of "@ + quoted@ + " failed: "@ + reason@,
{
}

/// Without a sweep there is one run, with the given number of threads. A sweep
/// of at most two to the 27th values is answered, with the counts that it
/// stands for or with the message of its fault behind the name of the option.
pub proof fn thread_counts_follow_the_options(
    spec_text: Option<&str>,
    threads: usize,
    r: Option<Result<Vec<usize>, String>>,
)
    requires
        call_ensures(thread_counts, (spec_text, threads), r),
    ensures
        spec_text is None ==> (r matches Some(Ok(counts)) && counts@.len() == 1 && counts@[0]
            == threads),
        spec_text matches Some(s) && sweeps::size_of(sweep::listed(scan::pieces(s@, ',')))
            <= 134_217_728 ==> r is Some,
        spec_text matches Some(s) ==> (r matches Some(Ok(counts)) ==> sweep::sweeps_to(
            s@,
            counts@,
        )),
        spec_text matches Some(s) ==> (r matches Some(Err(m)) ==> (sweep::sweep_ranges(
            s@,
        ) matches Err(fault) && m@ == "--sweep: "@ + sweep::fault_message(fault))),
{
    if let Some(s) = spec_text {
        if sweeps::size_of(sweep::listed(scan::pieces(s@, ','))) <= 134_217_728 {
            sweeps::short_listings_fit(s@);
        }
    }
}

/// The parser gives the counts that a specification stands for, or the message
/// of its fault. It answers where at most two to the 27th values are listed.
pub proof fn sweeps_are_parsed_to_counts_or_a_message(
    s: &str,
    r: Option<Result<Vec<usize>, String>>,
    q: Result<Vec<usize>, String>,
)
    requires
        call_ensures(try_parse_sweep, (s,), r),
        call_ensures(parse_sweep, (s,), q),
    ensures
        sweeps::size_of(sweep::listed(scan::pieces(s@, ','))) <= 134_217_728 ==> r is Some,
        r matches Some(Ok(counts)) ==> sweep::sweeps_to(s@, counts@),
        r matches Some(Err(m)) ==> (sweep::sweep_ranges(s@) matches Err(fault) && m@
            == sweep::fault_message(fault)),
        q matches Ok(counts) ==> sweep::sweeps_to(s@, counts@),
        q matches Err(m) ==> (sweep::sweep_ranges(s@) matches Err(fault) && m@
            == sweep::fault_message(fault)),
{
    if sweeps::size_of(sweep::listed(scan::pieces(s@, ','))) <= 134_217_728 {
        sweeps::short_listings_fit(s@);
    }
}

/// `low-high` is answered with the whole numbers from `low` to `high`, in order
/// and each once, where these are at most two to the 27th.
pub proof fn written_ranges_are_parsed_to_their_numbers(
    s: &str,
    low: usize,
    high: usize,
    r: Option<Result<Vec<usize>, String>>,
)
    requires
        1 <= low <= high,
        high - low < 134_217_728,
        s@ == text::decimal(low as nat) + seq!['-'] + text::decimal(high as nat),
        call_ensures(try_parse_sweep, (s,), r),
    ensures
        r matches Some(Ok(counts)) && counts@.len() == high - low + 1 && forall|i: int|
            0 <= i < counts@.len() ==> #[trigger] counts@[i] == low + i,
{
    sweeps::ranges_run_from_low_to_high(low, high);
    assert(sweep::sweeps_to(s@, sweeps::from_to(low, high)));
    let counts = r->Some_0->Ok_0;
    assert(sweep::sweeps_to(s@, counts@));
}

/// The ranges that are read are those that the specification lists before its
/// first fault, and the fault is that of the specification.
pub proof fn read_ranges_are_those_listed(
    s: &str,
    r: (Vec<(usize, usize)>, Option<SweepError>),
    quoted: &str,
    e: SweepError,
    m: String,
    t: String,
)
    requires
        call_ensures(read_sweep, (s,), r),
        call_ensures(SweepError::message, (&e,), m),
        call_ensures(SweepError::message_with, (&e, quoted), t),
    ensures
        r.1 is None ==> sweep::sweep_ranges(s@) == Ok::<Seq<(usize, usize)>, SweepFault>(r.0@),
        r.1 matches Some(fault) ==> sweep::sweep_ranges(s@) == Err::<
            Seq<(usize, usize)>,
            SweepFault,
        >(fault@),
        r.0@ == sweep::listed(scan::pieces(s@, ',')),
        m@ == sweep::fault_message(e@),
        e is BadRangeNumber ==> t@ == "invalid number in range: "@ + quoted@,
        e is BadThreadCount ==> t@ == "invalid thread count: "@ + quoted@,
        e is ZeroThreads ==> t@ == "thread counts must be >= 1"@,
        e is Empty ==> t@ == "sweep specification is empty"@,
        e matches SweepError::Descending(low, high) ==> t@ == "range "@ + text::decimal(low as nat)
            + "-"@ + text::decimal(high as nat) + " is descending"@,
{
}

/// The counts are shown in order, with a comma and a blank between neighbours.
pub proof fn counts_are_shown_in_order(counts: &[usize], s: String)
    requires
        call_ensures(show_counts, (counts,), s),
    ensures
        s@ == text::joined(
            Seq::new(counts@.len(), |i: int| text::decimal(counts@[i] as nat)),
            seq![',', ' '],
        ),
{
    reveal_strlit(", ");
    assert(", "@ =~= seq![',', ' ']);
    assert(plan::decimals(counts@) =~= Seq::new(
        counts@.len(),
        |i: int| text::decimal(counts@[i] as nat),
    ));
}

/// The text of the lines before the first run: the command, the thread counts
/// or the one of them, the iterations and the warmup.
pub open spec fn banner_text(
    cmdline: Seq<char>,
    counts: Seq<usize>,
    iterations: nat,
    warmup: nat,
    style: Style,
) -> Seq<Seq<char>> {
    seq![
        style.bold@ + "Target"@ + style.reset@ + ": "@ + cmdline,
        if counts.len() > 1 {
            "  Sweep:      "@ + text::joined(
                Seq::new(counts.len(), |i: int| text::decimal(counts[i] as nat)),
                seq![',', ' '],
            )
        } else {
            "  Threads:    "@ + text::decimal(counts[0] as nat)
        },
        "  Iterations: "@ + text::decimal(iterations) + if counts.len() > 1 {
            " per thread per run"@
        } else {
            " per thread"@
        },
        "  Warmup:     "@ + text::decimal(warmup) + " per thread"@,
    ]
}

/// A benchmark is introduced by its command, its thread counts, its iterations
/// and its warmup; CSV is not introduced.
pub proof fn benchmarks_are_introduced(
    csv: bool,
    cmdline: &str,
    counts: &[usize],
    iterations: usize,
    warmup: usize,
    style: Style,
    lines: Vec<String>,
    opening: Vec<String>,
)
    requires
        counts@.len() > 0,
        call_ensures(banner, (cmdline, counts, iterations, warmup, style), lines),
        call_ensures(opening_lines, (csv, cmdline, counts, iterations, warmup, style), opening),
    ensures
        say(
            lines@,
            banner_text(cmdline@, counts@, iterations as nat, warmup as nat, style),
        ),
        csv ==> opening@.len() == 0,
        !csv ==> say(
            opening@,
            banner_text(cmdline@, counts@, iterations as nat, warmup as nat, style),
        ),
{
    let t = banner_text(cmdline@, counts@, iterations as nat, warmup as nat, style);
    let b = plan::banner_lines(cmdline@, counts@, iterations as nat, warmup as nat, style);
    reveal_strlit("");
    reveal_strlit(", ");
    reveal_strlit(" per thread");
    reveal_strlit(" per run");
    reveal_strlit(" per thread per run");
    assert(", "@ =~= seq![',', ' ']);
    assert(plan::decimals(counts@) =~= Seq::new(
        counts@.len(),
        |i: int| text::decimal(counts@[i] as nat),
    ));
    assert(b[2] =~= t[2]);
    assert(b =~= t);
    lemma_say(lines@, t);
    if csv {
        assert(text::views(opening@).len() == opening@.len());
    } else {
        lemma_say(opening@, t);
    }
}

/// Before a run stands a blank line, and in a sweep a heading with the number
/// of the run, that of all runs and that of the threads; nothing in CSV.
pub proof fn runs_are_introduced(
    csv: bool,
    index: usize,
    counts: &[usize],
    style: Style,
    lines: Vec<String>,
    total: usize,
    threads: usize,
    heading: String,
)
    requires
        index < counts@.len(),
        call_ensures(run_intro, (csv, index, counts, style), lines),
        call_ensures(run_heading, (index, total, threads, style), heading),
    ensures
        csv ==> lines@.len() == 0,
        !csv ==> lines@.len() == (if counts@.len() > 1 {
            2int
        } else {
            1int
        }),
        !csv ==> lines@[0]@.len() == 0,
        !csv && counts@.len() > 1 ==> lines@[1]@ == style.bold@ + "▶ Run "@ + text::decimal(
            (index + 1) as nat,
        ) + "/"@ + text::decimal(counts@.len()) + ": "@ + threads_text(
            counts@[index as int] as nat,
        ) + style.reset@,
        heading@ == style.bold@ + "▶ Run "@ + text::decimal((index + 1) as nat) + "/"@
            + text::decimal(total as nat) + ": "@ + threads_text(threads as nat) + style.reset@,
{
    lemma_heading(index as nat, total as nat, threads as nat, style);
    lemma_heading(index as nat, counts@.len(), counts@[index as int] as nat, style);
    reveal_strlit("");
    if csv {
        assert(text::views(lines@).len() == lines@.len());
    } else {
        lemma_say(lines@, plan::intro_lines(index as nat, counts@, style));
    }
}

proof fn lemma_heading(index: nat, total: nat, threads: nat, style: Style)
    ensures
        plan::run_line(index, total, threads, style.bold@, style.reset@) == style.bold@
            + "▶ Run "@ + text::decimal(index + 1) + "/"@ + text::decimal(total) + ": "@
            + threads_text(threads) + style.reset@,
{
    let head = style.bold@ + "▶ Run "@ + text::decimal(index + 1) + "/"@ + text::decimal(total)
        + ": "@;
    tables::lemma_threads_text(threads);
    assert(head + text::decimal(threads) + " thread"@ + text::plural_suffix(threads) =~= head + (
    text::decimal(threads) + " thread"@ + text::plural_suffix(threads)));
}

/// The first word of a command is the binary, and the others are its
/// arguments. Without a word the binary is `/usr/bin/true`.
pub proof fn commands_start_with_the_binary(command: Vec<String>, r: (String, Vec<String>))
    requires
        call_ensures(split_command, (command,), r),
    ensures
        command@.len() == 0 ==> r.0@ == "/usr/bin/true"@ && r.1@.len() == 0,
        command@.len() > 0 ==> r.0@ == command@[0]@ && r.1@.len() == command@.len() - 1,
        forall|i: int| 0 <= i < r.1@.len() ==> (#[trigger] r.1@[i])@ == command@[i + 1]@,
{
}

/// The command line is the binary and its arguments with a blank between
/// neighbours.
pub proof fn command_lines_have_blanks_between_words(binary: &str, args: &[String], s: String)
    requires
        call_ensures(show_command, (binary, args), s),
    ensures
        s@ == text::joined(
            Seq::new(
                args@.len() + 1,
                |i: int|
                    if i == 0 {
                        binary@
                    } else {
                        args@[i - 1]@
                    },
            ),
            seq![' '],
        ),
{
    let words = text::views(args@);
    let all = Seq::new(
        args@.len() + 1,
        |i: int|
            if i == 0 {
                binary@
            } else {
                args@[i - 1]@
            },
    );
    reveal_strlit(" ");
    assert(" "@ =~= seq![' ']);
    if args@.len() == 0 {
        assert(all =~= seq![binary@]);
    } else {
        assert(all =~= seq![binary@] + words);
        wording::joining_goes_part_by_part(seq![binary@], words, seq![' ']);
    }
}

/// The bytes of a C string are those of the text, none of them zero. Where one
/// is zero it is the position of the first that comes back.
pub proof fn bytes_are_those_of_the_text(s: &str, r: Result<Vec<u8>, usize>)
    requires
        call_ensures(c_bytes, (s,), r),
    ensures
        ({
            let all = vstd::utf8::encode_utf8(s@);
            &&& r is Err <==> all.contains(0u8)
            &&& r matches Ok(bytes) ==> bytes@ == all
            &&& r matches Err(at) ==> at < all.len() && all[at as int] == 0 && forall|i: int|
                0 <= i < at ==> #[trigger] all[i] != 0
        }),
{
    let all = vstd::utf8::encode_utf8(s@);
    if let Err(at) = r {
        assert(all[at as int] == 0);
    }
}

/// The messages for a zero byte give its position.
pub proof fn zero_bytes_are_reported_with_their_position(at: usize, s: String, t: String)
    requires
        call_ensures(nul_message, (at,), s),
        call_ensures(nul_argument_message, (at,), t),
    ensures
        s@ == "nul byte found in provided data at position: "@ + text::decimal(at as nat),
        t@ == "argument contains NUL byte: "@ + ("nul byte found in provided data at position: "@
            + text::decimal(at as nat)),
{
}

/// The argument vector is the bytes of the binary and of each argument, in
/// order.
pub proof fn arguments_are_the_bytes_of_the_words(
    binary: &str,
    args: &[String],
    r: Result<Argv, usize>,
    argv: Argv,
    n: usize,
    i: usize,
    bytes: &[u8],
)
    requires
        call_ensures(Argv::new, (binary, args), r),
        call_ensures(Argv::len, (&argv,), n),
        i < n,
        call_ensures(Argv::get, (&argv, i), bytes),
    ensures
        n == argv@.len() && bytes@ == argv@[i as int],
        r matches Ok(made) ==> {
            &&& made@.len() == args@.len() + 1
            &&& made@[0] == vstd::utf8::encode_utf8(binary@)
            &&& forall|k: int|
                0 <= k < args@.len() ==> #[trigger] made@[k + 1] == vstd::utf8::encode_utf8(
                    args@[k]@,
                )
            &&& forall|k: int| 0 <= k < made@.len() ==> !(#[trigger] made@[k]).contains(0u8)
        },
{
    if let Ok(made) = r {
        assert forall|k: int| 0 <= k < made@.len() implies !(#[trigger] made@[k]).contains(
            0u8,
        ) by {
            assert(command::nul_free(made@[k]));
        }
    }
}

/// The words of a command; `/usr/bin/true` where there are none.
pub open spec fn word(command: Seq<String>, k: int) -> Seq<char> {
    if command.len() == 0 {
        "/usr/bin/true"@
    } else {
        command[k]@
    }
}

/// A command is ready where both numbers are one or more and no word holds a
/// zero byte. Then the binary, the arguments and the bytes are those of its
/// words.
pub proof fn launches_are_of_the_command(
    threads: usize,
    iterations: usize,
    command: Vec<String>,
    r: Result<Launch, String>,
)
    requires
        call_ensures(prepare, (threads, iterations, command), r),
    ensures
        ({
            let n = if command@.len() == 0 {
                1int
            } else {
                command@.len() as int
            };
            &&& r is Ok <==> threads > 0 && iterations > 0 && forall|k: int|
                0 <= k < n ==> !vstd::utf8::encode_utf8(#[trigger] word(command@, k)).contains(0u8)
            &&& threads == 0 ==> (r matches Err(m) && m@ == "--threads must be >= 1"@)
            &&& threads > 0 && iterations == 0 ==> (r matches Err(m) && m@
                == "--iterations must be >= 1"@)
            &&& r matches Ok(launch) ==> {
                &&& launch.binary@ == word(command@, 0)
                &&& launch.args@.len() == n - 1
                &&& forall|k: int|
                    0 <= k < n - 1 ==> (#[trigger] launch.args@[k])@ == word(command@, k + 1)
                &&& launch.path@ == vstd::utf8::encode_utf8(word(command@, 0))
                &&& launch.argv@.len() == n
                &&& forall|k: int|
                    0 <= k < n ==> #[trigger] launch.argv@[k] == vstd::utf8::encode_utf8(
                        word(command@, k),
                    )
            }
        }),
{
    let words = launch::words(command@);
    let all = launch::encoded(words);
    let n = words.len() as int;
    assert forall|k: int| 0 <= k < n implies words[k] == #[trigger] word(command@, k) && all[k]
        == vstd::utf8::encode_utf8(words[k]) by {}
    match r {
        Ok(launch) => {
            assert forall|k: int| 0 <= k < n implies !vstd::utf8::encode_utf8(
                #[trigger] word(command@, k),
            ).contains(0u8) by {
                assert(words[k] == word(command@, k));
                assert(command::nul_free(launch.argv@[k]));
            }
            lemma_say(launch.args@, words.drop_first());
            assert forall|k: int| 0 <= k < n - 1 implies (#[trigger] launch.args@[k])@ == word(
                command@,
                k + 1,
            ) by {
                assert(text::views(launch.args@)[k] == words.drop_first()[k]);
                assert(words[k + 1] == word(command@, k + 1));
            }
            assert forall|k: int| 0 <= k < n implies #[trigger] launch.argv@[k]
                == vstd::utf8::encode_utf8(word(command@, k)) by {
                assert(words[k] == word(command@, k));
            }
            assert(words[0] == word(command@, 0));
        },
        Err(message) => {
            if threads > 0 && iterations > 0 {
                let (k, at): (int, int) = choose|k: int, at: int| #[trigger]
                    command::first_bad(all, k, at) && message@ == launch::bad_word_text(k, at);
                assert(command::first_bad(all, k, at));
                assert(words[k] == word(command@, k));
                assert(all[k][at] == 0);
                assert(vstd::utf8::encode_utf8(word(command@, k)).contains(0u8));
            }
        },
    }
}

/// A command with a zero byte in one of its words is refused for the first of
/// these, with the position of the byte; an argument is called one.
pub proof fn zero_bytes_are_refused(
    threads: usize,
    iterations: usize,
    command: Vec<String>,
    r: Result<Launch, String>,
    k: int,
    at: int,
)
    requires
        call_ensures(prepare, (threads, iterations, command), r),
        threads > 0,
        iterations > 0,
        0 <= k < command@.len(),
        0 <= at < vstd::utf8::encode_utf8(command@[k]@).len(),
        vstd::utf8::encode_utf8(command@[k]@)[at] == 0,
        forall|i: int| 0 <= i < at ==> #[trigger] vstd::utf8::encode_utf8(command@[k]@)[i] != 0,
        forall|j: int|
            0 <= j < k ==> !vstd::utf8::encode_utf8((#[trigger] command@[j])@).contains(0u8),
    ensures
        r matches Err(m) && m@ == (if k == 0 {
            "nul byte found in provided data at position: "@ + text::decimal(at as nat)
        } else {
            "argument contains NUL byte: "@ + ("nul byte found in provided data at position: "@
                + text::decimal(at as nat))
        }),
{
    launches_are_of_the_command(threads, iterations, command, r);
    let words = launch::words(command@);
    let all = launch::encoded(words);
    assert(words[k] == command@[k]@);
    assert(word(command@, k) == command@[k]@);
    assert(all[k] == vstd::utf8::encode_utf8(command@[k]@));
    assert(command::first_bad(all, k, at)) by {
        assert forall|j: int| 0 <= j < k implies command::nul_free(#[trigger] all[j]) by {
            let b = vstd::utf8::encode_utf8(command@[j]@);
            assert(words[j] == command@[j]@);
            assert(all[j] == b);
            assert forall|i: int| 0 <= i < b.len() implies #[trigger] b[i] != 0 by {
                if b[i] == 0 {
                    assert(b.contains(b[i]));
                }
            }
        }
    }
    assert(vstd::utf8::encode_utf8(word(command@, k)).contains(0u8));
    assert(r is Err);
    let message = r->Err_0;
    let (l, to): (int, int) = choose|l: int, to: int| #[trigger]
        command::first_bad(all, l, to) && message@ == launch::bad_word_text(l, to);
    command::first_bad_word_is_unique(all, k, at, l, to);
}

/// Nanoseconds are divided by a billion, but for three parts, and the
/// throughput is the samples over the seconds, but for eight; it is infinite
/// where no time has passed.
pub proof fn throughputs_are_samples_per_second(
    ns: u128,
    secs: Float,
    result: RunResult,
    r: Number,
)
    requires
        call_ensures(to_seconds, (ns,), secs),
        call_ensures(RunResult::throughput, (&result,), r),
    ensures
        near(value(secs@), ns as real / 1_000_000_000 as real, 3 as real),
        result.wall_ns > 0 ==> r is Finite && near(
            finite(r@),
            result.stats.n as real / (result.wall_ns as real / 1_000_000_000 as real),
            8 as real,
        ),
        result.wall_ns == 0 && result.stats.n > 0 ==> r is Infinite,
        result.wall_ns == 0 && result.stats.n == 0 ==> r is Undefined,
{
    figures::seconds_are_nanoseconds_over_a_billion(ns as nat);
    figures::throughput_is_samples_per_second(result);
}

/// The statistics of sorted samples: their number, the least and the greatest,
/// the percentiles by nearest rank, and in exact arithmetic but for rounding the
/// mean and the root of the mean square of the distances from it.
pub proof fn statistics_describe_the_samples(sorted: &[u128], stats: Stats)
    requires
        0 < sorted@.len() < 0x100_0000_0000,
        forall|i: int, j: int|
            0 <= i <= j < sorted@.len() ==> #[trigger] sorted@[i] <= #[trigger] sorted@[j],
        call_ensures(Stats::from_sorted, (sorted,), stats),
    ensures
        stats.n == sorted@.len(),
        stats.min_ns == sorted@[0],
        stats.max_ns == sorted@[sorted@.len() - 1],
        figures::is_percentile(stats.p50_ns, sorted@, 50),
        figures::is_percentile(stats.p95_ns, sorted@, 95),
        figures::is_percentile(stats.p99_ns, sorted@, 99),
        near(
            value(stats.mean_ns@),
            figures::total(sorted@) / sorted@.len() as real,
            (2 * sorted@.len()) as real + 6 as real,
        ),
        ({
            let n = sorted@.len() as real;
            let t = figures::total(sorted@);
            let v = n * figures::squares(sorted@) - t * t;
            let d = value(stats.stddev_ns@);
            let few = ((2 * sorted@.len()) as real + 14 as real) * part();
            let drift = t * (((2 * sorted@.len()) as real + 6 as real) * part());
            &&& d >= 0 as real
            &&& v * (1 as real - few) <= (n * n) * (d * d) <= (v + drift * drift) * (1 as real
                + few)
        }),
{
    assert(order::ascending(sorted@));
    figures::statistics_are_of_the_samples(stats, sorted@);
    figures::mean_is_the_sum_over_the_number(stats, sorted@);
    figures::deviation_is_the_root_of_the_mean_square(stats, sorted@);
}

/// The result of a run is of its threads, its time and its samples, sorted.
pub proof fn results_are_of_the_sorted_samples(
    threads: usize,
    samples: &[u128],
    wall_ns: u128,
    result: RunResult,
) -> (s: Seq<u128>)
    requires
        samples@.len() > 0,
        call_ensures(finish_run, (threads, samples, wall_ns), result),
    ensures
        result.threads == threads,
        result.wall_ns == wall_ns,
        s.len() == samples@.len(),
        s.to_multiset() == samples@.to_multiset(),
        forall|i: int, j: int| 0 <= i <= j < s.len() ==> #[trigger] s[i] <= #[trigger] s[j],
        result.stats.of(s),
        result.stats.n == samples@.len(),
        result.stats.min_ns == s[0],
        result.stats.max_ns == s[s.len() - 1],
{
    let s = choose|s: Seq<u128>| #[trigger]
        order::is_sorted_from(s, samples@) && result.stats.of(s);
    figures::sorted_times_rise(s, samples@);
    s
}

/// A run is reported in five lines, and not at all in CSV. What stands in them
/// is said of the lines themselves, wherever they are written.
pub proof fn reports_are_the_lines_of_the_run(
    csv: bool,
    result: RunResult,
    style: Style,
    lines: Vec<String>,
    outcome: Vec<String>,
)
    requires
        call_ensures(run_report, (&result, style), lines),
        call_ensures(run_outcome, (csv, &result, style), outcome),
    ensures
        lines@.len() == 5,
        say(lines@, report::report_lines(result, style)),
        csv ==> outcome@.len() == 0,
        !csv ==> outcome@.len() == 5 && say(outcome@, report::report_lines(result, style)),
{
    lemma_say(lines@, report::report_lines(result, style));
    if csv {
        assert(text::views(outcome@).len() == outcome@.len());
    } else {
        lemma_say(outcome@, report::report_lines(result, style));
    }
}

/// Splitting the first line of the CSV and the line of a run at their commas
/// puts each value of the run under its name.
pub proof fn csv_rows_put_values_under_their_names(result: RunResult, h: &'static str, s: String)
    requires
        call_ensures(csv_header, (), h),
        call_ensures(csv_row, (&result,), s),
    ensures
        ({
            let names = scan::pieces(h@, ',');
            let cells = scan::pieces(s@, ',');
            let stats = result.stats;
            &&& names.len() == 11 && cells.len() == 11
            &&& names[0] == "threads"@ && cells[0] == text::decimal(result.threads as nat)
            &&& names[1] == "samples"@ && cells[1] == text::decimal(stats.n as nat)
            &&& names[2] == "mean_ns"@ && cells[2] == decimal::shown(stats.mean_ns@, 3)
            &&& names[3] == "stddev_ns"@ && cells[3] == decimal::shown(stats.stddev_ns@, 3)
            &&& names[4] == "min_ns"@ && cells[4] == decimal::shown(
                binary64::whole(stats.min_ns as nat),
                3,
            )
            &&& names[5] == "max_ns"@ && cells[5] == decimal::shown(
                binary64::whole(stats.max_ns as nat),
                3,
            )
            &&& names[6] == "p50_ns"@ && cells[6] == decimal::shown(
                binary64::whole(stats.p50_ns as nat),
                3,
            )
            &&& names[7] == "p95_ns"@ && cells[7] == decimal::shown(
                binary64::whole(stats.p95_ns as nat),
                3,
            )
            &&& names[8] == "p99_ns"@ && cells[8] == decimal::shown(
                binary64::whole(stats.p99_ns as nat),
                3,
            )
            &&& names[9] == "throughput_per_sec"@ && cells[9] == number::figure_text(
                result.rate(),
                3,
            )
            &&& names[10] == "wall_secs"@ && cells[10] == decimal::shown(
                report::seconds(result.wall_ns as nat),
                6,
            )
        }),
{
    outputs::csv_values_stand_under_their_names(result);
}

/// The CSV is the line of names and the line of each run, in order.
pub proof fn csv_lists_all_runs(results: &[RunResult], lines: Vec<String>, h: &'static str)
    requires
        call_ensures(csv_lines, (results,), lines),
        call_ensures(csv_header, (), h),
    ensures
        lines@.len() == results@.len() + 1,
        lines@[0]@ == h@,
        forall|i: int|
            0 <= i < results@.len() ==> (#[trigger] lines@[i + 1])@ == report::csv_line(
                results@[i],
            ),
{
    let t = closing::csv_text(results@);
    lemma_say(lines@, t);
    assert forall|i: int| 0 <= i < results@.len() implies (#[trigger] lines@[i + 1])@
        == report::csv_line(results@[i]) by {
        outputs::csv_has_a_line_for_each_run(results@, i);
    }
    assert(t[0] == report::csv_header_text());
}

/// The unit of a table is that for the largest of the means.
pub proof fn tables_have_the_unit_of_the_largest_mean(
    results: &[RunResult],
    unit: (u64, &'static str),
) -> (slowest: int)
    requires
        results@.len() > 0,
        call_ensures(common_unit, (results,), unit),
    ensures
        0 <= slowest < results@.len(),
        forall|k: int|
            0 <= k < results@.len() ==> value((#[trigger] results@[k]).stats.mean_ns@) <= value(
                results@[slowest].stats.mean_ns@,
            ),
        unit.0 as real == unit_for(value(results@[slowest].stats.mean_ns@)).0,
        unit.1@ == unit_for(value(results@[slowest].stats.mean_ns@)).1,
{
    wording::units_go_by_thousands(summary::largest_mean(results@));
    tables::lemma_top(results@)
}

/// The best run is the last of those with the highest throughput.
pub proof fn best_runs_have_the_highest_throughput(results: &[RunResult], best: usize)
    requires
        results@.len() > 0,
        forall|k: int| 0 <= k < results@.len() ==> (#[trigger] results@[k]).stats.n > 0,
        call_ensures(best_index, (results,), best),
    ensures
        best < results@.len(),
        forall|k: int|
            0 <= k < results@.len() ==> not_above(
                (#[trigger] results@[k]).rate(),
                results@[best as int].rate(),
            ),
        forall|k: int|
            best < k < results@.len() ==> !not_above(
                results@[best as int].rate(),
                (#[trigger] results@[k]).rate(),
            ),
{
    let b = tables::best_run_is_the_last_of_the_fastest(results@);
}

/// The last cell of each row of the table that is returned is the throughput of
/// the run over that of the first run, with two places, whatever the thread
/// counts. The first row ends in `1.00×` if the first run took any time.
pub proof fn tables_compare_with_the_first_run(
    results: &[RunResult],
    style: Style,
    lines: Vec<String>,
    i: int,
) -> (found: (Seq<char>, Figure, Seq<char>))
    requires
        0 <= i < results@.len(),
        forall|k: int| 0 <= k < results@.len() ==> (#[trigger] results@[k]).stats.n > 0,
        call_ensures(sweep_summary, (results, style), lines),
    ensures
        ({
            let (head, speedup, tail) = found;
            let run = results@[i];
            let first = results@[0];
            &&& lines@.len() == results@.len() + 6
            &&& lines@[4 + i]@ == head + text::right_aligned(
                number::figure_text(speedup, 2),
                8,
            ) + seq!['×'] + tail
            &&& tail.len() == 0 || tail == style.reset@
            &&& run.wall_ns > 0 && first.wall_ns > 0 ==> (speedup matches Figure::Finite(x) && near(
                value(x),
                (run.stats.n as real / run.wall_ns as real) / (first.stats.n as real
                    / first.wall_ns as real),
                20 as real,
            ))
            &&& speedup == number::figure_ratio(run.rate(), first.rate())
            &&& i == 0 && first.wall_ns > 0 ==> text::right_aligned(
                number::figure_text(speedup, 2),
                8,
            ) == seq![' ', ' ', ' ', ' ', '1', '.', '0', '0']
        }),
{
    let all = results@;
    let run = all[i];
    let (best, slowest, q, speedup) = tables::table_rows_show_the_runs(all, style, i);
    let label = unit_for(value(all[slowest].stats.mean_ns@)).1;
    let head = "  "@ + (if i == best {
        style.green@
    } else {
        ""@
    }) + text::right_aligned(text::decimal(run.threads as nat), 7) + "  "@ + text::right_aligned(
        decimal::shown(q.0, 2) + " "@ + label,
        12,
    ) + "  "@ + text::right_aligned(decimal::shown(q.1, 2) + " "@ + label, 12) + "  "@
        + text::right_aligned(decimal::shown(q.2, 2) + " "@ + label, 12) + "  "@
        + text::right_aligned(decimal::shown(q.3, 2) + " "@ + label, 12) + "  "@
        + text::right_aligned(number::figure_text(run.rate(), 0) + "/s"@, 14) + "  "@;
    let tail = if i == best {
        style.reset@
    } else {
        ""@
    };
    let b = tables::tables_name_the_baseline_and_the_best(all, style);
    lemma_say(lines@, summary::summary_lines(all, style));
    reveal_strlit("");
    reveal_strlit("×");
    reveal_strlit("1.00");
    assert("×"@ =~= seq!['×']);
    if i == 0 && all[0].wall_ns > 0 {
        assert(text::right_aligned("1.00"@, 8) =~= seq![
            ' ',
            ' ',
            ' ',
            ' ',
            '1',
            '.',
            '0',
            '0',
        ]);
    }
    (head, speedup, tail)
}

/// The table, the plot and what is printed at the end are the lines that the
/// other laws speak of: nothing for no runs, no plot of fewer than two.
pub proof fn endings_are_the_csv_or_the_table_and_the_plot(
    csv: bool,
    sweep: bool,
    results: &[RunResult],
    style: Style,
    table: Vec<String>,
    graph: Vec<String>,
    rows: Vec<String>,
    lines: Vec<String>,
)
    requires
        call_ensures(sweep_summary, (results, style), table),
        call_ensures(throughput_plot, (results, style), graph),
        call_ensures(csv_lines, (results,), rows),
        call_ensures(closing_lines, (csv, sweep, results, style), lines),
    ensures
        results@.len() == 0 ==> table@.len() == 0,
        results@.len() > 0 ==> say(table@, summary::summary_lines(results@, style)),
        results@.len() < 2 ==> graph@.len() == 0,
        results@.len() >= 2 ==> say(graph@, plot::plot_lines(results@, style)),
        csv ==> say(lines@, text::views(rows@)),
        !csv && !sweep ==> lines@.len() == 0,
        !csv && sweep ==> say(lines@, text::views(table@) + text::views(graph@)),
{
    let t = text::views(table@);
    let g = text::views(graph@);
    if results@.len() > 0 {
        lemma_say(table@, summary::summary_lines(results@, style));
    } else {
        assert(t =~= Seq::<Seq<char>>::empty());
    }
    if results@.len() >= 2 {
        lemma_say(graph@, plot::plot_lines(results@, style));
    } else {
        assert(g =~= Seq::<Seq<char>>::empty());
    }
    assert(t + g =~= (if results@.len() > 0 {
        summary::summary_lines(results@, style) + closing::plot_text(results@, style)
    } else {
        seq![]
    }));
    lemma_say(lines@, text::views(lines@));
}

/// The top line of the plot that is returned is labelled with a value that no
/// run's throughput is above, and which is the end of the axis for the
/// throughput of one of the runs.
pub proof fn plots_reach_every_run(
    results: &[RunResult],
    style: Style,
    lines: Vec<String>,
    k: int,
) -> (found: (int, Figure, Seq<char>))
    requires
        results@.len() >= 2,
        0 <= k < results@.len(),
        forall|r: int| 0 <= r < results@.len() ==> (#[trigger] results@[r]).stats.n > 0,
        call_ensures(throughput_plot, (results, style), lines),
    ensures
        ({
            let (j, top, rest) = found;
            &&& lines@.len() == 16
            &&& lines@[2]@ == seq![' ', ' '] + style.dim@ + text::right_aligned(
                number::figure_text(top, 0),
                8,
            ) + rest
            &&& not_above(results@[k].rate(), top)
            &&& 0 <= j < results@.len()
            &&& top is Infinite ==> results@[j].rate() is Infinite
            &&& top is Finite ==> (results@[j].rate() matches Figure::Finite(a)
                && axis::axis_end(Figure::Finite(a)) is Finite && finite(
                axis::axis_end(Figure::Finite(a)),
            ) == finite(top))
            &&& top !is Undefined
        }),
{
    let all = results@;
    let j = outputs::axis_reaches_every_run(all);
    let (label, top, stars) = outputs::plot_lines_show_the_runs(all, style, 0, k);
    let rest = seq![' ', '|'] + style.reset@ + style.cyan@ + stars + style.reset@;
    outputs::lemma_rate_defined(all[j]);
    lemma_say(lines@, plot::plot_lines(all, style));
    assert(lines@[2]@ =~= seq![' ', ' '] + style.dim@ + label + rest);
    (j, top, rest)
}

/// Any options are planned and prepared, and any text is read.
pub proof fn any_options_are_taken(
    threads: usize,
    iterations: usize,
    warmup: usize,
    command: Vec<String>,
    spec_text: Option<&str>,
    s: &str,
    args: &[String],
    counts: &[usize],
    style: Style,
)
    ensures
        call_requires(check_numbers, (threads, iterations)),
        call_requires(prepare, (threads, iterations, command)),
        call_requires(split_command, (command,)),
        call_requires(show_command, (s, args)),
        call_requires(Argv::new, (s, args)),
        call_requires(c_bytes, (s,)),
        call_requires(probe_message, (s, s)),
        call_requires(thread_counts, (spec_text, threads)),
        call_requires(try_parse_sweep, (s,)),
        call_requires(read_sweep, (s,)),
        sweeps::size_of(sweep::listed(scan::pieces(s@, ','))) <= 134_217_728 ==> call_requires(
            parse_sweep,
            (s,),
        ),
        call_requires(show_counts, (counts,)),
        call_requires(run_heading, (threads, iterations, warmup, style)),
        counts@.len() > 0 ==> call_requires(banner, (s, counts, iterations, warmup, style)),
        counts@.len() > 0 ==> call_requires(
            opening_lines,
            (false, s, counts, iterations, warmup, style),
        ),
        threads < counts@.len() ==> call_requires(run_intro, (false, threads, counts, style)),
{
    if sweeps::size_of(sweep::listed(scan::pieces(s@, ','))) <= 134_217_728 {
        sweeps::short_listings_fit(s@);
    }
}

/// Any samples make a result with a sample and room to calculate, and any results
/// of this kind are reported, compared and plotted.
pub proof fn any_results_are_taken(
    threads: usize,
    samples: &[u128],
    wall_ns: u128,
    result: RunResult,
    results: &[RunResult],
    style: Style,
)
    requires
        samples@.len() > 0,
        call_ensures(finish_run, (threads, samples, wall_ns), result),
        forall|i: int|
            0 <= i < results@.len() ==> (#[trigger] results@[i]).stats.n > 0
                && results@[i].stats.in_range(),
    ensures
        result.stats.n > 0 && result.stats.in_range(),
        call_requires(finish_run, (threads, samples, wall_ns)),
        call_requires(Stats::from_sorted, (samples,)),
        call_requires(to_seconds, (wall_ns,)),
        call_requires(RunResult::throughput, (&result,)),
        call_requires(run_report, (&result, style)),
        call_requires(run_outcome, (false, &result, style)),
        call_requires(csv_row, (&result,)),
        call_requires(csv_lines, (results,)),
        call_requires(common_unit, (results,)),
        results@.len() > 0 ==> call_requires(best_index, (results,)),
        call_requires(sweep_summary, (results, style)),
        call_requires(throughput_plot, (results, style)),
        call_requires(closing_lines, (false, true, results, style)),
{
}

/// An argument vector is refused for the first word with a zero byte, the binary
/// before its arguments, with the position of the first zero byte in it, and
/// only where there is one.
pub proof fn arguments_with_zero_bytes_are_refused(
    binary: &str,
    args: &[String],
    r: Result<Argv, usize>,
) -> (k: int)
    requires
        call_ensures(Argv::new, (binary, args), r),
    ensures
        ({
            let all = Seq::new(
                args@.len() + 1,
                |i: int|
                    vstd::utf8::encode_utf8(
                        if i == 0 {
                            binary@
                        } else {
                            args@[i - 1]@
                        },
                    ),
            );
            match r {
                Ok(_) => forall|i: int|
                    0 <= i < all.len() ==> !(#[trigger] all[i]).contains(0u8),
                Err(at) => {
                    &&& 0 <= k < all.len()
                    &&& at < all[k].len() && all[k][at as int] == 0
                    &&& forall|j: int| 0 <= j < at ==> #[trigger] all[k][j] != 0
                    &&& forall|i: int| 0 <= i < k ==> !(#[trigger] all[i]).contains(0u8)
                },
            }
        }),
{
    let all = Seq::new(
        args@.len() + 1,
        |i: int|
            vstd::utf8::encode_utf8(
                if i == 0 {
                    binary@
                } else {
                    args@[i - 1]@
                },
            ),
    );
    assert(command::argument_bytes(binary@, args@) =~= all);
    match r {
        Ok(argv) => {
            assert forall|i: int| 0 <= i < all.len() implies !(#[trigger] all[i]).contains(
                0u8,
            ) by {
                assert(command::nul_free(argv@[i]));
            }
            0
        },
        Err(at) => {
            let k = choose|k: int| command::first_bad(all, k, at as int);
            assert(command::first_bad(all, k, at as int));
            assert forall|i: int| 0 <= i < k implies !(#[trigger] all[i]).contains(0u8) by {
                assert(command::nul_free(all[i]));
            }
            k
        },
    }
}

/// A single item is read as the specification that it is alone: as its range, as
/// nothing where it is blank, or with the same fault.
pub proof fn items_are_read_as_sweeps_of_their_own(
    piece: &[char],
    r: Result<Option<(usize, usize)>, SweepError>,
)
    requires
        !piece@.contains(','),
        call_ensures(read_item, (piece,), r),
    ensures
        match r {
            Ok(Some(range)) => sweep::sweep_ranges(piece@) == Ok::<
                Seq<(usize, usize)>,
                SweepFault,
            >(seq![range]),
            Ok(None) => sweep::sweep_ranges(piece@) == Err::<Seq<(usize, usize)>, SweepFault>(
                SweepFault::Empty,
            ),
            Err(e) => sweep::sweep_ranges(piece@) == Err::<Seq<(usize, usize)>, SweepFault>(e@),
        },
{
    scan::lemma_one_piece(piece@, ',');
    sweep::lemma_one_item(piece@);
    if let Ok(Some(range)) = r {
        assert(Seq::<(usize, usize)>::empty().push(range) =~= seq![range]);
    }
}

} // verus!
