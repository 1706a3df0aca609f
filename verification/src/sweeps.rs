//! What sweep specifications stand for.

use vstd::prelude::*;

use crate::plan;
use crate::quote;
use crate::scan;
use crate::sweep::{self, SweepFault};
use crate::text;
use crate::wording;

verus! {

/// How many values the ranges list, repetitions included.
pub open spec fn size_of(ranges: Seq<(usize, usize)>) -> int {
    ranges.fold_left(0int, |sum: int, r: (usize, usize)| sum + (r.1 - r.0 + 1))
}

proof fn lemma_size(ranges: Seq<(usize, usize)>)
    requires
        sweep::all_upward(ranges),
    ensures
        sweep::listing(ranges).len() == size_of(ranges),
    decreases ranges.len(),
{
    reveal_with_fuel(Seq::fold_left, 2);
    if ranges.len() > 0 {
        let before = ranges.drop_last();
        assert forall|i: int| 0 <= i < before.len() implies (#[trigger] before[i]).0
            <= before[i].1 by {
            assert(ranges[i].0 <= ranges[i].1);
        }
        lemma_size(before);
        assert(ranges[ranges.len() - 1].0 <= ranges[ranges.len() - 1].1);
    }
}

/// A specification that is accepted and lists at most two to the 27th values
/// fits in memory, so that it is answered.
pub proof fn ordinary_sweeps_fit(spec_text: Seq<char>)
    requires
        sweep::sweep_ranges(spec_text) matches Ok(ranges) && size_of(ranges) <= 134_217_728,
    ensures
        sweep::listing_fits(spec_text),
{
    let ranges = sweep::sweep_ranges(spec_text)->Ok_0;
    sweep::lemma_items_upward(scan::pieces(spec_text, ','));
    lemma_size(ranges);
    sweep::lemma_limit();
}

/// A specification whose values before the first fault are at most two to the
/// 27th is answered, with the fault where there is one.
pub proof fn short_listings_fit(spec_text: Seq<char>)
    requires
        size_of(sweep::listed(scan::pieces(spec_text, ','))) <= 134_217_728,
    ensures
        sweep::listing_fits(spec_text),
{
    sweep::lemma_items_upward(scan::pieces(spec_text, ','));
    lemma_size(sweep::listed(scan::pieces(spec_text, ',')));
    sweep::lemma_limit();
}

/// The counts of a sweep rise: none comes twice or out of order.
pub proof fn counts_rise(spec_text: Seq<char>, counts: Seq<usize>)
    requires
        sweep::sweeps_to(spec_text, counts),
    ensures
        forall|i: int, j: int|
            0 <= i < j < counts.len() ==> #[trigger] counts[i] < #[trigger] counts[j],
{
}

/// The whole numbers from `low` to `high`.
pub open spec fn from_to(low: usize, high: usize) -> Seq<usize> {
    Seq::new((high - low + 1) as nat, |i: int| (low + i) as usize)
}

proof fn lemma_from_to(low: usize, high: usize)
    requires
        low <= high,
    ensures
        sweep::strictly_ascending(from_to(low, high)),
        forall|n: usize| #[trigger] from_to(low, high).contains(n) <==> low <= n <= high,
{
    let all = from_to(low, high);
    assert forall|n: usize| #[trigger] all.contains(n) <==> low <= n <= high by {
        if low <= n <= high {
            assert(all[n - low] == n);
        }
    }
}

/// `low-high` is answered with the whole numbers from `low` to `high` and no
/// others, by the parser and by the plan that is made of it.
pub proof fn ranges_run_from_low_to_high(low: usize, high: usize)
    requires
        1 <= low <= high,
    ensures
        forall|counts: Seq<usize>| #[trigger]
            sweep::sweeps_to(
                text::decimal(low as nat) + seq!['-'] + text::decimal(high as nat),
                counts,
            ) <==> counts == from_to(low, high),
        high - low < 134_217_728 ==> sweep::listing_fits(
            text::decimal(low as nat) + seq!['-'] + text::decimal(high as nat),
        ),
{
    let s = text::decimal(low as nat) + seq!['-'] + text::decimal(high as nat);
    let ranges = seq![(low, high)];
    let all = from_to(low, high);
    assert(s == sweep::range_text(low, high));
    sweep::ranges_are_inclusive(low, high);
    lemma_from_to(low, high);
    assert forall|n: usize| #[trigger] all.contains(n) <==> sweep::covers(ranges, n) by {
        if all.contains(n) {
            assert(ranges[0].0 <= n <= ranges[0].1);
        }
    }
    assert(sweep::sweeps_to(s, all));
    assert forall|counts: Seq<usize>| #[trigger] sweep::sweeps_to(s, counts) implies counts
        == all by {
        sweep::counts_are_determined(counts, ranges, all, ranges);
    }
    reveal_with_fuel(Seq::fold_left, 2);
    assert(ranges.drop_last() =~= Seq::<(usize, usize)>::empty());
    if high - low < 134_217_728 {
        ordinary_sweeps_fit(s);
    }
}

/// A specification without a comma that is blank lists nothing.
pub proof fn blank_sweeps_are_empty(s: Seq<char>)
    requires
        !s.contains(','),
        scan::trimmed(s).len() == 0,
    ensures
        sweep::sweep_ranges(s) == Err::<Seq<(usize, usize)>, SweepFault>(SweepFault::Empty),
{
    scan::lemma_one_piece(s, ',');
    sweep::lemma_one_item(s);
}

/// A single item without a hyphen: a count of one or more stands for itself,
/// zero is refused, and so is what is not a number.
pub proof fn single_counts_stand_for_themselves(s: Seq<char>)
    requires
        !s.contains(','),
        !scan::trimmed(s).contains('-'),
        scan::trimmed(s).len() > 0,
    ensures
        match scan::number(scan::trimmed(s)) {
            None => sweep::sweep_ranges(s) == Err::<Seq<(usize, usize)>, SweepFault>(
                SweepFault::BadThreadCount(scan::trimmed(s)),
            ),
            Some(n) => if n == 0 {
                sweep::sweep_ranges(s) == Err::<Seq<(usize, usize)>, SweepFault>(
                    SweepFault::ZeroThreads,
                )
            } else {
                sweep::sweeps_to(s, seq![n])
            },
        },
{
    let item = scan::trimmed(s);
    scan::lemma_one_piece(s, ',');
    sweep::lemma_one_item(s);
    wording::first_position_is_the_first(item, '-');
    if scan::first_position(item, '-') < item.len() {
        assert(item.contains(item[scan::first_position(item, '-') as int]));
    }
    if let Some(n) = scan::number(item) {
        if n > 0 {
            let ranges = Seq::<(usize, usize)>::empty().push((n, n));
            let one = seq![n];
            assert(sweep::sweep_ranges(s) == Ok::<Seq<(usize, usize)>, SweepFault>(ranges));
            assert forall|k: usize| #[trigger] one.contains(k) <==> sweep::covers(ranges, k) by {
                if one.contains(k) {
                    assert(ranges[0].0 <= k <= ranges[0].1);
                }
                if sweep::covers(ranges, k) {
                    assert(one[0] == k);
                }
            }
        }
    }
}

/// A single item with a hyphen: both ends are read without the white space
/// around them, the left one first. What is not a number is quoted as it was
/// written, zero and a range that runs downwards are refused, and else the item
/// stands for the numbers from the one to the other.
pub proof fn single_ranges_stand_for_their_numbers(s: Seq<char>, a: Seq<char>, b: Seq<char>)
    requires
        !s.contains(','),
        scan::trimmed(s) == a + seq!['-'] + b,
        !a.contains('-'),
    ensures
        match (scan::number(scan::trimmed(a)), scan::number(scan::trimmed(b))) {
            (None, _) => sweep::sweep_ranges(s) == Err::<Seq<(usize, usize)>, SweepFault>(
                SweepFault::BadRangeNumber(a),
            ),
            (Some(_), None) => sweep::sweep_ranges(s) == Err::<Seq<(usize, usize)>, SweepFault>(
                SweepFault::BadRangeNumber(b),
            ),
            (Some(low), Some(high)) => if low == 0 || high == 0 {
                sweep::sweep_ranges(s) == Err::<Seq<(usize, usize)>, SweepFault>(
                    SweepFault::ZeroThreads,
                )
            } else if low > high {
                sweep::sweep_ranges(s) == Err::<Seq<(usize, usize)>, SweepFault>(
                    SweepFault::Descending(low, high),
                )
            } else {
                sweep::sweeps_to(s, from_to(low, high))
            },
        },
{
    let item = scan::trimmed(s);
    let rest = seq!['-'] + b;
    scan::lemma_one_piece(s, ',');
    sweep::lemma_one_item(s);
    wording::first_position_is_the_first(a, '-');
    if scan::first_position(a, '-') < a.len() {
        assert(a.contains(a[scan::first_position(a, '-') as int]));
    }
    scan::lemma_first_behind(a, rest, '-');
    assert(rest.first() == '-');
    assert(a + rest =~= item);
    let hyphen = scan::first_position(item, '-') as int;
    assert(hyphen == a.len());
    assert(item.take(hyphen) =~= a);
    assert(item.skip(hyphen + 1) =~= b);
    if let (Some(low), Some(high)) = (
        scan::number(scan::trimmed(a)),
        scan::number(scan::trimmed(b)),
    ) {
        if 0 < low <= high {
            let ranges = Seq::<(usize, usize)>::empty().push((low, high));
            let all = from_to(low, high);
            lemma_from_to(low, high);
            assert(sweep::sweep_ranges(s) == Ok::<Seq<(usize, usize)>, SweepFault>(ranges));
            assert forall|k: usize| #[trigger] all.contains(k) <==> sweep::covers(ranges, k) by {
                if all.contains(k) {
                    assert(ranges[0].0 <= k <= ranges[0].1);
                }
            }
        }
    }
}

proof fn lemma_faulty_head(a: Seq<Seq<char>>, b: Seq<Seq<char>>)
    requires
        sweep::item_ranges(a) is Err,
    ensures
        sweep::item_ranges(a + b) == sweep::item_ranges(a),
{
    assert((a + b).take(a.len() as int) =~= a);
    sweep::first_fault_decides(a + b, a.len() as int);
}

proof fn lemma_faulty_tail(a: Seq<Seq<char>>, b: Seq<Seq<char>>)
    requires
        sweep::item_ranges(a) is Ok,
        sweep::item_ranges(b) is Err,
    ensures
        sweep::item_ranges(a + b) == sweep::item_ranges(b),
    decreases b.len(),
{
    if b.len() > 0 {
        let before = b.drop_last();
        assert((a + b).drop_last() =~= a + before);
        assert((a + b).last() == b.last());
        if sweep::item_ranges(before) is Err {
            lemma_faulty_tail(a, before);
        } else {
            sweep::lemma_items_together(a, before);
        }
    }
}

/// Two specifications with a comma between them: a fault of the first decides,
/// then one of the second. One that lists nothing makes no difference.
pub proof fn joined_sweeps_are_read_in_order(a: Seq<char>, b: Seq<char>)
    ensures
        match (sweep::sweep_ranges(a), sweep::sweep_ranges(b)) {
            (Err(SweepFault::Empty), _) => sweep::sweep_ranges(a + seq![','] + b)
                == sweep::sweep_ranges(b),
            (Err(fault), _) => sweep::sweep_ranges(a + seq![','] + b) == Err::<
                Seq<(usize, usize)>,
                SweepFault,
            >(fault),
            (Ok(ranges), Err(SweepFault::Empty)) => sweep::sweep_ranges(a + seq![','] + b) == Ok::<
                Seq<(usize, usize)>,
                SweepFault,
            >(ranges),
            (Ok(_), Err(fault)) => sweep::sweep_ranges(a + seq![','] + b) == Err::<
                Seq<(usize, usize)>,
                SweepFault,
            >(fault),
            (Ok(x), Ok(y)) => sweep::sweep_ranges(a + seq![','] + b) == Ok::<
                Seq<(usize, usize)>,
                SweepFault,
            >(x + y),
        },
{
    let p = scan::pieces(a, ',');
    let q = scan::pieces(b, ',');
    scan::splitting_goes_on_behind_a_separator(a, b, ',');
    lemma_never_empty(p);
    lemma_never_empty(q);
    if sweep::item_ranges(p) is Err {
        lemma_faulty_head(p, q);
    } else if sweep::item_ranges(q) is Err {
        lemma_faulty_tail(p, q);
    } else {
        sweep::lemma_items_together(p, q);
        let x = sweep::item_ranges(p)->Ok_0;
        let y = sweep::item_ranges(q)->Ok_0;
        if x.len() == 0 {
            assert(x + y =~= y);
        }
        if y.len() == 0 {
            assert(x + y =~= x);
        }
    }
}

/// No item is at fault for listing nothing.
proof fn lemma_never_empty(pieces: Seq<Seq<char>>)
    ensures
        sweep::item_ranges(pieces) != Err::<Seq<(usize, usize)>, SweepFault>(SweepFault::Empty),
    decreases pieces.len(),
{
    if pieces.len() > 0 {
        lemma_never_empty(pieces.drop_last());
    }
}

/// The message for each fault.
pub proof fn faults_have_their_messages(t: Seq<char>, low: usize, high: usize)
    ensures
        sweep::fault_message(SweepFault::BadRangeNumber(t)) == "invalid number in range: "@
            + quote::debug_quoted(t),
        sweep::fault_message(SweepFault::BadThreadCount(t)) == "invalid thread count: "@
            + quote::debug_quoted(t),
        sweep::fault_message(SweepFault::ZeroThreads) == "thread counts must be >= 1"@,
        sweep::fault_message(SweepFault::Descending(low, high)) == "range "@ + text::decimal(
            low as nat,
        ) + "-"@ + text::decimal(high as nat) + " is descending"@,
        sweep::fault_message(SweepFault::Empty) == "sweep specification is empty"@,
{
}

/// What the parser gives is the counts of an accepted specification or the
/// message of the fault of a refused one, and nothing else.
pub proof fn parsing_gives_counts_or_a_message(
    spec_text: Seq<char>,
    counts: Vec<usize>,
    message: String,
)
    ensures
        sweep::parses_to(spec_text, Ok(counts)) <==> sweep::sweeps_to(spec_text, counts@),
        sweep::parses_to(spec_text, Err(message)) <==> (sweep::sweep_ranges(spec_text) matches Err(
            fault,
        ) && message@ == sweep::fault_message(fault)),
{
}

/// The plan is the counts of the sweep where there is one, or the message of
/// its fault behind the name of the option; without a sweep it is the one
/// count.
pub proof fn plans_follow_the_options(
    spec_text: &str,
    threads: usize,
    counts: Vec<usize>,
    message: String,
)
    ensures
        plan::planned(Some(spec_text), threads, Ok(counts)) <==> sweep::sweeps_to(
            spec_text@,
            counts@,
        ),
        plan::planned(Some(spec_text), threads, Err(message)) <==> (sweep::sweep_ranges(
            spec_text@,
        ) matches Err(fault) && message@ == "--sweep: "@ + sweep::fault_message(fault)),
        plan::planned(None, threads, Ok(counts)) <==> counts@.len() == 1 && counts@[0] == threads,
        !plan::planned(None, threads, Err(message)),
{
    if counts@.len() == 1 && counts@[0] == threads {
        assert(counts@ =~= seq![threads]);
    }
}

/// A specification is answered where the values that it lists before its first
/// fault take up at most `isize::MAX` bytes.
pub proof fn listings_fit_by_their_bytes(spec_text: Seq<char>)
    ensures
        sweep::listing_fits(spec_text) <==> size_of(sweep::listed(scan::pieces(spec_text, ','))) * (
        usize::BITS as int / 8) <= isize::MAX,
{
    let ranges = sweep::listed(scan::pieces(spec_text, ','));
    let x = size_of(ranges);
    let d = usize::BITS as int / 8;
    let m = isize::MAX as int;
    sweep::lemma_items_upward(scan::pieces(spec_text, ','));
    lemma_size(ranges);
    assert(d > 0);
    assert(x <= m / d <==> x * d <= m) by (nonlinear_arith)
        requires
            d > 0,
    ;
}

/// What is listed before a fault is the ranges of the items before it, and
/// without a fault all of them.
pub proof fn items_before_a_fault_are_listed(pieces: Seq<Seq<char>>, k: int)
    requires
        0 <= k < pieces.len(),
        sweep::item_ranges(pieces.take(k)) is Ok,
        sweep::item_range(pieces[k]) is Err,
    ensures
        Ok::<Seq<(usize, usize)>, SweepFault>(sweep::listed(pieces)) == sweep::item_ranges(
            pieces.take(k),
        ),
    decreases pieces.len(),
{
    let before = pieces.drop_last();
    if k == pieces.len() - 1 {
        assert(pieces.take(k) =~= before);
        sweep::lemma_items_upward(before);
    } else {
        assert(before.take(k) =~= pieces.take(k));
        items_before_a_fault_are_listed(before, k);
        let head = before.take(k + 1);
        assert(head.drop_last() =~= before.take(k));
        assert(head.last() == pieces[k]);
        assert(sweep::item_ranges(head) is Err);
        sweep::first_fault_decides(before, k + 1);
    }
}

/// Without a fault all ranges are listed, in order.
pub proof fn all_items_are_listed_without_a_fault(spec_text: Seq<char>)
    requires
        sweep::sweep_ranges(spec_text) is Ok,
    ensures
        sweep::listed(scan::pieces(spec_text, ',')) == sweep::sweep_ranges(spec_text)->Ok_0,
{
    sweep::lemma_items_upward(scan::pieces(spec_text, ','));
}

/// The counts of a sweep are the numbers that lie in one of its ranges, by
/// whichever of them.
pub proof fn counts_are_the_numbers_in_the_ranges(
    spec_text: Seq<char>,
    counts: Seq<usize>,
    n: usize,
)
    requires
        sweep::sweeps_to(spec_text, counts),
    ensures
        sweep::sweep_ranges(spec_text) matches Ok(ranges) && ((exists|k: int|
            0 <= k < counts.len() && #[trigger] counts[k] == n) <==> (exists|i: int|
            0 <= i < ranges.len() && (#[trigger] ranges[i]).0 <= n <= ranges[i].1)),
{
    let ranges = sweep::sweep_ranges(spec_text)->Ok_0;
    assert(counts.contains(n) <==> sweep::covers(ranges, n));
}

} // verus!
