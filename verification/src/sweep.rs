//! Sweep specifications: lists of thread counts such as `1,2,4-8,16`.

use vstd::prelude::*;
use vstd::slice::slice_subrange;

use crate::order::{self, sorted, Ranked};
use crate::quote::{self, quote};
use crate::scan::{self, find, parse_number, split, trim};
use crate::text::{self, from_chars, to_chars, to_decimal};

verus! {

/// Why a sweep specification is refused.
#[derive(Debug)]
pub enum SweepError {
    /// One end of a range is not a number; holds that end as it was written.
    BadRangeNumber(String),
    /// A single count is not a number; holds the count as it was written.
    BadThreadCount(String),
    /// A count of zero.
    ZeroThreads,
    /// A range that runs downwards.
    Descending(usize, usize),
    /// No count at all.
    Empty,
}

/// The mathematical model of [`SweepError`].
pub enum SweepFault {
    BadRangeNumber(Seq<char>),
    BadThreadCount(Seq<char>),
    ZeroThreads,
    Descending(usize, usize),
    Empty,
}

impl View for SweepError {
    type V = SweepFault;

    open spec fn view(&self) -> SweepFault {
        match self {
            SweepError::BadRangeNumber(t) => SweepFault::BadRangeNumber(t@),
            SweepError::BadThreadCount(t) => SweepFault::BadThreadCount(t@),
            SweepError::ZeroThreads => SweepFault::ZeroThreads,
            SweepError::Descending(low, high) => SweepFault::Descending(*low, *high),
            SweepError::Empty => SweepFault::Empty,
        }
    }
}

/// The range from `low` to `high`, if both are at least 1 and in order.
pub open spec fn checked_range(low: usize, high: usize) -> Result<(usize, usize), SweepFault> {
    if low == 0 || high == 0 {
        Err(SweepFault::ZeroThreads)
    } else if low > high {
        Err(SweepFault::Descending(low, high))
    } else {
        Ok((low, high))
    }
}

/// What one piece between commas stands for: nothing when it is blank, the
/// range between its two ends when it holds a hyphen, else a single count,
/// which is the range from that count to itself.
pub open spec fn item_range(piece: Seq<char>) -> Result<Option<(usize, usize)>, SweepFault> {
    let item = scan::trimmed(piece);
    let hyphen = scan::first_position(item, '-') as int;
    if item.len() == 0 {
        Ok(None)
    } else if hyphen < item.len() {
        let left = item.take(hyphen);
        let right = item.skip(hyphen + 1);
        match scan::number(scan::trimmed(left)) {
            None => Err(SweepFault::BadRangeNumber(left)),
            Some(low) => match scan::number(scan::trimmed(right)) {
                None => Err(SweepFault::BadRangeNumber(right)),
                Some(high) => match checked_range(low, high) {
                    Err(fault) => Err(fault),
                    Ok(range) => Ok(Some(range)),
                },
            },
        }
    } else {
        match scan::number(item) {
            None => Err(SweepFault::BadThreadCount(item)),
            Some(n) => match checked_range(n, n) {
                Err(fault) => Err(fault),
                Ok(range) => Ok(Some(range)),
            },
        }
    }
}

/// The ranges of the pieces in order, or the fault of the first faulty piece.
pub open spec fn item_ranges(pieces: Seq<Seq<char>>) -> Result<Seq<(usize, usize)>, SweepFault>
    decreases pieces.len(),
{
    if pieces.len() == 0 {
        Ok(seq![])
    } else {
        match item_ranges(pieces.drop_last()) {
            Err(fault) => Err(fault),
            Ok(before) => match item_range(pieces.last()) {
                Err(fault) => Err(fault),
                Ok(None) => Ok(before),
                Ok(Some(range)) => Ok(before.push(range)),
            },
        }
    }
}

/// The ranges of the pieces before the first faulty one.
pub open spec fn listed(pieces: Seq<Seq<char>>) -> Seq<(usize, usize)>
    decreases pieces.len(),
{
    if pieces.len() == 0 {
        seq![]
    } else {
        let before = listed(pieces.drop_last());
        match (item_ranges(pieces.drop_last()), item_range(pieces.last())) {
            (Ok(_), Ok(Some(range))) => before.push(range),
            _ => before,
        }
    }
}

/// The ranges that a sweep specification lists, or why it is refused.
pub open spec fn sweep_ranges(spec_text: Seq<char>) -> Result<Seq<(usize, usize)>, SweepFault> {
    match item_ranges(scan::pieces(spec_text, ',')) {
        Err(fault) => Err(fault),
        Ok(ranges) => if ranges.len() == 0 {
            Err(SweepFault::Empty)
        } else {
            Ok(ranges)
        },
    }
}

/// Whether one of the ranges holds `n`.
pub open spec fn covers(ranges: Seq<(usize, usize)>, n: usize) -> bool {
    exists|i: int| 0 <= i < ranges.len() && (#[trigger] ranges[i]).0 <= n <= ranges[i].1
}

/// Each value stands before every larger one, and none occurs twice.
pub open spec fn strictly_ascending(s: Seq<usize>) -> bool {
    forall|i: int, j: int| 0 <= i < j < s.len() ==> #[trigger] s[i] < #[trigger] s[j]
}

/// `counts` holds what the ranges hold, each once, in ascending order.
pub open spec fn lists_counts(counts: Seq<usize>, ranges: Seq<(usize, usize)>) -> bool {
    &&& strictly_ascending(counts)
    &&& forall|n: usize| #[trigger] counts.contains(n) <==> covers(ranges, n)
}

/// The values from `range.0` to `range.1`.
pub open spec fn range_values(range: (usize, usize)) -> Seq<usize> {
    Seq::new((range.1 - range.0 + 1) as nat, |i: int| (range.0 + i) as usize)
}

/// The values of the ranges one after the other, repetitions included.
pub open spec fn listing(ranges: Seq<(usize, usize)>) -> Seq<usize>
    decreases ranges.len(),
{
    if ranges.len() == 0 {
        seq![]
    } else {
        listing(ranges.drop_last()) + range_values(ranges.last())
    }
}

/// How many `usize` values a vector can hold at most: those that fit in
/// `isize::MAX` bytes.
pub open spec fn vec_limit() -> nat {
    isize::MAX as nat / (usize::BITS as nat / 8)
}

/// All the values that the text lists before its first fault, repetitions
/// included, fit in a vector.
pub open spec fn listing_fits(spec_text: Seq<char>) -> bool {
    listing(listed(scan::pieces(spec_text, ','))).len() <= vec_limit()
}

/// The part of the text that a fault quotes.
pub open spec fn fault_token(fault: SweepFault) -> Seq<char> {
    match fault {
        SweepFault::BadRangeNumber(t) => t,
        SweepFault::BadThreadCount(t) => t,
        _ => seq![],
    }
}

/// The message for a fault whose part of the text is quoted as `quoted`.
pub open spec fn fault_text(fault: SweepFault, quoted: Seq<char>) -> Seq<char> {
    match fault {
        SweepFault::BadRangeNumber(_) => "invalid number in range: "@ + quoted,
        SweepFault::BadThreadCount(_) => "invalid thread count: "@ + quoted,
        SweepFault::ZeroThreads => "thread counts must be >= 1"@,
        SweepFault::Descending(low, high) => "range "@ + text::decimal(low as nat) + "-"@
            + text::decimal(high as nat) + " is descending"@,
        SweepFault::Empty => "sweep specification is empty"@,
    }
}

/// The message for a fault.
pub open spec fn fault_message(fault: SweepFault) -> Seq<char> {
    fault_text(fault, quote::debug_quoted(fault_token(fault)))
}

/// What parsing the text gives: the counts that its ranges hold, or the
/// message of its fault.
pub open spec fn parses_to(spec_text: Seq<char>, r: Result<Vec<usize>, String>) -> bool {
    match sweep_ranges(spec_text) {
        Ok(ranges) => r matches Ok(counts) && lists_counts(counts@, ranges),
        Err(fault) => r matches Err(message) && message@ == fault_message(fault),
    }
}

/// The text is accepted and stands for the given counts.
pub open spec fn sweeps_to(spec_text: Seq<char>, counts: Seq<usize>) -> bool {
    sweep_ranges(spec_text) matches Ok(ranges) && lists_counts(counts, ranges)
}

impl SweepError {
    /// The message, given how the faulty part of the text is quoted.
    pub fn message_with(&self, quoted: &str) -> (r: String)
        ensures
            r@ == fault_text(self@, quoted@),
    {
        match self {
            SweepError::BadRangeNumber(_) => "invalid number in range: ".to_owned().concat(quoted),
            SweepError::BadThreadCount(_) => "invalid thread count: ".to_owned().concat(quoted),
            SweepError::ZeroThreads => "thread counts must be >= 1".to_owned(),
            SweepError::Descending(low, high) => {
                let mut r = "range ".to_owned();
                r.append(to_decimal(*low as u128).as_str());
                r.append("-");
                r.append(to_decimal(*high as u128).as_str());
                r.append(" is descending");
                r
            },
            SweepError::Empty => "sweep specification is empty".to_owned(),
        }
    }

    /// The message for the user.
    pub fn message(&self) -> (r: String)
        ensures
            r@ == fault_message(self@),
    {
        match self {
            SweepError::BadRangeNumber(t) => self.message_with(quote(t.as_str()).as_str()),
            SweepError::BadThreadCount(t) => self.message_with(quote(t.as_str()).as_str()),
            _ => self.message_with(""),
        }
    }
}

/// Checks the two ends of a range.
fn check_range(low: usize, high: usize) -> (r: Result<(usize, usize), SweepError>)
    ensures
        match checked_range(low, high) {
            Ok(range) => r == Ok::<(usize, usize), SweepError>(range),
            Err(fault) => r matches Err(e) && e@ == fault,
        },
{
    if low == 0 || high == 0 {
        Err(SweepError::ZeroThreads)
    } else if low > high {
        Err(SweepError::Descending(low, high))
    } else {
        Ok((low, high))
    }
}

/// Reads one piece between commas.
pub fn read_item(piece: &[char]) -> (r: Result<Option<(usize, usize)>, SweepError>)
    ensures
        match item_range(piece@) {
            Ok(range) => r == Ok::<Option<(usize, usize)>, SweepError>(range),
            Err(fault) => r matches Err(e) && e@ == fault,
        },
{
    let item = trim(piece);
    if item.len() == 0 {
        return Ok(None);
    }
    let hyphen: usize = find(item, '-');
    let range = if hyphen < item.len() {
        let left = slice_subrange(item, 0, hyphen);
        let right = slice_subrange(item, hyphen + 1, item.len());
        assert(left@ =~= item@.take(hyphen as int));
        assert(right@ =~= item@.skip(hyphen + 1));
        match parse_number(trim(left)) {
            None => Err(SweepError::BadRangeNumber(from_chars(left))),
            Some(low) => match parse_number(trim(right)) {
                None => Err(SweepError::BadRangeNumber(from_chars(right))),
                Some(high) => check_range(low, high),
            },
        }
    } else {
        match parse_number(item) {
            None => Err(SweepError::BadThreadCount(from_chars(item))),
            Some(n) => check_range(n, n),
        }
    };
    match range {
        Ok(range) => Ok(Some(range)),
        Err(e) => Err(e),
    }
}

/// Reads a sweep specification, comma-separated counts and inclusive ranges,
/// up to its first fault: the ranges, and the fault if there is one.
pub fn read_sweep(s: &str) -> (r: (Vec<(usize, usize)>, Option<SweepError>))
    ensures
        r.0@ == listed(scan::pieces(s@, ',')),
        match sweep_ranges(s@) {
            Ok(ranges) => r.1 is None && r.0@ == ranges,
            Err(fault) => r.1 matches Some(e) && e@ == fault,
        },
{
    let chars = to_chars(s);
    let items = split(chars.as_slice(), ',');
    let ghost all = scan::pieces(s@, ',');
    let mut ranges: Vec<(usize, usize)> = Vec::new();
    assert(all.take(0) =~= Seq::<Seq<char>>::empty());
    for i in 0..items.len()
        invariant
            all == scan::pieces(s@, ','),
            scan::piece_views(items@) == all,
            item_ranges(all.take(i as int)) == Ok::<Seq<(usize, usize)>, SweepFault>(ranges@),
            listed(all.take(i as int)) == ranges@,
    {
        assert(all.take(i + 1).drop_last() =~= all.take(i as int));
        assert(all[i as int] == items@[i as int]@);
        match read_item(items[i].as_slice()) {
            Ok(None) => {},
            Ok(Some(range)) => ranges.push(range),
            Err(e) => {
                proof {
                    first_fault_decides(all, i + 1);
                }
                return (ranges, Some(e));
            },
        }
    }
    assert(all.take(all.len() as int) =~= all);
    if ranges.len() == 0 {
        return (ranges, Some(SweepError::Empty));
    }
    (ranges, None)
}

/// The first fault decides: what is wrong with the first pieces is wrong with
/// the whole, whatever follows.
pub proof fn first_fault_decides(pieces: Seq<Seq<char>>, k: int)
    requires
        0 <= k <= pieces.len(),
        item_ranges(pieces.take(k)) is Err,
    ensures
        item_ranges(pieces) == item_ranges(pieces.take(k)),
        listed(pieces) == listed(pieces.take(k)),
    decreases pieces.len(),
{
    if k == pieces.len() {
        assert(pieces.take(k) =~= pieces);
    } else {
        assert(pieces.drop_last().take(k) =~= pieces.take(k));
        first_fault_decides(pieces.drop_last(), k);
    }
}

/// Every range runs upwards.
pub open spec fn all_upward(ranges: Seq<(usize, usize)>) -> bool {
    forall|i: int| 0 <= i < ranges.len() ==> (#[trigger] ranges[i]).0 <= ranges[i].1
}

/// The ranges that are read start at 1 or above and run upwards.
pub(crate) proof fn lemma_items_upward(pieces: Seq<Seq<char>>)
    ensures
        all_upward(listed(pieces)),
        forall|i: int| 0 <= i < listed(pieces).len() ==> 1 <= (#[trigger] listed(pieces)[i]).0,
        item_ranges(pieces) matches Ok(ranges) ==> ranges == listed(pieces),
    decreases pieces.len(),
{
    if pieces.len() > 0 {
        lemma_items_upward(pieces.drop_last());
    }
}

/// The listing holds exactly what the ranges cover.
proof fn lemma_listing_covers(ranges: Seq<(usize, usize)>)
    requires
        all_upward(ranges),
    ensures
        forall|n: usize| #[trigger] listing(ranges).contains(n) <==> covers(ranges, n),
    decreases ranges.len(),
{
    if ranges.len() > 0 {
        let before = ranges.drop_last();
        let last = ranges.last();
        lemma_listing_covers(before);
        assert forall|n: usize| #[trigger] listing(ranges).contains(n) <==> covers(ranges, n) by {
            let whole = listing(ranges);
            let head = listing(before);
            if whole.contains(n) {
                let k = choose|k: int| 0 <= k < whole.len() && whole[k] == n;
                if k < head.len() {
                    assert(head[k] == n);
                    assert(head.contains(n));
                    assert(covers(before, n));
                    let i = choose|i: int|
                        0 <= i < before.len() && (#[trigger] before[i]).0 <= n <= before[i].1;
                    assert(ranges[i].0 <= n <= ranges[i].1);
                } else {
                    assert(range_values(last)[k - head.len()] == n);
                    assert(ranges[ranges.len() - 1].0 <= n <= ranges[ranges.len() - 1].1);
                }
            }
            if covers(ranges, n) {
                let i = choose|i: int|
                    0 <= i < ranges.len() && (#[trigger] ranges[i]).0 <= n <= ranges[i].1;
                if i < before.len() {
                    assert(before[i].0 <= n <= before[i].1);
                    assert(head.contains(n));
                    let k = choose|k: int| 0 <= k < head.len() && head[k] == n;
                    assert(whole[k] == n);
                } else {
                    assert(whole[head.len() + (n - last.0)] == n);
                }
            }
        }
    }
}

/// A vector can hold at least two to the 27th values.
pub(crate) proof fn lemma_limit()
    ensures
        vec_limit() >= 0x800_0000,
{
    let bytes = usize::BITS as nat / 8;
    assert(isize::MAX as nat / bytes >= 0x800_0000) by (nonlinear_arith)
        requires
            isize::MAX >= 0x7fff_ffff,
            1 <= bytes <= 8,
    ;
}

/// A prefix of the ranges lists no more than all of them.
proof fn lemma_listing_grows(ranges: Seq<(usize, usize)>, k: int)
    requires
        0 <= k <= ranges.len(),
    ensures
        listing(ranges.take(k)).len() <= listing(ranges).len(),
    decreases ranges.len(),
{
    if k == ranges.len() {
        assert(ranges.take(k) =~= ranges);
    } else {
        assert(ranges.drop_last().take(k) =~= ranges.take(k));
        lemma_listing_grows(ranges.drop_last(), k);
    }
}

/// Whether all the values of the ranges fit in a vector.
fn fits(ranges: &[(usize, usize)]) -> (b: bool)
    requires
        all_upward(ranges@),
    ensures
        b == (listing(ranges@).len() <= vec_limit()),
{
    let limit: u128 = isize::MAX as u128 / (usize::BITS as u128 / 8);
    let mut total: u128 = 0;
    assert(ranges@.take(0) =~= Seq::<(usize, usize)>::empty());
    for i in 0..ranges.len()
        invariant
            limit == vec_limit(),
            all_upward(ranges@),
            total == listing(ranges@.take(i as int)).len(),
            total <= limit,
    {
        assert(ranges@.take(i + 1).drop_last() =~= ranges@.take(i as int));
        assert(ranges@.take(i + 1).last() == ranges@[i as int]);
        total = total + (ranges[i].1 as u128 - ranges[i].0 as u128 + 1);
        proof {
            lemma_listing_grows(ranges@, i + 1);
        }
        if total > limit {
            return false;
        }
    }
    assert(ranges@.take(ranges@.len() as int) =~= ranges@);
    true
}

/// Lists the values of the ranges one after the other.
fn list(ranges: &[(usize, usize)]) -> (r: Vec<usize>)
    requires
        all_upward(ranges@),
        listing(ranges@).len() <= vec_limit(),
    ensures
        r@ == listing(ranges@),
{
    let mut r: Vec<usize> = Vec::new();
    assert(ranges@.take(0) =~= Seq::<(usize, usize)>::empty());
    for i in 0..ranges.len()
        invariant
            all_upward(ranges@),
            r@ == listing(ranges@.take(i as int)),
    {
        let ghost before = r@;
        assert(ranges@.take(i + 1).drop_last() =~= ranges@.take(i as int));
        assert(ranges@.take(i + 1).last() == ranges@[i as int]);
        let (low, high) = ranges[i];
        let mut n: usize = low;
        r.push(n);
        assert(r@ =~= before + range_values((low, high)).take(1));
        while n < high
            invariant
                low <= n <= high,
                r@ == before + range_values((low, high)).take(n - low + 1),
            decreases high - n,
        {
            n += 1;
            r.push(n);
            assert(r@ =~= before + range_values((low, high)).take(n - low + 1));
        }
        assert(range_values((low, high)).take(high - low + 1) =~= range_values((low, high)));
    }
    assert(ranges@.take(ranges@.len() as int) =~= ranges@);
    r
}

/// Drops repetitions from values in ascending order.
fn distinct(s: &[usize]) -> (r: Vec<usize>)
    requires
        order::ascending(s@),
    ensures
        strictly_ascending(r@),
        forall|n: usize| #[trigger] r@.contains(n) <==> s@.contains(n),
{
    let mut r: Vec<usize> = Vec::new();
    for i in 0..s.len()
        invariant
            order::ascending(s@),
            strictly_ascending(r@),
            i == 0 <==> r@.len() == 0,
            i > 0 ==> r@.last() == s@[i - 1],
            forall|n: usize| #[trigger] r@.contains(n) <==> s@.take(i as int).contains(n),
    {
        let ghost before = r@;
        proof {
            if i > 0 {
                assert(s@[i - 1].rank() <= s@[i as int].rank());
            }
        }
        if i == 0 || r[r.len() - 1] != s[i] {
            r.push(s[i]);
        }
        assert forall|n: usize| #[trigger] r@.contains(n) <==> s@.take(i + 1).contains(n) by {
            if before.contains(n) {
                let k = choose|k: int| 0 <= k < before.len() && before[k] == n;
                assert(r@[k] == n);
                assert(s@.take(i as int).contains(n));
                let m = choose|m: int| 0 <= m < i && s@.take(i as int)[m] == n;
                assert(s@.take(i + 1)[m] == n);
            }
            assert(r@.last() == s@[i as int]);
            assert(s@.take(i + 1)[i as int] == s@[i as int]);
            if n == s@[i as int] {
                assert(r@.contains(n));
                assert(s@.take(i + 1).contains(n));
            } else {
                if r@.contains(n) {
                    let k = choose|k: int| 0 <= k < r@.len() && r@[k] == n;
                    assert(before[k] == n);
                }
                if s@.take(i + 1).contains(n) {
                    let upto = s@.take(i + 1);
                    let m = choose|m: int| 0 <= m < upto.len() && upto[m] == n;
                    assert(s@.take(i as int)[m] == n);
                    assert(s@.take(i as int).contains(n));
                }
            }
        }
    }
    assert(s@.take(s@.len() as int) =~= s@);
    r
}

/// The values of the ranges, each once, in ascending order.
fn counts(ranges: &[(usize, usize)]) -> (r: Vec<usize>)
    requires
        all_upward(ranges@),
        listing(ranges@).len() <= vec_limit(),
    ensures
        lists_counts(r@, ranges@),
{
    let all = list(ranges);
    let ordered = sorted(all.as_slice());
    proof {
        lemma_listing_covers(ranges@);
        all@.to_multiset_ensures();
        ordered@.to_multiset_ensures();
        assert forall|n: usize| #[trigger] ordered@.contains(n) <==> all@.contains(n) by {
            assert(ordered@.contains(n) <==> ordered@.to_multiset().count(n) > 0);
            assert(all@.contains(n) <==> all@.to_multiset().count(n) > 0);
        }
    }
    distinct(ordered.as_slice())
}

/// Parses a sweep specification into thread counts: every count once, in
/// ascending order.
///
/// The values that the text lists have to fit in a vector. [`try_parse_sweep`]
/// tests that first.
pub fn parse_sweep(s: &str) -> (r: Result<Vec<usize>, String>)
    requires
        listing_fits(s@),
    ensures
        parses_to(s@, r),
{
    let (ranges, fault) = read_sweep(s);
    proof {
        lemma_items_upward(scan::pieces(s@, ','));
    }
    match fault {
        Some(e) => Err(e.message()),
        None => Ok(counts(ranges.as_slice())),
    }
}

/// Parses a sweep specification, or returns `None` where the values that it
/// lists do not fit in a vector.
pub fn try_parse_sweep(s: &str) -> (r: Option<Result<Vec<usize>, String>>)
    ensures
        r is Some <==> listing_fits(s@),
        listing(listed(scan::pieces(s@, ','))).len() <= 0x800_0000 ==> r is Some,
        r matches Some(parsed) ==> parses_to(s@, parsed),
{
    let (ranges, fault) = read_sweep(s);
    proof {
        lemma_items_upward(scan::pieces(s@, ','));
        lemma_limit();
    }
    if !fits(ranges.as_slice()) {
        return None;
    }
    match fault {
        Some(e) => Some(Err(e.message())),
        None => Some(Ok(counts(ranges.as_slice()))),
    }
}

proof fn lemma_ascending_unique(a: Seq<usize>, b: Seq<usize>)
    requires
        strictly_ascending(a),
        strictly_ascending(b),
        forall|n: usize| #[trigger] a.contains(n) <==> b.contains(n),
    ensures
        a == b,
    decreases a.len(),
{
    if a.len() == 0 {
        if b.len() > 0 {
            assert(b.contains(b[0]));
            assert(a.contains(b[0]));
        }
        assert(a =~= b);
    } else {
        assert(a.contains(a.last()));
        assert(b.contains(a.last()));
        assert(b.contains(b.last()));
        assert(a.contains(b.last()));
        let i = choose|i: int| 0 <= i < a.len() && a[i] == b.last();
        let j = choose|j: int| 0 <= j < b.len() && b[j] == a.last();
        assert(a[i] <= a[a.len() - 1]);
        assert(b[j] <= b[b.len() - 1]);
        assert(a.last() == b.last());
        let ra = a.drop_last();
        let rb = b.drop_last();
        assert forall|n: usize| #[trigger] ra.contains(n) <==> rb.contains(n) by {
            if ra.contains(n) {
                let k = choose|k: int| 0 <= k < ra.len() && ra[k] == n;
                assert(a[k] < a[a.len() - 1]);
                assert(a.contains(n));
                let m = choose|m: int| 0 <= m < b.len() && b[m] == n;
                assert(rb[m] == n);
            }
            if rb.contains(n) {
                let k = choose|k: int| 0 <= k < rb.len() && rb[k] == n;
                assert(b[k] < b[b.len() - 1]);
                assert(b.contains(n));
                assert(a.contains(n));
                let m = choose|m: int| 0 <= m < a.len() && a[m] == n;
                assert(ra[m] == n);
            }
        }
        lemma_ascending_unique(ra, rb);
        assert(ra.push(a.last()) =~= a);
        assert(rb.push(b.last()) =~= b);
    }
}

/// The thread counts depend only on which counts the ranges hold: neither the
/// order of the ranges nor repetitions nor overlaps make a difference.
pub proof fn counts_are_determined(
    a: Seq<usize>,
    a_ranges: Seq<(usize, usize)>,
    b: Seq<usize>,
    b_ranges: Seq<(usize, usize)>,
)
    requires
        lists_counts(a, a_ranges),
        lists_counts(b, b_ranges),
        forall|n: usize| #[trigger] covers(a_ranges, n) <==> covers(b_ranges, n),
    ensures
        a == b,
{
    assert forall|n: usize| #[trigger] a.contains(n) <==> b.contains(n) by {
        assert(a.contains(n) <==> covers(a_ranges, n));
        assert(b.contains(n) <==> covers(b_ranges, n));
    }
    lemma_ascending_unique(a, b);
}

/// A sweep that is accepted has at least one thread count, and none of its
/// counts is zero.
pub proof fn counts_are_positive(spec_text: Seq<char>, counts: Seq<usize>)
    requires
        sweeps_to(spec_text, counts),
    ensures
        counts.len() > 0,
        forall|i: int| 0 <= i < counts.len() ==> #[trigger] counts[i] >= 1,
{
    let ranges = sweep_ranges(spec_text)->Ok_0;
    lemma_items_upward(scan::pieces(spec_text, ','));
    assert(ranges[0].0 <= ranges[0].0 <= ranges[0].1);
    assert(covers(ranges, ranges[0].0));
    assert(counts.contains(ranges[0].0));
    assert forall|i: int| 0 <= i < counts.len() implies #[trigger] counts[i] >= 1 by {
        assert(counts.contains(counts[i]));
        let k = choose|k: int|
            0 <= k < ranges.len() && (#[trigger] ranges[k]).0 <= counts[i] <= ranges[k].1;
        assert(1 <= ranges[k].0);
    }
}

/// White space around an item makes no difference.
pub proof fn blanks_around_items_are_ignored(piece: Seq<char>)
    ensures
        item_range(piece) == item_range(scan::trimmed(piece)),
{
    scan::trimming_is_final(piece);
}

/// The text of the range from `low` to `high`.
pub open spec fn range_text(low: usize, high: usize) -> Seq<char> {
    text::decimal(low as nat) + seq!['-'] + text::decimal(high as nat)
}

/// A range as it is written, read back.
pub(crate) proof fn lemma_written_range(low: usize, high: usize)
    ensures
        scan::pieces(range_text(low, high), ',') == seq![range_text(low, high)],
        item_range(range_text(low, high)) == (match checked_range(low, high) {
            Err(fault) => Err::<Option<(usize, usize)>, SweepFault>(fault),
            Ok(range) => Ok(Some(range)),
        }),
{
    let a = text::decimal(low as nat);
    let b = text::decimal(high as nat);
    let item = range_text(low, high);
    scan::lemma_decimal_plain(low as nat);
    scan::lemma_decimal_plain(high as nat);
    scan::lemma_decimal_digits(low as nat);
    scan::lemma_decimal_digits(high as nat);
    scan::decimal_is_read_back(low);
    scan::decimal_is_read_back(high);
    if item.contains(',') {
        let i = choose|i: int| 0 <= i < item.len() && item[i] == ',';
        if i < a.len() {
            assert(a[i] == ',');
        } else {
            assert(b[i - a.len() - 1] == ',');
        }
    }
    scan::lemma_one_piece(item, ',');
    assert(scan::is_digit(a[0]) && item[0] == a[0]);
    assert(scan::is_digit(b[b.len() - 1]) && item.last() == b[b.len() - 1]);
    assert(scan::trimmed(item) == item);
    scan::lemma_first_behind(a, seq!['-'] + b, '-');
    assert(a + (seq!['-'] + b) =~= item);
    let hyphen = scan::first_position(item, '-') as int;
    assert(hyphen == a.len());
    assert(item.take(hyphen) =~= a);
    assert(item.skip(hyphen + 1) =~= b);
}

/// A range is inclusive: `low-high` stands for every count from `low` to
/// `high`.
pub proof fn ranges_are_inclusive(low: usize, high: usize)
    requires
        1 <= low <= high,
    ensures
        sweep_ranges(range_text(low, high)) == Ok::<Seq<(usize, usize)>, SweepFault>(
            seq![(low, high)],
        ),
        lists_counts(range_values((low, high)), seq![(low, high)]),
{
    let ranges = seq![(low, high)];
    let values = range_values((low, high));
    assert forall|n: usize| #[trigger] values.contains(n) <==> covers(ranges, n) by {
        if values.contains(n) {
            assert(ranges[0].0 <= n <= ranges[0].1);
        }
        if covers(ranges, n) {
            assert(values[n - low] == n);
        }
    }
    lemma_written_range(low, high);
    lemma_one_item(range_text(low, high));
    assert(Seq::<(usize, usize)>::empty().push((low, high)) =~= ranges);
}

/// A range that runs downwards is refused, and so is one with a zero at either
/// end.
pub proof fn bad_ranges_are_refused(low: usize, high: usize)
    requires
        low > high || low == 0,
    ensures
        sweep_ranges(range_text(low, high)) == Err::<Seq<(usize, usize)>, SweepFault>(
            if low == 0 || high == 0 {
                SweepFault::ZeroThreads
            } else {
                SweepFault::Descending(low, high)
            },
        ),
{
    lemma_written_range(low, high);
    lemma_one_item(range_text(low, high));
}

/// The ranges of a single piece.
pub(crate) proof fn lemma_one_item(piece: Seq<char>)
    ensures
        item_ranges(seq![piece]) == (match item_range(piece) {
            Err(fault) => Err::<Seq<(usize, usize)>, SweepFault>(fault),
            Ok(None) => Ok(Seq::<(usize, usize)>::empty()),
            Ok(Some(range)) => Ok(Seq::<(usize, usize)>::empty().push(range)),
        }),
{
    let one = seq![piece];
    assert(one.drop_last() =~= Seq::<Seq<char>>::empty());
    assert(one.last() == piece);
    assert(item_ranges(one.drop_last()) == Ok::<Seq<(usize, usize)>, SweepFault>(seq![]));
}

/// What two lists of pieces hold together.
pub(crate) proof fn lemma_items_together(a: Seq<Seq<char>>, b: Seq<Seq<char>>)
    requires
        item_ranges(a) is Ok,
        item_ranges(b) is Ok,
    ensures
        item_ranges(a + b) == Ok::<Seq<(usize, usize)>, SweepFault>(
            item_ranges(a)->Ok_0 + item_ranges(b)->Ok_0,
        ),
    decreases b.len(),
{
    let x = item_ranges(a)->Ok_0;
    if b.len() == 0 {
        assert(a + b =~= a);
        assert(x + Seq::<(usize, usize)>::empty() =~= x);
    } else {
        let before = b.drop_last();
        assert((a + b).drop_last() =~= a + before);
        assert((a + b).last() == b.last());
        lemma_items_together(a, before);
        let y = item_ranges(before)->Ok_0;
        if let Ok(Some(range)) = item_range(b.last()) {
            assert((x + y).push(range) =~= x + y.push(range));
        }
    }
}

/// What the two parts of a list of ranges cover.
proof fn lemma_covers_together(a: Seq<(usize, usize)>, b: Seq<(usize, usize)>, n: usize)
    ensures
        covers(a + b, n) <==> covers(a, n) || covers(b, n),
{
    let both = a + b;
    if covers(both, n) {
        let i = choose|i: int| 0 <= i < both.len() && (#[trigger] both[i]).0 <= n <= both[i].1;
        if i < a.len() {
            assert(a[i].0 <= n <= a[i].1);
        } else {
            assert(b[i - a.len()].0 <= n <= b[i - a.len()].1);
        }
    }
    if covers(a, n) {
        let i = choose|i: int| 0 <= i < a.len() && (#[trigger] a[i]).0 <= n <= a[i].1;
        assert(both[i].0 <= n <= both[i].1);
    }
    if covers(b, n) {
        let i = choose|i: int| 0 <= i < b.len() && (#[trigger] b[i]).0 <= n <= b[i].1;
        assert(both[a.len() + i].0 <= n <= both[a.len() + i].1);
    }
}

/// Two specifications with a comma between them, in one order.
proof fn lemma_joined_sweep(
    a: Seq<char>,
    x: Seq<usize>,
    b: Seq<char>,
    y: Seq<usize>,
    union: Seq<usize>,
)
    requires
        sweeps_to(a, x),
        sweeps_to(b, y),
        strictly_ascending(union),
        forall|n: usize| #[trigger] union.contains(n) <==> x.contains(n) || y.contains(n),
    ensures
        sweeps_to(a + seq![','] + b, union),
{
    let p = sweep_ranges(a)->Ok_0;
    let q = sweep_ranges(b)->Ok_0;
    scan::splitting_goes_on_behind_a_separator(a, b, ',');
    lemma_items_together(scan::pieces(a, ','), scan::pieces(b, ','));
    assert forall|n: usize| #[trigger] union.contains(n) <==> covers(p + q, n) by {
        lemma_covers_together(p, q, n);
        assert(x.contains(n) <==> covers(p, n));
        assert(y.contains(n) <==> covers(q, n));
    }
}

/// Two specifications with a comma between them, in either order, stand for
/// the union of their counts.
pub proof fn joined_sweeps_give_the_union(
    a: Seq<char>,
    x: Seq<usize>,
    b: Seq<char>,
    y: Seq<usize>,
    union: Seq<usize>,
)
    requires
        sweeps_to(a, x),
        sweeps_to(b, y),
        strictly_ascending(union),
        forall|n: usize| #[trigger] union.contains(n) <==> x.contains(n) || y.contains(n),
    ensures
        sweeps_to(a + seq![','] + b, union),
        sweeps_to(b + seq![','] + a, union),
{
    lemma_joined_sweep(a, x, b, y, union);
    lemma_joined_sweep(b, y, a, x, union);
}

/// A specification that is repeated stands for the same counts.
pub proof fn repeated_sweeps_change_nothing(a: Seq<char>, x: Seq<usize>)
    requires
        sweeps_to(a, x),
    ensures
        sweeps_to(a + seq![','] + a, x),
{
    lemma_joined_sweep(a, x, a, x, x);
}

} // verus!
