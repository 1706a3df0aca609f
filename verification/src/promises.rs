//! What the functions that calculate and write promise of what they return.

use vstd::prelude::*;

use crate::axis::{find_line, find_value, nice_axis_max};
use crate::binary64::{self, Binary, Float};
use crate::decimal::{self, show};
use crate::exact::{self, apart, near, part, value};
use crate::number::{Figure, Number};
use crate::order::{self, sorted};
use crate::outputs::{self, finite, not_above};
use crate::scan::{self, find, is_white_space, parse_number, split, trim};
use crate::spawn::{reap_step, spawn_failure, Reap};
use crate::stats::{percentile_index, sample_total};
use crate::style::{show_progress, use_colour, Style};
use crate::tables;
use crate::text::{
    self, align_right, centre, digit, from_chars, join, plural, to_chars, to_decimal,
};
use crate::units::{fmt_dur, fmt_scaled, pick_unit};
use crate::wording::{self, all_digits, reads_as};

verus! {

/// A child that was waited for is reaped. An interrupted call is made again,
/// and any other failure is one.
pub proof fn interrupted_waits_are_repeated(
    pid: i32,
    waited: i32,
    errno: Option<i32>,
    eintr: i32,
    step: Reap,
)
    requires
        call_ensures(reap_step, (pid, waited, errno, eintr), step),
    ensures
        step is Done <==> waited == pid,
        step is Again <==> waited != pid && errno == Some(eintr),
        step is Failed <==> waited != pid && errno != Some(eintr),
{
}

/// A spawn fails with what the call returned, unless that is zero.
pub proof fn spawns_fail_with_their_code(rc: i32, code: Option<i32>)
    requires
        call_ensures(spawn_failure, (rc,), code),
    ensures
        code is None <==> rc == 0,
        code matches Some(c) ==> c == rc,
{
}

/// Without colour the style adds no character, and with colour it adds the
/// escape sequences of the terminal.
pub proof fn styles_are_escape_sequences_or_nothing(enable: bool, style: Style)
    requires
        call_ensures(Style::new, (enable,), style),
    ensures
        !enable ==> style.bold@.len() == 0 && style.dim@.len() == 0 && style.green@.len() == 0
            && style.cyan@.len() == 0 && style.reset@.len() == 0,
        enable ==> style.bold@ == seq!['\u{1b}', '[', '1', 'm'],
        enable ==> style.dim@ == seq!['\u{1b}', '[', '2', 'm'],
        enable ==> style.green@ == seq!['\u{1b}', '[', '3', '2', ';', '1', 'm'],
        enable ==> style.cyan@ == seq!['\u{1b}', '[', '3', '6', 'm'],
        enable ==> style.reset@ == seq!['\u{1b}', '[', '0', 'm'],
{
    reveal_strlit("");
    reveal_strlit("\x1b[1m");
    reveal_strlit("\x1b[2m");
    reveal_strlit("\x1b[32;1m");
    reveal_strlit("\x1b[36m");
    reveal_strlit("\x1b[0m");
    assert("\x1b[1m"@ =~= seq!['\u{1b}', '[', '1', 'm']);
    assert("\x1b[2m"@ =~= seq!['\u{1b}', '[', '2', 'm']);
    assert("\x1b[32;1m"@ =~= seq!['\u{1b}', '[', '3', '2', ';', '1', 'm']);
    assert("\x1b[36m"@ =~= seq!['\u{1b}', '[', '3', '6', 'm']);
    assert("\x1b[0m"@ =~= seq!['\u{1b}', '[', '0', 'm']);
}

/// Colour is for a terminal, and neither for CSV nor for one who does not want
/// it; the note on a run is for a terminal, and not for CSV.
pub proof fn colour_and_progress_are_for_terminals(
    no_colour: bool,
    csv: bool,
    tty: bool,
    colour: bool,
    progress: bool,
)
    requires
        call_ensures(use_colour, (no_colour, csv, tty), colour),
        call_ensures(show_progress, (csv, tty), progress),
    ensures
        colour ==> progress,
        !tty ==> !colour && !progress,
        csv ==> !colour && !progress,
        no_colour ==> !colour,
        tty && !csv ==> progress && colour == !no_colour,
{
}

/// White space is what Unicode counts as such.
pub proof fn white_space_is_that_of_unicode(c: char, b: bool)
    requires
        call_ensures(is_white_space, (c,), b),
    ensures
        b <==> 9 <= c as int <= 13 || c as int == 0x20 || c as int == 0x85 || c as int == 0xa0
            || c as int == 0x1680 || 0x2000 <= c as int <= 0x200a || c as int == 0x2028 || c as int
            == 0x2029 || c as int == 0x202f || c as int == 0x205f || c as int == 0x3000,
        b == scan::white_space(c),
{
}

/// Trimming takes white space from both ends of the text and nothing else.
pub proof fn trim_takes_white_space_from_the_ends(s: &[char], r: &[char]) -> (cut: (
    Seq<char>,
    Seq<char>,
))
    requires
        call_ensures(trim, (s,), r),
    ensures
        s@ == cut.0 + r@ + cut.1,
        forall|i: int| 0 <= i < cut.0.len() ==> scan::white_space(#[trigger] cut.0[i]),
        forall|i: int| 0 <= i < cut.1.len() ==> scan::white_space(#[trigger] cut.1[i]),
        r@.len() > 0 ==> !scan::white_space(r@[0]) && !scan::white_space(r@[r@.len() - 1]),
{
    wording::trimming_takes_only_white_space(s@)
}

/// The pieces that text is split into hold no separator, and joined with it
/// they are the text.
pub proof fn split_pieces_are_the_text_between_separators(
    s: &[char],
    sep: char,
    r: Vec<Vec<char>>,
)
    requires
        call_ensures(split, (s, sep), r),
    ensures
        r@.len() > 0,
        text::joined(Seq::new(r@.len(), |i: int| r@[i]@), seq![sep]) == s@,
        forall|i: int| 0 <= i < r@.len() ==> !(#[trigger] r@[i])@.contains(sep),
{
    let all = scan::pieces(s@, sep);
    assert(Seq::new(r@.len(), |i: int| r@[i]@) =~= scan::piece_views(r@));
    lemma_pieces(s@, sep);
    assert forall|i: int| 0 <= i < r@.len() implies !(#[trigger] r@[i])@.contains(sep) by {
        assert(all[i] == r@[i]@);
    }
}

proof fn lemma_pieces(s: Seq<char>, sep: char)
    ensures
        scan::pieces(s, sep).len() > 0,
        text::joined(scan::pieces(s, sep), seq![sep]) == s,
        forall|i: int|
            0 <= i < scan::pieces(s, sep).len() ==> !(#[trigger] scan::pieces(s, sep)[i]).contains(
                sep,
            ),
    decreases s.len(),
{
    let all = scan::pieces(s, sep);
    if s.len() == 0 {
        assert(all[0] =~= s);
    } else {
        let before = scan::pieces(s.drop_last(), sep);
        let c = s.last();
        lemma_pieces(s.drop_last(), sep);
        assert(s.drop_last().push(c) =~= s);
        if c == sep {
            assert(all.drop_last() =~= before);
            assert(text::joined(all, seq![sep]) =~= s);
        } else {
            let last = before.last().push(c);
            assert(all.drop_last() =~= before.drop_last());
            assert(text::joined(all, seq![sep]) =~= text::joined(before, seq![sep]).push(c));
            assert forall|i: int| 0 <= i < all.len() implies !(#[trigger] all[i]).contains(sep) by {
                if i == all.len() - 1 {
                    assert(!before[i].contains(sep));
                    if last.contains(sep) {
                        let k = choose|k: int| 0 <= k < last.len() && last[k] == sep;
                        assert(before[i][k] == sep);
                    }
                } else {
                    assert(all[i] == before[i]);
                }
            }
        }
    }
}

/// A character is found where it first stands; where it stands nowhere the
/// position is the length of the text.
pub proof fn find_gives_the_first_position(s: &[char], c: char, i: usize)
    requires
        call_ensures(find, (s, c), i),
    ensures
        i <= s@.len(),
        forall|k: int| 0 <= k < i ==> #[trigger] s@[k] != c,
        i < s@.len() ==> s@[i as int] == c,
{
    wording::first_position_is_the_first(s@, c);
}

/// A number is one or more digits, with a plus sign before them or not, that
/// read as what a `usize` holds.
pub proof fn parsed_numbers_are_what_the_digits_read_as(s: &[char], r: Option<usize>)
    requires
        call_ensures(parse_number, (s,), r),
    ensures
        ({
            let body = if s@.len() > 0 && s@[0] == '+' {
                s@.skip(1)
            } else {
                s@
            };
            let good = body.len() > 0 && all_digits(body) && reads_as(body) <= usize::MAX;
            &&& r is Some <==> good
            &&& r matches Some(n) ==> n == reads_as(body)
        }),
{
    wording::numbers_are_rows_of_digits(s@);
}

/// Text is taken apart into its characters and put together from them.
pub proof fn characters_are_kept(s: &str, chars: Vec<char>, given: &[char], made: String)
    requires
        call_ensures(to_chars, (s,), chars),
        call_ensures(from_chars, (given,), made),
    ensures
        chars@ == s@,
        made@ == given@,
{
}

/// A number in decimal reads as the number, and has no zeros before it.
pub proof fn decimals_read_as_the_number(n: u128, s: String, d: u128, c: char)
    requires
        call_ensures(to_decimal, (n,), s),
        call_ensures(digit, (d,), c),
    ensures
        all_digits(s@) && reads_as(s@) == n,
        s@.len() == 1 || (s@.len() > 1 && s@[0] != '0'),
        d < 10 ==> c as int == '0' as int + d,
{
    wording::decimal_reads_as_the_number(n as nat);
}

/// Aligned text has blanks before it, and centred text on both sides, as many
/// as the field needs; of an odd number one more is behind the text.
pub proof fn fields_are_filled_with_blanks(s: &str, width: usize, right: String, middle: String)
    requires
        call_ensures(align_right, (s, width), right),
        call_ensures(centre, (s, width), middle),
    ensures
        ({
            let gap = if s@.len() < width {
                width - s@.len()
            } else {
                0
            };
            &&& right@.len() == s@.len() + gap && middle@.len() == s@.len() + gap
            &&& right@.skip(gap) == s@
            &&& middle@.subrange(gap / 2, gap / 2 + s@.len()) == s@
            &&& forall|i: int| 0 <= i < gap ==> #[trigger] right@[i] == ' '
            &&& forall|i: int|
                0 <= i < middle@.len() && !(gap / 2 <= i < gap / 2 + s@.len())
                    ==> #[trigger] middle@[i] == ' '
        }),
{
    wording::right_alignment_puts_blanks_before(s@, width as nat);
    wording::centring_puts_blanks_around(s@, width as nat);
}

/// Parts are joined in order, with the separator between neighbours only.
pub proof fn joined_text_has_separators_between_parts(
    parts: &[String],
    sep: &str,
    r: String,
    k: int,
)
    requires
        call_ensures(join, (parts, sep), r),
    ensures
        parts@.len() == 0 ==> r@.len() == 0,
        parts@.len() == 1 ==> r@ == parts@[0]@,
        0 < k < parts@.len() ==> r@ == text::joined(
            Seq::new(k as nat, |i: int| parts@[i]@),
            sep@,
        ) + sep@ + text::joined(
            Seq::new((parts@.len() - k) as nat, |i: int| parts@[k + i]@),
            sep@,
        ),
{
    let all = text::views(parts@);
    if 0 < k < parts@.len() {
        let a = Seq::new(k as nat, |i: int| parts@[i]@);
        let b = Seq::new((parts@.len() - k) as nat, |i: int| parts@[k + i]@);
        assert(a + b =~= all);
        wording::joining_goes_part_by_part(a, b, sep@);
    }
}

/// Only one thing is in the singular.
pub proof fn plurals_end_in_s(n: usize, s: &'static str)
    requires
        call_ensures(plural, (n,), s),
    ensures
        n == 1 ==> s@.len() == 0,
        n != 1 ==> s@ == seq!['s'],
{
    reveal_strlit("");
    reveal_strlit("s");
    assert("s"@ =~= seq!['s']);
}

/// The unit goes by thousands: its length in nanoseconds and its label.
pub proof fn picked_units_fit_the_time(ns: Float, unit: (u64, &'static str))
    requires
        call_ensures(pick_unit, (ns,), unit),
    ensures
        unit.0 as real == tables::unit_for(value(ns@)).0,
        unit.1@ == tables::unit_for(value(ns@)).1,
{
    wording::units_go_by_thousands(ns@);
}

/// A time is written in units with two places, and a duration in its own unit
/// with a blank before the label.
pub proof fn times_are_written_in_their_unit(
    ns: Float,
    div: u64,
    s: String,
    wall: u128,
    t: String,
) -> (q: (Binary, Binary))
    requires
        0 < div < 9_007_199_254_740_992,
        call_ensures(fmt_scaled, (ns, div), s),
        call_ensures(fmt_dur, (wall,), t),
    ensures
        s@ == decimal::shown(q.0, 2),
        near(value(q.0), value(ns@) / div as real, 1 as real),
        ({
            let x = value(binary64::whole(wall as nat));
            let (length, label) = tables::unit_for(x);
            &&& t@ == decimal::shown(q.1, 2) + seq![' '] + label
            &&& near(value(q.1), x / length, 1 as real)
        }),
{
    (
        wording::times_are_written_in_units(ns@, div as nat),
        wording::durations_are_written_with_their_unit(wall as nat),
    )
}

/// A figure is written with the given places, to the nearest.
pub proof fn shown_figures_are_nearest(a: Float, places: u32, s: String, x: Number, t: String)
    requires
        call_ensures(show, (a, places), s),
        call_ensures(Number::show, (x, places), t),
    ensures
        s@ == decimal::shown(a@, places as nat),
        x matches Number::Finite(b) ==> t@ == decimal::shown(b@, places as nat),
        x is Infinite ==> t@ == seq!['i', 'n', 'f'],
        x is Undefined ==> t@ == seq!['N', 'a', 'N'],
{
    wording::figures_are_written(x@, places as nat);
}

/// Zero is zero, and a whole number below two to the 53rd is itself.
pub proof fn whole_numbers_are_themselves(zero: Float, n: u128, f: Float, x: Float, b: bool)
    requires
        call_ensures(Float::zero, (), zero),
        call_ensures(Float::from_whole, (n,), f),
        call_ensures(Float::is_zero, (x,), b),
    ensures
        value(zero@) == 0 as real,
        near(value(f@), n as real, 1 as real),
        n < 9_007_199_254_740_992 ==> value(f@) == n as real,
        b <==> value(x@) == 0 as real,
{
    exact::lemma_value_sign(zero@);
    exact::lemma_value_sign(x@);
    exact::whole_numbers_stay_near(n as nat);
}

/// Sums, differences, products and quotients are those of the real numbers, but
/// for one part, and so is the square of a root, but for three.
pub proof fn arithmetic_is_that_of_real_numbers(
    a: Float,
    b: Float,
    plus: Float,
    minus: Float,
    times: Float,
    over: Float,
    less: bool,
)
    requires
        call_ensures(Float::plus, (a, b), plus),
        call_ensures(Float::minus, (a, b), minus),
        call_ensures(Float::times, (a, b), times),
        call_ensures(Float::over, (a, b), over),
        call_ensures(Float::is_less, (a, b), less),
    ensures
        near(value(plus@), value(a@) + value(b@), 1 as real),
        near(value(minus@), apart(value(a@), value(b@)), 1 as real),
        near(value(times@), value(a@) * value(b@), 1 as real),
        value(b@) > 0 as real ==> near(value(over@), value(a@) / value(b@), 1 as real),
        less <==> value(a@) < value(b@),
{
    exact::sums_stay_near(a@, b@);
    exact::differences_stay_near(a@, b@);
    exact::products_stay_near(a@, b@);
    exact::lemma_value_sign(b@);
    if b@.m > 0 {
        exact::quotients_stay_near(a@, b@);
    }
    exact::order_is_that_of_the_values(a@, b@);
}

/// The square of a root is the number, but for three parts.
pub proof fn roots_square_to_the_number(a: Float, root: Float)
    requires
        call_ensures(Float::sqrt, (a,), root),
        a@.normal(),
    ensures
        near(value(root@) * value(root@), value(a@), 3 as real),
{
    exact::roots_stay_near(a@);
}

/// A quotient of figures: of two that are finite it is that of the values, or
/// infinite over zero; what is finite is nothing beside what is infinite, which
/// stays so over what is finite. All else is undefined.
pub proof fn figures_are_divided_by_their_values(x: Number, y: Number, r: Number)
    requires
        call_ensures(Number::over, (x, y), r),
    ensures
        x is Finite && y is Finite && finite(y@) > 0 as real ==> r is Finite && near(
            finite(r@),
            finite(x@) / finite(y@),
            1 as real,
        ),
        x is Finite && y is Finite && finite(y@) == 0 as real && finite(x@) > 0 as real
            ==> r is Infinite,
        x is Finite && y is Finite && finite(y@) == 0 as real && finite(x@) == 0 as real
            ==> r is Undefined,
        x is Finite && y is Infinite ==> r is Finite && finite(r@) == 0 as real,
        x is Infinite && y is Finite ==> r is Infinite,
        x is Infinite && y is Infinite ==> r is Undefined,
        x is Undefined || y is Undefined ==> r is Undefined,
{
    exact::lemma_value_sign(Binary { m: 0, e: 0 });
    if let (Figure::Finite(a), Figure::Finite(b)) = (x@, y@) {
        exact::lemma_value_sign(a);
        exact::lemma_value_sign(b);
        if b.m > 0 {
            exact::quotients_stay_near(a, b);
        }
    }
}

/// A quotient of two numbers is infinite over zero, and undefined of zero over
/// zero.
pub proof fn numbers_are_divided_by_their_values(a: Float, b: Float, r: Number)
    requires
        call_ensures(Number::ratio_of, (a, b), r),
    ensures
        value(b@) > 0 as real ==> r is Finite && near(
            finite(r@),
            value(a@) / value(b@),
            1 as real,
        ),
        value(b@) == 0 as real && value(a@) > 0 as real ==> r is Infinite,
        value(b@) == 0 as real && value(a@) == 0 as real ==> r is Undefined,
{
    exact::lemma_value_sign(a@);
    exact::lemma_value_sign(b@);
    if b@.m > 0 {
        exact::quotients_stay_near(a@, b@);
    }
}

/// A product with a figure is that of the values. What is infinite stays so,
/// but for a product with zero.
pub proof fn figures_are_multiplied_by_their_values(x: Number, b: Float, r: Number)
    requires
        call_ensures(Number::times, (x, b), r),
    ensures
        x is Finite ==> r is Finite && near(finite(r@), finite(x@) * value(b@), 1 as real),
        x is Infinite && value(b@) > 0 as real ==> r is Infinite,
        x is Infinite && value(b@) == 0 as real ==> r is Undefined,
        x is Undefined ==> r is Undefined,
{
    exact::lemma_value_sign(b@);
    if let Figure::Finite(a) = x@ {
        exact::products_stay_near(a, b@);
    }
}

/// A figure is less than another where it is not above it and the other is
/// above; nothing is less than an undefined figure, nor is that less.
pub proof fn figures_are_less_by_their_values(x: Number, y: Number, b: bool)
    requires
        call_ensures(Number::is_less, (x, y), b),
    ensures
        x !is Undefined && y !is Undefined ==> b == !not_above(y@, x@),
        x is Undefined || y is Undefined ==> !b,
{
    if x !is Undefined && y !is Undefined {
        outputs::figures_are_compared_by_their_values(x@, y@);
    }
}

/// The end of an axis is not below the value that it is for. It is one, two or
/// five times a power of ten, and no such number that reaches the value is
/// smaller, but for four parts.
pub proof fn nice_ends_are_the_first(v: Number, r: Number, m: nat, k: int) -> (found: (nat, int))
    requires
        call_ensures(nice_axis_max, (v,), r),
        m == 1 || m == 2 || m == 5,
        v matches Number::Finite(a) ==> a@.normal() && value(a@) > 0 as real,
    ensures
        v is Infinite ==> r is Infinite,
        v is Undefined ==> r is Undefined,
        v is Finite ==> {
            &&& r is Finite
            &&& finite(v@) <= finite(r@)
            &&& found.0 == 1 || found.0 == 2 || found.0 == 5
            &&& near(finite(r@), found.0 as real * outputs::ten_to_the(found.1), 4 as real)
            &&& (m as real * outputs::ten_to_the(k)) * (1 as real - 4 as real * part()) >= finite(
                v@,
            ) ==> finite(r@) <= (m as real * outputs::ten_to_the(k)) * (1 as real + 4 as real
                * part())
        },
{
    outputs::axes_without_a_value_end_at_one();
    if let Figure::Finite(a) = v@ {
        exact::lemma_value_sign(a);
        if (m as real * outputs::ten_to_the(k)) * (1 as real - 4 as real * part()) >= value(a) {
            outputs::axes_end_at_the_first_nice_number(a, m, k);
        }
        outputs::axes_end_at_one_two_or_five_times_a_power_of_ten(a)
    } else {
        (m, k)
    }
}

/// The line of a share of the axis is the nearest, and the value of a line falls
/// evenly.
pub proof fn lines_and_values_are_evenly_spaced(
    share: Number,
    steps: usize,
    line: usize,
    end: Number,
    i: usize,
    at: Number,
)
    requires
        i <= steps,
        0 < steps <= 4_503_599_627_370_496,
        call_ensures(find_line, (share, steps), line),
        call_ensures(find_value, (end, i, steps), at),
    ensures
        line <= steps,
        share is Finite && finite(share@) <= 1 as real ==> apart(
            line as real,
            steps as real * (1 as real - finite(share@)),
        ) <= 1 as real / 2 as real + 3 as real * (steps as real * part()),
        share is Finite && finite(share@) > 1 as real ==> line == 0,
        share !is Finite ==> line == 0,
        end is Finite ==> at is Finite && apart(
            finite(at@),
            finite(end@) * (1 as real - i as real / steps as real),
        ) <= 6 as real * (finite(end@) * part()),
        end is Undefined ==> at is Undefined,
{
    if let Figure::Finite(a) = share@ {
        outputs::shares_fall_on_the_nearest_line(a, steps as nat);
    }
    if let Figure::Finite(e) = end@ {
        outputs::values_fall_evenly_along_the_axis(e, i as nat, steps as nat);
    }
}

/// The position of a percentile is the first at which the values up to there
/// make up that percentage of all, and the last where none does.
pub proof fn percentiles_stand_at_the_nearest_rank(n: usize, percent: u8, i: usize)
    requires
        n > 0,
        call_ensures(percentile_index, (n, percent), i),
    ensures
        i < n,
        i > 0 ==> 100 * i < percent * n,
        i < n - 1 ==> 100 * (i + 1) >= percent * n,
{
    assert(percent * n >= 0) by (nonlinear_arith);
}

/// A run takes the iterations of all threads together, as far as a `usize`
/// counts.
pub proof fn runs_take_the_iterations_of_all_threads(
    iterations: usize,
    threads: usize,
    total: usize,
)
    requires
        call_ensures(sample_total, (iterations, threads), total),
    ensures
        iterations * threads <= usize::MAX ==> total == iterations * threads,
        iterations * threads > usize::MAX ==> total == usize::MAX,
{
}

/// Sorting keeps the values, each as often, and puts none before a smaller one.
pub proof fn sorted_values_rise(s: &[u128], r: Vec<u128>, t: &[usize], q: Vec<usize>)
    requires
        call_ensures(sorted::<u128>, (s,), r),
        call_ensures(sorted::<usize>, (t,), q),
    ensures
        r@.to_multiset() == s@.to_multiset(),
        q@.to_multiset() == t@.to_multiset(),
        forall|i: int, j: int| 0 <= i <= j < r@.len() ==> #[trigger] r@[i] <= #[trigger] r@[j],
        forall|i: int, j: int| 0 <= i <= j < q@.len() ==> #[trigger] q@[i] <= #[trigger] q@[j],
{
    assert forall|i: int, j: int| 0 <= i <= j < r@.len() implies #[trigger] r@[i]
        <= #[trigger] r@[j] by {
        assert(order::Ranked::rank(r@[i]) <= order::Ranked::rank(r@[j]));
    }
    assert forall|i: int, j: int| 0 <= i <= j < q@.len() implies #[trigger] q@[i]
        <= #[trigger] q@[j] by {
        assert(order::Ranked::rank(q@[i]) <= order::Ranked::rank(q@[j]));
    }
}

} // verus!
