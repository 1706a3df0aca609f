//! What the texts say: how numbers, times and lists are written.

use vstd::arithmetic::power::pow;
use vstd::prelude::*;

use crate::binary64::{self, Binary};
use crate::decimal;
use crate::digits;
use crate::exact::{self, apart, near, value};
use crate::number::{self, Figure};
use crate::rounding;
use crate::scan;
use crate::text;
use crate::units;

verus! {

/// The number that a row of digits reads as.
pub open spec fn reads_as(s: Seq<char>) -> int {
    s.fold_left(0int, |sum: int, c: char| 10 * sum + (c as int - '0' as int))
}

/// Text that is all digits.
pub open spec fn all_digits(s: Seq<char>) -> bool {
    forall|i: int| 0 <= i < s.len() ==> '0' <= #[trigger] s[i] <= '9'
}

/// A number without zeros before it: a single digit, or one that does not
/// start with a zero.
pub open spec fn no_leading_zero(s: Seq<char>) -> bool {
    s.len() == 1 || (s.len() > 1 && s[0] != '0')
}

/// A number in decimal is a row of digits that reads as the number, without
/// zeros before it.
pub proof fn decimal_reads_as_the_number(n: nat)
    ensures
        all_digits(text::decimal(n)),
        no_leading_zero(text::decimal(n)),
        n > 0 ==> text::decimal(n)[0] != '0',
        reads_as(text::decimal(n)) == n,
    decreases n,
{
    let d = text::decimal(n);
    reveal_with_fuel(Seq::fold_left, 3);
    if n < 10 {
        assert(d.drop_last() =~= Seq::<char>::empty());
    } else {
        decimal_reads_as_the_number(n / 10);
        assert(d.drop_last() =~= text::decimal(n / 10));
    }
}

/// Ten to the power of `k` is that of the arithmetic library.
pub proof fn ten_to_is_a_power_of_ten(k: nat)
    ensures
        digits::ten_to(k) == pow(10, k),
    decreases k,
{
    reveal(pow);
    if k > 0 {
        ten_to_is_a_power_of_ten((k - 1) as nat);
    }
}

/// The last digits of a number, read behind others.
proof fn lemma_last_digits(s: Seq<char>, h: nat, k: nat)
    ensures
        reads_as(s + decimal::last_digits(h, k)) == reads_as(s) * digits::ten_to(k) + h
            % digits::ten_to(k),
        decimal::last_digits(h, k).len() == k,
        all_digits(decimal::last_digits(h, k)),
    decreases k,
{
    let t = digits::ten_to(k);
    let tail = decimal::last_digits(h, k);
    digits::lemma_ten_to_positive(k);
    if k == 0 {
        assert(s + tail =~= s);
        assert(h % 1 == 0);
        assert(reads_as(s) * 1 == reads_as(s));
    } else {
        let u = digits::ten_to((k - 1) as nat);
        let before = decimal::last_digits(h / 10, (k - 1) as nat);
        lemma_last_digits(s, h / 10, (k - 1) as nat);
        digits::lemma_ten_to_positive((k - 1) as nat);
        assert((s + tail).drop_last() =~= s + before);
        reveal_with_fuel(Seq::fold_left, 2);
        let r = reads_as(s);
        assert(10 * (r * u) == r * (10 * u)) by (nonlinear_arith);
        vstd::arithmetic::div_mod::lemma_mod_breakdown(h as int, 10, u as int);
        assert(all_digits(tail)) by {
            assert forall|i: int| 0 <= i < tail.len() implies '0' <= #[trigger] tail[i] <= '9' by {
                if i < before.len() {
                    assert(tail[i] == before[i]);
                }
            }
        }
    }
}

/// A figure is written with `places` places to the nearest number that these
/// can show. Of two that are equally near it is the even one.
pub proof fn figures_are_written_to_the_nearest(a: Binary, places: nat)
    ensures
        ({
            let t = decimal::shown(a, places);
            let whole = if places == 0 {
                t
            } else {
                t.take(t.len() - places - 1)
            };
            let rest = if places == 0 {
                Seq::<char>::empty()
            } else {
                t.skip(t.len() - places)
            };
            let h = reads_as(whole + rest);
            let exact = value(a) * pow(10, places) as real;
            &&& places > 0 ==> t.len() >= places + 2 && t[t.len() - places - 1] == '.'
            &&& all_digits(whole) && all_digits(rest) && no_leading_zero(whole)
            &&& 2 as real * apart(h as real, exact) <= 1 as real
            &&& 2 as real * apart(h as real, exact) == 1 as real ==> h % 2 == 0
        }),
{
    let k = digits::ten_to(places);
    let h = binary64::scaled(a, k);
    let t = decimal::shown(a, places);
    ten_to_is_a_power_of_ten(places);
    digits::lemma_ten_to_positive(places);
    lemma_scaled_nearest(a, k);
    if places == 0 {
        decimal_reads_as_the_number(h);
        assert(t + Seq::<char>::empty() =~= t);
    } else {
        let d = text::decimal(h / k);
        let tail = decimal::last_digits(h, places);
        reveal_strlit(".");
        decimal_reads_as_the_number(h / k);
        lemma_last_digits(d, h, places);
        assert(t.take(t.len() - places - 1) =~= d);
        assert(t.skip(t.len() - places) =~= tail);
        vstd::arithmetic::div_mod::lemma_fundamental_div_mod(h as int, k as int);
        assert((h / k) * k == k * (h / k)) by (nonlinear_arith);
    }
}

/// Scaling to an integer takes the nearest.
pub(crate) proof fn lemma_scaled_nearest(a: Binary, k: nat)
    ensures
        ({
            let h = binary64::scaled(a, k);
            let exact = value(a) * k as real;
            &&& 2 as real * apart(h as real, exact) <= 1 as real
            &&& 2 as real * apart(h as real, exact) == 1 as real ==> h % 2 == 0
        }),
{
    let h = binary64::scaled(a, k);
    let exact = value(a) * k as real;
    let m = a.m as real;
    let c = k as real;
    exact::lemma_scale(a.e);
    if a.e >= 0 {
        let p = binary64::two_to(a.e as nat);
        exact::lemma_times(a.m, p);
        exact::lemma_times(a.m * p, k);
    } else {
        let p = binary64::two_to((-a.e) as nat);
        let q = p as real;
        let num = a.m * k;
        exact::two_to_is_a_power_of_two((-a.e) as nat);
        binary64::lemma_two_to_grows(0, (-a.e) as nat);
        rounding::rounding_is_to_nearest(num, p);
        exact::lemma_times(a.m, k);
        exact::lemma_times(h, p);
        let n = num as real;
        let x = h as real;
        assert(exact * q == n) by (nonlinear_arith)
            requires
                exact == (m * (1 as real / q)) * c,
                n == m * c,
                q > 0 as real,
        ;
        let moved = 2 * (h * p - num);
        let g = 2 as real * (x - exact);
        assert(moved as real == g * q) by (nonlinear_arith)
            requires
                moved as real == 2 as real * (x * q - n),
                exact * q == n,
                g == 2 as real * (x - exact),
        ;
        assert(-(1 as real) <= g <= 1 as real) by (nonlinear_arith)
            requires
                -q <= g * q <= q,
                q > 0 as real,
        ;
        assert(g == 1 as real ==> g * q == q) by (nonlinear_arith);
        assert(g == -(1 as real) ==> g * q == -q) by (nonlinear_arith);
    }
}

/// Text against the right edge of a field has only blanks before it, and just
/// as many as the field needs.
pub proof fn right_alignment_puts_blanks_before(s: Seq<char>, width: nat)
    ensures
        ({
            let r = text::right_aligned(s, width);
            &&& r.len() == if s.len() >= width {
                s.len()
            } else {
                width
            }
            &&& r.skip(r.len() - s.len()) == s
            &&& forall|i: int| 0 <= i < r.len() - s.len() ==> #[trigger] r[i] == ' '
        }),
{
    let r = text::right_aligned(s, width);
    assert(r.skip(r.len() - s.len()) =~= s);
}

/// Text in the middle of a field has blanks on both sides, as many before it
/// as behind it or one fewer.
pub proof fn centring_puts_blanks_around(s: Seq<char>, width: nat)
    ensures
        ({
            let r = text::centred(s, width);
            let gap = r.len() - s.len();
            &&& r.len() == if s.len() >= width {
                s.len()
            } else {
                width
            }
            &&& r.subrange(gap / 2, gap / 2 + s.len()) == s
            &&& forall|i: int|
                0 <= i < r.len() && !(gap / 2 <= i < gap / 2 + s.len()) ==> #[trigger] r[i] == ' '
        }),
{
    let r = text::centred(s, width);
    let gap = r.len() - s.len();
    assert(r.subrange(gap / 2, gap / 2 + s.len()) =~= s);
}

/// Joining puts the separator between neighbours and nowhere else: a list is
/// joined as its two parts are, with a separator between them.
pub proof fn joining_goes_part_by_part(a: Seq<Seq<char>>, b: Seq<Seq<char>>, sep: Seq<char>)
    requires
        a.len() > 0,
        b.len() > 0,
    ensures
        text::joined(a + b, sep) == text::joined(a, sep) + sep + text::joined(b, sep),
    decreases b.len(),
{
    let all = a + b;
    if b.len() == 1 {
        assert(all.drop_last() =~= a);
    } else {
        joining_goes_part_by_part(a, b.drop_last(), sep);
        assert(all.drop_last() =~= a + b.drop_last());
        assert(text::joined(all, sep) =~= text::joined(a, sep) + sep + text::joined(b, sep));
    }
}

/// A single part is joined to itself, and no part to nothing.
pub proof fn joining_one_or_none(part: Seq<char>, sep: Seq<char>)
    ensures
        text::joined(seq![part], sep) == part,
        text::joined(Seq::<Seq<char>>::empty(), sep).len() == 0,
{
}

/// One thread is in the singular, any other number in the plural.
pub proof fn only_one_is_singular(n: nat)
    ensures
        " thread"@ + text::plural_suffix(n) == (if n == 1 {
            " thread"@
        } else {
            " threads"@
        }),
{
    reveal_strlit("");
    reveal_strlit("s");
    reveal_strlit(" thread");
    reveal_strlit(" threads");
    assert(" thread"@ + text::plural_suffix(n) =~= (if n == 1 {
        " thread"@
    } else {
        " threads"@
    }));
}

/// The unit of a time: nanoseconds below a thousand of them, microseconds below
/// a million, milliseconds below a billion, and seconds from there on.
pub proof fn units_go_by_thousands(ns: Binary)
    ensures
        value(ns) < 1_000 as real ==> units::unit_length(ns) == 1 && units::unit_label(ns) == "ns"@,
        1_000 as real <= value(ns) < 1_000_000 as real ==> units::unit_length(ns) == 1_000
            && units::unit_label(ns) == "µs"@,
        1_000_000 as real <= value(ns) < 1_000_000_000 as real ==> units::unit_length(ns)
            == 1_000_000 && units::unit_label(ns) == "ms"@,
        value(ns) >= 1_000_000_000 as real ==> units::unit_length(ns) == 1_000_000_000
            && units::unit_label(ns) == "s"@,
{
    exact::whole_numbers_stay_near(1_000);
    exact::whole_numbers_stay_near(1_000_000);
    exact::whole_numbers_stay_near(1_000_000_000);
    exact::order_is_that_of_the_values(ns, binary64::whole(1_000));
    exact::order_is_that_of_the_values(ns, binary64::whole(1_000_000));
    exact::order_is_that_of_the_values(ns, binary64::whole(1_000_000_000));
}

/// A time in units is written with two places of a number that is the time
/// over the unit, but for one part.
pub proof fn times_are_written_in_units(ns: Binary, div: nat) -> (q: Binary)
    requires
        0 < div < 9_007_199_254_740_992,
    ensures
        units::time_text(ns, div) == decimal::shown(q, 2),
        near(value(q), value(ns) / div as real, 1 as real),
{
    let c = binary64::whole(div);
    exact::whole_numbers_stay_near(div);
    binary64::lemma_whole_positive(div);
    exact::quotients_stay_near(ns, c);
    binary64::quotient(ns, c)
}

/// A time with its unit: two places of the number of units, a blank and the
/// label of the unit, which goes by the time.
pub proof fn durations_are_written_with_their_unit(ns: nat) -> (q: Binary)
    ensures
        ({
            let x = value(binary64::whole(ns));
            let (div, label) = if x < 1_000 as real {
                (1 as real, "ns"@)
            } else if x < 1_000_000 as real {
                (1_000 as real, "µs"@)
            } else if x < 1_000_000_000 as real {
                (1_000_000 as real, "ms"@)
            } else {
                (1_000_000_000 as real, "s"@)
            };
            &&& units::duration_text(ns) == decimal::shown(q, 2) + seq![' '] + label
            &&& near(value(q), x / div, 1 as real)
        }),
{
    let x = binary64::whole(ns);
    units_go_by_thousands(x);
    reveal_strlit(" ");
    assert(" "@ =~= seq![' ']);
    times_are_written_in_units(x, units::unit_length(x) as nat)
}

/// A figure that is not finite is written out.
pub proof fn figures_are_written(x: Figure, places: nat)
    ensures
        number::figure_text(x, places) == (match x {
            Figure::Finite(a) => decimal::shown(a, places),
            Figure::Infinite => seq!['i', 'n', 'f'],
            Figure::Undefined => seq!['N', 'a', 'N'],
        }),
{
    reveal_strlit("inf");
    reveal_strlit("NaN");
    assert("inf"@ =~= seq!['i', 'n', 'f']);
    assert("NaN"@ =~= seq!['N', 'a', 'N']);
}

/// Trimming takes white space from the two ends and nothing else.
pub proof fn trimming_takes_only_white_space(s: Seq<char>) -> (cut: (Seq<char>, Seq<char>))
    ensures
        s == cut.0 + scan::trimmed(s) + cut.1,
        forall|i: int| 0 <= i < cut.0.len() ==> scan::white_space(#[trigger] cut.0[i]),
        forall|i: int| 0 <= i < cut.1.len() ==> scan::white_space(#[trigger] cut.1[i]),
        scan::trimmed(s).len() > 0 ==> !scan::white_space(scan::trimmed(s).first())
            && !scan::white_space(scan::trimmed(s).last()),
{
    scan::trimming_is_final(s);
    let a = lemma_cut_start(s);
    let b = lemma_cut_end(scan::trimmed_start(s));
    assert(s =~= a + scan::trimmed(s) + b);
    (a, b)
}

proof fn lemma_cut_start(s: Seq<char>) -> (a: Seq<char>)
    ensures
        s == a + scan::trimmed_start(s),
        forall|i: int| 0 <= i < a.len() ==> scan::white_space(#[trigger] a[i]),
    decreases s.len(),
{
    if s.len() > 0 && scan::white_space(s.first()) {
        let b = lemma_cut_start(s.drop_first());
        let a = seq![s.first()] + b;
        let rest = scan::trimmed_start(s.drop_first());
        assert(seq![s.first()] + s.drop_first() =~= s);
        assert(a + rest =~= seq![s.first()] + (b + rest));
        a
    } else {
        assert(s =~= Seq::<char>::empty() + s);
        Seq::<char>::empty()
    }
}

proof fn lemma_cut_end(s: Seq<char>) -> (b: Seq<char>)
    ensures
        s == scan::trimmed_end(s) + b,
        forall|i: int| 0 <= i < b.len() ==> scan::white_space(#[trigger] b[i]),
    decreases s.len(),
{
    if s.len() > 0 && scan::white_space(s.last()) {
        let a = lemma_cut_end(s.drop_last());
        let b = a.push(s.last());
        let rest = scan::trimmed_end(s.drop_last());
        assert(s.drop_last().push(s.last()) =~= s);
        assert(rest + b =~= (rest + a).push(s.last()));
        b
    } else {
        assert(s =~= s + Seq::<char>::empty());
        Seq::<char>::empty()
    }
}

/// The first position of a character: it stands there and nowhere before, or
/// nowhere at all.
pub proof fn first_position_is_the_first(s: Seq<char>, c: char)
    ensures
        scan::first_position(s, c) <= s.len(),
        forall|i: int| 0 <= i < scan::first_position(s, c) ==> #[trigger] s[i] != c,
        scan::first_position(s, c) < s.len() ==> s[scan::first_position(s, c) as int] == c,
    decreases s.len(),
{
    if s.len() > 0 && s.first() != c {
        let rest = s.drop_first();
        first_position_is_the_first(rest, c);
        assert forall|i: int| 0 <= i < scan::first_position(s, c) implies #[trigger] s[i] != c by {
            if i > 0 {
                assert(rest[i - 1] != c);
            }
        }
    }
}

proof fn lemma_digits_value(s: Seq<char>)
    requires
        all_digits(s),
    ensures
        scan::digits_value(s) == reads_as(s),
    decreases s.len(),
{
    reveal_with_fuel(Seq::fold_left, 2);
    if s.len() > 0 {
        let before = s.drop_last();
        assert forall|i: int| 0 <= i < before.len() implies '0' <= #[trigger] before[i] <= '9' by {
            assert('0' <= s[i] <= '9');
        }
        lemma_digits_value(before);
        assert('0' <= s[s.len() - 1] <= '9');
    }
}

/// Text is a number where it is one or more digits, with a plus sign before
/// them or not, that read as a number that a `usize` holds; and then it is that
/// number.
pub proof fn numbers_are_rows_of_digits(s: Seq<char>)
    ensures
        ({
            let body = if s.len() > 0 && s[0] == '+' {
                s.skip(1)
            } else {
                s
            };
            if body.len() > 0 && all_digits(body) && reads_as(body) <= usize::MAX {
                scan::number(s) matches Some(n) && n == reads_as(body)
            } else {
                scan::number(s) is None
            }
        }),
{
    let body = if s.len() > 0 && s[0] == '+' {
        s.skip(1)
    } else {
        s
    };
    assert(s.len() > 0 ==> s.drop_first() =~= s.skip(1));
    assert(body == scan::unsigned_part(s));
    assert(all_digits(body) <==> (forall|i: int|
        0 <= i < body.len() ==> scan::is_digit(#[trigger] body[i])));
    if all_digits(body) {
        lemma_digits_value(body);
    }
}

} // verus!
