//! Units of time.

use vstd::prelude::*;

use crate::binary64::{self, Binary, Float};
use crate::decimal::{self, show};
use crate::digits;
use crate::rounding;
use crate::text;

verus! {

/// Nanoseconds in the unit for a time of `ns` nanoseconds: the longest unit
/// that is not longer than the time, at least a nanosecond.
pub open spec fn unit_length(ns: Binary) -> u64 {
    if binary64::less(ns, binary64::whole(1_000)) {
        1
    } else if binary64::less(ns, binary64::whole(1_000_000)) {
        1_000
    } else if binary64::less(ns, binary64::whole(1_000_000_000)) {
        1_000_000
    } else {
        1_000_000_000
    }
}

/// The label of the unit for a time of `ns` nanoseconds.
pub open spec fn unit_label(ns: Binary) -> Seq<char> {
    if unit_length(ns) == 1 {
        "ns"@
    } else if unit_length(ns) == 1_000 {
        "µs"@
    } else if unit_length(ns) == 1_000_000 {
        "ms"@
    } else {
        "s"@
    }
}

/// A time of `ns` nanoseconds in units of `div` nanoseconds, with two places.
pub open spec fn time_text(ns: Binary, div: nat) -> Seq<char> {
    decimal::shown(binary64::quotient(ns, binary64::whole(div)), 2)
}

/// A time of `ns` nanoseconds in the unit that fits it.
pub open spec fn duration_text(ns: nat) -> Seq<char> {
    let x = binary64::whole(ns);
    time_text(x, unit_length(x) as nat) + " "@ + unit_label(x)
}

/// Picks the unit for a time: its length in nanoseconds and its label.
pub fn pick_unit(typical_ns: Float) -> (unit: (u64, &'static str))
    ensures
        unit.0 == unit_length(typical_ns@),
        unit.1@ == unit_label(typical_ns@),
{
    if typical_ns.is_less(Float::from_whole(1_000)) {
        (1, "ns")
    } else if typical_ns.is_less(Float::from_whole(1_000_000)) {
        (1_000, "µs")
    } else if typical_ns.is_less(Float::from_whole(1_000_000_000)) {
        (1_000_000, "ms")
    } else {
        (1_000_000_000, "s")
    }
}

/// Writes a time in units of `div` nanoseconds, with two places.
pub fn fmt_scaled(ns: Float, div: u64) -> (s: String)
    requires
        div > 0,
        binary64::reach(ns@) <= binary64::exponent_room(),
    ensures
        s@ == time_text(ns@, div as nat),
{
    proof {
        binary64::lemma_whole_positive(div as nat);
    }
    show(ns.over(Float::from_whole(div as u128)), 2)
}

/// Writes a time of `ns` nanoseconds in the unit that fits it.
pub fn fmt_dur(ns: u128) -> (s: String)
    ensures
        s@ == duration_text(ns as nat),
{
    let x = Float::from_whole(ns);
    let (div, label) = pick_unit(x);
    let mut s = fmt_scaled(x, div);
    s.append(" ");
    s.append(label);
    s
}

/// The unit fits the time: unless it is the nanosecond the time is at least one
/// unit, and unless it is the second the time is less than a thousand units.
pub proof fn unit_fits_time(ns: Binary)
    ensures
        unit_length(ns) > 1 ==> !binary64::less(
            ns,
            binary64::whole(unit_length(ns) as nat),
        ),
        unit_length(ns) < 1_000_000_000 ==> binary64::less(
            ns,
            binary64::whole((1_000 * unit_length(ns)) as nat),
        ),
{
}

/// A whole number with two places ends in two zeros.
pub(crate) proof fn lemma_whole_shown(k: nat)
    requires
        k < binary64::BEYOND_FULL,
    ensures
        decimal::shown(binary64::whole(k), 2) == text::decimal(k) + ".00"@,
{
    let x = binary64::whole(k);
    rounding::small_integers_are_exact(k);
    let p = binary64::two_to((-x.e) as nat);
    binary64::lemma_two_to_grows(0, (-x.e) as nat);
    assert(digits::ten_to(2) == 100) by {
        reveal_with_fuel(digits::ten_to, 3);
    }
    let h = binary64::scaled(x, 100);
    assert(h == 100 * k) by {
        if x.e < 0 {
            assert(x.m * 100 == (100 * k) * p) by (nonlinear_arith)
                requires
                    x.m == k * p,
            ;
            assert(((100 * k) * p) / p == 100 * k && ((100 * k) * p) % p == 0)
                by (nonlinear_arith)
                requires
                    p >= 1,
            ;
        } else {
            assert(x.m * p * 100 == 100 * k) by (nonlinear_arith)
                requires
                    x.m == k * p,
                    p == 1,
            ;
        }
    }
    reveal_strlit(".");
    reveal_strlit(".00");
    assert(decimal::last_digits(h, 2) =~= seq!['0', '0']) by {
        reveal_with_fuel(decimal::last_digits, 3);
        assert((100 * k) / 10 == 10 * k);
        assert((100 * k) % 10 == 0 && (10 * k) % 10 == 0);
    }
    assert(h / 100 == k);
    assert(text::decimal(k) + "."@ + seq!['0', '0'] =~= text::decimal(k) + ".00"@);
}

/// A time of `k` whole units is shown as `k.00`.
pub proof fn whole_units_are_shown_exactly(k: nat, div: nat)
    requires
        div > 0,
        k * div < binary64::BEYOND_FULL,
    ensures
        time_text(binary64::whole(k * div), div) == text::decimal(k) + ".00"@,
{
    if k == 0 {
        assert(0 * div == 0);
        rounding::small_integers_are_exact(0);
        assert(binary64::quotient(binary64::whole(0), binary64::whole(div))
            == binary64::whole(0));
    } else {
        assert(div < binary64::BEYOND_FULL) by (nonlinear_arith)
            requires
                k >= 1,
                k * div < binary64::BEYOND_FULL,
        ;
        assert(k < binary64::BEYOND_FULL) by (nonlinear_arith)
            requires
                div >= 1,
                k * div < binary64::BEYOND_FULL,
        ;
        rounding::small_quotients_round_once(k * div, div);
        rounding::lemma_extended(k, 1, 0, div);
        assert(div * k == k * div) by (nonlinear_arith);
        assert(div * 1 == div);
    }
    lemma_whole_shown(k);
}

} // verus!
