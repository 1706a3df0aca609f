//! Decimal text of large and of fractional numbers.

use vstd::prelude::*;

use crate::binary64::{self, power, round, Float};
use crate::digits::{self, digits_of, doubled, write_digits};
use crate::scan;
use crate::text::{self, digit, to_decimal};

verus! {

/// The last `k` digits of `n`, zeros included.
pub open spec fn last_digits(n: nat, k: nat) -> Seq<char>
    decreases k,
{
    if k == 0 {
        seq![]
    } else {
        last_digits(n / 10, (k - 1) as nat).push(text::digit_char(n % 10))
    }
}

/// `h / 10^places` with that many places.
pub open spec fn fixed_text(h: nat, places: nat) -> Seq<char> {
    if places == 0 {
        text::decimal(h)
    } else {
        text::decimal(h / digits::ten_to(places)) + "."@ + last_digits(h, places)
    }
}

/// A binary64 number with `places` places, rounded to the nearest, and to an
/// even last digit in a tie.
pub open spec fn shown(a: binary64::Binary, places: nat) -> Seq<char> {
    fixed_text(binary64::scaled(a, digits::ten_to(places)), places)
}

/// Writes `m * 2^e` in decimal.
fn write_shifted(m: u128, e: u128) -> (s: String)
    requires
        m > 0,
    ensures
        s@ == text::decimal(m as nat * binary64::two_to(e as nat)),
{
    let mut d = digits_of(m);
    let mut k: u128 = 0;
    assert(m as nat * binary64::two_to(0) == m) by (nonlinear_arith)
        requires
            binary64::two_to(0) == 1,
    ;
    while k < e
        invariant
            k <= e,
            digits::proper(d@),
            digits::digits_number(d@) == m as nat * binary64::two_to(k as nat),
        decreases e - k,
    {
        let ghost t = binary64::two_to(k as nat);
        assert(m as nat * (2 * t) == 2 * (m as nat * t)) by (nonlinear_arith);
        assert(binary64::two_to((k + 1) as nat) == 2 * t);
        d = doubled(&d);
        k += 1;
    }
    write_digits(&d)
}

proof fn lemma_no_places(v: nat, k: nat)
    ensures
        (v * digits::ten_to(k)) / digits::ten_to(k) == v,
        last_digits(v * digits::ten_to(k), k) == last_digits(0, k),
    decreases k,
{
    let t = digits::ten_to(k);
    digits::lemma_ten_to_positive(k);
    assert((v * t) / t == v) by (nonlinear_arith)
        requires
            t >= 1,
    ;
    if k > 0 {
        let u = digits::ten_to((k - 1) as nat);
        lemma_no_places(v, (k - 1) as nat);
        assert(v * (10 * u) == 10 * (v * u)) by (nonlinear_arith);
        assert((v * t) / 10 == v * u);
        assert((v * t) % 10 == 0);
    }
}

/// Writes the last `k` digits of `n`.
fn write_last_digits(n: u128, k: u32) -> (s: String)
    ensures
        s@ == last_digits(n as nat, k as nat),
    decreases k,
{
    if k == 0 {
        let s = String::new();
        assert(s@ =~= last_digits(n as nat, 0));
        s
    } else {
        let mut s = write_last_digits(n / 10, k - 1);
        s.push(digit(n % 10));
        s
    }
}

/// Ten to the power of `k`.
fn tens(k: u32) -> (t: u128)
    requires
        k <= 6,
    ensures
        t == digits::ten_to(k as nat),
        1 <= t <= 1_000_000,
{
    proof {
        reveal_with_fuel(digits::ten_to, 7);
    }
    match k {
        0 => 1,
        1 => 10,
        2 => 100,
        3 => 1_000,
        4 => 10_000,
        5 => 100_000,
        _ => 1_000_000,
    }
}

/// Writes `a` with `places` places.
pub fn show(a: Float, places: u32) -> (s: String)
    requires
        places <= 6,
    ensures
        s@ == shown(a@, places as nat),
{
    let (m, e) = a.parts();
    let t: u128 = tens(places);
    let mut s: String;
    let tail: u128;
    if e >= 0 {
        if m == 0 {
            s = to_decimal(0);
        } else {
            s = write_shifted(m, e as u128);
        }
        tail = 0;
        proof {
            let v = m as nat * binary64::two_to(e as nat);
            assert(m == 0 ==> v == 0) by (nonlinear_arith)
                requires
                    v == m as nat * binary64::two_to(e as nat),
            ;
            lemma_no_places(v, places as nat);
            assert(v * 1 == v);
        }
    } else {
        assert(m * t <= binary64::BEYOND_FULL * 1_000_000) by (nonlinear_arith)
            requires
                m <= binary64::BEYOND_FULL,
                t <= 1_000_000,
        ;
        let h: u128;
        if e > -80 {
            let p: u128 = power((-e) as u32);
            proof {
                binary64::lemma_two_to_grows(0, (-e) as nat);
            }
            h = round(m * t, p);
        } else {
            proof {
                let p = binary64::two_to((-e) as nat);
                binary64::lemma_two_to_values();
                binary64::lemma_two_to_grows(74, (-e) as nat);
                assert(binary64::two_to(75) == 2 * binary64::two_to(74));
                binary64::lemma_two_to_grows(75, (-e) as nat);
                let n = (m * t) as nat;
                assert(n / p == 0 && n % p == n) by (nonlinear_arith)
                    requires
                        n < p,
                ;
            }
            h = 0;
        }
        s = to_decimal(h / t);
        tail = h;
        assert(h as nat / digits::ten_to(places as nat) == h / t);
        assert(places == 0 ==> h / 1 == h);
    }
    if places > 0 {
        s.append(".");
        s.append(write_last_digits(tail, places).as_str());
    }
    s
}

proof fn lemma_last_digits(n: nat, k: nat)
    ensures
        forall|i: int|
            0 <= i < last_digits(n, k).len() ==> scan::is_digit(
                #[trigger] last_digits(n, k)[i],
            ),
    decreases k,
{
    if k > 0 {
        let before = last_digits(n / 10, (k - 1) as nat);
        let all = last_digits(n, k);
        lemma_last_digits(n / 10, (k - 1) as nat);
        assert forall|i: int| 0 <= i < all.len() implies scan::is_digit(
            #[trigger] all[i],
        ) by {
            if i < before.len() {
                assert(scan::is_digit(before[i]));
            }
        }
    }
}

/// A number with places is made of digits and at most a point.
pub(crate) proof fn lemma_shown_plain(a: binary64::Binary, places: nat)
    ensures
        forall|i: int|
            0 <= i < shown(a, places).len() ==> scan::is_digit(
                #[trigger] shown(a, places)[i],
            ) || shown(a, places)[i] == '.',
        !shown(a, places).contains(','),
{
    let h = binary64::scaled(a, digits::ten_to(places));
    let t = shown(a, places);
    scan::lemma_decimal_digits(h);
    scan::lemma_decimal_digits(h / digits::ten_to(places));
    lemma_last_digits(h, places);
    reveal_strlit(".");
    let d = text::decimal(h / digits::ten_to(places));
    assert forall|i: int| 0 <= i < t.len() implies scan::is_digit(#[trigger] t[i]) || t[i]
        == '.' by {
        if places > 0 {
            if i < d.len() {
                assert(t[i] == d[i]);
            } else if i > d.len() {
                assert(t[i] == last_digits(h, places)[i - d.len() - 1]);
            }
        }
    }
    if t.contains(',') {
        let i = choose|i: int| 0 <= i < t.len() && t[i] == ',';
        assert(scan::is_digit(t[i]) || t[i] == '.');
    }
}

} // verus!
