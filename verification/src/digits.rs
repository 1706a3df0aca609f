//! Numbers of any size, as rows of decimal digits.

use vstd::prelude::*;

use crate::binary64::{self, Float};
use crate::rounding;
use crate::text::{self, digit};

verus! {

/// Ten to the power of `k`.
pub open spec fn ten_to(k: nat) -> nat
    decreases k,
{
    if k == 0 {
        1
    } else {
        10 * ten_to((k - 1) as nat)
    }
}

/// The number that a row of digits denotes, the least significant first.
pub open spec fn digits_number(d: Seq<u8>) -> nat
    decreases d.len(),
{
    if d.len() == 0 {
        0
    } else {
        digits_number(d.drop_last()) + d.last() as nat * ten_to((d.len() - 1) as nat)
    }
}

/// Every element is a decimal digit.
pub open spec fn valid(d: Seq<u8>) -> bool {
    forall|i: int| 0 <= i < d.len() ==> #[trigger] d[i] < 10
}

/// Every element is a decimal digit, and the most significant is not zero.
pub open spec fn proper(d: Seq<u8>) -> bool {
    &&& valid(d)
    &&& d.len() > 0
    &&& d.last() != 0
}

proof fn lemma_first_place(x: nat)
    ensures
        x * ten_to(0) == x,
{
    assert(x * ten_to(0) == x) by (nonlinear_arith)
        requires
            ten_to(0) == 1,
    ;
}

proof fn lemma_first_digit(d: Seq<u8>)
    requires
        d.len() > 0,
    ensures
        digits_number(d) == d[0] + 10 * digits_number(d.drop_first()),
    decreases d.len(),
{
    if d.len() == 1 {
        assert(d.drop_last() =~= Seq::<u8>::empty());
        assert(d.drop_first() =~= Seq::<u8>::empty());
        lemma_first_place(d[0] as nat);
    } else {
        let rest = d.drop_last();
        let last = d.last() as nat;
        let t = ten_to((d.len() - 2) as nat);
        lemma_first_digit(rest);
        assert(rest.drop_first() =~= d.drop_first().drop_last());
        assert(last * (10 * t) == 10 * (last * t)) by (nonlinear_arith);
    }
}

proof fn lemma_proper_positive(d: Seq<u8>)
    requires
        d.len() > 0,
        d.last() != 0,
    ensures
        digits_number(d) >= 1,
{
    let t = ten_to((d.len() - 1) as nat);
    lemma_ten_to_positive((d.len() - 1) as nat);
    assert(d.last() as nat * t >= 1) by (nonlinear_arith)
        requires
            d.last() >= 1,
            t >= 1,
    ;
}

pub(crate) proof fn lemma_ten_to_positive(k: nat)
    ensures
        ten_to(k) >= 1,
    decreases k,
{
    if k > 0 {
        lemma_ten_to_positive((k - 1) as nat);
    }
}

/// The digits of `n`, the least significant first.
pub(crate) fn digits_of(n: u128) -> (d: Vec<u8>)
    requires
        n > 0,
    ensures
        proper(d@),
        digits_number(d@) == n,
{
    let mut d: Vec<u8> = Vec::new();
    let mut rest: u128 = n;
    proof {
        lemma_first_place(rest as nat);
    }
    while rest > 0
        invariant
            n > 0,
            digits_number(d@) + rest * ten_to(d@.len()) == n,
            valid(d@),
            rest == 0 ==> d@.len() > 0 && d@.last() != 0,
        decreases rest,
    {
        let ghost before = d@;
        let ghost t = ten_to(d@.len());
        let q: u128 = rest / 10;
        let r: u8 = (rest % 10) as u8;
        assert(rest * t == r * t + q * (10 * t)) by (nonlinear_arith)
            requires
                rest == 10 * q + r,
        ;
        d.push(r);
        assert(d@.drop_last() =~= before);
        rest = q;
    }
    assert(0 * ten_to(d@.len()) == 0);
    d
}

/// Twice the number that `d` denotes.
pub(crate) fn doubled(d: &Vec<u8>) -> (r: Vec<u8>)
    requires
        valid(d@),
    ensures
        valid(r@),
        proper(d@) ==> proper(r@),
        digits_number(r@) == 2 * digits_number(d@),
{
    let mut r: Vec<u8> = Vec::new();
    let mut carry: u8 = 0;
    assert(d@.take(0) =~= Seq::<u8>::empty());
    assert(0 * ten_to(0) == 0);
    for i in 0..d.len()
        invariant
            valid(d@),
            carry <= 1,
            r@.len() == i,
            digits_number(r@) + carry * ten_to(i as nat) == 2 * digits_number(d@.take(i as int)),
            valid(r@),
            i > 0 && d@[i - 1] != 0 && carry == 0 ==> r@.last() != 0,
    {
        let ghost before = r@;
        let ghost upto = d@.take(i + 1);
        let ghost t = ten_to(i as nat);
        let both: u8 = 2 * d[i] + carry;
        let next: u8 = both / 10;
        let digit: u8 = both % 10;
        proof {
            assert(upto.drop_last() =~= d@.take(i as int));
            assert(digit * t + next * (10 * t) == 2 * (d@[i as int] * t) + carry * t)
                by (nonlinear_arith)
                requires
                    10 * next + digit == 2 * d@[i as int] + carry,
            ;
        }
        r.push(digit);
        assert(r@.drop_last() =~= before);
        carry = next;
    }
    assert(d@.take(d@.len() as int) =~= d@);
    let ghost before = r@;
    if carry > 0 {
        r.push(carry);
        assert(r@.drop_last() =~= before);
    } else {
        assert(0 * ten_to(d@.len()) == 0);
    }
    r
}

/// Writes the number that `d` denotes.
pub(crate) fn write_digits(d: &Vec<u8>) -> (s: String)
    requires
        proper(d@),
    ensures
        s@ == text::decimal(digits_number(d@)),
{
    let mut s = String::new();
    let mut i: usize = d.len() - 1;
    s.push(digit(d[i] as u128));
    proof {
        let top = d@.skip(i as int);
        assert(top.drop_last() =~= Seq::<u8>::empty());
        lemma_first_place(top.last() as nat);
        assert(digits_number(top.drop_last()) == 0);
        assert(top.len() == 1);
        assert(digits_number(top) == d@[i as int]);
        assert(s@ =~= text::decimal(digits_number(top)));
    }
    while i > 0
        invariant
            proper(d@),
            i < d@.len(),
            s@ == text::decimal(digits_number(d@.skip(i as int))),
        decreases i,
    {
        proof {
            let upper = d@.skip(i as int);
            let all = d@.skip(i - 1);
            assert(all.drop_first() =~= upper);
            lemma_first_digit(all);
            lemma_proper_positive(upper);
        }
        i -= 1;
        s.push(digit(d[i] as u128));
    }
    assert(d@.skip(0) =~= d@);
    s
}

/// Digit `i` of the number, zero beyond the row.
pub open spec fn digit_at(d: Seq<u8>, i: int) -> nat {
    if 0 <= i < d.len() {
        d[i] as nat
    } else {
        0
    }
}

/// The number that the lowest `i` digits denote.
pub open spec fn low_number(d: Seq<u8>, i: nat) -> nat
    decreases i,
{
    if i == 0 {
        0
    } else {
        low_number(d, (i - 1) as nat) + digit_at(d, i - 1) * ten_to((i - 1) as nat)
    }
}

/// All digits together denote the number.
proof fn lemma_low_number(d: Seq<u8>, i: nat)
    ensures
        i <= d.len() ==> low_number(d, i) == digits_number(d.take(i as int)),
        i >= d.len() ==> low_number(d, i) == digits_number(d),
    decreases i,
{
    assert(d.take(d.len() as int) =~= d);
    if i == 0 {
        assert(d.take(0) =~= Seq::<u8>::empty());
    } else {
        lemma_low_number(d, (i - 1) as nat);
        if i <= d.len() {
            assert(d.take(i as int).drop_last() =~= d.take(i - 1));
        } else {
            assert(0 * ten_to((i - 1) as nat) == 0);
        }
    }
}

proof fn lemma_low_bound(d: Seq<u8>, i: nat)
    requires
        valid(d),
    ensures
        low_number(d, i) < ten_to(i),
    decreases i,
{
    if i > 0 {
        let t = ten_to((i - 1) as nat);
        let x = digit_at(d, i - 1);
        lemma_low_bound(d, (i - 1) as nat);
        assert(x * t <= 9 * t) by (nonlinear_arith)
            requires
                x <= 9,
        ;
    }
}

/// A row of digits denotes less than the power of ten behind it.
proof fn lemma_number_bound(d: Seq<u8>)
    requires
        valid(d),
    ensures
        digits_number(d) < ten_to(d.len()),
{
    lemma_low_number(d, d.len());
    lemma_low_bound(d, d.len());
}

fn get(d: &Vec<u8>, i: usize) -> (x: u8)
    requires
        valid(d@),
    ensures
        x == digit_at(d@, i as int),
        x < 10,
{
    if i < d.len() {
        d[i]
    } else {
        0
    }
}

/// Whether `a` denotes less than `b`.
fn is_below(a: &Vec<u8>, b: &Vec<u8>) -> (r: bool)
    requires
        valid(a@),
        valid(b@),
    ensures
        r == (digits_number(a@) < digits_number(b@)),
{
    let n: usize = if a.len() >= b.len() { a.len() } else { b.len() };
    let mut r: bool = false;
    for i in 0..n
        invariant
            valid(a@),
            valid(b@),
            r == (low_number(a@, i as nat) < low_number(b@, i as nat)),
    {
        let x: u8 = get(a, i);
        let y: u8 = get(b, i);
        proof {
            let t = ten_to(i as nat);
            lemma_low_bound(a@, i as nat);
            lemma_low_bound(b@, i as nat);
            assert(x < y ==> x * t + t <= y * t) by (nonlinear_arith);
            assert(y < x ==> y * t + t <= x * t) by (nonlinear_arith);
        }
        if x < y {
            r = true;
        } else if y < x {
            r = false;
        }
    }
    proof {
        lemma_low_number(a@, n as nat);
        lemma_low_number(b@, n as nat);
    }
    r
}

/// `a - b`.
fn minus(a: &Vec<u8>, b: &Vec<u8>) -> (r: Vec<u8>)
    requires
        valid(a@),
        valid(b@),
        digits_number(b@) <= digits_number(a@),
    ensures
        valid(r@),
        digits_number(r@) == digits_number(a@) - digits_number(b@),
{
    let n: usize = if a.len() >= b.len() { a.len() } else { b.len() };
    let mut r: Vec<u8> = Vec::new();
    let mut borrow: u8 = 0;
    assert(0 * ten_to(0) == 0);
    for i in 0..n
        invariant
            valid(a@),
            valid(b@),
            valid(r@),
            r@.len() == i,
            borrow <= 1,
            digits_number(r@) + low_number(b@, i as nat) == low_number(a@, i as nat) + borrow
                * ten_to(i as nat),
    {
        let x: u8 = get(a, i);
        let y: u8 = get(b, i);
        let ghost before = r@;
        let ghost t = ten_to(i as nat);
        let ghost old_borrow = borrow;
        let digit: u8;
        if x >= y + borrow {
            digit = x - y - borrow;
            borrow = 0;
        } else {
            digit = 10 + x - y - borrow;
            borrow = 1;
        }
        assert(digit * t + y * t + old_borrow * t == x * t + borrow * (10 * t))
            by (nonlinear_arith)
            requires
                digit + y + old_borrow == x + 10 * borrow,
        ;
        r.push(digit);
        assert(r@.drop_last() =~= before);
    }
    proof {
        let t = ten_to(n as nat);
        lemma_low_number(a@, n as nat);
        lemma_low_number(b@, n as nat);
        lemma_number_bound(r@);
        assert(borrow == 0 ==> borrow * t == 0) by (nonlinear_arith);
        assert(borrow == 1 ==> borrow * t == t) by (nonlinear_arith);
    }
    r
}

/// The digits of ten to the power of `k`.
pub(crate) fn power_digits(k: usize) -> (d: Vec<u8>)
    requires
        k < usize::MAX,
    ensures
        valid(d@),
        d@.len() == k + 1,
        digits_number(d@) == ten_to(k as nat),
{
    let mut d: Vec<u8> = Vec::new();
    for i in 0..k
        invariant
            valid(d@),
            d@.len() == i,
            digits_number(d@) == 0,
    {
        let ghost before = d@;
        d.push(0);
        assert(d@.drop_last() =~= before);
        assert(0 * ten_to(i as nat) == 0);
    }
    let ghost before = d@;
    d.push(1);
    assert(d@.drop_last() =~= before);
    assert(1 * ten_to(k as nat) == ten_to(k as nat));
    d
}

/// Ten is less than two to the fourth.
proof fn lemma_ten_in_bits(k: nat)
    ensures
        ten_to(k) <= binary64::two_to(4 * k),
    decreases k,
{
    if k > 0 {
        lemma_ten_in_bits((k - 1) as nat);
        binary64::lemma_two_to_adds(4, (4 * (k - 1)) as nat);
        assert(binary64::two_to(4) == 16) by {
            reveal_with_fuel(binary64::two_to, 5);
        }
    }
}

/// How often a number can be doubled, bounded by its length in digits.
proof fn lemma_doublings(k: nat, length: nat)
    requires
        binary64::two_to(k) < ten_to(length),
    ensures
        k < 4 * length,
{
    lemma_ten_in_bits(length);
    if k >= 4 * length {
        binary64::lemma_two_to_grows(4 * length, k);
    }
}

/// The binary64 number nearest to the quotient of two numbers.
pub(crate) fn nearest_of(num: &Vec<u8>, den: &Vec<u8>) -> (f: Float)
    requires
        valid(num@),
        valid(den@),
        digits_number(num@) > 0,
        digits_number(den@) > 0,
        num@.len() <= 10_000_000,
        den@.len() <= 10_000_000,
    ensures
        f@ == binary64::nearest_binary(digits_number(num@), digits_number(den@), 0),
        binary64::reach(f@) <= 4 * (num@.len() + den@.len()) + 60,
{
    let ghost p = digits_number(num@);
    let ghost q = digits_number(den@);
    let ghost length = num@.len() + den@.len() + 1;
    let (n, d, x) = aligned(num, den);
    let ghost top = digits_number(n@);
    let ghost bottom = digits_number(d@);
    let (m, r) = leading_bits(&n, &d);
    proof {
        let t = binary64::two_to(52);
        binary64::lemma_two_to_values();
        rounding::lemma_moved_up(top, bottom, x as int, 52);
        let rest = (digits_number(r@) / 2) as nat;
        let full = top * t;
        assert(full == m * bottom + rest);
        assert(full / bottom == m && full % bottom == rest) by (nonlinear_arith)
            requires
                full == m * bottom + rest,
                0 <= rest < bottom,
        ;
        assert(binary64::LEAST_FULL * bottom <= full < binary64::BEYOND_FULL * bottom)
            by (nonlinear_arith)
            requires
                full == m * bottom + rest,
                0 <= rest < bottom,
                binary64::LEAST_FULL <= m < binary64::BEYOND_FULL,
        ;
    }
    let up: bool = is_below(&d, &r) || (!is_below(&r, &d) && m % 2 == 1);
    if !up {
        Float::assembled(m, x - 52)
    } else if m + 1 == binary64::BEYOND_FULL {
        Float::assembled(binary64::LEAST_FULL, x - 51)
    } else {
        Float::assembled(m + 1, x - 52)
    }
}

/// Doubles the smaller of two numbers until their quotient is at least one and
/// less than two. The last part of the result is the exponent that makes up
/// for the doubling.
fn aligned(num: &Vec<u8>, den: &Vec<u8>) -> (r: (Vec<u8>, Vec<u8>, i128))
    requires
        valid(num@),
        valid(den@),
        digits_number(num@) > 0,
        digits_number(den@) > 0,
        num@.len() <= 10_000_000,
        den@.len() <= 10_000_000,
    ensures
        valid(r.0@),
        valid(r.1@),
        0 < digits_number(r.1@) <= digits_number(r.0@) < 2 * digits_number(r.1@),
        binary64::nearest_binary(digits_number(r.0@), digits_number(r.1@), r.2 as int)
            == binary64::nearest_binary(digits_number(num@), digits_number(den@), 0),
        -4 * den@.len() <= r.2 <= 4 * (num@.len() + 1),
{
    let ghost p = digits_number(num@);
    let ghost q = digits_number(den@);
    let mut n: Vec<u8> = num.clone();
    let mut d: Vec<u8> = den.clone();
    assert(n@ =~= num@ && d@ =~= den@);
    let mut x: i128 = 0;
    proof {
        lemma_number_bound(num@);
        lemma_number_bound(den@);
        assert(p * binary64::two_to(0) == p) by (nonlinear_arith)
            requires
                binary64::two_to(0) == 1,
        ;
        assert(q * binary64::two_to(0) == q) by (nonlinear_arith)
            requires
                binary64::two_to(0) == 1,
        ;
    }
    while is_below(&n, &d)
        invariant
            valid(n@),
            valid(d@),
            p > 0,
            q < ten_to(den@.len()),
            den@.len() <= 10_000_000,
            digits_number(d@) == q,
            digits_number(n@) == p * binary64::two_to((-x) as nat),
            -4 * den@.len() <= x <= 0,
            x < 0 ==> digits_number(n@) < 2 * q,
            x == 0 ==> digits_number(n@) == p,
        decreases 2 * q - digits_number(n@),
    {
        proof {
            let k = (-x) as nat;
            let t = binary64::two_to(k);
            assert(p * t >= t) by (nonlinear_arith)
                requires
                    p >= 1,
            ;
            binary64::lemma_two_to_grows(0, k);
            lemma_doublings(k, den@.len());
            assert(binary64::two_to(k + 1) == 2 * t);
            assert(p * (2 * t) == 2 * (p * t)) by (nonlinear_arith);
            assert(p * t >= 1) by (nonlinear_arith)
                requires
                    p >= 1,
                    t >= 1,
            ;
        }
        n = doubled(&n);
        x = x - 1;
    }
    let ghost k = (-x) as nat;
    let ghost top = digits_number(n@);
    let ghost mut j: nat = 0;
    let mut twice: Vec<u8> = doubled(&d);
    while !is_below(&n, &twice)
        invariant
            valid(n@),
            valid(d@),
            valid(twice@),
            q > 0,
            p < ten_to(num@.len()),
            num@.len() <= 10_000_000,
            den@.len() <= 10_000_000,
            k <= 4 * den@.len(),
            top == digits_number(n@),
            k > 0 ==> top < 2 * q,
            k == 0 ==> top == p,
            digits_number(d@) == q * binary64::two_to(j),
            digits_number(twice@) == 2 * digits_number(d@),
            0 < digits_number(d@) <= top,
            x == j - k,
            j <= 4 * num@.len(),
        decreases top - digits_number(d@),
    {
        proof {
            let t = binary64::two_to(j);
            assert(binary64::two_to(j + 1) == 2 * t);
            assert(q * (2 * t) == 2 * (q * t)) by (nonlinear_arith);
            assert(q * (2 * t) >= 2 * t) by (nonlinear_arith)
                requires
                    q >= 1,
            ;
            binary64::lemma_two_to_grows(0, j);
            assert(q * t >= q) by (nonlinear_arith)
                requires
                    t >= 1,
            ;
            if k == 0 {
                lemma_doublings(j + 1, num@.len());
            }
            j = j + 1;
        }
        d = twice;
        twice = doubled(&d);
        x = x + 1;
    }
    proof {
        rounding::lemma_moved_up(p, q, 0, k);
        rounding::lemma_moved_down(top, q, -(k as int), j);
    }
    (n, d, x)
}

/// The 53 leading bits of a quotient that is at least one and less than two,
/// and twice what remains.
fn leading_bits(n: &Vec<u8>, d: &Vec<u8>) -> (r: (u128, Vec<u8>))
    requires
        valid(n@),
        valid(d@),
        0 < digits_number(d@) <= digits_number(n@) < 2 * digits_number(d@),
    ensures
        binary64::LEAST_FULL <= r.0 < binary64::BEYOND_FULL,
        valid(r.1@),
        digits_number(r.1@) % 2 == 0,
        digits_number(r.1@) < 2 * digits_number(d@),
        digits_number(n@) * binary64::two_to(52) == r.0 * digits_number(d@) + digits_number(r.1@)
            / 2,
{
    let ghost top = digits_number(n@);
    let ghost bottom = digits_number(d@);
    let mut q: u128 = 0;
    let mut r: Vec<u8> = n.clone();
    assert(r@ =~= n@);
    proof {
        assert(top * binary64::two_to(0) == top) by (nonlinear_arith)
            requires
                binary64::two_to(0) == 1,
        ;
        assert(bottom * 0 == 0);
    }
    for i in 0..53u32
        invariant
            valid(d@),
            valid(r@),
            bottom == digits_number(d@),
            bottom <= top < 2 * bottom,
            digits_number(r@) < 2 * bottom,
            digits_number(r@) + 2 * (bottom * q) == top * binary64::two_to(i as nat),
            i > 0 ==> digits_number(r@) % 2 == 0,
            i == 0 ==> q == 0 && digits_number(r@) == top,
            i > 0 ==> binary64::two_to((i - 1) as nat) <= q < binary64::two_to(i as nat),
    {
        let ghost old_q = q;
        let ghost old_r = digits_number(r@);
        proof {
            binary64::lemma_two_to_values();
            binary64::lemma_two_to_grows(i as nat, 52);
            assert(binary64::two_to((i + 1) as nat) == 2 * binary64::two_to(i as nat));
            assert(top * (2 * binary64::two_to(i as nat)) == 2 * (top * binary64::two_to(
                i as nat,
            ))) by (nonlinear_arith);
            if i > 0 {
                assert(binary64::two_to(i as nat) == 2 * binary64::two_to((i - 1) as nat));
            }
        }
        if is_below(&r, d) {
            q = 2 * q;
            r = doubled(&r);
        } else {
            q = 2 * q + 1;
            let rest = minus(&r, d);
            r = doubled(&rest);
        }
        assert(bottom * q == 2 * (bottom * old_q) + (q - 2 * old_q) * bottom) by (nonlinear_arith);
        assert((q - 2 * old_q) * bottom == if q == 2 * old_q {
            0
        } else {
            bottom as int
        }) by (nonlinear_arith)
            requires
                q == 2 * old_q || q == 2 * old_q + 1,
        ;
    }
    proof {
        binary64::lemma_two_to_values();
        assert(binary64::two_to(53) == 2 * binary64::two_to(52));
        assert(top * (2 * binary64::two_to(52)) == 2 * (top * binary64::two_to(52)))
            by (nonlinear_arith);
        assert(bottom * q == q * bottom) by (nonlinear_arith);
    }
    (q, r)
}

} // verus!
