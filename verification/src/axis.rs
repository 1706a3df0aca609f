//! The axis of the plot: where it ends, and which line a value falls on.

use vstd::prelude::*;

use crate::binary64::{self, power, Binary, Float, BEYOND_FULL, LEAST_FULL};
use crate::digits::{self, nearest_of, power_digits};
use crate::number::{self, Figure, Number};
use crate::rounding;

verus! {

/// Ten to the power of `k`.
pub open spec fn power_of_ten(k: int) -> Binary {
    if k >= 0 {
        binary64::whole(digits::ten_to(k as nat))
    } else {
        binary64::nearest_binary(1, digits::ten_to((-k) as nat), 0)
    }
}

/// The leading digit of the "nice" number at `j`.
pub open spec fn leading(j: int) -> nat {
    if j % 3 == 0 {
        1
    } else if j % 3 == 1 {
        2
    } else {
        5
    }
}

/// The "nice" numbers in ascending order: 1, 2 and 5 times each power of ten.
/// One stands at zero.
pub open spec fn nice(j: int) -> Binary {
    binary64::product(binary64::whole(leading(j)), power_of_ten(j / 3))
}

/// The number at `j` is the first nice one that is not below `v`.
pub open spec fn is_first_reaching(v: Binary, j: int) -> bool {
    binary64::less(nice(j - 1), v) && !binary64::less(nice(j), v)
}

/// The position of the first nice number that is not below `v`.
pub open spec fn first_reaching(v: Binary) -> int {
    choose|j: int| is_first_reaching(v, j)
}

/// `v` rounded up to a nice number; 1 where `v` is zero.
pub open spec fn axis_end(v: Figure) -> Figure {
    match v {
        Figure::Finite(a) => if a.m == 0 {
            Figure::Finite(binary64::whole(1))
        } else {
            Figure::Finite(nice(first_reaching(a)))
        },
        _ => v,
    }
}

/// The integer nearest to `a`; of two that are equally near, the larger.
pub open spec fn rounded_up(a: Binary) -> nat {
    if a.e >= 0 {
        a.m * binary64::two_to(a.e as nat)
    } else {
        let p = binary64::two_to((-a.e) as nat);
        (2 * a.m + p) / (2 * p)
    }
}

/// The line, counted from the top of a plot with `steps` lines below the
/// first, on which a value falls that is the fraction `share` of the axis. What
/// lies above the axis falls on the first line, what lies below on the last.
pub open spec fn line_of(share: Figure, steps: nat) -> nat {
    match share {
        Figure::Finite(a) => if binary64::less(binary64::whole(1), a) {
            0
        } else {
            let line = rounded_up(
                binary64::product(
                    binary64::difference(binary64::whole(1), a),
                    binary64::whole(steps),
                ),
            );
            if line < steps {
                line
            } else {
                steps
            }
        },
        _ => 0,
    }
}

/// The value of line `i`, counted from the top, of an axis that ends at `top`
/// and has `steps` lines below the first.
pub open spec fn value_at(top: Figure, i: nat, steps: nat) -> Figure {
    number::figure_product(
        top,
        binary64::difference(
            binary64::whole(1),
            binary64::quotient(binary64::whole(i), binary64::whole(steps)),
        ),
    )
}

/// The power of two with exponent `e`.
spec fn two_power(e: int) -> Binary {
    Binary { m: LEAST_FULL as nat, e: e - 52 }
}

proof fn lemma_two_power(e: int)
    ensures
        binary64::nearest_binary(1, 1, e) == two_power(e),
        two_power(e).normal(),
{
    binary64::lemma_two_to_values();
    rounding::lemma_moved_up(1, 1, e, 52);
    assert(1 * binary64::two_to(52) == LEAST_FULL);
    rounding::normal_numbers_are_kept(two_power(e));
}

proof fn lemma_power_normal(k: int)
    ensures
        power_of_ten(k).normal(),
        power_of_ten(k).m > 0,
{
    if k >= 0 {
        let t = digits::ten_to(k as nat);
        digits::lemma_ten_to_positive(k as nat);
        rounding::results_are_close(t, 1, 0);
        binary64::lemma_nearest_positive(t, 1, 0);
    } else {
        let t = digits::ten_to((-k) as nat);
        digits::lemma_ten_to_positive((-k) as nat);
        rounding::results_are_close(1, t, 0);
        binary64::lemma_nearest_positive(1, t, 0);
    }
}

/// Eight to the power of `n` is not more than ten to the power of `n`.
proof fn lemma_eights(n: nat)
    ensures
        1 <= binary64::two_to(3 * n) <= digits::ten_to(n),
    decreases n,
{
    binary64::lemma_two_to_grows(0, 3 * n);
    if n > 0 {
        lemma_eights((n - 1) as nat);
        binary64::lemma_two_to_adds(3, (3 * (n - 1)) as nat);
        assert(binary64::two_to(3) == 8) by {
            reveal_with_fuel(binary64::two_to, 4);
        }
    }
}

/// A small power of ten is not above the value.
proof fn lemma_low_power(v: Binary, k: int)
    requires
        v.normal(),
        v.m > 0,
        k <= 0,
        3 * k <= v.e,
    ensures
        !binary64::less(v, power_of_ten(k)),
{
    let n = (-k) as nat;
    let b = binary64::two_to(3 * n);
    let t = digits::ten_to(n);
    let bound = two_power(3 * k);
    lemma_eights(n);
    lemma_two_power(3 * k);
    lemma_power_normal(k);
    // 1 / 10^n and 1 / 8^n, over a common denominator.
    assert(t * b >= 1) by (nonlinear_arith)
        requires
            t >= 1,
            b >= 1,
    ;
    rounding::lemma_extended(1, t, 0, b);
    rounding::lemma_extended(1, b, 0, t);
    assert(b * t == t * b) by (nonlinear_arith);
    rounding::rounding_keeps_order(b, t, t * b, 0);
    rounding::lemma_moved_down(1, 1, 3 * k, 3 * n);
    assert(1 * b == b && b * 1 == b && t * 1 == t);
    assert(power_of_ten(k) == binary64::nearest_binary(1, t, 0));
    assert(!binary64::less(bound, power_of_ten(k)));
    binary64::lemma_less(v, bound);
    binary64::lemma_less_order(v, bound, power_of_ten(k));
}

/// A large power of ten is above the value.
proof fn lemma_high_power(v: Binary, k: int)
    requires
        v.normal(),
        v.m > 0,
        k >= 0,
        3 * k >= v.e + 53,
    ensures
        binary64::less(v, power_of_ten(k)),
{
    let n = k as nat;
    let b = binary64::two_to(3 * n);
    let t = digits::ten_to(n);
    let bound = two_power(3 * k);
    lemma_eights(n);
    lemma_two_power(3 * k);
    lemma_power_normal(k);
    rounding::rounding_keeps_order(b, t, 1, 0);
    rounding::lemma_moved_up(1, 1, 3 * k, 3 * n);
    assert(1 * b == b);
    assert(!binary64::less(power_of_ten(k), bound));
    binary64::lemma_less(v, bound);
    binary64::lemma_less(bound, v);
    binary64::lemma_less(v, power_of_ten(k));
    if !binary64::less(v, power_of_ten(k)) {
        binary64::lemma_less_order(v, power_of_ten(k), bound);
    }
}

/// The next power of ten is at least eight times as large.
proof fn lemma_next_power(k: int)
    ensures
        !binary64::less(
            power_of_ten(k + 1),
            Binary { m: power_of_ten(k).m, e: power_of_ten(k).e + 3 },
        ),
{
    assert(binary64::two_to(3) == 8) by {
        reveal_with_fuel(binary64::two_to, 4);
    }
    if k >= 0 {
        let t = digits::ten_to(k as nat);
        digits::lemma_ten_to_positive(k as nat);
        rounding::lemma_shifted(t, 1, 0, 3);
        rounding::lemma_moved_up(t, 1, 3, 3);
        assert(digits::ten_to((k + 1) as nat) == 10 * t);
        rounding::rounding_keeps_order(t * 8, 10 * t, 1, 0);
    } else {
        let u = digits::ten_to((-k - 1) as nat);
        let t = digits::ten_to((-k) as nat);
        digits::lemma_ten_to_positive((-k - 1) as nat);
        assert(t == 10 * u);
        rounding::lemma_shifted(1, t, 0, 3);
        rounding::lemma_moved_up(1, t, 3, 3);
        rounding::lemma_extended(1, u, 0, 10);
        rounding::rounding_keeps_order(8, 10, t, 0);
        assert(power_of_ten(k + 1) == binary64::nearest_binary(1, u, 0));
    }
}

/// A small multiple of a number.
proof fn lemma_multiple(c: nat, p: Binary)
    requires
        0 < c < BEYOND_FULL,
    ensures
        binary64::product(binary64::whole(c), p) == binary64::nearest_binary(c * p.m, 1, p.e),
{
    let x = binary64::whole(c);
    rounding::small_integers_are_exact(c);
    let j = (-x.e) as nat;
    let t = binary64::two_to(j);
    assert((c * t) * p.m == c * p.m * t) by (nonlinear_arith);
    rounding::lemma_moved_up(c * p.m, 1, p.e, j);
}

/// Twice and four times a number.
proof fn lemma_doubles(p: Binary)
    requires
        p.normal(),
        p.m > 0,
    ensures
        binary64::nearest_binary(2 * p.m, 1, p.e) == (Binary { m: p.m, e: p.e + 1 }),
        binary64::nearest_binary(4 * p.m, 1, p.e) == (Binary { m: p.m, e: p.e + 2 }),
{
    reveal_with_fuel(binary64::two_to, 3);
    assert(p.m * binary64::two_to(1) == 2 * p.m && p.m * binary64::two_to(2) == 4 * p.m)
        by (nonlinear_arith)
        requires
            binary64::two_to(1) == 2,
            binary64::two_to(2) == 4,
    ;
    rounding::lemma_moved_up(p.m, 1, p.e + 1, 1);
    rounding::lemma_moved_up(p.m, 1, p.e + 2, 2);
    rounding::normal_numbers_are_kept(Binary { m: p.m, e: p.e + 1 });
    rounding::normal_numbers_are_kept(Binary { m: p.m, e: p.e + 2 });
}

/// Five times a number, rounded, lies between twice and eight times it.
proof fn lemma_five_times(p: Binary)
    requires
        p.normal(),
        p.m > 0,
    ensures
        ({
            let n = binary64::nearest_binary(5 * p.m, 1, p.e);
            &&& n.normal()
            &&& n.m > 0
            &&& binary64::less(Binary { m: p.m, e: p.e + 1 }, n)
            &&& binary64::less(n, Binary { m: p.m, e: p.e + 3 })
        }),
{
    let n = binary64::nearest_binary(5 * p.m, 1, p.e);
    let two = Binary { m: p.m, e: p.e + 1 };
    let four = Binary { m: p.m, e: p.e + 2 };
    let eight = Binary { m: p.m, e: p.e + 3 };
    rounding::results_are_close(5 * p.m, 1, p.e);
    binary64::lemma_nearest_positive(5 * p.m, 1, p.e);
    lemma_doubles(p);
    rounding::rounding_keeps_order(4 * p.m, 5 * p.m, 1, p.e);
    binary64::lemma_less(n, four);
    binary64::lemma_less(two, n);
    // A number that is not below five times `p`, and below eight times it.
    reveal_with_fuel(binary64::two_to, 4);
    let z = if 5 * p.m <= 4 * (BEYOND_FULL - 1) {
        Binary { m: (BEYOND_FULL - 1) as nat, e: p.e + 2 }
    } else {
        Binary { m: 0x14_0000_0000_0000, e: p.e + 3 }
    };
    assert(z.m * binary64::two_to(2) == 4 * z.m && z.m * binary64::two_to(3) == 8 * z.m)
        by (nonlinear_arith)
        requires
            binary64::two_to(2) == 4,
            binary64::two_to(3) == 8,
    ;
    binary64::lemma_keeps(z, p.e, 0);
    rounding::rounding_keeps_order(5 * p.m, binary64::at_exponent(z, p.e), 1, p.e);
    binary64::lemma_less(z, n);
    binary64::lemma_less(n, eight);
}

/// The three nice numbers of a power of ten.
proof fn lemma_nice(k: int)
    ensures
        nice(3 * k) == power_of_ten(k),
        nice(3 * k + 1) == (Binary { m: power_of_ten(k).m, e: power_of_ten(k).e + 1 }),
        nice(3 * k + 2) == binary64::nearest_binary(
            5 * power_of_ten(k).m,
            1,
            power_of_ten(k).e,
        ),
        nice(3 * k + 3) == power_of_ten(k + 1),
{
    let p = power_of_ten(k);
    let q = power_of_ten(k + 1);
    lemma_power_normal(k);
    lemma_power_normal(k + 1);
    lemma_multiple(1, p);
    lemma_multiple(2, p);
    lemma_multiple(5, p);
    lemma_multiple(1, q);
    lemma_doubles(p);
    rounding::normal_numbers_are_kept(p);
    rounding::normal_numbers_are_kept(q);
    assert((3 * k) / 3 == k && (3 * k + 1) / 3 == k && (3 * k + 2) / 3 == k);
    assert((3 * k + 3) / 3 == k + 1);
}

proof fn lemma_nice_rises(j: int)
    ensures
        nice(j).normal(),
        nice(j).m > 0,
        binary64::less(nice(j), nice(j + 1)),
{
    let k = j / 3;
    let p = power_of_ten(k);
    lemma_nice(k);
    lemma_power_normal(k);
    lemma_power_normal(k + 1);
    lemma_five_times(p);
    lemma_next_power(k);
    let two = Binary { m: p.m, e: p.e + 1 };
    let eight = Binary { m: p.m, e: p.e + 3 };
    binary64::lemma_less(p, two);
    if j % 3 == 2 {
        let five = nice(j);
        let next = power_of_ten(k + 1);
        if !binary64::less(five, next) {
            binary64::lemma_less_order(five, next, eight);
        }
    }
}

/// The nice numbers are in ascending order.
proof fn lemma_nice_order(i: int, j: int)
    requires
        i <= j,
    ensures
        !binary64::less(nice(j), nice(i)),
        i < j ==> binary64::less(nice(i), nice(j)),
    decreases j - i,
{
    lemma_nice_rises(i);
    lemma_nice_rises(j);
    binary64::lemma_less(nice(j), nice(i));
    binary64::lemma_less(nice(i), nice(j));
    if i < j {
        lemma_nice_rises(j - 1);
        lemma_nice_order(i, j - 1);
        if !binary64::less(nice(i), nice(j)) {
            binary64::lemma_less_order(nice(j - 1), nice(i), nice(j));
        }
    }
}

/// There is only one first nice number that is not below `v`.
proof fn lemma_first_unique(v: Binary, i: int, j: int)
    requires
        is_first_reaching(v, i),
        is_first_reaching(v, j),
    ensures
        i == j,
{
    if i < j {
        lemma_nice_order(i, j - 1);
        binary64::lemma_less_order(nice(j - 1), nice(i), v);
    } else if j < i {
        lemma_nice_order(j, i - 1);
        binary64::lemma_less_order(nice(i - 1), nice(j), v);
    }
}

/// A value between two powers of ten is rounded up to the first nice number
/// from the one to the other.
proof fn lemma_between(v: Binary, k: int)
    requires
        !binary64::less(v, power_of_ten(k)),
        binary64::less(v, power_of_ten(k + 1)),
    ensures
        is_first_reaching(v, first_reaching(v)),
        first_reaching(v) == (if !binary64::less(nice(3 * k), v) {
            3 * k
        } else if !binary64::less(nice(3 * k + 1), v) {
            3 * k + 1
        } else if !binary64::less(nice(3 * k + 2), v) {
            3 * k + 2
        } else {
            3 * k + 3
        }),
{
    lemma_nice(k);
    lemma_nice_rises(3 * k - 1);
    let j = if !binary64::less(nice(3 * k), v) {
        3 * k
    } else if !binary64::less(nice(3 * k + 1), v) {
        3 * k + 1
    } else if !binary64::less(nice(3 * k + 2), v) {
        3 * k + 2
    } else {
        3 * k + 3
    };
    if j == 3 * k && !binary64::less(nice(3 * k - 1), v) {
        binary64::lemma_less_order(nice(3 * k - 1), v, nice(3 * k));
    }
    assert(!binary64::less(power_of_ten(k + 1), v));
    assert(is_first_reaching(v, j));
    lemma_first_unique(v, j, first_reaching(v));
}

/// Every value lies between two powers of ten.
proof fn lemma_magnitude(v: Binary, k: int) -> (r: int)
    requires
        v.normal(),
        v.m > 0,
        !binary64::less(v, power_of_ten(k)),
    ensures
        !binary64::less(v, power_of_ten(r)),
        binary64::less(v, power_of_ten(r + 1)),
    decreases binary64::reach(v) + 53 - k,
{
    if binary64::less(v, power_of_ten(k + 1)) {
        k
    } else {
        if k + 1 >= binary64::reach(v) + 53 {
            lemma_high_power(v, k + 1);
        }
        lemma_magnitude(v, k + 1)
    }
}

/// There is a first nice number that is not below a positive value.
proof fn lemma_first_exists(v: Binary)
    requires
        v.normal(),
        v.m > 0,
    ensures
        is_first_reaching(v, first_reaching(v)),
{
    lemma_low_power(v, -binary64::reach(v));
    let k = lemma_magnitude(v, -binary64::reach(v));
    lemma_between(v, k);
}

/// Ten to the power of `k`.
fn ten_power(k: i128) -> (f: Float)
    requires
        -2_000_000 <= k <= 2_000_000,
    ensures
        f@ == power_of_ten(k as int),
        binary64::reach(f@) <= 4 * (if k >= 0 {
            k as int
        } else {
            -k as int
        }) + 80,
{
    let one = power_digits(0);
    proof {
        digits::lemma_ten_to_positive(k as nat);
        digits::lemma_ten_to_positive((-k) as nat);
    }
    if k >= 0 {
        let t = power_digits(k as usize);
        nearest_of(&t, &one)
    } else {
        let t = power_digits((-k) as usize);
        nearest_of(&one, &t)
    }
}

/// The exponent of the largest power of ten that does not exceed `v`.
fn find_magnitude(v: Float) -> (k: i128)
    requires
        v@.m > 0,
        binary64::reach(v@) <= 1_000_000,
    ensures
        -binary64::reach(v@) - 100 <= k <= binary64::reach(v@) + 100,
        !binary64::less(v@, power_of_ten(k as int)),
        binary64::less(v@, power_of_ten(k + 1)),
{
    let (_, e) = v.parts();
    // Close to the exponent that is sought: ten is about two to the 10/3.
    let mut k: i128 = (e + 52) * 3 / 10;
    while v.is_less(ten_power(k))
        invariant
            v@.m > 0,
            v@.normal(),
            binary64::reach(v@) <= 1_000_000,
            -binary64::reach(v@) - 100 <= k <= binary64::reach(v@) + 100,
        decreases k + binary64::reach(v@) + 100,
    {
        proof {
            if k == -binary64::reach(v@) - 100 {
                lemma_low_power(v@, k as int);
            }
        }
        k = k - 1;
    }
    while !v.is_less(ten_power(k + 1))
        invariant
            v@.m > 0,
            v@.normal(),
            binary64::reach(v@) <= 1_000_000,
            -binary64::reach(v@) - 100 <= k <= binary64::reach(v@) + 100,
            !binary64::less(v@, power_of_ten(k as int)),
        decreases binary64::reach(v@) + 100 - k,
    {
        proof {
            if k == binary64::reach(v@) + 100 {
                lemma_high_power(v@, k + 1);
            }
        }
        k = k + 1;
    }
    k
}

/// Rounds a value up to a "nice" end of an axis: 1, 2 or 5 times a power of
/// ten. The limit on the exponent is far beyond that of the binary64 format.
pub fn nice_axis_max(v: Number) -> (r: Number)
    requires
        number::figure_reach(v@) <= 1_000_000,
    ensures
        r@ == axis_end(v@),
        number::figure_reach(r@) <= 4 * number::figure_reach(v@) + 1_000,
{
    match v {
        Number::Finite(a) => {
            if a.is_zero() {
                return Number::Finite(Float::from_whole(1));
            }
            let k: i128 = find_magnitude(a);
            let one = ten_power(k);
            let two = Float::from_whole(2).times(one);
            let five = Float::from_whole(5).times(one);
            proof {
                lemma_between(a@, k as int);
                lemma_nice(k as int);
                assert((3 * k + 1) / 3 == k && (3 * k + 2) / 3 == k);
            }
            if !one.is_less(a) {
                Number::Finite(one)
            } else if !two.is_less(a) {
                Number::Finite(two)
            } else if !five.is_less(a) {
                Number::Finite(five)
            } else {
                Number::Finite(ten_power(k + 1))
            }
        },
        _ => v,
    }
}

/// The line on which a value falls that is the fraction `share` of the axis.
/// The limit on the exponent is far beyond that of the binary64 format.
pub fn find_line(share: Number, steps: usize) -> (line: usize)
    requires
        number::figure_reach(share@) <= 10_000_000,
        steps <= LEAST_FULL,
    ensures
        line == line_of(share@, steps as nat),
{
    match share {
        Number::Finite(a) => {
            let one = Float::from_whole(1);
            if one.is_less(a) {
                return 0;
            }
            let below = one.minus(a).times(Float::from_whole(steps as u128));
            let (m, e) = below.parts();
            if m == 0 {
                assert(rounded_up(below@) == 0) by {
                    lemma_zero_rounds(below@);
                }
                0
            } else if e >= 0 {
                proof {
                    binary64::lemma_two_to_grows(0, e as nat);
                    assert(m as nat * binary64::two_to(e as nat) >= m) by (nonlinear_arith)
                        requires
                            binary64::two_to(e as nat) >= 1,
                    ;
                }
                steps
            } else if e > -100 {
                let p: u128 = power((-e) as u32);
                proof {
                    binary64::lemma_two_to_grows(0, (-e) as nat);
                    lemma_power_of_100();
                    binary64::lemma_two_to_grows((-e) as nat, 100);
                }
                let line: u128 = (2 * m + p) / (2 * p);
                if line < steps as u128 {
                    line as usize
                } else {
                    steps
                }
            } else {
                proof {
                    lemma_power_of_100();
                    binary64::lemma_two_to_grows(100, (-e) as nat);
                    let p = binary64::two_to((-e) as nat);
                    assert((2 * m as nat + p) / (2 * p) == 0) by (nonlinear_arith)
                        requires
                            2 * m as nat + p < 2 * p,
                    ;
                }
                0
            }
        },
        _ => 0,
    }
}

proof fn lemma_zero_rounds(a: Binary)
    requires
        a.m == 0,
    ensures
        rounded_up(a) == 0,
{
    if a.e >= 0 {
        assert(0 * binary64::two_to(a.e as nat) == 0);
    } else {
        let p = binary64::two_to((-a.e) as nat);
        binary64::lemma_two_to_grows(0, (-a.e) as nat);
        assert((0 + p) / (2 * p) == 0) by (nonlinear_arith)
            requires
                p >= 1,
        ;
    }
}

proof fn lemma_power_of_100()
    ensures
        binary64::two_to(100) == 0x10_0000_0000_0000_0000_0000_0000,
{
    binary64::lemma_two_to_values();
    binary64::lemma_two_to_adds(64, 36);
    binary64::lemma_two_to_adds(16, 20);
    assert(binary64::two_to(16) == 0x1_0000) by {
        reveal_with_fuel(binary64::two_to, 17);
    }
    assert(binary64::two_to(20) == 0x10_0000) by {
        reveal_with_fuel(binary64::two_to, 21);
    }
}

/// The value of line `i`, counted from the top, of an axis that ends at `top`.
/// The limit on the exponent is far beyond that of the binary64 format.
pub fn find_value(top: Number, i: usize, steps: usize) -> (r: Number)
    requires
        number::figure_reach(top@) <= 1_000_000,
        steps > 0,
    ensures
        r@ == value_at(top@, i as nat, steps as nat),
{
    proof {
        binary64::lemma_whole_positive(steps as nat);
    }
    let down = Float::from_whole(i as u128).over(Float::from_whole(steps as u128));
    top.times(Float::from_whole(1).minus(down))
}

/// Rounding up, at an exponent that is small enough.
proof fn lemma_rounded_at(a: Binary, f: int)
    requires
        f <= a.e,
        f <= 0,
    ensures
        rounded_up(a) == (2 * binary64::at_exponent(a, f) + binary64::two_to(
            (-f) as nat,
        )) / (2 * binary64::two_to((-f) as nat)),
{
    let whole = binary64::two_to((-f) as nat);
    binary64::lemma_two_to_grows(0, (-f) as nat);
    if a.e >= 0 {
        let p = binary64::two_to(a.e as nat);
        binary64::lemma_two_to_adds(a.e as nat, (-f) as nat);
        assert((2 * (a.m * (p * whole)) + whole) / (2 * whole) == a.m * p) by (nonlinear_arith)
            requires
                whole >= 1,
        ;
    } else {
        let p = binary64::two_to((-a.e) as nat);
        let k = binary64::two_to((a.e - f) as nat);
        binary64::lemma_two_to_grows(0, (-a.e) as nat);
        binary64::lemma_two_to_grows(0, (a.e - f) as nat);
        binary64::lemma_two_to_adds((-a.e) as nat, (a.e - f) as nat);
        let num = 2 * a.m + p;
        let den = 2 * p;
        assert(2 * (a.m * k) + p * k == k * num && 2 * (p * k) == k * den) by (nonlinear_arith)
            requires
                num == 2 * a.m + p,
                den == 2 * p,
        ;
        assert((k * num) / (k * den) == num / den) by (nonlinear_arith)
            requires
                k >= 1,
                den >= 1,
        ;
    }
}

proof fn lemma_rounded_order(low: Binary, high: Binary)
    requires
        !binary64::less(high, low),
    ensures
        rounded_up(low) <= rounded_up(high),
{
    let e = binary64::common_exponent(high, low);
    let f = if e <= 0 {
        e
    } else {
        0
    };
    let p = binary64::two_to((-f) as nat);
    binary64::lemma_two_to_grows(0, (-f) as nat);
    binary64::lemma_less_at(high, low, f);
    lemma_rounded_at(low, f);
    lemma_rounded_at(high, f);
    let x = 2 * binary64::at_exponent(low, f) + p;
    let y = 2 * binary64::at_exponent(high, f) + p;
    assert(x / (2 * p) <= y / (2 * p)) by (nonlinear_arith)
        requires
            x <= y,
            p >= 1,
    ;
}

/// A larger share of the axis never falls on a lower line.
pub proof fn larger_shares_stand_higher(low: Binary, high: Binary, steps: nat)
    requires
        !binary64::less(high, low),
    ensures
        line_of(Figure::Finite(high), steps) <= line_of(Figure::Finite(low), steps),
{
    let one = binary64::whole(1);
    if !binary64::less(one, high) {
        binary64::lemma_less_order(one, high, low);
        rounding::differences_turn_order(low, high, one);
        let far = binary64::difference(one, low);
        let near = binary64::difference(one, high);
        let by = binary64::whole(steps);
        rounding::products_keep_order(near, far, by);
        lemma_rounded_order(
            binary64::product(near, by),
            binary64::product(far, by),
        );
    }
}

/// A value is rounded up to 1, 2 or 5 times a power of ten that is not below
/// it.
pub proof fn axis_ends_at_a_nice_number(v: Binary)
    requires
        v.normal(),
        v.m > 0,
    ensures
        exists|m: nat, k: int|
            (m == 1 || m == 2 || m == 5) && axis_end(Figure::Finite(v)) == Figure::Finite(
                #[trigger] binary64::product(binary64::whole(m), power_of_ten(k)),
            ),
        !number::figure_less(axis_end(Figure::Finite(v)), Figure::Finite(v)),
{
    lemma_first_exists(v);
    let j = first_reaching(v);
    let m = leading(j);
    assert(axis_end(Figure::Finite(v)) == Figure::Finite(
        binary64::product(binary64::whole(m), power_of_ten(j / 3)),
    ));
}

/// Every 1, 2 or 5 times a power of ten has its place among the nice numbers.
proof fn lemma_place(m: nat, k: int) -> (j: int)
    requires
        m == 1 || m == 2 || m == 5,
    ensures
        nice(j) == binary64::product(binary64::whole(m), power_of_ten(k)),
{
    let j = if m == 1 {
        3 * k
    } else if m == 2 {
        3 * k + 1
    } else {
        3 * k + 2
    };
    assert(j / 3 == k && leading(j) == m);
    j
}

/// No smaller nice number is at or above the value.
pub proof fn axis_end_is_the_least(v: Binary, m: nat, k: int)
    requires
        v.normal(),
        v.m > 0,
        m == 1 || m == 2 || m == 5,
        !binary64::less(binary64::product(binary64::whole(m), power_of_ten(k)), v),
    ensures
        !number::figure_less(
            Figure::Finite(binary64::product(binary64::whole(m), power_of_ten(k))),
            axis_end(Figure::Finite(v)),
        ),
{
    lemma_first_exists(v);
    let i = lemma_place(m, k);
    let j = first_reaching(v);
    if i < j {
        lemma_nice_order(i, j - 1);
        binary64::lemma_less_order(nice(j - 1), nice(i), v);
    } else {
        lemma_nice_order(j, i);
    }
}

/// The end of the axis never falls as the value rises.
pub proof fn axis_end_never_falls(low: Binary, high: Binary)
    requires
        low.normal(),
        low.m > 0,
        high.normal(),
        !binary64::less(high, low),
    ensures
        !number::figure_less(axis_end(Figure::Finite(high)), axis_end(Figure::Finite(low))),
{
    binary64::lemma_less(high, low);
    lemma_first_exists(high);
    let j = first_reaching(high);
    binary64::lemma_less_order(nice(j), high, low);
    axis_end_is_the_least(low, leading(j), j / 3);
}

/// A nice number is its own end of the axis.
pub proof fn nice_numbers_are_kept(m: nat, k: int)
    requires
        m == 1 || m == 2 || m == 5,
    ensures
        ({
            let v = Figure::Finite(binary64::product(binary64::whole(m), power_of_ten(k)));
            axis_end(v) == v
        }),
{
    let j = lemma_place(m, k);
    lemma_nice_rises(j);
    lemma_nice_rises(j - 1);
    binary64::lemma_less(nice(j), nice(j));
    assert(is_first_reaching(nice(j), j));
    lemma_first_unique(nice(j), j, first_reaching(nice(j)));
}

/// Rounding the end of the axis again changes nothing.
pub proof fn axis_end_is_final(v: Binary)
    requires
        v.normal(),
    ensures
        axis_end(axis_end(Figure::Finite(v))) == axis_end(Figure::Finite(v)),
{
    if v.m == 0 {
        lemma_nice(0);
        nice_numbers_are_kept(1, 0);
        assert(nice(0) == binary64::product(binary64::whole(1), power_of_ten(0)));
    } else {
        let j = first_reaching(v);
        nice_numbers_are_kept(leading(j), j / 3);
    }
}

/// Two and a half times a number.
pub open spec fn two_and_a_half_times(v: Binary) -> Binary {
    binary64::product(
        binary64::quotient(binary64::whole(5), binary64::whole(2)),
        v,
    )
}

proof fn lemma_two_and_a_half(v: Binary)
    ensures
        two_and_a_half_times(v) == binary64::nearest_binary(5 * v.m, 1, v.e - 1),
{
    rounding::small_quotients_round_once(5, 2);
    rounding::lemma_moved_down(5, 1, -1, 1);
    reveal_with_fuel(binary64::two_to, 2);
    rounding::lemma_small_exact(5, -1);
    let c = binary64::nearest_binary(5, 1, -1);
    let d = (-1 - c.e) as nat;
    let t = binary64::two_to(d);
    assert((5 * t) * v.m == 5 * v.m * t) by (nonlinear_arith);
    rounding::lemma_moved_up(5 * v.m, 1, v.e - 1, d);
}

/// Ten times a value is not rounded to more than twelve times what the value
/// is rounded to.
proof fn lemma_ten_times(num: nat, den: nat)
    requires
        num > 0,
        den > 0,
    ensures
        ({
            let p = binary64::nearest_binary(num, den, 0);
            !binary64::less(
                binary64::nearest_binary(12 * p.m, 1, p.e),
                binary64::nearest_binary(10 * num, den, 0),
            )
        }),
{
    let p = binary64::nearest_binary(num, den, 0);
    rounding::results_are_close(num, den, 0);
    if p.e <= 0 {
        let t = binary64::two_to((-p.e) as nat);
        let exact = num * t;
        assert(10 * exact <= 12 * (p.m * den));
        rounding::lemma_moved_up(10 * num, den, 0, (-p.e) as nat);
        rounding::lemma_extended(12 * p.m, 1, p.e, den);
        assert(10 * num * t == 10 * exact) by (nonlinear_arith)
            requires
                exact == num * t,
        ;
        assert(den * (12 * p.m) == 12 * (p.m * den)) by (nonlinear_arith);
        assert(den * 1 == den);
        rounding::rounding_keeps_order(10 * num * t, den * (12 * p.m), den, p.e);
    } else {
        let t = binary64::two_to(p.e as nat);
        assert(10 * num <= 12 * (p.m * t * den));
        rounding::lemma_moved_up(12 * p.m, 1, p.e, p.e as nat);
        rounding::lemma_extended(12 * p.m * t, 1, 0, den);
        assert(den * (12 * p.m * t) == 12 * (p.m * t * den)) by (nonlinear_arith);
        assert(den * 1 == den);
        rounding::rounding_keeps_order(10 * num, den * (12 * p.m * t), den, 0);
    }
}

/// The step from five times a power of ten to the next power.
proof fn lemma_last_step(k: int)
    ensures
        !binary64::less(two_and_a_half_times(nice(3 * k + 2)), nice(3 * k + 3)),
{
    let p = power_of_ten(k);
    let f = nice(3 * k + 2);
    let twelve = binary64::nearest_binary(12 * p.m, 1, p.e);
    lemma_power_normal(k);
    lemma_nice(k);
    lemma_five_times(p);
    lemma_two_and_a_half(f);
    if k >= 0 {
        digits::lemma_ten_to_positive(k as nat);
        lemma_ten_times(digits::ten_to(k as nat), 1);
        assert(digits::ten_to((k + 1) as nat) == 10 * digits::ten_to(k as nat));
    } else {
        let u = digits::ten_to((-k - 1) as nat);
        let t = digits::ten_to((-k) as nat);
        digits::lemma_ten_to_positive((-k - 1) as nat);
        assert(t == 10 * u);
        lemma_ten_times(1, t);
        rounding::lemma_extended(1, u, 0, 10);
        assert(power_of_ten(k + 1) == binary64::nearest_binary(1, u, 0));
    }
    assert(!binary64::less(twelve, nice(3 * k + 3)));
    // Five times the power is rounded to more than 24/25 of it.
    binary64::lemma_less(Binary { m: p.m, e: p.e + 1 }, f);
    rounding::results_are_close(5 * p.m, 1, p.e);
    let d = (f.e - 1 - p.e) as nat;
    let t = binary64::two_to(d);
    assert(binary64::two_to(d + 1) == 2 * t);
    assert(f.m * (2 * t) * 1 == 2 * (f.m * t)) by (nonlinear_arith);
    assert(12 * p.m <= 5 * (f.m * t));
    assert(5 * f.m * t == 5 * (f.m * t)) by (nonlinear_arith);
    rounding::lemma_moved_up(5 * f.m, 1, f.e - 1, d);
    rounding::rounding_keeps_order(12 * p.m, 5 * f.m * t, 1, p.e);
    binary64::lemma_less_order(two_and_a_half_times(f), twelve, nice(3 * k + 3));
}

/// The axis ends at no more than two and a half times the value.
pub proof fn axis_end_is_near(v: Binary)
    requires
        v.normal(),
        v.m > 0,
    ensures
        !number::figure_less(
            Figure::Finite(two_and_a_half_times(v)),
            axis_end(Figure::Finite(v)),
        ),
{
    lemma_first_exists(v);
    let j = first_reaching(v);
    let k = (j - 1) / 3;
    let p = power_of_ten(k);
    let before = nice(j - 1);
    lemma_nice(k);
    lemma_power_normal(k);
    lemma_doubles(p);
    // Two and a half times the nice number below the value is enough.
    lemma_two_and_a_half(before);
    if j - 1 == 3 * k {
        let low = Binary { m: p.m, e: p.e - 1 };
        lemma_doubles(low);
        rounding::rounding_keeps_order(4 * p.m, 5 * p.m, 1, p.e - 1);
    } else if j - 1 == 3 * k + 1 {
        lemma_five_times(p);
        binary64::lemma_less(nice(j), nice(j));
    } else {
        lemma_last_step(k);
    }
    assert(!binary64::less(two_and_a_half_times(before), nice(j)));
    let c = binary64::quotient(binary64::whole(5), binary64::whole(2));
    assert(binary64::product(c, v) == binary64::product(v, c)) by {
        assert(c.m * v.m == v.m * c.m) by (nonlinear_arith);
    }
    assert(binary64::product(c, before) == binary64::product(before, c)) by {
        assert(c.m * before.m == before.m * c.m) by (nonlinear_arith);
    }
    rounding::products_keep_order(before, v, c);
    binary64::lemma_less_order(two_and_a_half_times(v), two_and_a_half_times(before), nice(j));
}

/// The end of an axis is a number above zero.
pub(crate) proof fn lemma_end_positive(v: Binary)
    requires
        v.normal(),
    ensures
        axis_end(Figure::Finite(v)) matches Figure::Finite(end) && end.normal() && end.m > 0,
{
    if v.m == 0 {
        rounding::results_are_close(1, 1, 0);
        binary64::lemma_whole_positive(1);
    } else {
        lemma_nice_rises(first_reaching(v));
    }
}

} // verus!
