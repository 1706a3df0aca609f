//! What rounding to binary64 numbers keeps.

use vstd::prelude::*;

use crate::binary64::{self, Binary, BEYOND_FULL, LEAST_FULL};

verus! {

/// Rounding to an integer moves a value by at most one half, and by one half
/// only to an even integer.
pub proof fn rounding_is_to_nearest(num: nat, den: nat)
    requires
        den > 0,
    ensures
        ({
            let moved = 2 * (binary64::nearest(num, den) * den - num);
            &&& -(den as int) <= moved <= den
            &&& moved == den || moved == -(den as int) ==> binary64::nearest(num, den) % 2 == 0
        }),
{
    let q = num / den;
    let r = num % den;
    assert(num == q * den + r) by (nonlinear_arith)
        requires
            q == num / den,
            r == num % den,
            den > 0,
    ;
    assert((q + 1) * den == q * den + den) by (nonlinear_arith);
}

/// `a` differs from `num / den * 2^e` by less than one part in two to the
/// 53rd.
pub open spec fn is_close(a: Binary, num: nat, den: nat, e: int) -> bool {
    if a.e <= e {
        let exact = num * binary64::two_to((e - a.e) as nat);
        -(exact as int) < BEYOND_FULL * (a.m * den - exact) < exact
    } else {
        -(num as int) < BEYOND_FULL * (a.m * binary64::two_to((a.e - e) as nat) * den - num) < num
    }
}

/// What an operation gives is a normal number that differs from the exact
/// result by less than one part in two to the 53rd.
pub proof fn results_are_close(num: nat, den: nat, e: int)
    requires
        den > 0,
    ensures
        binary64::nearest_binary(num, den, e).normal(),
        num > 0 ==> is_close(binary64::nearest_binary(num, den, e), num, den, e),
    decreases
            (if num < LEAST_FULL * den {
                LEAST_FULL * den - num
            } else if num >= BEYOND_FULL * den {
                num - BEYOND_FULL * den + 1
            } else {
                0
            }),
{
    let a = binary64::nearest_binary(num, den, e);
    if num == 0 {
    } else if num < LEAST_FULL * den {
        results_are_close(2 * num, den, e - 1);
        if a.e < e {
            let t = binary64::two_to((e - 1 - a.e) as nat);
            assert(binary64::two_to((e - a.e) as nat) == 2 * t);
            assert((2 * num) * t == num * (2 * t)) by (nonlinear_arith);
        } else {
            let t = binary64::two_to((a.e - e) as nat);
            assert(binary64::two_to((a.e - e + 1) as nat) == 2 * t);
            assert(a.m * (2 * t) * den == 2 * (a.m * t * den)) by (nonlinear_arith);
            if a.e == e {
                assert(a.m * t * den == a.m * den) by (nonlinear_arith)
                    requires
                        t == 1,
                ;
                assert(num * t == num) by (nonlinear_arith)
                    requires
                        t == 1,
                ;
            }
        }
    } else if num >= BEYOND_FULL * den {
        results_are_close(num, 2 * den, e + 1);
        if a.e <= e {
            let t = binary64::two_to((e - a.e) as nat);
            assert(binary64::two_to((e + 1 - a.e) as nat) == 2 * t);
            assert(num * (2 * t) == 2 * (num * t)) by (nonlinear_arith);
            assert(a.m * (2 * den) == 2 * (a.m * den)) by (nonlinear_arith);
        } else {
            let t = binary64::two_to((a.e - e - 1) as nat);
            assert(binary64::two_to((a.e - e) as nat) == 2 * t);
            assert(a.m * (2 * t) * den == a.m * t * (2 * den)) by (nonlinear_arith);
            if a.e == e + 1 {
                assert(a.m * t * (2 * den) == a.m * (2 * den)) by (nonlinear_arith)
                    requires
                        t == 1,
                ;
                assert(num * t == num) by (nonlinear_arith)
                    requires
                        t == 1,
                ;
            }
        }
    } else {
        let m = binary64::nearest(num, den);
        rounding_is_to_nearest(num, den);
        assert(LEAST_FULL <= num / den < BEYOND_FULL) by (nonlinear_arith)
            requires
                LEAST_FULL * den <= num < BEYOND_FULL * den,
                den > 0,
        ;
        if num == LEAST_FULL * den {
            binary64::lemma_nearest_near(LEAST_FULL as nat, den, 0);
        }
        assert(binary64::two_to(0) == 1);
        assert(binary64::two_to(1) == 2 * binary64::two_to(0));
        assert(num * binary64::two_to(0) == num) by (nonlinear_arith)
            requires
                binary64::two_to(0) == 1,
        ;
        if m == BEYOND_FULL {
            assert(a.m * binary64::two_to(1) * den == m * den) by (nonlinear_arith)
                requires
                    a.m == LEAST_FULL,
                    binary64::two_to(1) == 2,
                    m == BEYOND_FULL,
            ;
        }
    }
}

/// A fraction may be extended.
pub(crate) proof fn lemma_extended(num: nat, den: nat, e: int, c: nat)
    requires
        den > 0,
        c > 0,
    ensures
        binary64::nearest_binary(c * num, c * den, e) == binary64::nearest_binary(num, den, e),
    decreases
            (if num < LEAST_FULL * den {
                LEAST_FULL * den - num
            } else if num >= BEYOND_FULL * den {
                num - BEYOND_FULL * den + 1
            } else {
                0
            }),
{
    assert(c * den > 0) by (nonlinear_arith)
        requires
            c > 0,
            den > 0,
    ;
    assert((c * num == 0) == (num == 0)) by (nonlinear_arith)
        requires
            c > 0,
    ;
    assert((c * num < LEAST_FULL * (c * den)) == (num < LEAST_FULL * den)) by (nonlinear_arith)
        requires
            c > 0,
    ;
    assert((c * num >= BEYOND_FULL * (c * den)) == (num >= BEYOND_FULL * den)) by (nonlinear_arith)
        requires
            c > 0,
    ;
    if num == 0 {
    } else if num < LEAST_FULL * den {
        lemma_extended(2 * num, den, e - 1, c);
        assert(c * (2 * num) == 2 * (c * num)) by (nonlinear_arith);
    } else if num >= BEYOND_FULL * den {
        lemma_extended(num, 2 * den, e + 1, c);
        assert(c * (2 * den) == 2 * (c * den)) by (nonlinear_arith);
    } else {
        let q = num / den;
        let r = num % den;
        assert(num == q * den + r) by (nonlinear_arith)
            requires
                q == num / den,
                r == num % den,
                den > 0,
        ;
        assert((c * num) / (c * den) == q && (c * num) % (c * den) == c * r) by (nonlinear_arith)
            requires
                num == q * den + r,
                0 <= r < den,
                c > 0,
        ;
        assert((2 * (c * r) < c * den) == (2 * r < den)) by (nonlinear_arith)
            requires
                c > 0,
        ;
        assert((2 * (c * r) == c * den) == (2 * r == den)) by (nonlinear_arith)
            requires
                c > 0,
        ;
    }
}

/// A power of two may be moved from the exponent to the numerator.
pub(crate) proof fn lemma_moved_up(num: nat, den: nat, e: int, k: nat)
    requires
        den > 0,
    ensures
        binary64::nearest_binary(num * binary64::two_to(k), den, e - k)
            == binary64::nearest_binary(num, den, e),
    decreases k,
{
    if k == 0 {
        assert(num * binary64::two_to(0) == num) by (nonlinear_arith)
            requires
                binary64::two_to(0) == 1,
        ;
    } else {
        let t = binary64::two_to((k - 1) as nat);
        let n = num * t;
        lemma_moved_up(num, den, e, (k - 1) as nat);
        assert(num * (2 * t) == 2 * n) by (nonlinear_arith)
            requires
                n == num * t,
        ;
        let x = e - (k - 1);
        if n == 0 {
        } else if n < LEAST_FULL * den {
            assert(binary64::nearest_binary(n, den, x)
                == binary64::nearest_binary(2 * n, den, x - 1));
        } else {
            assert(binary64::nearest_binary(2 * n, den, x - 1)
                == binary64::nearest_binary(2 * n, 2 * den, x));
            lemma_extended(n, den, x, 2);
        }
    }
}

/// A power of two may be moved from the exponent to the denominator.
pub(crate) proof fn lemma_moved_down(num: nat, den: nat, e: int, k: nat)
    requires
        den > 0,
    ensures
        binary64::nearest_binary(num, den * binary64::two_to(k), e + k)
            == binary64::nearest_binary(num, den, e),
{
    let t = binary64::two_to(k);
    binary64::lemma_two_to_grows(0, k);
    assert(den * t > 0) by (nonlinear_arith)
        requires
            den > 0,
            t > 0,
    ;
    lemma_moved_up(num, den * t, e + k, k);
    lemma_extended(num, den, e, t);
    assert(t * num == num * t) by (nonlinear_arith);
    assert(t * den == den * t) by (nonlinear_arith);
}

/// Rounding does not depend on the exponent.
pub(crate) proof fn lemma_shifted(num: nat, den: nat, e: int, s: int)
    requires
        num > 0,
        den > 0,
    ensures
        ({
            let a = binary64::nearest_binary(num, den, e);
            binary64::nearest_binary(num, den, e + s) == (Binary { m: a.m, e: a.e + s })
        }),
    decreases
            (if num < LEAST_FULL * den {
                LEAST_FULL * den - num
            } else if num >= BEYOND_FULL * den {
                num - BEYOND_FULL * den + 1
            } else {
                0
            }),
{
    if num < LEAST_FULL * den {
        lemma_shifted(2 * num, den, e - 1, s);
    } else if num >= BEYOND_FULL * den {
        lemma_shifted(num, 2 * den, e + 1, s);
    }
}

/// A normal number is the nearest to itself.
pub proof fn normal_numbers_are_kept(a: Binary)
    requires
        a.normal(),
    ensures
        binary64::nearest_binary(a.m, 1, a.e) == a,
{
    binary64::lemma_keeps(a, a.e, 0);
    assert(a.m * binary64::two_to(0) == a.m) by (nonlinear_arith)
        requires
            binary64::two_to(0) == 1,
    ;
}

/// Whole numbers below two to the 53rd are binary64 numbers: they are not
/// changed by rounding.
pub proof fn small_integers_are_exact(n: nat)
    requires
        n < BEYOND_FULL,
    ensures
        binary64::whole(n).e <= 0,
        binary64::whole(n).m == n * binary64::two_to((-binary64::whole(n).e) as nat),
{
    lemma_small_exact(n, 0);
}

pub(crate) proof fn lemma_small_exact(n: nat, e: int)
    requires
        n < BEYOND_FULL,
    ensures
        ({
            let a = binary64::nearest_binary(n, 1, e);
            if n > 0 {
                a.e <= e && a.m == n * binary64::two_to((e - a.e) as nat)
            } else {
                a == (Binary { m: 0, e: 0 }) && 0 * binary64::two_to(0) == 0
            }
        }),
    decreases BEYOND_FULL - n,
{
    if n == 0 {
        assert(0 * binary64::two_to(0) == 0);
    } else if n < LEAST_FULL {
        lemma_small_exact(2 * n, e - 1);
        let a = binary64::nearest_binary(n, 1, e);
        let t = binary64::two_to((e - 1 - a.e) as nat);
        assert(binary64::two_to((e - a.e) as nat) == 2 * t);
        assert((2 * n) * t == n * (2 * t)) by (nonlinear_arith);
    } else {
        assert(n / 1 == n && n % 1 == 0);
        assert(n * binary64::two_to(0) == n) by (nonlinear_arith)
            requires
                binary64::two_to(0) == 1,
        ;
    }
}

/// The quotient of two whole numbers below two to the 53rd is the binary64
/// number nearest to the exact quotient.
pub proof fn small_quotients_round_once(a: nat, b: nat)
    requires
        a < BEYOND_FULL,
        0 < b < BEYOND_FULL,
    ensures
        binary64::quotient(binary64::whole(a), binary64::whole(b))
            == binary64::nearest_binary(a, b, 0),
{
    let x = binary64::whole(a);
    let y = binary64::whole(b);
    small_integers_are_exact(a);
    small_integers_are_exact(b);
    let j = (-x.e) as nat;
    let k = (-y.e) as nat;
    binary64::lemma_two_to_grows(0, k);
    assert(b * binary64::two_to(k) > 0) by (nonlinear_arith)
        requires
            b > 0,
            binary64::two_to(k) > 0,
    ;
    lemma_moved_up(a, b * binary64::two_to(k), k as int, j);
    lemma_moved_down(a, b, 0, k);
}

/// A small whole number as a multiple of a power of two.
proof fn lemma_whole_at(n: nat, e: int)
    requires
        n < BEYOND_FULL,
        e <= binary64::whole(n).e,
    ensures
        binary64::at_exponent(binary64::whole(n), e) == n * binary64::two_to((-e) as nat),
{
    let x = binary64::whole(n);
    small_integers_are_exact(n);
    let p = binary64::two_to((-x.e) as nat);
    let q = binary64::two_to((x.e - e) as nat);
    binary64::lemma_two_to_adds((-x.e) as nat, (x.e - e) as nat);
    assert(n * p * q == n * (p * q)) by (nonlinear_arith);
}

/// The sum of two whole numbers is exact as long as it is below two to the
/// 53rd.
pub proof fn small_sums_are_exact(a: nat, b: nat)
    requires
        a + b < BEYOND_FULL,
    ensures
        binary64::sum(binary64::whole(a), binary64::whole(b)) == binary64::whole(a + b),
{
    let x = binary64::whole(a);
    let y = binary64::whole(b);
    small_integers_are_exact(a);
    small_integers_are_exact(b);
    let e = binary64::common_exponent(x, y);
    let k = (-e) as nat;
    let p = binary64::two_to(k);
    lemma_whole_at(a, e);
    lemma_whole_at(b, e);
    assert(a * p + b * p == (a + b) * p) by (nonlinear_arith);
    lemma_moved_up(a + b, 1, 0, k);
}

/// Zero changes nothing when it is added, and one when it is divided by.
pub proof fn neutral_elements(a: Binary)
    requires
        a.normal(),
    ensures
        binary64::sum(Binary { m: 0, e: 0 }, a) == a,
        binary64::quotient(a, binary64::whole(1)) == a,
{
    let zero = Binary { m: 0, e: 0 };
    let e = binary64::common_exponent(zero, a);
    assert(binary64::at_exponent(zero, e) == 0) by (nonlinear_arith)
        requires
            binary64::at_exponent(zero, e) == 0 * binary64::two_to((0 - e) as nat),
    ;
    binary64::lemma_two_to_grows(0, (a.e - e) as nat);
    binary64::lemma_keeps(a, e, 0);
    small_integers_are_exact(1);
    let one = binary64::whole(1);
    let k = (-one.e) as nat;
    assert(1 * binary64::two_to(k) == binary64::two_to(k));
    lemma_moved_down(a.m, 1, a.e, k);
    normal_numbers_are_kept(a);
}

/// What is at most `2^52` units of `2^e` is rounded to at most that, and what
/// is at least that to at least that.
proof fn lemma_full_bounds(num: nat, den: nat, e: int)
    requires
        num > 0,
        den > 0,
    ensures
        num <= LEAST_FULL * den ==> !binary64::less(
            Binary { m: LEAST_FULL as nat, e },
            binary64::nearest_binary(num, den, e),
        ),
        num >= LEAST_FULL * den ==> !binary64::less(
            binary64::nearest_binary(num, den, e),
            Binary { m: LEAST_FULL as nat, e },
        ),
    decreases
            (if num < LEAST_FULL * den {
                LEAST_FULL * den - num
            } else if num >= BEYOND_FULL * den {
                num - BEYOND_FULL * den + 1
            } else {
                0
            }),
{
    let bound = Binary { m: LEAST_FULL as nat, e };
    let a = binary64::nearest_binary(num, den, e);
    results_are_close(num, den, e);
    binary64::lemma_nearest_positive(num, den, e);
    binary64::lemma_less(bound, a);
    binary64::lemma_less(a, bound);
    if num < LEAST_FULL * den {
        if 2 * num <= LEAST_FULL * den {
            lemma_full_bounds(2 * num, den, e - 1);
            binary64::lemma_less(Binary { m: LEAST_FULL as nat, e: e - 1 }, a);
        } else {
            assert(binary64::nearest_binary(2 * num, den, e - 1) == binary64::carried(
                binary64::nearest(2 * num, den),
                e - 1,
            ));
        }
    } else if num >= BEYOND_FULL * den {
        lemma_full_bounds(num, 2 * den, e + 1);
        binary64::lemma_less(a, Binary { m: LEAST_FULL as nat, e: e + 1 });
    } else {
        if num == LEAST_FULL * den {
            binary64::lemma_nearest_near(LEAST_FULL as nat, den, 0);
        }
    }
}

/// Rounding keeps the order of two values.
pub proof fn rounding_keeps_order(low: nat, high: nat, den: nat, e: int)
    requires
        low <= high,
        den > 0,
    ensures
        !binary64::less(
            binary64::nearest_binary(high, den, e),
            binary64::nearest_binary(low, den, e),
        ),
    decreases
            (if high < LEAST_FULL * den {
                LEAST_FULL * den - high
            } else if low >= BEYOND_FULL * den {
                low - BEYOND_FULL * den + 1
            } else {
                0
            }),
{
    let a = binary64::nearest_binary(low, den, e);
    let b = binary64::nearest_binary(high, den, e);
    results_are_close(low, den, e);
    results_are_close(high, den, e);
    binary64::lemma_less(b, a);
    if low == 0 {
    } else if high < LEAST_FULL * den {
        rounding_keeps_order(2 * low, 2 * high, den, e - 1);
    } else if low >= BEYOND_FULL * den {
        rounding_keeps_order(low, high, 2 * den, e + 1);
    } else if low < LEAST_FULL * den {
        let bound = Binary { m: LEAST_FULL as nat, e };
        lemma_full_bounds(low, den, e);
        lemma_full_bounds(high, den, e);
        binary64::lemma_less_order(b, bound, a);
    } else if high >= BEYOND_FULL * den {
        let bound = Binary { m: LEAST_FULL as nat, e: e + 1 };
        assert(low <= LEAST_FULL * (2 * den));
        assert(b == binary64::nearest_binary(high, 2 * den, e + 1));
        lemma_full_bounds(high, 2 * den, e + 1);
        lemma_moved_down(low, den, e, 1);
        assert(binary64::two_to(1) == 2 * binary64::two_to(0));
        assert(den * binary64::two_to(1) == 2 * den) by (nonlinear_arith)
            requires
                binary64::two_to(1) == 2,
        ;
        lemma_full_bounds(low, 2 * den, e + 1);
        binary64::lemma_less_order(b, bound, a);
    } else {
        assert(low / den <= high / den) by (nonlinear_arith)
            requires
                low <= high,
                den > 0,
        ;
        let q = low / den;
        if q == high / den {
            assert(low % den <= high % den) by (nonlinear_arith)
                requires
                    low <= high,
                    den > 0,
                    low / den == high / den,
            ;
        }
        binary64::lemma_nearest_positive(low, den, e);
        binary64::lemma_nearest_positive(high, den, e);
        assert(binary64::nearest(low, den) <= binary64::nearest(high, den));
        assert(LEAST_FULL <= low / den && high / den < BEYOND_FULL) by (nonlinear_arith)
            requires
                LEAST_FULL * den <= low,
                high < BEYOND_FULL * den,
                den > 0,
        ;
    }
}

/// A number may be written as a multiple of a smaller power of two.
proof fn lemma_at_lower(a: Binary, e: int, f: int)
    requires
        f <= e <= a.e,
    ensures
        binary64::at_exponent(a, f) == binary64::at_exponent(a, e)
            * binary64::two_to((e - f) as nat),
{
    let p = binary64::two_to((a.e - e) as nat);
    let q = binary64::two_to((e - f) as nat);
    binary64::lemma_two_to_adds((a.e - e) as nat, (e - f) as nat);
    assert(a.m * (p * q) == a.m * p * q) by (nonlinear_arith);
}

/// A larger dividend gives no smaller quotient.
pub proof fn quotients_keep_order(low: Binary, high: Binary, by: Binary)
    requires
        !binary64::less(high, low),
        by.m > 0,
    ensures
        !binary64::less(
            binary64::quotient(high, by),
            binary64::quotient(low, by),
        ),
{
    let e = binary64::common_exponent(high, low);
    lemma_moved_up(low.m, by.m, low.e - by.e, (low.e - e) as nat);
    lemma_moved_up(high.m, by.m, high.e - by.e, (high.e - e) as nat);
    rounding_keeps_order(
        binary64::at_exponent(low, e),
        binary64::at_exponent(high, e),
        by.m,
        e - by.e,
    );
}

/// A larger factor gives no smaller product.
pub proof fn products_keep_order(low: Binary, high: Binary, by: Binary)
    requires
        !binary64::less(high, low),
    ensures
        !binary64::less(
            binary64::product(high, by),
            binary64::product(low, by),
        ),
{
    let e = binary64::common_exponent(high, low);
    let p = binary64::two_to((low.e - e) as nat);
    let q = binary64::two_to((high.e - e) as nat);
    lemma_moved_up(low.m * by.m, 1, low.e + by.e, (low.e - e) as nat);
    lemma_moved_up(high.m * by.m, 1, high.e + by.e, (high.e - e) as nat);
    assert(low.m * by.m * p <= high.m * by.m * q) by (nonlinear_arith)
        requires
            low.m * p <= high.m * q,
    ;
    rounding_keeps_order(low.m * by.m * p, high.m * by.m * q, 1, e + by.e);
}

/// The difference from a number that is not smaller, at a smaller exponent.
proof fn lemma_difference_at(top: Binary, a: Binary, f: int)
    requires
        !binary64::less(top, a),
        f <= binary64::common_exponent(top, a),
    ensures
        binary64::at_exponent(a, f) <= binary64::at_exponent(top, f),
        binary64::difference(top, a) == binary64::nearest_binary(
            (binary64::at_exponent(top, f) - binary64::at_exponent(a, f)) as nat,
            1,
            f,
        ),
{
    let e = binary64::common_exponent(top, a);
    let p = binary64::two_to((e - f) as nat);
    let x = binary64::at_exponent(top, e);
    let y = binary64::at_exponent(a, e);
    binary64::lemma_less_at(top, a, f);
    lemma_at_lower(top, e, f);
    lemma_at_lower(a, e, f);
    lemma_moved_up((x - y) as nat, 1, e, (e - f) as nat);
    assert((x - y) * p == x * p - y * p) by (nonlinear_arith);
}

/// Of two numbers that do not exceed `top`, the larger is no further from it.
pub proof fn differences_turn_order(low: Binary, high: Binary, top: Binary)
    requires
        !binary64::less(high, low),
        !binary64::less(top, high),
    ensures
        !binary64::less(
            binary64::difference(top, low),
            binary64::difference(top, high),
        ),
{
    binary64::lemma_less_order(top, high, low);
    let e = binary64::common_exponent(top, low);
    let f = if e <= high.e {
        e
    } else {
        high.e
    };
    lemma_difference_at(top, low, f);
    lemma_difference_at(top, high, f);
    binary64::lemma_less_at(high, low, f);
    rounding_keeps_order(
        (binary64::at_exponent(top, f) - binary64::at_exponent(high, f)) as nat,
        (binary64::at_exponent(top, f) - binary64::at_exponent(low, f)) as nat,
        1,
        f,
    );
}

/// A sum is zero only where both parts are.
pub proof fn only_zeros_add_up_to_zero(a: Binary, b: Binary)
    ensures
        binary64::sum(a, b).m == 0 <==> a.m == 0 && b.m == 0,
{
    let e = binary64::common_exponent(a, b);
    let p = binary64::two_to((a.e - e) as nat);
    let q = binary64::two_to((b.e - e) as nat);
    binary64::lemma_two_to_grows(0, (a.e - e) as nat);
    binary64::lemma_two_to_grows(0, (b.e - e) as nat);
    assert(a.m * p == 0 <==> a.m == 0) by (nonlinear_arith)
        requires
            p >= 1,
    ;
    assert(b.m * q == 0 <==> b.m == 0) by (nonlinear_arith)
        requires
            q >= 1,
    ;
    if a.m > 0 || b.m > 0 {
        binary64::lemma_nearest_positive(a.m * p + b.m * q, 1, e);
    }
}

/// Only equal numbers have no difference.
pub proof fn only_equals_do_not_differ(a: Binary, b: Binary)
    requires
        a.normal(),
        b.normal(),
    ensures
        binary64::difference(a, b).m == 0 <==> a == b,
{
    let e = binary64::common_exponent(a, b);
    let gap = binary64::distance(binary64::at_exponent(a, e), binary64::at_exponent(b, e));
    if gap > 0 {
        binary64::lemma_nearest_positive(gap, 1, e);
    } else {
        binary64::lemma_less(a, b);
        binary64::lemma_less(b, a);
    }
}

} // verus!
