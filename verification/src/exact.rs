//! The exact values of binary64 numbers, as real numbers, and how far the
//! operations stray from exact arithmetic.

use vstd::arithmetic::power2::pow2;
use vstd::prelude::*;

use crate::binary64::{self, Binary};
use crate::rounding;

verus! {

/// Two to the power of `e`.
pub open spec fn scale(e: int) -> real {
    if e >= 0 {
        pow2(e as nat) as real
    } else {
        1 as real / pow2((-e) as nat) as real
    }
}

/// The number that `a` stands for.
pub open spec fn value(a: Binary) -> real {
    a.m as real * scale(a.e)
}

/// One part in two to the 53rd.
pub open spec fn part() -> real {
    1 as real / 9_007_199_254_740_992 as real
}

/// `x` differs from `y`, which is not negative, by at most `parts` parts of
/// `y` in two to the 53rd.
pub open spec fn near(x: real, y: real, parts: real) -> bool {
    y * (1 as real - parts * part()) <= x <= y * (1 as real + parts * part())
}

/// The distance of two numbers.
pub open spec fn apart(x: real, y: real) -> real {
    if x >= y {
        x - y
    } else {
        y - x
    }
}

/// The powers of two are those of the arithmetic library.
pub proof fn two_to_is_a_power_of_two(k: nat)
    ensures
        binary64::two_to(k) == pow2(k),
    decreases k,
{
    if k == 0 {
        vstd::arithmetic::power2::lemma2_to64();
    } else {
        two_to_is_a_power_of_two((k - 1) as nat);
        vstd::arithmetic::power2::lemma_pow2_unfold(k);
    }
}

pub(crate) proof fn lemma_scale(e: int)
    ensures
        scale(e) > 0 as real,
        e >= 0 ==> scale(e) == binary64::two_to(e as nat) as real,
{
    if e >= 0 {
        two_to_is_a_power_of_two(e as nat);
        binary64::lemma_two_to_grows(0, e as nat);
    } else {
        let p = pow2((-e) as nat) as real;
        two_to_is_a_power_of_two((-e) as nat);
        binary64::lemma_two_to_grows(0, (-e) as nat);
        assert(1 as real / p > 0 as real) by (nonlinear_arith)
            requires
                p > 0 as real,
        ;
    }
}

pub(crate) proof fn lemma_times(x: nat, y: nat)
    ensures
        (x * y) as real == x as real * y as real,
{
    assert((x * y) as real == x as real * y as real) by (nonlinear_arith);
}

/// The power of two of a sum, for a part that is not negative.
proof fn lemma_scale_up(e: int, k: nat)
    ensures
        scale(e + k) == scale(e) * (binary64::two_to(k) as real),
    decreases k,
{
    let s = scale(e);
    if k == 0 {
        assert(s * 1 as real == s) by (nonlinear_arith);
    } else {
        lemma_scale_up(e, (k - 1) as nat);
        let f = e + k - 1;
        let t = binary64::two_to((k - 1) as nat) as real;
        lemma_scale(f);
        lemma_scale(f + 1);
        assert(scale(f + 1) == 2 as real * scale(f)) by {
            if f >= 0 {
                assert(binary64::two_to((f + 1) as nat) == 2 * binary64::two_to(f as nat));
            } else {
                let p = pow2((-f) as nat) as real;
                let q = pow2((-f - 1) as nat) as real;
                vstd::arithmetic::power2::lemma_pow2_unfold((-f) as nat);
                two_to_is_a_power_of_two((-f - 1) as nat);
                binary64::lemma_two_to_grows(0, (-f - 1) as nat);
                assert(p == 2 as real * q);
                vstd::arithmetic::power2::lemma2_to64();
                assert(1 as real / q == 2 as real * (1 as real / p)) by (nonlinear_arith)
                    requires
                        p == 2 as real * q,
                        q > 0 as real,
                ;
                if f == -1 {
                    assert(q == 1 as real);
                    assert(1 as real / q == 1 as real) by (nonlinear_arith)
                        requires
                            q == 1 as real,
                    ;
                }
            }
        }
        assert(2 as real * (s * t) == s * (2 as real * t)) by (nonlinear_arith);
    }
}

pub(crate) proof fn lemma_scale_adds(e: int, f: int)
    ensures
        scale(e + f) == scale(e) * scale(f),
{
    if f >= 0 {
        lemma_scale(f);
        lemma_scale_up(e, f as nat);
    } else {
        let k = (-f) as nat;
        lemma_scale_up(e + f, k);
        lemma_scale_up(f, k);
        lemma_scale(f);
        lemma_scale(0);
        let t = binary64::two_to(k) as real;
        vstd::arithmetic::power2::lemma2_to64();
        assert(scale(0) == 1 as real);
        assert(scale(e + f) == scale(e) * scale(f)) by (nonlinear_arith)
            requires
                scale(e) == scale(e + f) * t,
                scale(f) * t == 1 as real,
        ;
    }
}

/// A number as a multiple of a smaller power of two.
pub(crate) proof fn lemma_value_at(a: Binary, f: int)
    requires
        f <= a.e,
    ensures
        value(a) == binary64::at_exponent(a, f) as real * scale(f),
{
    let t = binary64::two_to((a.e - f) as nat);
    lemma_scale_up(f, (a.e - f) as nat);
    lemma_times(a.m, t);
    assert(a.m as real * (scale(f) * t as real) == (a.m as real * t as real) * scale(f))
        by (nonlinear_arith);
}

pub(crate) proof fn lemma_value_sign(a: Binary)
    ensures
        value(a) >= 0 as real,
        a.m > 0 ==> value(a) > 0 as real,
        a.m == 0 ==> value(a) == 0 as real,
{
    let s = scale(a.e);
    let m = a.m as real;
    lemma_scale(a.e);
    assert(m >= 0 as real ==> m * s >= 0 as real) by (nonlinear_arith)
        requires
            s > 0 as real,
    ;
    assert(m > 0 as real ==> m * s > 0 as real) by (nonlinear_arith)
        requires
            s > 0 as real,
    ;
    assert(m == 0 as real ==> m * s == 0 as real) by (nonlinear_arith);
}

/// A number is less than another where its value is.
pub proof fn order_is_that_of_the_values(a: Binary, b: Binary)
    ensures
        binary64::less(a, b) <==> value(a) < value(b),
{
    let e = binary64::common_exponent(a, b);
    let x = binary64::at_exponent(a, e) as real;
    let y = binary64::at_exponent(b, e) as real;
    let s = scale(e);
    lemma_value_at(a, e);
    lemma_value_at(b, e);
    lemma_scale(e);
    assert(x < y <==> x * s < y * s) by (nonlinear_arith)
        requires
            s > 0 as real,
    ;
}

/// Rounding moves a value by less than one part in two to the 53rd.
pub proof fn rounding_stays_near(num: nat, den: nat, e: int)
    requires
        den > 0,
    ensures
        near(
            value(binary64::nearest_binary(num, den, e)),
            num as real / den as real * scale(e),
            1 as real,
        ),
{
    let a = binary64::nearest_binary(num, den, e);
    let n = num as real;
    let d = den as real;
    let x = n / d * scale(e);
    lemma_scale(e);
    lemma_scale(a.e);
    if num == 0 {
        lemma_value_sign(a);
        assert(x == 0 as real) by (nonlinear_arith)
            requires
                x == n / d * scale(e),
                n == 0 as real,
                d > 0 as real,
        ;
        assert(0 as real * (1 as real - 1 as real * part()) == 0 as real) by (nonlinear_arith);
        assert(0 as real * (1 as real + 1 as real * part()) == 0 as real) by (nonlinear_arith);
    } else {
        rounding::results_are_close(num, den, e);
        let m = a.m as real;
        if a.e <= e {
            let t = binary64::two_to((e - a.e) as nat);
            let exact = num * t;
            let s = scale(a.e);
            lemma_scale_up(a.e, (e - a.e) as nat);
            lemma_times(num, t);
            lemma_times(a.m, den);
            lemma_near(m, d, exact as real, s);
            assert(exact as real / d * s == x) by (nonlinear_arith)
                requires
                    exact as real == n * t as real,
                    x == n / d * (s * t as real),
                    d > 0 as real,
            ;
        } else {
            let t = binary64::two_to((a.e - e) as nat);
            let s = scale(e);
            lemma_scale_up(e, (a.e - e) as nat);
            lemma_times(a.m, t);
            lemma_times(a.m * t, den);
            lemma_near(m * t as real, d, n, s);
            assert(m * t as real * s == m * (s * t as real)) by (nonlinear_arith);
        }
    }
}

/// Closeness of a fraction, scaled.
proof fn lemma_near(m: real, d: real, exact: real, s: real)
    requires
        d > 0 as real,
        s > 0 as real,
        exact > 0 as real,
        -exact < 9_007_199_254_740_992 as real * (m * d - exact) < exact,
    ensures
        near(m * s, exact / d * s, 1 as real),
{
    let b = 9_007_199_254_740_992 as real;
    let u = part();
    let q = exact / d;
    assert(u * b == 1 as real) by (nonlinear_arith)
        requires
            u == 1 as real / b,
            b > 0 as real,
    ;
    assert(q * d == exact && q > 0 as real) by (nonlinear_arith)
        requires
            q == exact / d,
            d > 0 as real,
            exact > 0 as real,
    ;
    assert(m * b <= q * (b + 1 as real)) by (nonlinear_arith)
        requires
            b * (m * d - q * d) < q * d,
            d > 0 as real,
    ;
    assert(m * b >= q * (b - 1 as real)) by (nonlinear_arith)
        requires
            b * (m * d - q * d) > -(q * d),
            d > 0 as real,
    ;
    assert(m <= q * (1 as real + u)) by (nonlinear_arith)
        requires
            m * b <= q * (b + 1 as real),
            u * b == 1 as real,
            b > 0 as real,
            u > 0 as real,
    ;
    assert(m >= q * (1 as real - u)) by (nonlinear_arith)
        requires
            m * b >= q * (b - 1 as real),
            u * b == 1 as real,
            b > 0 as real,
            u > 0 as real,
    ;
    assert(1 as real * u == u) by (nonlinear_arith);
    assert(m * s <= (q * s) * (1 as real + u)) by (nonlinear_arith)
        requires
            m <= q * (1 as real + u),
            s > 0 as real,
    ;
    assert(m * s >= (q * s) * (1 as real - u)) by (nonlinear_arith)
        requires
            m >= q * (1 as real - u),
            s > 0 as real,
    ;
}

/// A whole number is rounded by at most one part, and not at all below two to
/// the 53rd.
pub proof fn whole_numbers_stay_near(n: nat)
    ensures
        near(value(binary64::whole(n)), n as real, 1 as real),
        n < 9_007_199_254_740_992 ==> value(binary64::whole(n)) == n as real,
{
    rounding_stays_near(n, 1, 0);
    vstd::arithmetic::power2::lemma2_to64();
    let x = n as real;
    assert(x / 1 as real * 1 as real == x) by (nonlinear_arith);
    if n < 9_007_199_254_740_992 {
        let a = binary64::whole(n);
        rounding::small_integers_are_exact(n);
        let t = binary64::two_to((-a.e) as nat);
        lemma_times(n, t);
        lemma_scale_up(a.e, (-a.e) as nat);
        assert(x * t as real * scale(a.e) == x) by (nonlinear_arith)
            requires
                1 as real == scale(a.e) * t as real,
        ;
    }
}

/// A sum is the exact sum, but for one part.
pub proof fn sums_stay_near(a: Binary, b: Binary)
    ensures
        near(value(binary64::sum(a, b)), value(a) + value(b), 1 as real),
{
    let e = binary64::common_exponent(a, b);
    let x = binary64::at_exponent(a, e);
    let y = binary64::at_exponent(b, e);
    lemma_value_at(a, e);
    lemma_value_at(b, e);
    rounding_stays_near(x + y, 1, e);
    let z = (x + y) as real;
    let s = scale(e);
    assert(z / 1 as real * s == x as real * s + y as real * s) by (nonlinear_arith)
        requires
            z == x as real + y as real,
    ;
}

/// A difference is the exact difference, but for one part.
pub proof fn differences_stay_near(a: Binary, b: Binary)
    ensures
        near(value(binary64::difference(a, b)), apart(value(a), value(b)), 1 as real),
{
    let e = binary64::common_exponent(a, b);
    let x = binary64::at_exponent(a, e);
    let y = binary64::at_exponent(b, e);
    let s = scale(e);
    lemma_value_at(a, e);
    lemma_value_at(b, e);
    lemma_scale(e);
    order_is_that_of_the_values(a, b);
    let gap = binary64::distance(x, y);
    rounding_stays_near(gap, 1, e);
    let z = gap as real;
    let p = x as real;
    let q = y as real;
    assert(z / 1 as real * s == if x >= y {
        p * s - q * s
    } else {
        q * s - p * s
    }) by (nonlinear_arith)
        requires
            z == (if x >= y {
                p - q
            } else {
                q - p
            }),
    ;
    assert(x >= y ==> p * s >= q * s) by (nonlinear_arith)
        requires
            s > 0 as real,
            x >= y ==> p >= q,
    ;
    assert(x < y ==> p * s < q * s) by (nonlinear_arith)
        requires
            s > 0 as real,
            x < y ==> p < q,
    ;
}

/// A product is the exact product, but for one part.
pub proof fn products_stay_near(a: Binary, b: Binary)
    ensures
        near(value(binary64::product(a, b)), value(a) * value(b), 1 as real),
{
    rounding_stays_near(a.m * b.m, 1, a.e + b.e);
    lemma_times(a.m, b.m);
    lemma_scale_adds(a.e, b.e);
    let x = a.m as real;
    let y = b.m as real;
    let z = (a.m * b.m) as real;
    let s = scale(a.e);
    let t = scale(b.e);
    assert(z / 1 as real * (s * t) == (x * s) * (y * t)) by (nonlinear_arith)
        requires
            z == x * y,
    ;
}

/// A quotient is the exact quotient, but for one part.
pub proof fn quotients_stay_near(a: Binary, b: Binary)
    requires
        b.m > 0,
    ensures
        value(b) > 0 as real,
        near(value(binary64::quotient(a, b)), value(a) / value(b), 1 as real),
{
    rounding_stays_near(a.m, b.m, a.e - b.e);
    lemma_value_sign(b);
    lemma_scale_adds(a.e - b.e, b.e);
    lemma_scale(b.e);
    let x = a.m as real;
    let y = b.m as real;
    let s = scale(a.e);
    let t = scale(b.e);
    let d = scale(a.e - b.e);
    assert(x / y * d == (x * s) / (y * t)) by (nonlinear_arith)
        requires
            s == d * t,
            y > 0 as real,
            t > 0 as real,
    ;
}

/// The square of a root is what the root was taken of, but for three parts.
pub proof fn roots_stay_near(a: Binary)
    requires
        a.normal(),
    ensures
        near(
            value(binary64::root(a)) * value(binary64::root(a)),
            value(a),
            3 as real,
        ),
{
    let r = binary64::root(a);
    if a.m == 0 {
        lemma_value_sign(a);
        lemma_value_sign(r);
        assert(0 as real * 0 as real == 0 as real) by (nonlinear_arith);
        assert(0 as real * (1 as real - 3 as real * part()) == 0 as real) by (nonlinear_arith);
        assert(0 as real * (1 as real + 3 as real * part()) == 0 as real) by (nonlinear_arith);
    } else {
        let k = binary64::root_shift(a.e);
        let n = a.m * binary64::two_to(k);
        let q = binary64::nearest_root(n);
        let h = (a.e - k) / 2;
        binary64::lemma_root_nearest(n);
        binary64::lemma_two_to_values();
        binary64::lemma_two_to_grows(52, k);
        let t = binary64::two_to(k);
        assert(n >= 0x10_0000_0000_0000 * 0x10_0000_0000_0000) by (nonlinear_arith)
            requires
                n == a.m * t,
                a.m >= 0x10_0000_0000_0000,
                t >= 0x10_0000_0000_0000,
        ;
        assert(q >= 0x10_0000_0000_0000) by (nonlinear_arith)
            requires
                4 * n < (2 * q + 1) * (2 * q + 1),
                n >= 0x10_0000_0000_0000 * 0x10_0000_0000_0000,
        ;
        let x = q as real;
        let y = n as real;
        let s = scale(h);
        assert(h + h == a.e - k);
        lemma_scale_adds(h, h);
        lemma_scale_up(a.e - k, k);
        lemma_times(a.m, t);
        lemma_scale(h);
        // Rounding up to two to the 53rd changes how the root is written, not
        // what it is.
        assert(value(r) == x * s) by {
            if q == 0x20_0000_0000_0000 {
                lemma_scale_up(h, 1);
                reveal_with_fuel(binary64::two_to, 2);
                assert(r.m as real * (s * 2 as real) == x * s) by (nonlinear_arith)
                    requires
                        2 as real * r.m as real == x,
                ;
            }
        }
        assert(value(a) == y * (s * s)) by {
            let m = a.m as real;
            assert(m * (s * s * t as real) == (m * t as real) * (s * s)) by (nonlinear_arith);
        }
        assert(value(r) * value(r) == (x * x) * (s * s)) by (nonlinear_arith)
            requires
                value(r) == x * s,
        ;
        lemma_times(q, q);
        assert(x * x - x <= y <= x * x + x) by (nonlinear_arith)
            requires
                4 * n < (2 * q + 1) * (2 * q + 1),
                (2 * q - 1) * (2 * q - 1) < 4 * n,
                x == q as real,
                y == n as real,
                q > 0,
        ;
        let u = part();
        let b = 9_007_199_254_740_992 as real;
        assert(u * b == 1 as real) by (nonlinear_arith)
            requires
                u == 1 as real / b,
                b == 9_007_199_254_740_992 as real,
        ;
        assert(2 as real * x >= b);
        assert(x * x <= y * (1 as real + 3 as real * u)) by (nonlinear_arith)
            requires
                x * x - x <= y,
                2 as real * x >= b,
                u * b == 1 as real,
                b == 9_007_199_254_740_992 as real,
                u > 0 as real,
        ;
        assert(x * x >= y * (1 as real - 3 as real * u)) by (nonlinear_arith)
            requires
                y <= x * x + x,
                2 as real * x >= b,
                u * b == 1 as real,
                b == 9_007_199_254_740_992 as real,
                u > 0 as real,
        ;
        let w = s * s;
        assert(w > 0 as real) by (nonlinear_arith)
            requires
                w == s * s,
                s > 0 as real,
        ;
        assert((x * x) * w <= (y * w) * (1 as real + 3 as real * u)) by (nonlinear_arith)
            requires
                x * x <= y * (1 as real + 3 as real * u),
                w > 0 as real,
        ;
        assert((x * x) * w >= (y * w) * (1 as real - 3 as real * u)) by (nonlinear_arith)
            requires
                x * x >= y * (1 as real - 3 as real * u),
                w > 0 as real,
        ;
    }
}

/// The distance of an integer from a fraction, scaled.
proof fn lemma_apart(k: nat, num: nat, den: nat, s: real)
    requires
        den > 0,
        s > 0 as real,
    ensures
        apart(k as real * s, num as real / den as real * s) == (binary64::distance(
            k * den,
            num,
        ) as real) * (s / den as real),
{
    let x = k as real;
    let n = num as real;
    let d = den as real;
    let q = n / d;
    lemma_times(k, den);
    assert(q * d == n) by (nonlinear_arith)
        requires
            q == n / d,
            d > 0 as real,
    ;
    assert(x * d >= n <==> x * s >= q * s) by (nonlinear_arith)
        requires
            q * d == n,
            d > 0 as real,
            s > 0 as real,
    ;
    let w = s / d;
    assert(w * d == s) by (nonlinear_arith)
        requires
            w == s / d,
            d > 0 as real,
    ;
    assert(x * s - q * s == (x * d - n) * w) by (nonlinear_arith)
        requires
            w * d == s,
            q * d == n,
    ;
    assert(q * s - x * s == (n - x * d) * w) by (nonlinear_arith)
        requires
            w * d == s,
            q * d == n,
    ;
}

/// No integer is nearer than the nearest.
proof fn lemma_nearest_integer(k: nat, num: nat, den: nat)
    requires
        den > 0,
    ensures
        ({
            let m = binary64::nearest(num, den);
            let near_by = binary64::distance(m * den, num);
            let far_off = binary64::distance(k * den, num);
            &&& near_by <= far_off
            &&& near_by == far_off && k != m ==> m % 2 == 0
            &&& 2 * near_by <= den
        }),
{
    let m = binary64::nearest(num, den);
    rounding::rounding_is_to_nearest(num, den);
    if k > m {
        assert(k * den >= m * den + den) by (nonlinear_arith)
            requires
                k >= m + 1,
        ;
    } else if k < m {
        assert(k * den + den <= m * den) by (nonlinear_arith)
            requires
                k + 1 <= m,
        ;
    }
}

/// Rounding gives the binary64 number nearest to the value: no other is nearer,
/// and of two that are equally near it is the one with an even last place.
pub proof fn no_number_is_nearer(num: nat, den: nat, e: int, other: Binary)
    requires
        den > 0,
        other.normal(),
    ensures
        ({
            let a = binary64::nearest_binary(num, den, e);
            let x = num as real / den as real * scale(e);
            &&& apart(value(a), x) <= apart(value(other), x)
            &&& apart(value(a), x) == apart(value(other), x) && value(a) != value(other) ==> a.m % 2
                == 0
        }),
    decreases
            (if num < binary64::LEAST_FULL * den {
                binary64::LEAST_FULL * den - num
            } else if num >= binary64::BEYOND_FULL * den {
                num - binary64::BEYOND_FULL * den + 1
            } else {
                0
            }),
{
    let a = binary64::nearest_binary(num, den, e);
    let n = num as real;
    let d = den as real;
    let s = scale(e);
    let x = n / d * s;
    lemma_scale(e);
    lemma_value_sign(other);
    lemma_value_sign(a);
    if num == 0 {
        assert(x == 0 as real) by (nonlinear_arith)
            requires
                x == n / d * s,
                n == 0 as real,
                d > 0 as real,
        ;
    } else if num < binary64::LEAST_FULL * den {
        no_number_is_nearer(2 * num, den, e - 1, other);
        lemma_scale_up(e - 1, 1);
        reveal_with_fuel(binary64::two_to, 2);
        let h = scale(e - 1);
        assert((2 as real * n) / d * h == x) by (nonlinear_arith)
            requires
                x == n / d * (h * 2 as real),
                d > 0 as real,
        ;
    } else if num >= binary64::BEYOND_FULL * den {
        no_number_is_nearer(num, 2 * den, e + 1, other);
        lemma_scale_up(e, 1);
        reveal_with_fuel(binary64::two_to, 2);
        assert(n / (2 as real * d) * (s * 2 as real) == x) by (nonlinear_arith)
            requires
                x == n / d * s,
                d > 0 as real,
        ;
    } else {
        let m = binary64::nearest(num, den);
        let w = s / d;
        assert(w > 0 as real) by (nonlinear_arith)
            requires
                w == s / d,
                s > 0 as real,
                d > 0 as real,
        ;
        lemma_apart(m, num, den, s);
        assert(value(a) == m as real * s) by {
            if m == binary64::BEYOND_FULL {
                lemma_scale_up(e, 1);
                reveal_with_fuel(binary64::two_to, 2);
                assert(a.m as real * (s * 2 as real) == m as real * s) by (nonlinear_arith)
                    requires
                        2 as real * a.m as real == m as real,
                ;
            }
        }
        let i = binary64::distance(m * den, num) as real;
        if other.e >= e {
            let k = binary64::at_exponent(other, e);
            lemma_value_at(other, e);
            lemma_apart(k, num, den, s);
            lemma_nearest_integer(k, num, den);
            let j = binary64::distance(k * den, num) as real;
            assert(i * w <= j * w) by (nonlinear_arith)
                requires
                    i <= j,
                    w > 0 as real,
            ;
            assert(i * w == j * w ==> i == j) by (nonlinear_arith)
                requires
                    w > 0 as real,
            ;
        } else {
            // A number with a smaller exponent, or zero, lies below all values
            // of this size.
            let least = binary64::LEAST_FULL as nat;
            lemma_nearest_integer(least, num, den);
            lemma_apart(least, num, den, s);
            let j = binary64::distance(least * den, num) as real;
            assert(i * w <= j * w) by (nonlinear_arith)
                requires
                    i <= j,
                    w > 0 as real,
            ;
            lemma_times(least, den);
            assert(least as real * s <= x) by (nonlinear_arith)
                requires
                    x == n / d * s,
                    n >= least as real * d,
                    d > 0 as real,
                    s > 0 as real,
            ;
            assert(value(other) < least as real * s) by {
                lemma_scale_up(other.e, (e - other.e) as nat);
                lemma_scale(other.e);
                binary64::lemma_two_to_grows(1, (e - other.e) as nat);
                reveal_with_fuel(binary64::two_to, 2);
                let t = binary64::two_to((e - other.e) as nat) as real;
                let o = scale(other.e);
                assert(other.m as real * o < least as real * (o * t)) by (nonlinear_arith)
                    requires
                        (other.m as real) < 2 as real * least as real,
                        t >= 2 as real,
                        o > 0 as real,
                        least as real > 0 as real,
                ;
            }
        }
    }
}

} // verus!
