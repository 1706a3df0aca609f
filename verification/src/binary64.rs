//! Binary64 numbers that are not negative, in integers.
//!
//! The figures of a benchmark are binary64 numbers: 53 significant bits, and
//! every operation rounds its exact result to the nearest such number, or to
//! the even one of two that are equally near. Here the operations are carried
//! out on integers, so that each figure has an exact specification. The
//! exponent is not limited: times and what is made of them stay far from the
//! limits of the format.

use vstd::prelude::*;

verus! {

/// Two to the 52nd: the least number with 53 significant bits.
pub const LEAST_FULL: u128 = 0x10_0000_0000_0000;

/// Two to the 53rd: the least number with 54 significant bits.
pub const BEYOND_FULL: u128 = 0x20_0000_0000_0000;

/// Two to the power of `k`.
pub open spec fn two_to(k: nat) -> nat
    decreases k,
{
    if k == 0 {
        1
    } else {
        2 * two_to((k - 1) as nat)
    }
}

/// The integer nearest to `num / den`; of two that are equally near, the even
/// one.
pub open spec fn nearest(num: nat, den: nat) -> nat {
    let q = num / den;
    let r = num % den;
    if 2 * r < den || (2 * r == den && q % 2 == 0) {
        q
    } else {
        q + 1
    }
}

/// The number `m * 2^e`.
pub struct Binary {
    pub m: nat,
    pub e: int,
}

impl Binary {
    /// Zero, or a number with exactly 53 significant bits in `m`.
    pub open spec fn normal(self) -> bool {
        (self.m == 0 && self.e == 0) || LEAST_FULL <= self.m < BEYOND_FULL
    }
}

/// `m * 2^e`, for an `m` that rounding may have carried to two to the 53rd.
pub open spec fn carried(m: nat, e: int) -> Binary {
    if m == BEYOND_FULL {
        Binary { m: LEAST_FULL as nat, e: e + 1 }
    } else {
        Binary { m, e }
    }
}

/// The binary64 number nearest to `num / den * 2^e`.
pub open spec fn nearest_binary(num: nat, den: nat, e: int) -> Binary
    decreases
            (if num < LEAST_FULL * den {
                LEAST_FULL * den - num
            } else if num >= BEYOND_FULL * den {
                num - BEYOND_FULL * den + 1
            } else {
                0
            }),
{
    if num == 0 || den == 0 {
        Binary { m: 0, e: 0 }
    } else if num < LEAST_FULL * den {
        nearest_binary(2 * num, den, e - 1)
    } else if num >= BEYOND_FULL * den {
        nearest_binary(num, 2 * den, e + 1)
    } else {
        carried(nearest(num, den), e)
    }
}

/// The smaller of two exponents.
pub open spec fn common_exponent(a: Binary, b: Binary) -> int {
    if a.e <= b.e {
        a.e
    } else {
        b.e
    }
}

/// `a` as a multiple of `2^e`, for an `e` not above its exponent.
pub open spec fn at_exponent(a: Binary, e: int) -> nat {
    a.m * two_to((a.e - e) as nat)
}

/// The integer `n` as a binary64 number.
pub open spec fn whole(n: nat) -> Binary {
    nearest_binary(n, 1, 0)
}

/// `a + b`.
pub open spec fn sum(a: Binary, b: Binary) -> Binary {
    let e = common_exponent(a, b);
    nearest_binary(at_exponent(a, e) + at_exponent(b, e), 1, e)
}

/// The distance of two integers.
pub open spec fn distance(x: nat, y: nat) -> nat {
    if x >= y {
        (x - y) as nat
    } else {
        (y - x) as nat
    }
}

/// `|a - b|`.
pub open spec fn difference(a: Binary, b: Binary) -> Binary {
    let e = common_exponent(a, b);
    nearest_binary(distance(at_exponent(a, e), at_exponent(b, e)), 1, e)
}

/// `a * b`.
pub open spec fn product(a: Binary, b: Binary) -> Binary {
    nearest_binary(a.m * b.m, 1, a.e + b.e)
}

/// `a / b`, for a `b` other than zero.
pub open spec fn quotient(a: Binary, b: Binary) -> Binary {
    nearest_binary(a.m, b.m, a.e - b.e)
}

/// `a < b`.
pub open spec fn less(a: Binary, b: Binary) -> bool {
    let e = common_exponent(a, b);
    at_exponent(a, e) < at_exponent(b, e)
}

/// `r` is the integer nearest to the square root of `n`, which never lies half
/// way between two integers.
pub open spec fn is_nearest_root(r: nat, n: nat) -> bool {
    &&& 4 * n < (2 * r + 1) * (2 * r + 1)
    &&& r > 0 ==> (2 * r - 1) * (2 * r - 1) < 4 * n
}

/// The integer nearest to the square root of `n`.
pub open spec fn nearest_root(n: nat) -> nat {
    choose|r: nat| is_nearest_root(r, n)
}

/// By how many bits a number with exponent `e` is shifted so that its root has
/// 53 bits: 52, or 53 to make the exponent even.
pub open spec fn root_shift(e: int) -> nat {
    if e % 2 == 0 {
        52
    } else {
        53
    }
}

/// The square root of `a`.
pub open spec fn root(a: Binary) -> Binary {
    if a.m == 0 {
        Binary { m: 0, e: 0 }
    } else {
        let s = root_shift(a.e);
        carried(nearest_root(a.m * two_to(s)), (a.e - s) / 2)
    }
}

/// The integer nearest to `a * scale`; of two that are equally near, the even
/// one.
pub open spec fn scaled(a: Binary, scale: nat) -> nat {
    if a.e >= 0 {
        a.m * two_to(a.e as nat) * scale
    } else {
        nearest(a.m * scale, two_to((-a.e) as nat))
    }
}

pub(crate) proof fn lemma_two_to_adds(a: nat, b: nat)
    ensures
        two_to(a + b) == two_to(a) * two_to(b),
    decreases a,
{
    if a == 0 {
        assert(1 * two_to(b) == two_to(b));
    } else {
        lemma_two_to_adds((a - 1) as nat, b);
        let t = two_to((a - 1) as nat);
        assert((2 * t) * two_to(b) == 2 * (t * two_to(b))) by (nonlinear_arith);
    }
}

pub(crate) proof fn lemma_two_to_grows(a: nat, b: nat)
    requires
        a <= b,
    ensures
        1 <= two_to(a) <= two_to(b),
        a < b ==> two_to(a) < two_to(b),
    decreases b,
{
    if a < b {
        lemma_two_to_grows(a, (b - 1) as nat);
    } else if a > 0 {
        lemma_two_to_grows((a - 1) as nat, (a - 1) as nat);
    }
}

pub(crate) proof fn lemma_two_to_values()
    ensures
        two_to(52) == LEAST_FULL,
        two_to(53) == BEYOND_FULL,
        two_to(64) == 0x1_0000_0000_0000_0000,
        two_to(74) == 0x400_0000_0000_0000_0000,
        two_to(128) == 0x1_0000_0000_0000_0000 * 0x1_0000_0000_0000_0000,
{
    assert(two_to(16) == 0x1_0000) by {
        reveal_with_fuel(two_to, 17);
    }
    lemma_two_to_adds(16, 16);
    assert(two_to(32) == 0x1_0000_0000);
    lemma_two_to_adds(32, 32);
    assert(two_to(64) == 0x1_0000_0000_0000_0000);
    lemma_two_to_adds(64, 64);
    assert(two_to(10) == 0x400) by {
        reveal_with_fuel(two_to, 11);
    }
    lemma_two_to_adds(64, 10);
    assert(two_to(20) == 0x10_0000) by {
        lemma_two_to_adds(10, 10);
    }
    lemma_two_to_adds(32, 20);
}

/// A binary64 number that is not negative.
#[derive(Clone, Copy, Debug)]
pub struct Float {
    m: u128,
    e: i128,
}

impl View for Float {
    type V = Binary;

    closed spec fn view(&self) -> Binary {
        Binary { m: self.m as nat, e: self.e as int }
    }
}

/// The integer nearest to `num / den`, even in a tie.
pub(crate) fn round(num: u128, den: u128) -> (r: u128)
    requires
        den > 0,
    ensures
        r == nearest(num as nat, den as nat),
        r <= num / den + 1,
{
    let q: u128 = num / den;
    let r: u128 = num % den;
    if r < den - r || (r == den - r && q % 2 == 0) {
        q
    } else {
        assert(q < u128::MAX) by (nonlinear_arith)
            requires
                q == num / den,
                den >= 2,
                num <= u128::MAX,
        ;
        q + 1
    }
}

/// Two to the power of `k`.
pub(crate) fn power(k: u32) -> (p: u128)
    requires
        k < 128,
    ensures
        p == two_to(k as nat),
{
    let mut p: u128 = 1;
    for i in 0..k
        invariant
            k < 128,
            p == two_to(i as nat),
    {
        proof {
            lemma_two_to_values();
            lemma_two_to_grows((i + 1) as nat, 127);
            assert(two_to(128) == 2 * two_to(127));
        }
        p = 2 * p;
    }
    p
}

/// The largest exponent, either way, of numbers that are calculated with.
pub open spec fn exponent_room() -> int {
    0x100_0000_0000_0000_0000_0000_0000
}

/// The binary64 number nearest to `num / den * 2^e`.
fn nearest_float(num: u128, den: u128, e: i128) -> (f: Float)
    requires
        1 <= den <= 0x400_0000_0000_0000_0000,
        -4 * exponent_room() <= e <= 4 * exponent_room(),
    ensures
        f@ == nearest_binary(num as nat, den as nat, e as int),
        num > 0 ==> e - 128 <= f@.e <= e + 129,
        num == 0 ==> f@.e == 0,
{
    if num == 0 {
        return Float { m: 0, e: 0 };
    }
    let ghost mut k: nat = 0;
    let mut n: u128 = num;
    let mut x: i128 = e;
    proof {
        assert(two_to(0) == 1);
        assert(num * two_to(0) == num) by (nonlinear_arith)
            requires
                two_to(0) == 1,
        ;
    }
    while n < LEAST_FULL * den
        invariant
            1 <= den <= 0x400_0000_0000_0000_0000,
            -4 * exponent_room() <= e <= 4 * exponent_room(),
            num >= 1,
            n >= 1,
            n == num * two_to(k),
            x == e - k,
            k <= 128,
            n < BEYOND_FULL * den || k == 0,
            nearest_binary(n as nat, den as nat, x as int) == nearest_binary(
                num as nat,
                den as nat,
                e as int,
            ),
        decreases BEYOND_FULL * den - n,
    {
        proof {
            assert(two_to((k + 1) as nat) == 2 * two_to(k));
            assert(num * (2 * two_to(k)) == 2 * (num * two_to(k))) by (nonlinear_arith);
            assert(two_to((k + 1) as nat) <= 2 * n) by (nonlinear_arith)
                requires
                    two_to((k + 1) as nat) == 2 * two_to(k),
                    n == num * two_to(k),
                    num >= 1,
            ;
            lemma_two_to_values();
            if k + 1 > 128 {
                lemma_two_to_grows(128, (k + 1) as nat);
            }
            k = k + 1;
        }
        n = 2 * n;
        x = x - 1;
    }
    let ghost mut j: nat = 0;
    let mut d: u128 = den;
    proof {
        assert(den * two_to(0) == den) by (nonlinear_arith)
            requires
                two_to(0) == 1,
        ;
    }
    while n / d >= BEYOND_FULL
        invariant
            1 <= den <= 0x400_0000_0000_0000_0000,
            -4 * exponent_room() <= e <= 4 * exponent_room(),
            d == den * two_to(j),
            d >= 1,
            n >= 1,
            n >= LEAST_FULL * d,
            x == e - k + j,
            k <= 128,
            j <= 128,
            nearest_binary(n as nat, d as nat, x as int) == nearest_binary(
                num as nat,
                den as nat,
                e as int,
            ),
        decreases n - d,
    {
        proof {
            assert(n >= BEYOND_FULL * d) by (nonlinear_arith)
                requires
                    n / d >= BEYOND_FULL,
                    d >= 1,
            ;
            assert(two_to((j + 1) as nat) == 2 * two_to(j));
            assert(den * (2 * two_to(j)) == 2 * (den * two_to(j))) by (nonlinear_arith);
            assert(two_to((j + 1) as nat) <= 2 * d) by (nonlinear_arith)
                requires
                    two_to((j + 1) as nat) == 2 * two_to(j),
                    d == den * two_to(j),
                    den >= 1,
            ;
            lemma_two_to_values();
            if j + 1 > 128 {
                lemma_two_to_grows(128, (j + 1) as nat);
            }
            j = j + 1;
        }
        d = 2 * d;
        x = x + 1;
    }
    let m: u128 = round(n, d);
    proof {
        assert(LEAST_FULL <= n / d < BEYOND_FULL) by (nonlinear_arith)
            requires
                n >= LEAST_FULL * d,
                n / d < BEYOND_FULL,
                d >= 1,
        ;
        assert(n < BEYOND_FULL * d) by (nonlinear_arith)
            requires
                n / d < BEYOND_FULL,
                d >= 1,
        ;
    }
    if m == BEYOND_FULL {
        Float { m: LEAST_FULL, e: x + 1 }
    } else {
        Float { m, e: x }
    }
}

impl Float {
    /// The representation is normal.
    #[verifier::type_invariant]
    spec fn well_formed(self) -> bool {
        self@.normal()
    }

    /// The number as `m * 2^e`.
    pub(crate) fn parts(self) -> (r: (u128, i128))
        ensures
            r.0 == self@.m,
            r.1 == self@.e,
            r.0 == 0 || LEAST_FULL <= r.0 < BEYOND_FULL,
            self@.normal(),
    {
        proof {
            use_type_invariant(&self);
        }
        (self.m, self.e)
    }

    /// The number `m * 2^e`, for an `m` of 53 bits.
    pub(crate) fn assembled(m: u128, e: i128) -> (f: Float)
        requires
            LEAST_FULL <= m < BEYOND_FULL,
        ensures
            f@ == (Binary { m: m as nat, e: e as int }),
    {
        Float { m, e }
    }

    /// Zero.
    pub fn zero() -> (f: Float)
        ensures
            f@ == (Binary { m: 0, e: 0 }),
    {
        Float { m: 0, e: 0 }
    }

    /// Whether `self` is zero.
    pub fn is_zero(self) -> (b: bool)
        ensures
            b == (self@.m == 0),
    {
        self.m == 0
    }

    /// The integer `n`.
    pub fn from_whole(n: u128) -> (f: Float)
        ensures
            f@ == whole(n as nat),
            reach(f@) <= 129,
    {
        nearest_float(n, 1, 0)
    }

    /// `self + other`.
    pub fn plus(self, other: Float) -> (r: Float)
        requires
            reach(self@) <= exponent_room(),
            reach(other@) <= exponent_room(),
        ensures
            r@ == sum(self@, other@),
            reach(r@) <= wider(self@, other@) + 129,
    {
        if self.e >= other.e {
            self.plus_lower(other)
        } else {
            proof {
                let e = common_exponent(self@, other@);
                assert(at_exponent(self@, e) + at_exponent(other@, e) == at_exponent(other@, e)
                    + at_exponent(self@, e));
            }
            other.plus_lower(self)
        }
    }

    /// `self + other`, for an `other` with a smaller exponent or the same.
    fn plus_lower(self, other: Float) -> (r: Float)
        requires
            other@.e <= self@.e,
            reach(self@) <= exponent_room(),
            reach(other@) <= exponent_room(),
        ensures
            r@ == sum(self@, other@),
            reach(r@) <= wider(self@, other@) + 129,
    {
        proof {
            use_type_invariant(&self);
            use_type_invariant(&other);
            lemma_two_to_values();
        }
        let d: i128 = self.e - other.e;
        let ghost exact = at_exponent(self@, other@.e) + at_exponent(other@, other@.e);
        assert(at_exponent(other@, other@.e) == other.m) by (nonlinear_arith)
            requires
                at_exponent(other@, other@.e) == other.m * two_to(0),
                two_to(0) == 1,
        ;
        if d <= 64 {
            let p: u128 = power(d as u32);
            proof {
                lemma_two_to_grows(d as nat, 64);
                assert(self.m * p <= BEYOND_FULL * 0x1_0000_0000_0000_0000) by (nonlinear_arith)
                    requires
                        self.m < BEYOND_FULL,
                        p <= 0x1_0000_0000_0000_0000,
                ;
            }
            nearest_float(self.m * p + other.m, 1, other.e)
        } else if self.m == 0 {
            proof {
                assert(exact == other.m) by (nonlinear_arith)
                    requires
                        exact == 0 * two_to(d as nat) + other.m,
                ;
                lemma_keeps(other@, other@.e, 0);
            }
            other
        } else {
            proof {
                lemma_two_to_grows(64, d as nat);
                lemma_keeps(self@, other@.e, other.m as int);
            }
            self
        }
    }

    /// `|self - other|`.
    pub fn minus(self, other: Float) -> (r: Float)
        requires
            reach(self@) <= exponent_room(),
            reach(other@) <= exponent_room(),
        ensures
            r@ == difference(self@, other@),
            reach(r@) <= wider(self@, other@) + 129,
    {
        if self.e >= other.e {
            self.minus_lower(other)
        } else {
            other.minus_lower(self)
        }
    }

    /// `|self - other|`, for an `other` with a smaller exponent or the same.
    fn minus_lower(self, other: Float) -> (r: Float)
        requires
            other@.e <= self@.e,
            reach(self@) <= exponent_room(),
            reach(other@) <= exponent_room(),
        ensures
            r@ == difference(self@, other@),
            reach(r@) <= wider(self@, other@) + 129,
    {
        proof {
            use_type_invariant(&self);
            use_type_invariant(&other);
            lemma_two_to_values();
        }
        let d: i128 = self.e - other.e;
        let ghost exact = distance(at_exponent(self@, other@.e), at_exponent(other@, other@.e));
        assert(at_exponent(other@, other@.e) == other.m) by (nonlinear_arith)
            requires
                at_exponent(other@, other@.e) == other.m * two_to(0),
                two_to(0) == 1,
        ;
        if d <= 64 {
            let p: u128 = power(d as u32);
            proof {
                lemma_two_to_grows(d as nat, 64);
                assert(self.m * p <= BEYOND_FULL * 0x1_0000_0000_0000_0000) by (nonlinear_arith)
                    requires
                        self.m < BEYOND_FULL,
                        p <= 0x1_0000_0000_0000_0000,
                ;
            }
            let x: u128 = self.m * p;
            let gap: u128 = if x >= other.m { x - other.m } else { other.m - x };
            nearest_float(gap, 1, other.e)
        } else if self.m == 0 {
            proof {
                assert(at_exponent(self@, other@.e) == 0) by (nonlinear_arith)
                    requires
                        at_exponent(self@, other@.e) == 0 * two_to(d as nat),
                ;
                lemma_keeps(other@, other@.e, 0);
            }
            other
        } else {
            proof {
                lemma_two_to_grows(64, d as nat);
                lemma_keeps(self@, other@.e, -(other.m as int));
            }
            self
        }
    }

    /// `self * other`.
    pub fn times(self, other: Float) -> (r: Float)
        requires
            reach(self@) <= exponent_room(),
            reach(other@) <= exponent_room(),
        ensures
            r@ == product(self@, other@),
            reach(r@) <= reach(self@) + reach(other@) + 129,
    {
        proof {
            use_type_invariant(&self);
            use_type_invariant(&other);
            assert(self.m * other.m <= BEYOND_FULL * BEYOND_FULL) by (nonlinear_arith)
                requires
                    self.m <= BEYOND_FULL,
                    other.m <= BEYOND_FULL,
            ;
        }
        nearest_float(self.m * other.m, 1, self.e + other.e)
    }

    /// `self / other`.
    pub fn over(self, other: Float) -> (r: Float)
        requires
            other@.m != 0,
            reach(self@) <= exponent_room(),
            reach(other@) <= exponent_room(),
        ensures
            r@ == quotient(self@, other@),
            reach(r@) <= reach(self@) + reach(other@) + 129,
    {
        proof {
            use_type_invariant(&self);
            use_type_invariant(&other);
        }
        nearest_float(self.m, other.m, self.e - other.e)
    }

    /// Whether `self < other`.
    pub fn is_less(self, other: Float) -> (b: bool)
        ensures
            b == less(self@, other@),
    {
        proof {
            use_type_invariant(&self);
            use_type_invariant(&other);
            lemma_less(self@, other@);
        }
        if self.m == 0 || other.m == 0 {
            self.m < other.m
        } else if self.e == other.e {
            self.m < other.m
        } else {
            self.e < other.e
        }
    }

    /// The square root of `self`.
    pub fn sqrt(self) -> (r: Float)
        requires
            reach(self@) <= exponent_room(),
        ensures
            r@ == root(self@),
            reach(r@) <= reach(self@) + 60,
    {
        proof {
            use_type_invariant(&self);
            lemma_two_to_values();
        }
        if self.m == 0 {
            return Float { m: 0, e: 0 };
        }
        let s: u32 = if self.e % 2 == 0 { 52 } else { 53 };
        let p: u128 = power(s);
        let n: u128 = self.m * p;
        let r: u128 = integer_root(n);
        proof {
            assert((self.e % 2 == 0) == ((self.e as int) % 2 == 0));
            lemma_root_unique(r as nat, nearest_root(n as nat), n as nat);
        }
        let e: i128 = (self.e - s as i128) / 2;
        Float { m: r, e }
    }
}

/// The integer nearest to the square root of `n`.
fn integer_root(n: u128) -> (r: u128)
    requires
        LEAST_FULL * LEAST_FULL <= n <= (BEYOND_FULL - 1) * BEYOND_FULL,
    ensures
        is_nearest_root(r as nat, n as nat),
        LEAST_FULL <= r < BEYOND_FULL,
{
    let mut low: u128 = LEAST_FULL;
    let mut high: u128 = BEYOND_FULL;
    while high - low > 1
        invariant
            LEAST_FULL <= low < high <= BEYOND_FULL,
            low * low <= n < high * high,
        decreases high - low,
    {
        let mid: u128 = low + (high - low) / 2;
        assert(mid * mid <= BEYOND_FULL * BEYOND_FULL) by (nonlinear_arith)
            requires
                mid <= BEYOND_FULL,
        ;
        if mid * mid <= n {
            low = mid;
        } else {
            high = mid;
        }
    }
    assert(high == low + 1);
    let rest: u128 = n - low * low;
    if rest > low {
        assert(is_nearest_root((low + 1) as nat, n as nat)) by (nonlinear_arith)
            requires
                n >= low * low + low + 1,
                n < (low + 1) * (low + 1),
                low > 0,
        ;
        assert(low + 1 < BEYOND_FULL) by (nonlinear_arith)
            requires
                n >= low * low + low + 1,
                n <= (BEYOND_FULL - 1) * BEYOND_FULL,
                low + 1 <= BEYOND_FULL,
                LEAST_FULL <= low,
        ;
        low + 1
    } else {
        assert(is_nearest_root(low as nat, n as nat)) by (nonlinear_arith)
            requires
                low * low <= n <= low * low + low,
                low > 0,
        ;
        low
    }
}

/// Every integer has a nearest root.
proof fn lemma_root_exists(n: nat) -> (r: nat)
    ensures
        is_nearest_root(r, n),
    decreases n,
{
    if n == 0 {
        assert(is_nearest_root(0, 0)) by (nonlinear_arith);
        0
    } else {
        let r = lemma_root_exists((n - 1) as nat);
        let odd = (2 * r + 1) * (2 * r + 1);
        assert(odd == 4 * (r * r + r) + 1) by (nonlinear_arith)
            requires
                odd == (2 * r + 1) * (2 * r + 1),
        ;
        if 4 * n < odd {
            r
        } else {
            assert(4 * n < (2 * (r + 1) + 1) * (2 * (r + 1) + 1)) by (nonlinear_arith)
                requires
                    4 * (n - 1) < (2 * r + 1) * (2 * r + 1),
            ;
            assert((2 * (r + 1) - 1) * (2 * (r + 1) - 1) == odd) by (nonlinear_arith)
                requires
                    odd == (2 * r + 1) * (2 * r + 1),
            ;
            r + 1
        }
    }
}

/// The nearest root is one.
pub(crate) proof fn lemma_root_nearest(n: nat)
    ensures
        is_nearest_root(nearest_root(n), n),
{
    let r = lemma_root_exists(n);
}

/// Only the root of zero is zero.
pub(crate) proof fn lemma_root_positive(a: Binary)
    ensures
        root(a).m == 0 <==> a.m == 0,
{
    if a.m > 0 {
        let s = root_shift(a.e);
        let n = a.m * two_to(s);
        lemma_two_to_grows(0, s);
        assert(n > 0) by (nonlinear_arith)
            requires
                n == a.m * two_to(s),
                a.m > 0,
                two_to(s) > 0,
        ;
        let r = lemma_root_exists(n);
        lemma_root_unique(r, nearest_root(n), n);
        let q = nearest_root(n);
        assert(q == 0 ==> (2 * q + 1) * (2 * q + 1) == 1) by (nonlinear_arith);
    }
}

/// No integer has two nearest roots.
proof fn lemma_root_unique(r: nat, s: nat, n: nat)
    requires
        is_nearest_root(r, n),
        s == nearest_root(n),
    ensures
        r == s,
{
    assert(is_nearest_root(s, n));
    if r < s {
        assert((2 * r + 1) * (2 * r + 1) <= (2 * s - 1) * (2 * s - 1)) by (nonlinear_arith)
            requires
                r + 1 <= s,
        ;
    }
    if s < r {
        assert((2 * s + 1) * (2 * s + 1) <= (2 * r - 1) * (2 * r - 1)) by (nonlinear_arith)
            requires
                s + 1 <= r,
        ;
    }
}

/// Normal numbers are ordered by their exponents first.
pub(crate) proof fn lemma_less(a: Binary, b: Binary)
    requires
        a.normal(),
        b.normal(),
    ensures
        less(a, b) == (if a.m == 0 || b.m == 0 || a.e == b.e {
            a.m < b.m
        } else {
            a.e < b.e
        }),
{
    let e = common_exponent(a, b);
    let da = (a.e - e) as nat;
    let db = (b.e - e) as nat;
    let pa = two_to(da);
    let pb = two_to(db);
    lemma_two_to_grows(0, da);
    lemma_two_to_grows(0, db);
    assert(a.m == 0 ==> a.m * pa == 0) by (nonlinear_arith);
    assert(b.m == 0 ==> b.m * pb == 0) by (nonlinear_arith);
    assert(a.m > 0 ==> a.m * pa > 0) by (nonlinear_arith)
        requires
            pa >= 1,
    ;
    assert(b.m > 0 ==> b.m * pb > 0) by (nonlinear_arith)
        requires
            pb >= 1,
    ;
    if a.m > 0 && b.m > 0 {
        assert(two_to(0) == 1);
        if a.e < b.e {
            lemma_two_to_grows(1, db);
            assert(two_to(1) == 2 * two_to(0));
            assert(a.m * pa < b.m * pb) by (nonlinear_arith)
                requires
                    pa == 1,
                    pb >= 2,
                    a.m < BEYOND_FULL,
                    b.m >= LEAST_FULL,
            ;
        } else if b.e < a.e {
            lemma_two_to_grows(1, da);
            assert(two_to(1) == 2 * two_to(0));
            assert(b.m * pb < a.m * pa) by (nonlinear_arith)
                requires
                    pb == 1,
                    pa >= 2,
                    b.m < BEYOND_FULL,
                    a.m >= LEAST_FULL,
            ;
        } else {
            assert(a.m * 1 == a.m && b.m * 1 == b.m);
        }
    }
}

/// Numbers may be compared as multiples of any small power of two.
pub(crate) proof fn lemma_less_at(a: Binary, b: Binary, e: int)
    requires
        e <= common_exponent(a, b),
    ensures
        less(a, b) == (at_exponent(a, e) < at_exponent(b, e)),
{
    let c = common_exponent(a, b);
    let d = (c - e) as nat;
    let p = two_to(d);
    let x = at_exponent(a, c);
    let y = at_exponent(b, c);
    lemma_two_to_grows(0, d);
    lemma_two_to_adds((a.e - c) as nat, d);
    lemma_two_to_adds((b.e - c) as nat, d);
    assert(a.m * (two_to((a.e - c) as nat) * p) == x * p) by (nonlinear_arith)
        requires
            x == a.m * two_to((a.e - c) as nat),
    ;
    assert(b.m * (two_to((b.e - c) as nat) * p) == y * p) by (nonlinear_arith)
        requires
            y == b.m * two_to((b.e - c) as nat),
    ;
    assert((x < y) == (x * p < y * p)) by (nonlinear_arith)
        requires
            p >= 1,
    ;
}

/// What is not less than something not less than `c` is not less than `c`.
pub(crate) proof fn lemma_less_order(a: Binary, b: Binary, c: Binary)
    requires
        !less(a, b),
        !less(b, c),
    ensures
        !less(a, c),
{
    let e = if common_exponent(a, b) <= c.e {
        common_exponent(a, b)
    } else {
        c.e
    };
    lemma_less_at(a, b, e);
    lemma_less_at(b, c, e);
    lemma_less_at(a, c, e);
}

/// The size of the exponent.
pub open spec fn reach(a: Binary) -> int {
    if a.e >= 0 {
        a.e
    } else {
        -a.e
    }
}

/// The larger size of two exponents.
pub open spec fn wider(a: Binary, b: Binary) -> int {
    if reach(a) >= reach(b) {
        reach(a)
    } else {
        reach(b)
    }
}

/// The number nearest to a positive one is not zero.
pub(crate) proof fn lemma_nearest_positive(num: nat, den: nat, e: int)
    requires
        num > 0,
        den > 0,
    ensures
        nearest_binary(num, den, e).m >= LEAST_FULL,
    decreases
            (if num < LEAST_FULL * den {
                LEAST_FULL * den - num
            } else if num >= BEYOND_FULL * den {
                num - BEYOND_FULL * den + 1
            } else {
                0
            }),
{
    if num < LEAST_FULL * den {
        lemma_nearest_positive(2 * num, den, e - 1);
    } else if num >= BEYOND_FULL * den {
        lemma_nearest_positive(num, 2 * den, e + 1);
    } else {
        assert(num / den >= LEAST_FULL) by (nonlinear_arith)
            requires
                num >= LEAST_FULL * den,
                den > 0,
        ;
    }
}

/// A positive integer is not rounded to zero.
pub(crate) proof fn lemma_whole_positive(n: nat)
    requires
        n > 0,
    ensures
        whole(n).m != 0,
{
    lemma_nearest_positive(n, 1, 0);
}

/// A multiple of a power of two may be rounded in units of that power.
proof fn lemma_coarser(s: nat, d: nat, e: int)
    requires
        s >= LEAST_FULL * two_to(d),
    ensures
        nearest_binary(s, 1, e) == nearest_binary(s, two_to(d), e + d),
    decreases d,
{
    if d > 0 {
        let half = two_to((d - 1) as nat);
        lemma_two_to_grows(0, (d - 1) as nat);
        assert(two_to(d) == 2 * half);
        lemma_coarser(s, (d - 1) as nat, e);
        assert(s >= BEYOND_FULL * half);
        assert(nearest_binary(s, half, e + d - 1) == nearest_binary(s, 2 * half, e + d));
    }
}

/// A normal number stays what it is when less than a quarter of its last
/// place is added to it or taken from it.
pub(crate) proof fn lemma_keeps(a: Binary, e: int, more: int)
    requires
        a.normal(),
        a.m > 0 || more == 0,
        e <= a.e,
        -(two_to((a.e - e) as nat) as int) < 4 * more < two_to((a.e - e) as nat),
    ensures
        at_exponent(a, e) + more >= 0,
        nearest_binary((at_exponent(a, e) + more) as nat, 1, e) == a,
{
    let d = (a.e - e) as nat;
    let p = two_to(d);
    lemma_two_to_grows(0, d);
    if a.m == 0 {
        assert(0 * p == 0);
    } else {
        let s = (a.m * p + more) as int;
        assert(a.m * p >= LEAST_FULL * p) by (nonlinear_arith)
            requires
                a.m >= LEAST_FULL,
                p >= 1,
        ;
        assert(a.m * p < BEYOND_FULL * p) by (nonlinear_arith)
            requires
                a.m < BEYOND_FULL,
                p >= 1,
        ;
        if s >= LEAST_FULL * p {
            lemma_coarser(s as nat, d, e);
            assert(s < BEYOND_FULL * p) by (nonlinear_arith)
                requires
                    s == a.m * p + more,
                    a.m + 1 <= BEYOND_FULL,
                    more < p,
            ;
            lemma_nearest_near(a.m, p, more);
        } else {
            // Just below the least number with 53 bits the places are half as
            // wide.
            assert(a.m == LEAST_FULL) by (nonlinear_arith)
                requires
                    s == a.m * p + more,
                    s < LEAST_FULL * p,
                    a.m >= LEAST_FULL,
                    more > -p,
                    p >= 1,
            ;
            assert(d > 0);
            let half = two_to((d - 1) as nat);
            assert(p == 2 * half);
            lemma_two_to_grows(0, (d - 1) as nat);
            assert(s == BEYOND_FULL * half + more);
            assert(s >= LEAST_FULL * half);
            lemma_coarser(s as nat, (d - 1) as nat, e);
            lemma_nearest_near(BEYOND_FULL as nat, half, more);
        }
    }
}

/// A value near a multiple of the denominator is rounded to it.
pub(crate) proof fn lemma_nearest_near(q: nat, den: nat, more: int)
    requires
        q > 0,
        den > 0,
        -(den as int) < 2 * more < den,
    ensures
        q * den + more >= 0,
        nearest((q * den + more) as nat, den) == q,
{
    let n = q * den + more;
    assert(n >= 0) by (nonlinear_arith)
        requires
            n == q * den + more,
            q >= 1,
            den >= 1,
            more > -(den as int),
    ;
    if more >= 0 {
        assert(n / (den as int) == q && n % (den as int) == more) by (nonlinear_arith)
            requires
                n == q * den + more,
                0 <= more < den,
        ;
    } else {
        assert(n / (den as int) == q - 1 && n % (den as int) == den + more) by (nonlinear_arith)
            requires
                n == q * den + more,
                -(den as int) < more < 0,
        ;
    }
}

} // verus!
