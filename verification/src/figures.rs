//! What the statistics and the throughputs are, in exact arithmetic.

use vstd::prelude::*;

use crate::binary64::{self, Binary};
use crate::exact::{self, apart, near, part, value};
use crate::number::{self, Figure};
use crate::order;
use crate::report::{self, RunResult};
use crate::stats::{self, Stats};

verus! {

proof fn lemma_part()
    ensures
        (0 as real) < part() <= 1 as real / 1_000_000_000_000_000 as real,
        part() * 9_007_199_254_740_992 as real == 1 as real,
{
}

pub(crate) proof fn lemma_scaled(x: real, y: real, z: real)
    requires
        x <= y,
        z >= 0 as real,
    ensures
        x * z <= y * z,
        z * x <= z * y,
{
    assert(x * z <= y * z) by (nonlinear_arith)
        requires
            x <= y,
            z >= 0 as real,
    ;
    lemma_swap(x, z);
    lemma_swap(y, z);
}

proof fn lemma_swap(x: real, y: real)
    ensures
        x * y == y * x,
{
    assert(x * y == y * x) by (nonlinear_arith);
}

proof fn lemma_group(x: real, y: real, z: real)
    ensures
        (x * y) * z == x * (y * z),
{
    assert((x * y) * z == x * (y * z)) by (nonlinear_arith);
}

/// `p` parts are less than `1 / 100`.
proof fn lemma_few(p: real)
    requires
        0 as real <= p <= 0x2000_0000_0000 as real,
    ensures
        0 as real <= p * part() <= 1 as real / 256 as real,
{
    lemma_part();
    let u = part();
    lemma_scaled(p, 0x2000_0000_0000 as real, u);
    lemma_scaled(0 as real, p, u);
    lemma_zero(u);
    assert(0x2000_0000_0000 as real * u <= 1 as real / 256 as real);
}

proof fn lemma_zero(x: real)
    ensures
        0 as real * x == 0 as real,
        x * 0 as real == 0 as real,
{
    assert(0 as real * x == 0 as real) by (nonlinear_arith);
    lemma_swap(0 as real, x);
}

/// What is near is near with more parts too.
proof fn lemma_wider(x: real, y: real, p: real, q: real)
    requires
        near(x, y, p),
        p <= q,
        y >= 0 as real,
    ensures
        near(x, y, q),
{
    let u = part();
    lemma_part();
    lemma_scaled(p, q, u);
    lemma_scaled(1 as real + p * u, 1 as real + q * u, y);
    lemma_scaled(1 as real - q * u, 1 as real - p * u, y);
}

/// The product of two factors near one.
proof fn lemma_factors(p: real, q: real)
    requires
        0 as real <= p <= 0x2000_0000_0000 as real,
        0 as real <= q <= 200 as real,
    ensures
        (1 as real + p * part()) * (1 as real + q * part()) <= 1 as real + (p + q + 1 as real)
            * part(),
        (1 as real - p * part()) * (1 as real - q * part()) >= 1 as real - (p + q + 1 as real)
            * part(),
{
    let u = part();
    let a = p * u;
    let b = q * u;
    lemma_part();
    lemma_few(p);
    lemma_few(q);
    assert((1 as real + a) * (1 as real + b) == 1 as real + a + b + a * b) by (nonlinear_arith);
    assert((1 as real - a) * (1 as real - b) == 1 as real - a - b + a * b) by (nonlinear_arith);
    assert((p + q + 1 as real) * u == a + b + u) by (nonlinear_arith)
        requires
            a == p * u,
            b == q * u,
    ;
    // `a * b` is `(a * q) * u`, and `a * q` is less than one.
    lemma_group(a, q, u);
    lemma_scaled(a, 1 as real / 256 as real, q);
    lemma_scaled(0 as real, a, q);
    lemma_zero(q);
    lemma_scaled(0 as real, a * q, u);
    lemma_scaled(a * q, 1 as real, u);
    lemma_zero(u);
    lemma_zero(a * q);
}

/// The product of what is near to `a` and what is near to `b`.
pub(crate) proof fn lemma_product(x: real, a: real, p: real, y: real, b: real, q: real)
    requires
        near(x, a, p),
        near(y, b, q),
        a >= 0 as real,
        b >= 0 as real,
        0 as real <= p <= 0x2000_0000_0000 as real,
        0 as real <= q <= 200 as real,
    ensures
        x >= 0 as real,
        y >= 0 as real,
        near(x * y, a * b, p + q + 1 as real),
{
    let u = part();
    let h = 1 as real + p * u;
    let i = 1 as real + q * u;
    let k = 1 as real - p * u;
    let l = 1 as real - q * u;
    lemma_few(p);
    lemma_few(q);
    lemma_factors(p, q);
    lemma_scaled(0 as real, a, k);
    lemma_scaled(0 as real, b, l);
    lemma_scaled(0 as real, a, h);
    lemma_zero(k);
    lemma_zero(l);
    lemma_zero(h);
    lemma_zero(b);
    lemma_scaled(0 as real, a, b);
    lemma_scaled(x, a * h, y);
    lemma_scaled(y, b * i, a * h);
    assert((a * h) * (b * i) == (a * b) * (h * i)) by (nonlinear_arith);
    lemma_scaled(h * i, 1 as real + (p + q + 1 as real) * u, a * b);
    lemma_scaled(a * k, x, y);
    lemma_scaled(b * l, y, a * k);
    assert((a * k) * (b * l) == (a * b) * (k * l)) by (nonlinear_arith);
    lemma_scaled(1 as real - (p + q + 1 as real) * u, k * l, a * b);
}

/// The reciprocal of what is near to `b`.
proof fn lemma_reciprocal(y: real, b: real, q: real)
    requires
        near(y, b, q),
        b > 0 as real,
        0 as real <= q <= 100 as real,
    ensures
        y > 0 as real,
        1 as real / y > 0 as real,
        1 as real / b > 0 as real,
        near(1 as real / y, 1 as real / b, q + 1 as real),
{
    let u = part();
    let v = q * u;
    lemma_part();
    lemma_few(q);
    let l = 1 as real - v;
    let h = 1 as real + v;
    let g = 1 as real + (q + 1 as real) * u;
    let k = 1 as real - (q + 1 as real) * u;
    assert((q + 1 as real) * u == v + u) by (nonlinear_arith)
        requires
            v == q * u,
    ;
    let e = v * (v + u);
    lemma_group(q, u, v + u);
    lemma_swap(q, u * (v + u));
    assert(e <= u) by {
        // q * (v + u) is less than one.
        assert(e == (q * (v + u)) * u) by (nonlinear_arith)
            requires
                e == (q * u) * (v + u),
        ;
        lemma_scaled(v + u, 1 as real / 128 as real, q);
        lemma_scaled(q * (v + u), 1 as real, u);
    }
    assert(l * g == 1 as real + u - e) by (nonlinear_arith)
        requires
            l == 1 as real - v,
            g == 1 as real + (v + u),
            e == v * (v + u),
    ;
    assert(h * k == 1 as real - u - e) by (nonlinear_arith)
        requires
            h == 1 as real + v,
            k == 1 as real - (v + u),
            e == v * (v + u),
    ;
    lemma_scaled(0 as real, v, v + u);
    lemma_zero(v + u);
    lemma_positive(b, l);
    let c = 1 as real / b;
    let w = 1 as real / y;
    lemma_inverse(b);
    lemma_inverse(y);
    // w <= c * g, as y * (c * g) is at least one.
    lemma_positive(c, g);
    lemma_scaled(b * l, y, c * g);
    assert((b * l) * (c * g) == (b * c) * (l * g)) by (nonlinear_arith);
    assert(1 as real * (l * g) == l * g) by (nonlinear_arith);
    lemma_scaled(1 as real, y * (c * g), w);
    assert((y * (c * g)) * w == (y * w) * (c * g)) by (nonlinear_arith);
    assert(1 as real * (c * g) == c * g && 1 as real * w == w) by (nonlinear_arith);
    // c * k <= w, as y * (c * k) is at most one.
    lemma_positive(c, k);
    lemma_scaled(y, b * h, c * k);
    assert((b * h) * (c * k) == (b * c) * (h * k)) by (nonlinear_arith);
    assert(1 as real * (h * k) == h * k) by (nonlinear_arith);
    lemma_scaled(y * (c * k), 1 as real, w);
    assert((y * (c * k)) * w == (y * w) * (c * k)) by (nonlinear_arith);
    assert(1 as real * (c * k) == c * k) by (nonlinear_arith);
}

proof fn lemma_positive(x: real, y: real)
    requires
        x > 0 as real,
        y > 0 as real,
    ensures
        x * y > 0 as real,
{
    assert(x * y > 0 as real) by (nonlinear_arith)
        requires
            x > 0 as real,
            y > 0 as real,
    ;
}

proof fn lemma_inverse(x: real)
    requires
        x > 0 as real,
    ensures
        1 as real / x > 0 as real,
        x * (1 as real / x) == 1 as real,
{
    assert(x * (1 as real / x) == 1 as real && 1 as real / x > 0 as real) by (nonlinear_arith)
        requires
            x > 0 as real,
    ;
}

proof fn lemma_division(x: real, y: real)
    requires
        y > 0 as real,
    ensures
        x / y == x * (1 as real / y),
        x >= 0 as real ==> x / y >= 0 as real,
        (x / y) * y == x,
{
    assert(x / y == x * (1 as real / y)) by (nonlinear_arith)
        requires
            y > 0 as real,
    ;
    lemma_inverse(y);
    let w = 1 as real / y;
    if x >= 0 as real {
        lemma_scaled(0 as real, x, w);
        lemma_zero(w);
    }
    assert((x * w) * y == x * (y * w)) by (nonlinear_arith);
    assert(x * 1 as real == x) by (nonlinear_arith);
}

/// A quotient of a number that is not larger.
pub(crate) proof fn lemma_unit_quotient(x: real, y: real)
    requires
        0 as real <= x <= y,
        y > 0 as real,
    ensures
        0 as real <= x / y <= 1 as real,
{
    lemma_division(x, y);
    assert(x / y <= 1 as real) by (nonlinear_arith)
        requires
            x <= y,
            y > 0 as real,
    ;
}

/// The quotient of what is near to `a` and what is near to `b`.
pub(crate) proof fn lemma_ratio(x: real, a: real, p: real, y: real, b: real, q: real)
    requires
        near(x, a, p),
        near(y, b, q),
        a >= 0 as real,
        b > 0 as real,
        0 as real <= p <= 0x2000_0000_0000 as real,
        0 as real <= q <= 100 as real,
    ensures
        y > 0 as real,
        x >= 0 as real,
        near(x / y, a / b, p + q + 2 as real),
{
    lemma_reciprocal(y, b, q);
    lemma_product(x, a, p, 1 as real / y, 1 as real / b, q + 1 as real);
    lemma_division(x, y);
    lemma_division(a, b);
}

/// What is near to something near to `z` is near to `z`.
pub(crate) proof fn lemma_through(x: real, y: real, z: real, p: real, q: real)
    requires
        near(x, y, p),
        near(y, z, q),
        z >= 0 as real,
        0 as real <= p <= 200 as real,
        0 as real <= q <= 0x2000_0000_0000 as real,
    ensures
        near(x, z, p + q + 1 as real),
        x >= 0 as real,
        y >= 0 as real,
{
    let u = part();
    let h = 1 as real + p * u;
    let i = 1 as real + q * u;
    let k = 1 as real - p * u;
    let l = 1 as real - q * u;
    lemma_few(p);
    lemma_few(q);
    lemma_factors(q, p);
    lemma_scaled(0 as real, z, l);
    lemma_zero(l);
    lemma_scaled(0 as real, y, k);
    lemma_zero(k);
    lemma_scaled(y, z * i, h);
    lemma_group(z, i, h);
    lemma_scaled(i * h, 1 as real + (q + p + 1 as real) * u, z);
    lemma_scaled(z * l, y, k);
    lemma_group(z, l, k);
    lemma_scaled(1 as real - (q + p + 1 as real) * u, l * k, z);
}

proof fn lemma_sum(x: real, a: real, y: real, b: real, p: real)
    requires
        near(x, a, p),
        near(y, b, p),
    ensures
        near(x + y, a + b, p),
{
    let u = part();
    let h = 1 as real + p * u;
    let l = 1 as real - p * u;
    assert(a * h + b * h == (a + b) * h) by (nonlinear_arith);
    assert(a * l + b * l == (a + b) * l) by (nonlinear_arith);
}

/// A number is near to itself.
pub(crate) proof fn lemma_same(x: real, p: real)
    requires
        x >= 0 as real,
        p >= 0 as real,
    ensures
        near(x, x, p),
{
    let u = part();
    lemma_part();
    lemma_scaled(0 as real, p, u);
    lemma_zero(u);
    lemma_scaled(1 as real - p * u, 1 as real, x);
    lemma_scaled(1 as real, 1 as real + p * u, x);
    assert(x * 1 as real == x) by (nonlinear_arith);
}

/// The samples as the statistics see them, each rounded to a binary64 number,
/// added up exactly. Below two to the 53rd a sample is not changed by rounding.
pub open spec fn total(samples: Seq<u128>) -> real
    decreases samples.len(),
{
    if samples.len() == 0 {
        0 as real
    } else {
        total(samples.drop_last()) + value(binary64::whole(samples.last() as nat))
    }
}

/// The squares of the rounded samples, added up exactly.
pub open spec fn squares(samples: Seq<u128>) -> real
    decreases samples.len(),
{
    if samples.len() == 0 {
        0 as real
    } else {
        let x = value(binary64::whole(samples.last() as nat));
        squares(samples.drop_last()) + x * x
    }
}

/// The sum of the samples.
pub open spec fn sum_of(samples: Seq<u128>) -> nat {
    samples.fold_left(0nat, |sum: nat, x: u128| sum + x as nat)
}

/// The sum of the squares of the samples.
pub open spec fn sum_of_squares(samples: Seq<u128>) -> nat {
    samples.fold_left(0nat, |sum: nat, x: u128| sum + x as nat * x as nat)
}

/// Samples below two to the 53rd are added up as they are.
pub proof fn small_samples_are_not_rounded(samples: Seq<u128>)
    requires
        forall|i: int| 0 <= i < samples.len() ==> #[trigger] samples[i] < 9_007_199_254_740_992,
    ensures
        total(samples) == sum_of(samples) as real,
        squares(samples) == sum_of_squares(samples) as real,
    decreases samples.len(),
{
    reveal_with_fuel(Seq::fold_left, 2);
    if samples.len() > 0 {
        let before = samples.drop_last();
        let last = samples.last();
        assert(samples[samples.len() - 1] < 9_007_199_254_740_992);
        assert forall|i: int| 0 <= i < before.len() implies #[trigger] before[i]
            < 9_007_199_254_740_992 by {
            assert(samples[i] < 9_007_199_254_740_992);
        }
        small_samples_are_not_rounded(before);
        exact::whole_numbers_stay_near(last as nat);
        exact::lemma_times(last as nat, last as nat);
    }
}

proof fn lemma_total(samples: Seq<u128>)
    requires
        samples.len() < 0x100_0000_0000,
    ensures
        near(
            value(stats::total_of(samples)),
            total(samples),
            (2 * samples.len()) as real + 1 as real,
        ),
        total(samples) >= 0 as real,
    decreases samples.len(),
{
    let r = (2 * samples.len()) as real + 1 as real;
    let u = part();
    if samples.len() == 0 {
        exact::lemma_value_sign(stats::total_of(samples));
        lemma_zero(1 as real - r * u);
        lemma_zero(1 as real + r * u);
    } else {
        let before = samples.drop_last();
        let a = stats::total_of(before);
        let b = binary64::whole(samples.last() as nat);
        let p = (2 * before.len()) as real + 1 as real;
        lemma_total(before);
        exact::lemma_value_sign(b);
        exact::sums_stay_near(a, b);
        lemma_same(value(b), p);
        lemma_sum(value(a), total(before), value(b), value(b), p);
        lemma_through(
            value(stats::total_of(samples)),
            value(a) + value(b),
            total(samples),
            1 as real,
            p,
        );
    }
}

/// The mean is the sum of the samples over their number, but for rounding: two
/// parts in two to the 53rd for each sample, and six.
pub proof fn mean_is_the_sum_over_the_number(stats: Stats, samples: Seq<u128>)
    requires
        0 < samples.len() < 0x100_0000_0000,
        stats.of(samples),
    ensures
        near(
            value(stats.mean_ns@),
            total(samples) / samples.len() as real,
            (2 * samples.len()) as real + 6 as real,
        ),
{
    lemma_mean(samples);
}

proof fn lemma_mean(samples: Seq<u128>)
    requires
        0 < samples.len() < 0x100_0000_0000,
    ensures
        near(
            value(stats::mean_of(samples)),
            total(samples) / samples.len() as real,
            (2 * samples.len()) as real + 6 as real,
        ),
        total(samples) >= 0 as real,
{
    lemma_total(samples);
    lemma_over_count(
        stats::total_of(samples),
        total(samples),
        (2 * samples.len()) as real + 1 as real,
        samples.len(),
    );
}

/// A number over a count.
proof fn lemma_over_count(t: Binary, exact: real, r: real, n: nat)
    requires
        near(value(t), exact, r),
        exact >= 0 as real,
        0 < n < 0x100_0000_0000,
        0 as real <= r <= 0x1000_0000_0000 as real,
    ensures
        near(
            value(binary64::quotient(t, binary64::whole(n))),
            exact / n as real,
            r + 5 as real,
        ),
        exact / n as real >= 0 as real,
{
    let c = binary64::whole(n);
    exact::whole_numbers_stay_near(n);
    binary64::lemma_whole_positive(n);
    exact::quotients_stay_near(t, c);
    lemma_same(value(c), 0 as real);
    lemma_ratio(value(t), exact, r, value(c), n as real, 0 as real);
    lemma_division(exact, n as real);
    let k = r + 0 as real + 2 as real;
    lemma_through(
        value(binary64::quotient(t, c)),
        value(t) / value(c),
        exact / n as real,
        1 as real,
        k,
    );
    lemma_wider(
        value(binary64::quotient(t, c)),
        exact / n as real,
        1 as real + k + 1 as real,
        r + 5 as real,
    );
}

/// The squared distances of the rounded samples from `m`, added up exactly.
spec fn deviations(samples: Seq<u128>, m: real) -> real
    decreases samples.len(),
{
    if samples.len() == 0 {
        0 as real
    } else {
        let x = value(binary64::whole(samples.last() as nat));
        deviations(samples.drop_last(), m) + (x - m) * (x - m)
    }
}

proof fn lemma_square(x: real)
    ensures
        x * x >= 0 as real,
{
    assert(x * x >= 0 as real) by (nonlinear_arith);
}

/// One squared deviation.
proof fn lemma_squared(sample: u128, mean: Binary)
    ensures
        ({
            let x = value(binary64::whole(sample as nat)) - value(mean);
            near(value(stats::squared_deviation(sample, mean)), x * x, 5 as real)
        }),
{
    let a = binary64::whole(sample as nat);
    let d = binary64::difference(a, mean);
    let x = value(a) - value(mean);
    let y = apart(value(a), value(mean));
    exact::differences_stay_near(a, mean);
    exact::products_stay_near(d, d);
    lemma_product(value(d), y, 1 as real, value(d), y, 1 as real);
    assert(y * y == x * x) by (nonlinear_arith)
        requires
            y == x || y == -x,
    ;
    lemma_square(x);
    lemma_through(
        value(binary64::product(d, d)),
        value(d) * value(d),
        x * x,
        1 as real,
        3 as real,
    );
}

proof fn lemma_spread(samples: Seq<u128>, mean: Binary)
    requires
        samples.len() < 0x100_0000_0000,
    ensures
        near(
            value(stats::spread_of(samples, mean)),
            deviations(samples, value(mean)),
            (2 * samples.len()) as real + 5 as real,
        ),
        deviations(samples, value(mean)) >= 0 as real,
    decreases samples.len(),
{
    let r = (2 * samples.len()) as real + 5 as real;
    let u = part();
    if samples.len() == 0 {
        exact::lemma_value_sign(stats::spread_of(samples, mean));
        lemma_zero(1 as real - r * u);
        lemma_zero(1 as real + r * u);
    } else {
        let before = samples.drop_last();
        let a = stats::spread_of(before, mean);
        let b = stats::squared_deviation(samples.last(), mean);
        let p = (2 * before.len()) as real + 5 as real;
        let x = value(binary64::whole(samples.last() as nat)) - value(mean);
        lemma_spread(before, mean);
        lemma_squared(samples.last(), mean);
        lemma_square(x);
        lemma_wider(value(b), x * x, 5 as real, p);
        exact::sums_stay_near(a, b);
        lemma_sum(value(a), deviations(before, value(mean)), value(b), x * x, p);
        lemma_through(
            value(stats::spread_of(samples, mean)),
            value(a) + value(b),
            deviations(samples, value(mean)),
            1 as real,
            p,
        );
    }
}

/// The squared distances from `m`, multiplied out.
proof fn lemma_expanded(samples: Seq<u128>, m: real)
    ensures
        deviations(samples, m) == squares(samples) - 2 as real * (m * total(samples))
            + samples.len() as real * (m * m),
        deviations(samples, m) >= 0 as real,
        total(samples) >= 0 as real,
    decreases samples.len(),
{
    if samples.len() == 0 {
        lemma_zero(m);
        lemma_zero(m * m);
    } else {
        let before = samples.drop_last();
        let x = value(binary64::whole(samples.last() as nat));
        let t = total(before);
        let n = before.len() as real;
        lemma_expanded(before, m);
        exact::lemma_value_sign(binary64::whole(samples.last() as nat));
        lemma_square(x - m);
        assert((x - m) * (x - m) == x * x - 2 as real * (m * x) + m * m) by (nonlinear_arith);
        assert(m * (t + x) == m * t + m * x) by (nonlinear_arith);
        assert((n + 1 as real) * (m * m) == n * (m * m) + m * m) by (nonlinear_arith);
    }
}

proof fn lemma_identity(n: real, q: real, t: real, m: real)
    ensures
        n * (q - 2 as real * (m * t) + n * (m * m)) == (n * q - t * t) + (t - n * m) * (t - n * m),
{
    assert(n * (q - 2 as real * (m * t) + n * (m * m)) == (n * q - t * t) + (t - n * m) * (t - n
        * m)) by (nonlinear_arith);
}

/// What is within `h` of zero has a square of at most that of `h`.
proof fn lemma_square_bound(g: real, h: real)
    requires
        -h <= g <= h,
    ensures
        g * g <= h * h,
{
    assert(g * g <= h * h) by (nonlinear_arith)
        requires
            -h <= g <= h,
    ;
}

/// The standard deviation `d` of `n` samples with the sum `t` and the sum of
/// squares `q` is the root of their mean squared deviation: `n * n * d * d` is
/// `n * q - t * t`, but for rounding. The rounding of the mean adds up to the
/// square of `2 * n + 6` parts of `t`, that of the sums and of the root up to
/// `2 * n + 14` parts of the whole.
pub proof fn deviation_is_the_root_of_the_mean_square(stats: Stats, samples: Seq<u128>)
    requires
        0 < samples.len() < 0x100_0000_0000,
        stats.of(samples),
    ensures
        ({
            let n = samples.len() as real;
            let t = total(samples);
            let v = n * squares(samples) - t * t;
            let d = value(stats.stddev_ns@);
            let few = ((2 * samples.len()) as real + 14 as real) * part();
            let drift = t * (((2 * samples.len()) as real + 6 as real) * part());
            &&& v >= 0 as real
            &&& d >= 0 as real
            &&& v * (1 as real - few) <= (n * n) * (d * d) <= (v + drift * drift) * (1 as real
                + few)
        }),
{
    let n = samples.len() as real;
    let t = total(samples);
    let q = squares(samples);
    let v = n * q - t * t;
    let mean = stats::mean_of(samples);
    let m = value(mean);
    let d = value(stats.stddev_ns@);
    let count = samples.len() as nat;
    let spread = stats::spread_of(samples, mean);
    let variance = binary64::quotient(spread, binary64::whole(count));
    let dev = deviations(samples, m);
    let e = (2 * samples.len()) as real + 14 as real;
    let r = (2 * samples.len()) as real + 6 as real;
    let u = part();
    lemma_part();
    lemma_few(e);
    lemma_few(r);
    lemma_mean(samples);
    lemma_spread(samples, mean);
    lemma_over_count(spread, dev, (2 * samples.len()) as real + 5 as real, count);
    binary64::lemma_whole_positive(count);
    crate::rounding::results_are_close(
        spread.m,
        binary64::whole(count).m,
        spread.e - binary64::whole(count).e,
    );
    exact::roots_stay_near(variance);
    exact::lemma_value_sign(stats.stddev_ns@);
    lemma_through(
        d * d,
        value(variance),
        dev / n,
        3 as real,
        (2 * samples.len()) as real + 10 as real,
    );
    assert(near(d * d, dev / n, e));
    lemma_expanded(samples, m);
    lemma_identity(n, q, t, m);
    let g = t - n * m;
    lemma_square(g);
    let all = n * dev;
    assert(all == v + g * g);
    // The distance of the rounded mean from the exact one.
    lemma_division(t, n);
    let c = t / n;
    lemma_scaled(m, c * (1 as real + r * u), n);
    lemma_scaled(c * (1 as real - r * u), m, n);
    assert((c * (1 as real + r * u)) * n == c * n + (c * n) * (r * u)) by (nonlinear_arith);
    assert((c * (1 as real - r * u)) * n == c * n - (c * n) * (r * u)) by (nonlinear_arith);
    lemma_swap(m, n);
    let h = t * (r * u);
    lemma_square_bound(g, h);
    // Both sides times `n * n`.
    let w = dev / n;
    lemma_division(dev, n);
    lemma_positive(n, n);
    lemma_scaled(d * d, w * (1 as real + e * u), n * n);
    lemma_scaled(w * (1 as real - e * u), d * d, n * n);
    assert((w * (1 as real + e * u)) * (n * n) == (n * (w * n)) * (1 as real + e * u))
        by (nonlinear_arith);
    assert((w * (1 as real - e * u)) * (n * n) == (n * (w * n)) * (1 as real - e * u))
        by (nonlinear_arith);
    lemma_swap(d * d, n * n);
    lemma_scaled(all, v + h * h, 1 as real + e * u);
    lemma_scaled(v, all, 1 as real - e * u);
    // The square is positive, as at the exact mean nothing else is left.
    lemma_expanded(samples, c);
    lemma_identity(n, q, t, c);
    lemma_swap(c, n);
    assert(t - n * c == 0 as real);
    lemma_zero(0 as real);
    lemma_scaled(0 as real, deviations(samples, c), n);
    lemma_zero(n);
}

/// How many of the samples do not exceed `bound`.
proof fn lemma_counted(samples: Seq<u128>, bound: u128)
    ensures
        stats::at_most(samples, bound) == samples.filter(|x: u128| x <= bound).len(),
    decreases samples.len(),
{
    reveal(Seq::filter);
    if samples.len() > 0 {
        lemma_counted(samples.drop_last(), bound);
    }
}

/// `x` is the nearest-rank percentile: at least `percent` percent of the
/// samples do not exceed it, and of no smaller sample is that true.
pub open spec fn is_percentile(x: u128, samples: Seq<u128>, percent: nat) -> bool {
    &&& samples.contains(x)
    &&& 100 * samples.filter(|y: u128| y <= x).len() >= percent * samples.len()
    &&& forall|i: int|
        0 <= i < samples.len() && #[trigger] samples[i] < x ==> 100 * samples.filter(
            |y: u128| y <= samples[i],
        ).len() < percent * samples.len()
}

proof fn lemma_percentile(samples: Seq<u128>, percent: nat)
    requires
        samples.len() > 0,
        order::ascending(samples),
        1 <= percent <= 100,
    ensures
        is_percentile(
            samples[stats::percentile_position(samples.len(), percent) as int],
            samples,
            percent,
        ),
{
    let p = stats::percentile_position(samples.len(), percent) as int;
    let x = samples[p];
    stats::percentile_is_nearest_rank(samples, percent);
    stats::percentiles_are_monotone(samples.len(), percent, percent);
    lemma_counted(samples, x);
    assert forall|i: int| 0 <= i < samples.len() && #[trigger] samples[i] < x implies 100
        * samples.filter(|y: u128| y <= samples[i]).len() < percent * samples.len() by {
        lemma_counted(samples, samples[i]);
    }
}

/// The statistics of samples in ascending order: their number, the least and
/// the largest, and the nearest-rank percentiles.
pub proof fn statistics_are_of_the_samples(stats: Stats, samples: Seq<u128>)
    requires
        samples.len() > 0,
        order::ascending(samples),
        stats.of(samples),
    ensures
        stats.n == samples.len(),
        samples.contains(stats.min_ns),
        samples.contains(stats.max_ns),
        forall|i: int|
            0 <= i < samples.len() ==> stats.min_ns <= #[trigger] samples[i] <= stats.max_ns,
        is_percentile(stats.p50_ns, samples, 50),
        is_percentile(stats.p95_ns, samples, 95),
        is_percentile(stats.p99_ns, samples, 99),
{
    stats::statistics_are_ordered(stats, samples);
    lemma_percentile(samples, 50);
    lemma_percentile(samples, 95);
    lemma_percentile(samples, 99);
    assert(samples[0] == stats.min_ns);
    assert(samples[samples.len() - 1] == stats.max_ns);
}

/// Sorting puts every value before the larger ones, and neither drops nor adds
/// one.
pub proof fn sorted_times_rise(sorted: Seq<u128>, times: Seq<u128>)
    requires
        order::is_sorted_from(sorted, times),
    ensures
        forall|i: int, j: int|
            0 <= i <= j < sorted.len() ==> #[trigger] sorted[i] <= #[trigger] sorted[j],
        sorted.len() == times.len(),
        sorted.to_multiset() == times.to_multiset(),
{
    sorted.to_multiset_ensures();
    times.to_multiset_ensures();
    assert forall|i: int, j: int| 0 <= i <= j < sorted.len() implies #[trigger] sorted[i]
        <= #[trigger] sorted[j] by {
        assert(order::Ranked::rank(sorted[i]) <= order::Ranked::rank(sorted[j]));
    }
}

/// A time in seconds is its nanoseconds over ten to the ninth, but for three
/// parts.
pub proof fn seconds_are_nanoseconds_over_a_billion(ns: nat)
    ensures
        near(
            value(report::seconds(ns)),
            ns as real / 1_000_000_000 as real,
            3 as real,
        ),
{
    let q = ns / 1_000_000_000;
    let r = ns % 1_000_000_000;
    let g = 1_000_000_000 as real;
    let a = binary64::whole(q);
    let b = binary64::quotient(binary64::whole(r), binary64::whole(1_000_000_000));
    exact::whole_numbers_stay_near(q);
    exact::whole_numbers_stay_near(r);
    exact::whole_numbers_stay_near(1_000_000_000);
    binary64::lemma_whole_positive(1_000_000_000);
    exact::quotients_stay_near(binary64::whole(r), binary64::whole(1_000_000_000));
    lemma_sum(value(a), q as real, value(b), r as real / g, 1 as real);
    exact::sums_stay_near(a, b);
    lemma_division(r as real, g);
    assert(q as real + r as real / g == ns as real / g) by (nonlinear_arith)
        requires
            ns as real == q as real * g + r as real,
            g == 1_000_000_000 as real,
    ;
    lemma_division(ns as real, g);
    lemma_through(
        value(report::seconds(ns)),
        value(a) + value(b),
        ns as real / g,
        1 as real,
        1 as real,
    );
}

/// The throughput is the number of samples over the seconds of wall-clock
/// time, but for eight parts. In no time it is infinite, or undefined where
/// there are no samples either.
pub proof fn throughput_is_samples_per_second(result: RunResult)
    ensures
        result.wall_ns > 0 ==> (result.rate() matches Figure::Finite(rate) && near(
            value(rate),
            result.stats.n as real / (result.wall_ns as real / 1_000_000_000 as real),
            8 as real,
        )),
        result.wall_ns == 0 && result.stats.n > 0 ==> result.rate() is Infinite,
        result.wall_ns == 0 && result.stats.n == 0 ==> result.rate() is Undefined,
{
    let n = result.stats.n as nat;
    let ns = result.wall_ns as nat;
    let a = binary64::whole(n);
    let b = report::seconds(ns);
    exact::whole_numbers_stay_near(n);
    seconds_are_nanoseconds_over_a_billion(ns);
    if n > 0 {
        binary64::lemma_whole_positive(n);
    }
    if ns > 0 {
        let s = ns as real / 1_000_000_000 as real;
        report::lemma_seconds_positive(ns);
        assert(s > 0 as real);
        exact::quotients_stay_near(a, b);
        lemma_ratio(value(a), n as real, 1 as real, value(b), s, 3 as real);
        lemma_division(n as real, s);
        lemma_through(
            value(binary64::quotient(a, b)),
            value(a) / value(b),
            n as real / s,
            1 as real,
            6 as real,
        );
    } else {
        report::lemma_no_seconds();
    }
}

/// How many times as many samples per second `fast` takes as `slow` does.
pub open spec fn times_as_fast(fast: RunResult, slow: RunResult) -> real {
    (fast.stats.n as real / fast.wall_ns as real) / (slow.stats.n as real / slow.wall_ns as real)
}

/// The speedup of a run over another is the quotient of the samples that they
/// take in the same time, but for twenty parts.
pub proof fn speedup_is_the_quotient_of_throughputs(fast: RunResult, slow: RunResult)
    requires
        fast.wall_ns > 0,
        slow.wall_ns > 0,
        slow.stats.n > 0,
    ensures
        number::figure_ratio(fast.rate(), slow.rate()) matches Figure::Finite(speedup) && near(
            value(speedup),
            times_as_fast(fast, slow),
            20 as real,
        ),
{
    throughput_is_samples_per_second(fast);
    throughput_is_samples_per_second(slow);
    let a = fast.rate()->Finite_0;
    let b = slow.rate()->Finite_0;
    let g = 1_000_000_000 as real;
    let n = fast.stats.n as real;
    let w = fast.wall_ns as real;
    let k = slow.stats.n as real;
    let v = slow.wall_ns as real;
    let x = n / (w / g);
    let y = k / (v / g);
    assert(y > 0 as real) by (nonlinear_arith)
        requires
            y == k / (v / g),
            k > 0 as real,
            v > 0 as real,
            g == 1_000_000_000 as real,
    ;
    assert(w / g > 0 as real);
    lemma_division(n, w / g);
    lemma_few(8 as real);
    lemma_scaled(0 as real, y, 1 as real - 8 as real * part());
    lemma_positive(y, 1 as real - 8 as real * part());
    exact::lemma_value_sign(b);
    exact::quotients_stay_near(a, b);
    lemma_ratio(value(a), x, 8 as real, value(b), y, 8 as real);
    lemma_division(x, y);
    lemma_through(
        value(binary64::quotient(a, b)),
        value(a) / value(b),
        x / y,
        1 as real,
        18 as real,
    );
    assert(x == g * (n / w)) by (nonlinear_arith)
        requires
            x == n / (w / g),
            w > 0 as real,
            g == 1_000_000_000 as real,
    ;
    assert(y == g * (k / v)) by (nonlinear_arith)
        requires
            y == k / (v / g),
            v > 0 as real,
            g == 1_000_000_000 as real,
    ;
    let p = n / w;
    let q = k / v;
    assert(q > 0 as real) by (nonlinear_arith)
        requires
            q == k / v,
            k > 0 as real,
            v > 0 as real,
    ;
    assert((g * p) / (g * q) == p / q) by (nonlinear_arith)
        requires
            q > 0 as real,
            g == 1_000_000_000 as real,
    ;
}

} // verus!
