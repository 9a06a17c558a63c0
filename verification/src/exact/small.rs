//! Small angles: what the first terms of the sine, the cosine and the normalization leave out.

use vstd::prelude::*;

use crate::exact::algebra::{
    assoc, comm, dist, dist_right, dist_sub, dist_sub_right, neg, times_one,
};
use crate::exact::composition::{qmul, Four};
use crate::exact::jacobians::Three;
use crate::exact::quaternions::four;
use crate::exact::{absolute, lemma_reciprocal, lemma_square};
use crate::quat::Quat;
use crate::scalar::{cosine, sine, Real};

verus! {

/// `n³`.
pub open spec fn cube(n: real) -> real {
    (n * n) * n
}

/// The first terms of the sine and the cosine: `a − a³/6 ≤ sin a ≤ a` and `1 − a²/2 ≤ cos a` for an
/// angle that is not negative.
pub open spec fn exact_small<T: Real>(val: spec_fn(T) -> real) -> bool {
    forall|a: T|
        #![trigger sine(a)]
        #![trigger cosine(a)]
        val(a) >= 0real ==> val(a) - cube(val(a)) / 6real <= val(sine(a)) <= val(a) && val(cosine(a))
            >= 1real - (val(a) * val(a)) / 2real
}

/// `x` and `y` differ by at most `bound`.
pub open spec fn close(x: real, y: real, bound: real) -> bool {
    absolute(x - y) <= bound
}

/// Each component of the vector `a` is within `bound` of that of `b`.
pub open spec fn close_three(a: Three, b: Three, bound: real) -> bool {
    close(a.0, b.0, bound) && close(a.1, b.1, bound) && close(a.2, b.2, bound)
}

/// Each component of `a` is within `bound` of that of `b`.
pub open spec fn close_four(a: Four, b: Four, bound: real) -> bool {
    close(a.0, b.0, bound) && close(a.1, b.1, bound) && close(a.2, b.2, bound) && close(
        a.3,
        b.3,
        bound,
    )
}

/// `−b`.
pub open spec fn qneg(b: Four) -> Four {
    (-b.0, -b.1, -b.2, -b.3)
}

/// Each component of `a` is within `bound` of that of `b`, or of `−b`.
pub open spec fn close_rotation<T>(
    val: spec_fn(T) -> real,
    a: Quat<T>,
    b: Quat<T>,
    bound: real,
) -> bool {
    close_four(four(val, a), four(val, b), bound) || close_four(
        four(val, a),
        qneg(four(val, b)),
        bound,
    )
}

/// A number whose square is at most that of `n` is between `-n` and `n`.
pub proof fn lemma_at_most(x: real, n: real)
    requires
        n >= 0real,
        x * x <= n * n,
    ensures
        absolute(x) <= n,
{
    let y = absolute(x);
    assert(y * y == x * x) by {
        neg(-x, x);
        comm(-x, x);
        neg(x, x);
    }
    if y > n {
        assert(y * y > n * n) by (nonlinear_arith)
            requires
                y > n,
                n >= 0real,
        ;
    }
}

/// The product of two numbers that are not negative is not negative.
pub proof fn lemma_both(a: real, b: real)
    by (nonlinear_arith)
    requires
        a >= 0real,
        b >= 0real,
    ensures
        a * b >= 0real,
{
}

/// `a ≤ b`, both times a number that is not negative.
pub proof fn lemma_scaled_bound(k: real, a: real, b: real)
    by (nonlinear_arith)
    requires
        k >= 0real,
        a <= b,
    ensures
        k * a <= k * b,
{
}

/// The size of a product is the product of the sizes.
pub proof fn lemma_absolute(a: real, b: real)
    ensures
        absolute(a * b) == absolute(a) * absolute(b),
        absolute(a) >= 0real,
{
    let (p, q) = (absolute(a), absolute(b));
    lemma_both(p, q);
    neg(a, b);
    comm(-a, b);
    neg(b, a);
    comm(a, b);
    comm(-a, -b);
    neg(-a, b);
}

/// `n (t / n) = t`.
pub proof fn lemma_times_quotient(n: real, t: real)
    requires
        n != 0real,
    ensures
        n * (t / n) == t,
{
    lemma_reciprocal(t, n);
    let i = 1real / n;
    assoc(n, t, i);
    comm(n, t);
    assoc(t, n, i);
    times_one(t, n * i);
}

/// Two numbers whose squares differ by little differ by little.
proof fn lemma_root_gap(a: real, b: real, t: real)
    requires
        a >= 1real / 2real,
        b >= 0real,
        0real <= a * a - b * b <= t,
    ensures
        0real <= a - b <= 2real * t,
{
    let (u, d) = (a + b, a - b);
    dist_sub(u, a, b);
    dist_right(a, b, a);
    dist_right(a, b, b);
    comm(a, b);
    let g = u * d;
    assert(g == a * a - b * b);
    if d < 0real {
        assert(u * d < 0real) by (nonlinear_arith)
            requires
                u >= 1real / 2real,
                d < 0real,
        ;
    } else {
        assert(u * d >= d / 2real) by (nonlinear_arith)
            requires
                u >= 1real / 2real,
                d >= 0real,
        ;
    }
}

/// Powers of a small number.
pub proof fn lemma_powers(n: real)
    requires
        0real <= n <= 1real / 2real,
    ensures
        0real <= n * n <= n / 2real,
        0real <= cube(n) <= n / 4real,
        0real <= cube(n) * n <= cube(n) / 2real,
        (n * n) * (n * n) == cube(n) * n,
        n * (n * n) == cube(n),
{
    lemma_both(n, n);
    lemma_scaled_bound(n, n, 1real / 2real);
    lemma_both(n * n, n);
    lemma_scaled_bound(n * n, n, 1real / 2real);
    lemma_both(cube(n), n);
    lemma_scaled_bound(cube(n), n, 1real / 2real);
    assoc(n * n, n, n);
    comm(n * n, n);
    let (s, c) = (n * n, cube(n));
    assert(n * (1real / 2real) == n / 2real);
    assert(s * (1real / 2real) == s / 2real);
    assert(c * (1real / 2real) == c / 2real);
}

/// The cube of what the logarithm takes for small.
pub proof fn lemma_tiny_cube(n: real)
    requires
        0real <= n < 1real / 1_000_000_000real,
    ensures
        0real <= cube(n) < 1real / 100_000_000_000real,
{
    lemma_both(n, n);
    lemma_both(n * n, n);
    lemma_scaled_bound(n, n, 1real / 1_000_000_000real);
    let t = 1real / 1_000_000_000real;
    assert(n * t == n / 1_000_000_000real);
    lemma_scaled_bound(n * n, n, 1real);
    times_one(n * n, 1real);
}

/// A component `x` of a column of length `n`, times a factor that is short of one by at most `t`.
pub proof fn lemma_shortened(x: real, k: real, n: real, t: real)
    requires
        absolute(x) <= n,
        0real <= 1real - k <= t,
    ensures
        close(x * k, x, n * t),
{
    let e = 1real - k;
    dist_sub(x, 1real, k);
    times_one(x, 1real);
    assert(x - x * k == x * e);
    lemma_absolute(x, e);
    lemma_scaled_bound(e, absolute(x), n);
    comm(e, absolute(x));
    comm(e, n);
    lemma_scaled_bound(n, e, t);
}

/// The sine and the cosine of a small angle `n`, against `n` and the cosine that goes with a sine
/// of `n`.
pub proof fn lemma_series(n: real, s: real, c: real, w: real)
    requires
        0real < n <= 1real / 2real,
        n - cube(n) / 6real <= s <= n,
        s * s + c * c == 1real,
        c >= 1real - (n * n) / 2real,
        w >= 0real,
        n * n + w * w == 1real,
    ensures
        close(c, w, cube(n)),
        0real <= 1real - s / n <= (n * n) / 6real,
{
    lemma_powers(n);
    let (d, u) = (n - s, n + s);
    dist_sub(u, n, s);
    dist_right(n, s, n);
    dist_right(n, s, s);
    comm(n, s);
    assert(u * d == n * n - s * s);
    lemma_both(u, d);
    lemma_scaled_bound(u, d, cube(n) / 6real);
    lemma_scaled_bound(cube(n) / 6real, u, 2real * n);
    comm(cube(n) / 6real, u);
    let (k, c6) = (cube(n), cube(n) / 6real);
    assert(c6 * (2real * n) == (k * n) / 3real) by (nonlinear_arith)
        requires
            c6 == k / 6real,
    ;
    lemma_root_gap(c, w, (k * n) / 3real);
    lemma_sine_over_angle(n, s);
}

/// The sine of an angle over the angle.
pub proof fn lemma_sine_over_angle(n: real, s: real)
    requires
        n > 0real,
        n - cube(n) / 6real <= s <= n,
    ensures
        0real <= 1real - s / n <= (n * n) / 6real,
{
    // n (1 − s/n) = n − s ≤ n (n²/6)
    let (q, n2, k) = (s / n, n * n, cube(n));
    lemma_times_quotient(n, s);
    dist_sub(n, 1real, q);
    times_one(n, 1real);
    comm(n2, n);
    let e = 1real - q;
    assert(n * e == n - s);
    assert(n * (n2 / 6real) == k / 6real) by (nonlinear_arith)
        requires
            k == n * n2,
    ;
    assert(e >= 0real) by (nonlinear_arith)
        requires
            n > 0real,
            n * e >= 0real,
    ;
    let g = n2 / 6real - e;
    dist_sub(n, n2 / 6real, e);
    assert(g >= 0real) by (nonlinear_arith)
        requires
            n > 0real,
            n * g >= 0real,
    ;
}

/// `1/m` for `m = √(1 + n²)`.
pub proof fn lemma_normalizer(n: real, m: real)
    requires
        0real <= n <= 1real / 2real,
        m >= 0real,
        m * m == 1real + n * n,
    ensures
        m >= 1real,
        1real / 2real <= 1real / m <= 1real,
        0real <= 1real - 1real / m <= (n * n) / 2real,
        (1real / m) * (1real / m) * (1real + n * n) == 1real,
{
    lemma_powers(n);
    if m < 1real {
        assert(m * m < 1real) by (nonlinear_arith)
            requires
                0real <= m < 1real,
        ;
    }
    if m > 2real {
        assert(m * m > 4real) by (nonlinear_arith)
            requires
                m > 2real,
        ;
    }
    let i = 1real / m;
    lemma_reciprocal(1real, m);
    assert(m * i == 1real);
    assert(i >= 1real / 2real) by (nonlinear_arith)
        requires
            m * i == 1real,
            1real <= m <= 2real,
    ;
    assert(i <= 1real) by (nonlinear_arith)
        requires
            m * i == 1real,
            1real <= m,
    ;
    // i (m − 1) = 1 − i, and (m − 1)(m + 1) = n².
    let d = m - 1real;
    dist_sub(i, m, 1real);
    comm(i, m);
    times_one(i, 1real);
    assert(i * d == 1real - i);
    dist(d, m, 1real);
    dist_sub_right(m, 1real, m);
    times_one(d, 1real);
    times_one(m, 1real);
    comm(1real, m);
    let v = m + 1real;
    assert(d * v == n * n);
    assert(d * v >= 2real * d) by (nonlinear_arith)
        requires
            d >= 0real,
            v >= 2real,
    ;
    lemma_scaled_bound(d, i, 1real);
    comm(i, d);
    times_one(d, 1real);
    assoc(i * i, m, m);
    assoc(i, i, m);
    comm(i, m);
    times_one(i, i * m);
    assert((i * i) * (m * m) == 1real);
}

/// The normalized `1`, against the cosine that goes with a sine of `n`.
pub proof fn lemma_normalized(n: real, m: real, w: real)
    requires
        0real < n <= 1real / 2real,
        m >= 0real,
        m * m == 1real + n * n,
        w >= 0real,
        n * n + w * w == 1real,
    ensures
        close(1real / m, w, cube(n)),
{
    lemma_normalizer(n, m);
    lemma_powers(n);
    let (i, n2) = (1real / m, n * n);
    let i2 = i * i;
    dist(i2, 1real, n2);
    times_one(i2, 1real);
    assert(i2 + i2 * n2 == 1real);
    // i² − w² = n² − i² n² = n² (1 − i²) = n² (i² n²)
    let f = i2 * n2;
    dist_sub(n2, 1real, i2);
    times_one(n2, 1real);
    comm(n2, i2);
    assert(i2 - w * w == n2 - f);
    assert(n2 - f == n2 * f);
    lemma_both(i, i);
    lemma_both(i2, n2);
    lemma_scaled_bound(n2, i2, 1real);
    times_one(n2, 1real);
    lemma_both(n2, f);
    lemma_scaled_bound(n2, f, n2);
    lemma_root_gap(i, w, cube(n) * n);
}

/// One term of a product.
proof fn lemma_term(a: real, b: real, c: real, bound: real)
    requires
        absolute(a) <= 1real,
        close(b, c, bound),
    ensures
        close(a * b, a * c, bound),
{
    let e = b - c;
    dist_sub(a, b, c);
    lemma_absolute(a, e);
    lemma_absolute(e, 0real);
    lemma_scaled_bound(absolute(e), absolute(a), 1real);
    comm(absolute(e), absolute(a));
    times_one(absolute(e), 1real);
}

/// A product with a unit quaternion carries closeness on.
pub proof fn lemma_product_close(a: Four, b: Four, c: Four, bound: real)
    requires
        absolute(a.0) <= 1real && absolute(a.1) <= 1real && absolute(a.2) <= 1real && absolute(a.3)
            <= 1real,
        close_four(b, c, bound),
    ensures
        close_four(qmul(a, b), qmul(a, c), 4real * bound),
{
    lemma_term(a.0, b.0, c.0, bound);
    lemma_term(a.0, b.1, c.1, bound);
    lemma_term(a.0, b.2, c.2, bound);
    lemma_term(a.0, b.3, c.3, bound);
    lemma_term(a.1, b.0, c.0, bound);
    lemma_term(a.1, b.1, c.1, bound);
    lemma_term(a.1, b.2, c.2, bound);
    lemma_term(a.1, b.3, c.3, bound);
    lemma_term(a.2, b.0, c.0, bound);
    lemma_term(a.2, b.1, c.1, bound);
    lemma_term(a.2, b.2, c.2, bound);
    lemma_term(a.2, b.3, c.3, bound);
    lemma_term(a.3, b.0, c.0, bound);
    lemma_term(a.3, b.1, c.1, bound);
    lemma_term(a.3, b.2, c.2, bound);
    lemma_term(a.3, b.3, c.3, bound);
}

/// The components of a unit quaternion are at most one.
pub proof fn lemma_unit_components(a: Four)
    requires
        a.0 * a.0 + a.1 * a.1 + a.2 * a.2 + a.3 * a.3 == 1real,
    ensures
        absolute(a.0) <= 1real && absolute(a.1) <= 1real && absolute(a.2) <= 1real && absolute(a.3)
            <= 1real,
{
    lemma_square(a.0);
    lemma_square(a.1);
    lemma_square(a.2);
    lemma_square(a.3);
    times_one(1real, 1real);
    lemma_at_most(a.0, 1real);
    lemma_at_most(a.1, 1real);
    lemma_at_most(a.2, 1real);
    lemma_at_most(a.3, 1real);
}

} // verus!
