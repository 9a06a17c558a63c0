//! Rules of the algebra of real numbers, for rearranging polynomials by hand.

use vstd::prelude::*;

verus! {

/// A factor times a sum.
pub proof fn dist(x: real, a: real, b: real)
    ensures
        x * (a + b) == x * a + x * b,
{
    assert(x * (a + b) == x * a + x * b) by (nonlinear_arith);
}

/// The factors of a product exchanged.
pub proof fn comm(x: real, a: real)
    ensures
        x * a == a * x,
{
    assert(x * a == a * x) by (nonlinear_arith);
}

/// A sum times a factor.
pub proof fn dist_right(a: real, b: real, x: real)
    ensures
        (a + b) * x == a * x + b * x,
{
    assert((a + b) * x == a * x + b * x) by (nonlinear_arith);
}

/// A difference times a factor.
pub proof fn dist_sub_right(a: real, b: real, x: real)
    ensures
        (a - b) * x == a * x - b * x,
{
    comm(a - b, x);
    comm(a, x);
    comm(b, x);
    dist_sub(x, a, b);
}

/// A factor times a negated one.
pub proof fn neg(x: real, a: real)
    ensures
        x * (-a) == -(x * a),
{
    assert(x * (-a) == -(x * a)) by (nonlinear_arith);
}

/// A factor times a difference.
pub proof fn dist_sub(x: real, a: real, b: real)
    ensures
        x * (a - b) == x * a - x * b,
{
    dist(x, a, -b);
    neg(x, b);
    assert(a - b == a + (-b));
}

/// Three factors bracketed the other way.
pub proof fn assoc(x: real, a: real, b: real)
    ensures
        x * (a * b) == (x * a) * b,
{
    assert(x * (a * b) == (x * a) * b) by (nonlinear_arith);
}

/// The first two factors of three exchanged.
pub proof fn swap(a: real, b: real, c: real)
    ensures
        a * (b * c) == b * (a * c),
{
    assoc(a, b, c);
    assoc(b, a, c);
}

/// The middle two factors of four exchanged.
pub proof fn swap_middle(a: real, b: real, c: real, d: real)
    ensures
        (a * b) * (c * d) == (a * c) * (b * d),
{
    assoc(a, b, c * d);
    swap(b, c, d);
    assoc(a, c, b * d);
}

/// The square of a product.
pub proof fn square_of_product(a: real, b: real)
    ensures
        (a * b) * (a * b) == (a * a) * (b * b),
{
    swap_middle(a, b, a, b);
}

/// The square of a sum.
pub proof fn square_of_sum(p: real, q: real)
    ensures
        (p + q) * (p + q) == p * p + 2real * (p * q) + q * q,
{
    dist(p + q, p, q);
    dist(p, p, q);
    dist(q, p, q);
}

/// The square of a difference.
pub proof fn square_of_difference(p: real, q: real)
    ensures
        (p - q) * (p - q) == p * p - 2real * (p * q) + q * q,
{
    dist_sub(p - q, p, q);
    dist_sub(p, p, q);
    dist_sub(q, p, q);
}

/// The product of two sums.
pub proof fn sums(a: real, b: real, c: real, d: real)
    ensures
        (a + b) * (c + d) == a * c + a * d + b * c + b * d,
{
    dist(a + b, c, d);
    dist(c, a, b);
    dist(d, a, b);
}

/// `(xy + wz)² + (xz − wy)² = (x² + w²)(y² + z²)`.
pub proof fn two_squares(x: real, w: real, y: real, z: real)
    ensures
        (x * y + w * z) * (x * y + w * z) + (x * z - w * y) * (x * z - w * y) == (x * x + w * w) * (y
            * y + z * z),
{
    square_of_sum(x * y, w * z);
    square_of_difference(x * z, w * y);
    square_of_product(x, y);
    square_of_product(w, z);
    square_of_product(x, z);
    square_of_product(w, y);
    swap_middle(x, y, w, z);
    swap_middle(x, z, w, y);
    assert(y * z == z * y);
    sums(x * x, w * w, y * y, z * z);
}

/// A factor of one.
pub proof fn times_one(x: real, t: real)
    requires
        t == 1real,
    ensures
        x * t == x,
{
    assert(x * t == x) by (nonlinear_arith)
        requires
            t == 1real,
    ;
}

/// A factor of zero.
pub proof fn times_zero(x: real, t: real)
    requires
        t == 0real,
    ensures
        x * t == 0real,
{
    assert(x * t == 0real) by (nonlinear_arith)
        requires
            t == 0real,
    ;
}

/// `(1 − 2a)(2b)`.
pub proof fn twice_less(a: real, b: real)
    ensures
        (1real - 2real * a) * (2real * b) == 2real * b - 4real * (a * b),
{
    dist_sub(2real * b, 1real, 2real * a);
    swap_middle(2real, b, 2real, a);
    times_one(2real * b, 1real);
}

/// `(1 − 2a)²`.
pub proof fn square_of_twice_less(a: real)
    ensures
        (1real - 2real * a) * (1real - 2real * a) == 1real - 4real * a + 4real * (a * a),
{
    dist_sub(1real - 2real * a, 1real, 2real * a);
    times_one(1real - 2real * a, 1real);
    twice_less(a, a);
}

/// A number that is not negative is told by its square.
pub proof fn same_square(r: real, m: real)
    requires
        r >= 0real,
        m >= 0real,
        r * r == m * m,
    ensures
        r == m,
{
    dist_sub(r + m, r, m);
    dist(r, r, m);
    dist(m, r, m);
    assert((r + m) * (r - m) == 0real);
    if r != m {
        let (a, b) = (r + m, r - m);
        assert(a > 0real);
        assert(a * b != 0real) by (nonlinear_arith)
            requires
                a > 0real,
                b != 0real,
        ;
    }
}

/// Dividing a product by one of its factors.
pub proof fn cancel(k: real, x: real)
    requires
        k != 0real,
    ensures
        (k * x) / k == x,
{
    assert((k * x) / k == x) by (nonlinear_arith)
        requires
            k != 0real,
    ;
}

} // verus!
