//! The product of quaternions composes their rotations.

use vstd::prelude::*;

use crate::exact::algebra::{assoc, comm, dist_right, dist_sub_right, neg, times_one, times_zero};
use crate::exact::quaternions::{four, is_unit, lemma_collect, lemma_product_times, triple};
use crate::exact::rotations::lemma_entries;
use crate::exact::exact;
use crate::linalg::V3;
use crate::quat::{hamilton, rotated, Quat};
use crate::scalar::Real;

verus! {

/// A quaternion of real numbers.
pub type Four = (real, real, real, real);

/// The Hamilton product.
pub open spec fn qmul(a: Four, b: Four) -> Four {
    (
        a.0 * b.0 - a.1 * b.1 - a.2 * b.2 - a.3 * b.3,
        a.0 * b.1 + a.1 * b.0 + a.2 * b.3 - a.3 * b.2,
        a.0 * b.2 - a.1 * b.3 + a.2 * b.0 + a.3 * b.1,
        a.0 * b.3 + a.1 * b.2 - a.2 * b.1 + a.3 * b.0,
    )
}

/// The conjugate.
pub open spec fn qconj(a: Four) -> Four {
    (a.0, -a.1, -a.2, -a.3)
}

/// The vector `v` as a quaternion.
pub open spec fn pure(v: (real, real, real)) -> Four {
    (0real, v.0, v.1, v.2)
}

/// Each component of a product, times `k`.
proof fn lemma_times_product(a: Four, b: Four, k: real)
    ensures
        qmul(a, b).0 * k == (a.0 * b.0) * k - (a.1 * b.1) * k - (a.2 * b.2) * k - (a.3 * b.3) * k,
        qmul(a, b).1 * k == (a.0 * b.1) * k + (a.1 * b.0) * k + (a.2 * b.3) * k - (a.3 * b.2) * k,
        qmul(a, b).2 * k == (a.0 * b.2) * k - (a.1 * b.3) * k + (a.2 * b.0) * k + (a.3 * b.1) * k,
        qmul(a, b).3 * k == (a.0 * b.3) * k + (a.1 * b.2) * k - (a.2 * b.1) * k + (a.3 * b.0) * k,
{
    dist_sub_right(a.0 * b.0 - a.1 * b.1 - a.2 * b.2, a.3 * b.3, k);
    dist_sub_right(a.0 * b.0 - a.1 * b.1, a.2 * b.2, k);
    dist_sub_right(a.0 * b.0, a.1 * b.1, k);
    dist_sub_right(a.0 * b.1 + a.1 * b.0 + a.2 * b.3, a.3 * b.2, k);
    dist_right(a.0 * b.1 + a.1 * b.0, a.2 * b.3, k);
    dist_right(a.0 * b.1, a.1 * b.0, k);
    dist_right(a.0 * b.2 - a.1 * b.3 + a.2 * b.0, a.3 * b.1, k);
    dist_right(a.0 * b.2 - a.1 * b.3, a.2 * b.0, k);
    dist_sub_right(a.0 * b.2, a.1 * b.3, k);
    dist_right(a.0 * b.3 + a.1 * b.2 - a.2 * b.1, a.3 * b.0, k);
    dist_sub_right(a.0 * b.3 + a.1 * b.2, a.2 * b.1, k);
    dist_right(a.0 * b.3, a.1 * b.2, k);
}

/// The product is associative.
pub proof fn lemma_qmul_associative(a: Four, b: Four, c: Four)
    ensures
        qmul(qmul(a, b), c) == qmul(a, qmul(b, c)),
{
    lemma_times_product(a, b, c.0);
    lemma_times_product(a, b, c.1);
    lemma_times_product(a, b, c.2);
    lemma_times_product(a, b, c.3);
    lemma_product_times(a.0, b.0, b.1, b.2, b.3, c.0, c.1, c.2, c.3);
    lemma_product_times(a.1, b.0, b.1, b.2, b.3, c.0, c.1, c.2, c.3);
    lemma_product_times(a.2, b.0, b.1, b.2, b.3, c.0, c.1, c.2, c.3);
    lemma_product_times(a.3, b.0, b.1, b.2, b.3, c.0, c.1, c.2, c.3);
    let l = qmul(qmul(a, b), c);
    let r = qmul(a, qmul(b, c));
    assert(l.0 == r.0);
    assert(l.1 == r.1);
    assert(l.2 == r.2);
    assert(l.3 == r.3);
}

/// The conjugate of a product is the product of the conjugates the other way round.
pub proof fn lemma_conjugate_of_product(a: Four, b: Four)
    ensures
        qconj(qmul(a, b)) == qmul(qconj(b), qconj(a)),
{
    lemma_both_negated(a.1, b.1);
    lemma_both_negated(a.2, b.2);
    lemma_both_negated(a.3, b.3);
    lemma_both_negated(a.1, b.2);
    lemma_both_negated(a.1, b.3);
    lemma_both_negated(a.2, b.1);
    lemma_both_negated(a.2, b.3);
    lemma_both_negated(a.3, b.1);
    lemma_both_negated(a.3, b.2);
    neg(b.0, a.1);
    neg(b.0, a.2);
    neg(b.0, a.3);
    neg(a.0, b.1);
    neg(a.0, b.2);
    neg(a.0, b.3);
    comm(a.0, b.0);
    comm(a.0, b.1);
    comm(a.0, b.2);
    comm(a.0, b.3);
    comm(a.1, b.0);
    comm(a.2, b.0);
    comm(a.3, b.0);
    comm(a.0, -b.1);
    comm(a.0, -b.2);
    comm(a.0, -b.3);
}

/// `(−y)(−x) = x y`.
proof fn lemma_both_negated(x: real, y: real)
    ensures
        (-y) * (-x) == x * y,
{
    neg(-y, x);
    comm(-y, x);
    neg(x, y);
}

/// `(a b) c = (a c) b`.
proof fn swap_last(a: real, b: real, c: real)
    ensures
        (a * b) * c == (a * c) * b,
{
    assoc(a, b, c);
    comm(b, c);
    assoc(a, c, b);
}

/// A row of the rotation matrix times a vector, term by term.
proof fn lemma_row_terms(p: real, q: real, r: real, s: real, k: real)
    ensures
        (2real * (p * q - r * s)) * k == 2real * ((p * q) * k) - 2real * ((r * s) * k),
        (2real * (p * q + r * s)) * k == 2real * ((p * q) * k) + 2real * ((r * s) * k),
        (1real - 2real * (p * q + r * s)) * k == k - 2real * ((p * q) * k) - 2real * ((r * s) * k),
{
    assoc(2real, p * q - r * s, k);
    assoc(2real, p * q + r * s, k);
    dist_sub_right(p * q, r * s, k);
    dist_right(p * q, r * s, k);
    dist_sub_right(1real, 2real * (p * q + r * s), k);
    times_one(k, 1real);
    comm(k, 1real);
}

/// `q ⊗ v ⊗ q*` is the vector that `q` turns `v` into.
pub proof fn lemma_sandwich<T: Real>(val: spec_fn(T) -> real, q: Quat<T>, v: V3<T>)
    requires
        exact(val),
        is_unit(val, q),
    ensures
        qmul(qmul(four(val, q), pure(triple(val, v))), qconj(four(val, q))) == pure(
            triple(val, rotated(q, v)),
        ),
{
    lemma_entries(val, q);
    let f = four(val, q);
    let (w, x, y, z) = f;
    let (s, t, u) = triple(val, v);
    let p = qmul(f, pure((s, t, u)));
    times_zero(w, 0real);
    times_zero(x, 0real);
    times_zero(y, 0real);
    times_zero(z, 0real);
    let (pw, px, py, pz) = (
        -(x * s) - y * t - z * u,
        w * s + y * u - z * t,
        w * t - x * u + z * s,
        w * u + x * t - y * s,
    );
    assert(p == (pw, px, py, pz));
    lemma_four_products(w, x, y, z, s, t, u, w);
    lemma_four_products(w, x, y, z, s, t, u, x);
    lemma_four_products(w, x, y, z, s, t, u, y);
    lemma_four_products(w, x, y, z, s, t, u, z);
    neg(pw, x);
    neg(pw, y);
    neg(pw, z);
    neg(px, x);
    neg(px, y);
    neg(px, z);
    neg(py, x);
    neg(py, y);
    neg(py, z);
    neg(pz, x);
    neg(pz, y);
    neg(pz, z);
    lemma_collect(w, x, y, z, s);
    lemma_collect(w, x, y, z, t);
    lemma_collect(w, x, y, z, u);
    comm(w, x);
    comm(w, y);
    comm(w, z);
    comm(x, y);
    comm(x, z);
    comm(y, z);
    lemma_row_terms(y, y, z, z, s);
    lemma_row_terms(x, y, w, z, t);
    lemma_row_terms(x, z, w, y, u);
    lemma_row_terms(x, y, w, z, s);
    lemma_row_terms(x, x, z, z, t);
    lemma_row_terms(y, z, w, x, u);
    lemma_row_terms(x, z, w, y, s);
    lemma_row_terms(y, z, w, x, t);
    lemma_row_terms(x, x, y, y, u);
    let turned = qmul(p, qconj(f));
    let (a, b, c) = triple(val, rotated(q, v));
    assert(turned.0 == 0real);
    assert(turned.1 == a);
    assert(turned.2 == b);
    assert(turned.3 == c);
}

/// The components of `q ⊗ v`, times `k`, with the quaternion's own numbers in front.
proof fn lemma_four_products(
    w: real,
    x: real,
    y: real,
    z: real,
    s: real,
    t: real,
    u: real,
    k: real,
)
    ensures
        (-(x * s) - y * t - z * u) * k == -((x * k) * s) - (y * k) * t - (z * k) * u,
        (w * s + y * u - z * t) * k == (w * k) * s + (y * k) * u - (z * k) * t,
        (w * t - x * u + z * s) * k == (w * k) * t - (x * k) * u + (z * k) * s,
        (w * u + x * t - y * s) * k == (w * k) * u + (x * k) * t - (y * k) * s,
{
    swap_last(w, s, k);
    swap_last(w, t, k);
    swap_last(w, u, k);
    swap_last(x, s, k);
    swap_last(x, t, k);
    swap_last(x, u, k);
    swap_last(y, s, k);
    swap_last(y, t, k);
    swap_last(y, u, k);
    swap_last(z, s, k);
    swap_last(z, t, k);
    swap_last(z, u, k);
    dist_sub_right(-(x * s) - y * t, z * u, k);
    dist_sub_right(-(x * s), y * t, k);
    comm(-(x * s), k);
    neg(k, x * s);
    comm(k, x * s);
    dist_sub_right(w * s + y * u, z * t, k);
    dist_right(w * s, y * u, k);
    dist_right(w * t - x * u, z * s, k);
    dist_sub_right(w * t, x * u, k);
    dist_sub_right(w * u + x * t, y * s, k);
    dist_right(w * u, x * t, k);
}

/// `a ⊗ a*` is the squared norm.
pub proof fn lemma_times_conjugate(a: Four)
    ensures
        qmul(a, qconj(a)) == (
            a.0 * a.0 + a.1 * a.1 + a.2 * a.2 + a.3 * a.3,
            0real,
            0real,
            0real,
        ),
{
    neg(a.1, a.1);
    neg(a.2, a.2);
    neg(a.3, a.3);
    neg(a.0, a.1);
    neg(a.0, a.2);
    neg(a.0, a.3);
    neg(a.1, a.2);
    neg(a.1, a.3);
    neg(a.2, a.1);
    neg(a.2, a.3);
    neg(a.3, a.1);
    neg(a.3, a.2);
    comm(a.0, a.1);
    comm(a.0, a.2);
    comm(a.0, a.3);
    comm(a.1, a.2);
    comm(a.1, a.3);
    comm(a.2, a.3);
}

/// The product of unit quaternions is a unit quaternion.
pub proof fn product_of_units_is_unit<T: Real>(val: spec_fn(T) -> real, a: Quat<T>, b: Quat<T>)
    requires
        exact(val),
        is_unit(val, a),
        is_unit(val, b),
    ensures
        is_unit(val, hamilton(a, b)),
{
    let (fa, fb) = (four(val, a), four(val, b));
    let (ca, cb) = (qconj(fa), qconj(fb));
    let ab = qmul(fa, fb);
    assert(four(val, hamilton(a, b)) == ab);
    lemma_times_conjugate(ab);
    lemma_times_conjugate(fa);
    lemma_times_conjugate(fb);
    lemma_conjugate_of_product(fa, fb);
    // (a b)(b* a*) = a ((b b*) a*).
    lemma_qmul_associative(fa, fb, qmul(cb, ca));
    lemma_qmul_associative(fb, cb, ca);
    let one = (1real, 0real, 0real, 0real);
    assert(qmul(one, ca) == ca) by {
        times_one(ca.0, 1real);
        times_one(ca.1, 1real);
        times_one(ca.2, 1real);
        times_one(ca.3, 1real);
        comm(ca.0, 1real);
        comm(ca.1, 1real);
        comm(ca.2, 1real);
        comm(ca.3, 1real);
        times_zero(ca.0, 0real);
        times_zero(ca.1, 0real);
        times_zero(ca.2, 0real);
        times_zero(ca.3, 0real);
        comm(ca.0, 0real);
        comm(ca.1, 0real);
        comm(ca.2, 0real);
        comm(ca.3, 0real);
    }
}

/// Turning by `a ⊗ b` is turning by `b` and then by `a`, for unit quaternions.
pub proof fn product_composes_rotations<T: Real>(
    val: spec_fn(T) -> real,
    a: Quat<T>,
    b: Quat<T>,
    v: V3<T>,
)
    requires
        exact(val),
        is_unit(val, a),
        is_unit(val, b),
    ensures
        triple(val, rotated(hamilton(a, b), v)) == triple(val, rotated(a, rotated(b, v))),
{
    product_of_units_is_unit(val, a, b);
    let (fa, fb) = (four(val, a), four(val, b));
    let p = pure(triple(val, v));
    let ab = qmul(fa, fb);
    assert(four(val, hamilton(a, b)) == ab);
    lemma_sandwich(val, hamilton(a, b), v);
    lemma_sandwich(val, b, v);
    lemma_sandwich(val, a, rotated(b, v));
    lemma_conjugate_of_product(fa, fb);
    let (ca, cb) = (qconj(fa), qconj(fb));
    // ((a b) p)(b* a*) = (a ((b p) b*)) a*.
    lemma_qmul_associative(fa, fb, p);
    lemma_qmul_associative(qmul(ab, p), cb, ca);
    lemma_qmul_associative(fa, qmul(fb, p), cb);
}

} // verus!
