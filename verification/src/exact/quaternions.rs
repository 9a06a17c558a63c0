//! The laws of the quaternions.

use vstd::prelude::*;

use crate::exact::algebra::{
    assoc, comm, dist, dist_right, dist_sub, neg, square_of_product, times_one,
};
use crate::exact::{exact, lemma_constants, lemma_reciprocal, lemma_square};
use crate::linalg::{v3, V3};
use crate::quat::{conjugated, exp_map, hamilton, norm_squared, unit, Quat};
use crate::scalar::{less, lit, prod, root, sine, Real};

verus! {

/// The four numbers of a quaternion.
pub open spec fn four<T>(val: spec_fn(T) -> real, q: Quat<T>) -> (real, real, real, real) {
    (val(q.w), val(q.x), val(q.y), val(q.z))
}

/// The three numbers of a vector.
pub open spec fn triple<T>(val: spec_fn(T) -> real, v: V3<T>) -> (real, real, real) {
    (val(v[0]), val(v[1]), val(v[2]))
}

/// The squared norm of a quaternion.
pub open spec fn size<T>(val: spec_fn(T) -> real, q: Quat<T>) -> real {
    val(q.w) * val(q.w) + val(q.x) * val(q.x) + val(q.y) * val(q.y) + val(q.z) * val(q.z)
}

/// `q` has norm one.
pub open spec fn is_unit<T>(val: spec_fn(T) -> real, q: Quat<T>) -> bool {
    size(val, q) == 1real
}

/// `k` times each component of the product of `(w, x, y, z)` and `(a, b, c, d)`.
pub proof fn lemma_product_times(
    k: real,
    w: real,
    x: real,
    y: real,
    z: real,
    a: real,
    b: real,
    c: real,
    d: real,
)
    ensures
        k * (w * a - x * b - y * c - z * d) == (k * w) * a - (k * x) * b - (k * y) * c - (k * z) * d,
        k * (w * b + x * a + y * d - z * c) == (k * w) * b + (k * x) * a + (k * y) * d - (k * z) * c,
        k * (w * c - x * d + y * a + z * b) == (k * w) * c - (k * x) * d + (k * y) * a + (k * z) * b,
        k * (w * d + x * c - y * b + z * a) == (k * w) * d + (k * x) * c - (k * y) * b + (k * z) * a,
{
    assoc(k, w, a);
    assoc(k, w, b);
    assoc(k, w, c);
    assoc(k, w, d);
    assoc(k, x, a);
    assoc(k, x, b);
    assoc(k, x, c);
    assoc(k, x, d);
    assoc(k, y, a);
    assoc(k, y, b);
    assoc(k, y, c);
    assoc(k, y, d);
    assoc(k, z, a);
    assoc(k, z, b);
    assoc(k, z, c);
    assoc(k, z, d);
    dist_sub(k, w * a - x * b - y * c, z * d);
    dist_sub(k, w * a - x * b, y * c);
    dist_sub(k, w * a, x * b);
    dist_sub(k, w * b + x * a + y * d, z * c);
    dist(k, w * b + x * a, y * d);
    dist(k, w * b, x * a);
    dist(k, w * c - x * d + y * a, z * b);
    dist(k, w * c - x * d, y * a);
    dist_sub(k, w * c, x * d);
    dist(k, w * d + x * c - y * b, z * a);
    dist_sub(k, w * d + x * c, y * b);
    dist(k, w * d, x * c);
}

/// Four products with a common factor, the others adding up to one.
pub proof fn lemma_collect(w: real, x: real, y: real, z: real, a: real)
    requires
        w * w + x * x + y * y + z * z == 1real,
    ensures
        (w * w) * a + (x * x) * a + (y * y) * a + (z * z) * a == a,
{
    dist_right(w * w + x * x + y * y, z * z, a);
    dist_right(w * w + x * x, y * y, a);
    dist_right(w * w, x * x, a);
    let n = w * w + x * x + y * y + z * z;
    times_one(a, n);
    comm(a, n);
}

/// `q* ⊗ (q ⊗ r) = r` for a unit `q`.
pub proof fn conjugate_inverts<T: Real>(val: spec_fn(T) -> real, q: Quat<T>, r: Quat<T>)
    requires
        exact(val),
        is_unit(val, q),
    ensures
        four(val, hamilton(conjugated(q), hamilton(q, r))) == four(val, r),
{
    let (w, x, y, z) = four(val, q);
    let (a, b, c, d) = four(val, r);
    let pw = w * a - x * b - y * c - z * d;
    let px = w * b + x * a + y * d - z * c;
    let py = w * c - x * d + y * a + z * b;
    let pz = w * d + x * c - y * b + z * a;
    assert(four(val, hamilton(q, r)) == (pw, px, py, pz));
    lemma_product_times(w, w, x, y, z, a, b, c, d);
    lemma_product_times(x, w, x, y, z, a, b, c, d);
    lemma_product_times(y, w, x, y, z, a, b, c, d);
    lemma_product_times(z, w, x, y, z, a, b, c, d);
    neg(pw, x);
    neg(px, x);
    neg(py, x);
    neg(pz, x);
    neg(pw, y);
    neg(px, y);
    neg(py, y);
    neg(pz, y);
    neg(pw, z);
    neg(px, z);
    neg(py, z);
    neg(pz, z);
    lemma_collect(w, x, y, z, a);
    lemma_collect(w, x, y, z, b);
    lemma_collect(w, x, y, z, c);
    lemma_collect(w, x, y, z, d);
    let (rw, rx, ry, rz) = four(val, hamilton(conjugated(q), hamilton(q, r)));
    assert(rw == w * pw - (-x) * px - (-y) * py - (-z) * pz);
    assert(rw == a);
    assert(rx == w * px + (-x) * pw + (-y) * pz - (-z) * py);
    assert(rx == b);
    assert(ry == w * py - (-x) * pz + (-y) * pw + (-z) * px);
    assert(ry == c);
    assert(rz == w * pz + (-x) * py - (-y) * px + (-z) * pw);
    assert(rz == d);
}

/// A normalized quaternion has norm one.
pub proof fn normalized_is_unit<T: Real>(val: spec_fn(T) -> real, q: Quat<T>)
    requires
        exact(val),
    ensures
        is_unit(val, unit(q)),
{
    lemma_constants(val);
    let (w, x, y, z) = four(val, q);
    let s = norm_squared(q);
    lemma_square(w);
    lemma_square(x);
    lemma_square(y);
    lemma_square(z);
    assert(val(s) == w * w + x * x + y * y + z * z);
    let n = root(s);
    if less(lit::<T>(0, 1), n) {
        let m = val(n);
        let i = 1real / m;
        lemma_reciprocal(w, m);
        lemma_reciprocal(x, m);
        lemma_reciprocal(y, m);
        lemma_reciprocal(z, m);
        square_of_product(w, i);
        square_of_product(x, i);
        square_of_product(y, i);
        square_of_product(z, i);
        let k = i * i;
        dist(k, w * w + x * x + y * y, z * z);
        dist(k, w * w + x * x, y * y);
        dist(k, w * w, x * x);
        square_of_product(m, i);
        assert(m * m == val(s));
    }
}

/// The exponential map gives unit quaternions.
pub proof fn exponential_is_unit<T: Real>(val: spec_fn(T) -> real, phi: V3<T>)
    requires
        exact(val),
    ensures
        is_unit(val, exp_map(phi)),
{
    lemma_constants(val);
    let angle = v3::length(phi);
    let half = lit::<T>(1, 2);
    if less(angle, lit::<T>(1, 1_000_000_000)) {
        normalized_is_unit(
            val,
            Quat {
                w: lit::<T>(1, 1),
                x: prod(phi[0], half),
                y: prod(phi[1], half),
                z: prod(phi[2], half),
            },
        );
    } else {
        let (a, b, c) = triple(val, phi);
        lemma_square(a);
        lemma_square(b);
        lemma_square(c);
        let t = val(angle);
        let tiny = lit::<T>(1, 1_000_000_000);
        assert(val(tiny) == 1real / 1_000_000_000real);
        assert(t > 0real);
        assert(t * t == a * a + b * b + c * c);
        let s = val(sine(prod(angle, half)));
        let f = s / t;
        square_of_product(a, f);
        square_of_product(b, f);
        square_of_product(c, f);
        let k = f * f;
        dist(k, a * a + b * b, c * c);
        dist(k, a * a, b * b);
        square_of_product(t, f);
        lemma_reciprocal(s, t);
        assoc(t, s, 1real / t);
        assoc(s, t, 1real / t);
        assert(t * f == s);
    }
}

} // verus!
