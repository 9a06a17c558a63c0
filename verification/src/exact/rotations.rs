//! The laws of the rotation matrices.

use vstd::prelude::*;

use crate::exact::algebra::{
    comm, dist, dist_right, dist_sub, dist_sub_right, neg, square_of_product, square_of_twice_less,
    sums, swap, swap_middle, times_one, times_zero, twice_less, two_squares,
};
use crate::exact::matrices::{agree, delta, flipped, lemma_times_agree, numbers, times};
use crate::exact::quaternions::{four, is_unit, lemma_collect, size, triple};
use crate::exact::sums::rsum;
use crate::exact::{exact, lemma_constants};
use crate::linalg::V3;
use crate::quat::{conjugated, opposite, rotated, rotated_back, rotation_rows, short_way, Quat};
use crate::scalar::Real;

verus! {

/// The nine entries of the rotation matrix as numbers.
pub proof fn lemma_entries<T: Real>(val: spec_fn(T) -> real, q: Quat<T>)
    requires
        exact(val),
    ensures
        ({
            let (w, x, y, z) = four(val, q);
            let r = rotation_rows(q);
            &&& val(r[0][0]) == 1real - 2real * (y * y + z * z)
            &&& val(r[0][1]) == 2real * (x * y - w * z)
            &&& val(r[0][2]) == 2real * (x * z + w * y)
            &&& val(r[1][0]) == 2real * (x * y + w * z)
            &&& val(r[1][1]) == 1real - 2real * (x * x + z * z)
            &&& val(r[1][2]) == 2real * (y * z - w * x)
            &&& val(r[2][0]) == 2real * (x * z - w * y)
            &&& val(r[2][1]) == 2real * (y * z + w * x)
            &&& val(r[2][2]) == 1real - 2real * (x * x + y * y)
        }),
{
    lemma_constants(val);
}

/// Two columns of a rotation matrix are at right angles.
proof fn lemma_right_angle(w: real, x: real, y: real, z: real)
    requires
        w * w + x * x + y * y + z * z == 1real,
    ensures
        (1real - 2real * (y * y + z * z)) * (2real * (x * y - w * z)) + (2real * (x * y + w * z)) * (
        1real - 2real * (x * x + z * z)) + (2real * (x * z - w * y)) * (2real * (y * z + w * x))
            == 0real,
{
    let (a, b, d) = (y * y + z * z, x * y - w * z, x * y + w * z);
    let (e, g, h) = (x * x + z * z, x * z - w * y, y * z + w * x);
    let (xy, wz) = (x * y, w * z);
    let (xx, yy, zz, ww) = (x * x, y * y, z * z, w * w);
    assert(a * b == yy * xy + zz * xy - (yy * wz + zz * wz)) by {
        dist_sub(a, xy, wz);
        dist_right(yy, zz, xy);
        dist_right(yy, zz, wz);
    }
    assert(e * d == xx * xy + xx * wz + zz * xy + zz * wz) by {
        sums(xx, zz, xy, wz);
    }
    assert(g * h == zz * xy - yy * wz + xx * wz - ww * xy) by {
        dist(g, y * z, w * x);
        dist_sub_right(x * z, w * y, y * z);
        dist_sub_right(x * z, w * y, w * x);
        swap_middle(x, z, y, z);
        comm(xy, zz);
        comm(w, x);
        swap_middle(x, z, x, w);
        comm(z, w);
        comm(w, y);
        swap_middle(y, w, y, z);
        swap_middle(w, y, w, x);
        comm(y, x);
    }
    lemma_collect(w, x, y, z, xy);
    assert(a * b + e * d - g * h == xy);
    twice_less(a, b);
    twice_less(e, d);
    comm(1real - 2real * e, 2real * d);
    swap_middle(2real, g, 2real, h);
}

/// A column of a rotation matrix has length one.
proof fn lemma_unit_column(w: real, x: real, y: real, z: real)
    requires
        w * w + x * x + y * y + z * z == 1real,
    ensures
        (1real - 2real * (y * y + z * z)) * (1real - 2real * (y * y + z * z)) + (2real * (x * y + w
            * z)) * (2real * (x * y + w * z)) + (2real * (x * z - w * y)) * (2real * (x * z - w * y))
            == 1real,
{
    let s = y * y + z * z;
    let r = x * x + w * w;
    square_of_twice_less(s);
    square_of_product(2real, x * y + w * z);
    square_of_product(2real, x * z - w * y);
    two_squares(x, w, y, z);
    dist(s, s, r);
    times_one(s, s + r);
}

/// The columns of a rotation matrix have length one and are at right angles to each other.
proof fn lemma_columns(w: real, x: real, y: real, z: real)
    requires
        w * w + x * x + y * y + z * z == 1real,
    ensures
        ({
            let a = 1real - 2real * (y * y + z * z);
            let b = 2real * (x * y - w * z);
            let c = 2real * (x * z + w * y);
            let d = 2real * (x * y + w * z);
            let e = 1real - 2real * (x * x + z * z);
            let f = 2real * (y * z - w * x);
            let g = 2real * (x * z - w * y);
            let h = 2real * (y * z + w * x);
            let i = 1real - 2real * (x * x + y * y);
            &&& a * a + d * d + g * g == 1real
            &&& b * b + e * e + h * h == 1real
            &&& c * c + f * f + i * i == 1real
            &&& a * b + d * e + g * h == 0real
            &&& a * c + d * f + g * i == 0real
            &&& b * c + e * f + h * i == 0real
        }),
{
    let a = 1real - 2real * (y * y + z * z);
    let b = 2real * (x * y - w * z);
    let c = 2real * (x * z + w * y);
    let d = 2real * (x * y + w * z);
    let e = 1real - 2real * (x * x + z * z);
    let f = 2real * (y * z - w * x);
    let g = 2real * (x * z - w * y);
    let h = 2real * (y * z + w * x);
    let i = 1real - 2real * (x * x + y * y);
    comm(x, y);
    comm(y, z);
    comm(x, z);
    lemma_unit_column(w, x, y, z);
    lemma_right_angle(w, x, y, z);
    lemma_unit_column(w, y, z, x);
    lemma_right_angle(w, y, z, x);
    assert(1real - 2real * (z * z + x * x) == e && 2real * (y * x - w * z) == b && 2real * (z * x + w
        * y) == c && 1real - 2real * (y * y + x * x) == i);
    assert(e * e + h * h + b * b == 1real);
    assert(e * f + h * i + b * c == 0real);
    lemma_unit_column(w, z, x, y);
    lemma_right_angle(w, z, x, y);
    assert(2real * (z * x - w * y) == g && 1real - 2real * (z * z + y * y) == a && 2real * (z * y - w
        * x) == f);
    assert(i * i + c * c + f * f == 1real);
    assert(i * g + c * a + f * d == 0real);
    comm(a, c);
    comm(d, f);
    comm(g, i);
}

/// The rotation matrix of the conjugate is the transpose.
pub proof fn conjugate_transposes<T: Real>(val: spec_fn(T) -> real, q: Quat<T>)
    requires
        exact(val),
    ensures
        agree(
            numbers(val, rotation_rows(conjugated(q))),
            flipped(numbers(val, rotation_rows(q))),
            3,
            3,
        ),
{
    lemma_entries(val, q);
    lemma_entries(val, conjugated(q));
    let (w, x, y, z) = four(val, q);
    lemma_signs(w, x, y, z);
    let a = numbers(val, rotation_rows(conjugated(q)));
    let b = flipped(numbers(val, rotation_rows(q)));
    assert forall|i: int, j: int| 0 <= i < 3 && 0 <= j < 3 implies #[trigger] a(i, j) == b(i, j) by {
        assert(i == 0 || i == 1 || i == 2);
        assert(j == 0 || j == 1 || j == 2);
    }
}

/// The rotation matrix of a unit quaternion is orthonormal: `Rᵀ R = I` and `R Rᵀ = I`.
pub proof fn rotation_is_orthonormal<T: Real>(val: spec_fn(T) -> real, q: Quat<T>)
    requires
        exact(val),
        is_unit(val, q),
    ensures
        ({
            let r = numbers(val, rotation_rows(q));
            &&& agree(times(flipped(r), r, 3), delta(), 3, 3)
            &&& agree(times(r, flipped(r), 3), delta(), 3, 3)
        }),
{
    lemma_half_orthonormal(val, q);
    let r = numbers(val, rotation_rows(q));
    let c = conjugated(q);
    let (w, x, y, z) = four(val, q);
    lemma_signs(w, x, y, z);
    lemma_half_orthonormal(val, c);
    conjugate_transposes(val, q);
    let rc = numbers(val, rotation_rows(c));
    assert(agree(flipped(rc), r, 3, 3)) by {
        assert forall|i: int, j: int| 0 <= i < 3 && 0 <= j < 3 implies #[trigger] flipped(rc)(i, j)
            == r(i, j) by {
            assert(rc(j, i) == flipped(r)(j, i));
        }
    }
    lemma_times_agree(flipped(rc), r, rc, flipped(r), 3, 3, 3);
    assert forall|i: int, j: int| 0 <= i < 3 && 0 <= j < 3 implies #[trigger] times(
        r,
        flipped(r),
        3,
    )(i, j) == delta()(i, j) by {
        assert(times(flipped(rc), rc, 3)(i, j) == times(r, flipped(r), 3)(i, j));
        assert(times(flipped(rc), rc, 3)(i, j) == delta()(i, j));
    }
}

proof fn lemma_half_orthonormal<T: Real>(val: spec_fn(T) -> real, q: Quat<T>)
    requires
        exact(val),
        is_unit(val, q),
    ensures
        ({
            let r = numbers(val, rotation_rows(q));
            agree(times(flipped(r), r, 3), delta(), 3, 3)
        }),
{
    lemma_entries(val, q);
    let (w, x, y, z) = four(val, q);
    lemma_columns(w, x, y, z);
    let m = rotation_rows(q);
    let r = numbers(val, m);
    reveal_with_fuel(rsum, 4);
    let (a, b, c) = (val(m[0][0]), val(m[0][1]), val(m[0][2]));
    let (d, e, f) = (val(m[1][0]), val(m[1][1]), val(m[1][2]));
    let (g, h, k) = (val(m[2][0]), val(m[2][1]), val(m[2][2]));
    comm(a, b);
    comm(d, e);
    comm(g, h);
    comm(a, c);
    comm(d, f);
    comm(g, k);
    comm(b, c);
    comm(e, f);
    comm(h, k);
    assert forall|i: int, j: int| 0 <= i < 3 && 0 <= j < 3 implies #[trigger] times(
        flipped(r),
        r,
        3,
    )(i, j) == delta()(i, j) by {
        let t = |k: int| flipped(r)(i, k) * r(k, j);
        assert(rsum(3, t) == t(0) + t(1) + t(2));
        assert(i == 0 || i == 1 || i == 2);
        assert(j == 0 || j == 1 || j == 2);
    }
}

/// Taking a vector into the world frame and back gives it back, for a unit quaternion.
pub proof fn rotating_back_undoes_rotating<T: Real>(val: spec_fn(T) -> real, q: Quat<T>, v: V3<T>)
    requires
        exact(val),
        is_unit(val, q),
    ensures
        triple(val, rotated_back(q, rotated(q, v))) == triple(val, v),
{
    lemma_entries(val, q);
    lemma_entries(val, conjugated(q));
    let (w, x, y, z) = four(val, q);
    lemma_columns(w, x, y, z);
    conjugate_transposes(val, q);
    let turned = rotated(q, v);
    let m = rotation_rows(q);
    let n = rotation_rows(conjugated(q));
    let rn = numbers(val, n);
    let rm = flipped(numbers(val, m));
    assert(rn(0, 0) == rm(0, 0) && rn(0, 1) == rm(0, 1) && rn(0, 2) == rm(0, 2));
    assert(rn(1, 0) == rm(1, 0) && rn(1, 1) == rm(1, 1) && rn(1, 2) == rm(1, 2));
    assert(rn(2, 0) == rm(2, 0) && rn(2, 1) == rm(2, 1) && rn(2, 2) == rm(2, 2));
    let (a, b, c) = (val(m[0][0]), val(m[0][1]), val(m[0][2]));
    let (d, e, f) = (val(m[1][0]), val(m[1][1]), val(m[1][2]));
    let (g, h, k) = (val(m[2][0]), val(m[2][1]), val(m[2][2]));
    let (s, t, u) = triple(val, v);
    comm(a, b);
    comm(d, e);
    comm(g, h);
    comm(a, c);
    comm(d, f);
    comm(g, k);
    comm(b, c);
    comm(e, f);
    comm(h, k);
    lemma_gram(a, d, g, b, e, h, c, f, k, s, t, u);
    lemma_gram(b, e, h, a, d, g, c, f, k, t, s, u);
    lemma_gram(c, f, k, a, d, g, b, e, h, u, s, t);
    comm(a, s);
    comm(b, t);
    comm(c, u);
    comm(d, s);
    comm(e, t);
    comm(f, u);
    comm(g, s);
    comm(h, t);
    comm(k, u);
    let (p, q, r) = (a * s + b * t + c * u, d * s + e * t + f * u, g * s + h * t + k * u);
    assert(p == s * a + t * b + u * c && p == t * b + s * a + u * c && p == u * c + s * a + t * b);
    assert(q == s * d + t * e + u * f && q == t * e + s * d + u * f && q == u * f + s * d + t * e);
    assert(r == s * g + t * h + u * k && r == t * h + s * g + u * k && r == u * k + s * g + t * h);
    assert(triple(val, turned) == (p, q, r));
    assert(a * p + d * q + g * r == s);
    assert(b * p + e * q + h * r == t);
    assert(c * p + f * q + k * r == u);
}

/// A unit column times a combination of it and two columns at right angles to it.
proof fn lemma_gram(
    a: real,
    d: real,
    g: real,
    b: real,
    e: real,
    h: real,
    c: real,
    f: real,
    k: real,
    s: real,
    t: real,
    u: real,
)
    requires
        a * a + d * d + g * g == 1real,
        a * b + d * e + g * h == 0real,
        a * c + d * f + g * k == 0real,
    ensures
        a * (s * a + t * b + u * c) + d * (s * d + t * e + u * f) + g * (s * g + t * h + u * k) == s,
{
    lemma_spread(a, s, a, t, b, u, c);
    lemma_spread(d, s, d, t, e, u, f);
    lemma_spread(g, s, g, t, h, u, k);
    dist(s, a * a + d * d, g * g);
    dist(s, a * a, d * d);
    dist(t, a * b + d * e, g * h);
    dist(t, a * b, d * e);
    dist(u, a * c + d * f, g * k);
    dist(u, a * c, d * f);
    times_one(s, a * a + d * d + g * g);
    assert(t * (a * b + d * e + g * h) == 0real) by {
        times_zero(t, a * b + d * e + g * h);
    }
    times_zero(u, a * c + d * f + g * k);
}

/// `p` times a combination.
proof fn lemma_spread(p: real, s: real, a: real, t: real, b: real, u: real, c: real)
    ensures
        p * (s * a + t * b + u * c) == s * (p * a) + t * (p * b) + u * (p * c),
{
    dist(p, s * a + t * b, u * c);
    dist(p, s * a, t * b);
    swap(p, s, a);
    swap(p, t, b);
    swap(p, u, c);
}

/// Products of negated numbers.
pub proof fn lemma_signs(w: real, x: real, y: real, z: real)
    ensures
        (-w) * (-w) == w * w,
        (-x) * (-x) == x * x,
        (-y) * (-y) == y * y,
        (-z) * (-z) == z * z,
        (-x) * (-y) == x * y,
        (-x) * (-z) == x * z,
        (-y) * (-z) == y * z,
        w * (-x) == -(w * x),
        w * (-y) == -(w * y),
        w * (-z) == -(w * z),
        (-w) * (-x) == w * x,
        (-w) * (-y) == w * y,
        (-w) * (-z) == w * z,
{
    neg(-w, w);
    neg(w, w);
    neg(-x, x);
    neg(x, x);
    neg(-y, y);
    neg(y, y);
    neg(-z, z);
    neg(z, z);
    neg(-x, y);
    neg(y, x);
    neg(-x, z);
    neg(z, x);
    neg(-y, z);
    neg(z, y);
    neg(w, x);
    neg(w, y);
    neg(w, z);
    neg(-w, x);
    neg(x, w);
    neg(-w, y);
    neg(y, w);
    neg(-w, z);
    neg(z, w);
}

/// A quaternion and its opposite are the same rotation, and the short way round is one of the two,
/// with a `w` that is not negative.
pub proof fn short_way_is_the_same_rotation<T: Real>(val: spec_fn(T) -> real, q: Quat<T>)
    requires
        exact(val),
    ensures
        agree(numbers(val, rotation_rows(opposite(q))), numbers(val, rotation_rows(q)), 3, 3),
        agree(numbers(val, rotation_rows(short_way(q))), numbers(val, rotation_rows(q)), 3, 3),
        val(short_way(q).w) >= 0real,
        size(val, short_way(q)) == size(val, q),
{
    lemma_constants(val);
    lemma_entries(val, q);
    lemma_entries(val, opposite(q));
    let (w, x, y, z) = four(val, q);
    lemma_signs(w, x, y, z);
    let a = numbers(val, rotation_rows(opposite(q)));
    let b = numbers(val, rotation_rows(q));
    assert forall|i: int, j: int| 0 <= i < 3 && 0 <= j < 3 implies #[trigger] a(i, j) == b(i, j) by {
        assert(i == 0 || i == 1 || i == 2);
        assert(j == 0 || j == 1 || j == 2);
    }
}

} // verus!
