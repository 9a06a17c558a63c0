//! Right-handed frames: their matrices, their quaternions, and the frame of the banking aircraft.

use vstd::prelude::*;

use crate::exact::algebra::{
    assoc, comm, dist, dist_right, dist_sub, dist_sub_right, neg, square_of_difference,
    square_of_product, square_of_sum, swap_middle, times_one, times_zero,
};
use crate::exact::conversions::normalizing_keeps_unit;
use crate::exact::flights::orbit_is_circular;
use crate::exact::jacobians::{cross3, dot3, plus3, times3, Three};
use crate::exact::matrices::{agree, numbers};
use crate::exact::quaternions::{four, is_unit, size, triple};
use crate::exact::rotations::lemma_entries;
use crate::exact::{exact, lemma_constants, lemma_reciprocal, lemma_square};
use crate::linalg::{v3, Grid, V3};
use crate::quat::{matrix_components, matrix_quat, rotated, rotation_rows, Quat};
use crate::scalar::{arctan2, cosine, diff, less, lit, prod, root, sine, sum, turn, Real};
use crate::trajectory::{
    attitude_rows, climb_rate, level_left, orbit_rate, true_acceleration, true_orientation,
    true_velocity, CLIMB_AMPLITUDE, ORBIT_RADIUS,
};

verus! {

/// Unit vectors at right angles to each other, the third the cross product of the first two.
pub open spec fn is_frame(a: Three, b: Three, c: Three) -> bool {
    &&& dot3(a, a) == 1real
    &&& dot3(b, b) == 1real
    &&& dot3(a, b) == 0real
    &&& c == cross3(a, b)
}

/// The columns of a matrix form a right-handed frame: it is a rotation.
pub open spec fn right_handed<T>(val: spec_fn(T) -> real, r: Grid<T>) -> bool {
    is_frame(
        (val(r[0][0]), val(r[1][0]), val(r[2][0])),
        (val(r[0][1]), val(r[1][1]), val(r[2][1])),
        (val(r[0][2]), val(r[1][2]), val(r[2][2])),
    )
}

/// A product of three factors, in any order.
proof fn lemma_three(x: real, y: real, z: real)
    ensures
        x * (z * y) == x * (y * z),
        y * (x * z) == x * (y * z),
        y * (z * x) == x * (y * z),
        z * (x * y) == x * (y * z),
        z * (y * x) == x * (y * z),
{
    comm(y, z);
    comm(x, z);
    comm(x, y);
    assoc(x, y, z);
    assoc(y, x, z);
    assoc(z, x, y);
    comm(z, x * y);
}

/// One component of `b × (a × b) = a (b·b) − b (a·b)`.
proof fn lemma_double_cross(a0: real, a1: real, a2: real, b0: real, b1: real, b2: real)
    ensures
        b1 * (a0 * b1 - a1 * b0) - b2 * (a2 * b0 - a0 * b2) == a0 * (b0 * b0 + b1 * b1 + b2 * b2) - b0
            * (a0 * b0 + a1 * b1 + a2 * b2),
{
    dist_sub(b1, a0 * b1, a1 * b0);
    dist_sub(b2, a2 * b0, a0 * b2);
    dist(a0, b0 * b0 + b1 * b1, b2 * b2);
    dist(a0, b0 * b0, b1 * b1);
    dist(b0, a0 * b0 + a1 * b1, a2 * b2);
    dist(b0, a0 * b0, a1 * b1);
    lemma_three(a0, b1, b1);
    lemma_three(a1, b0, b1);
    lemma_three(a2, b0, b2);
    lemma_three(a0, b2, b2);
    lemma_three(a0, b0, b0);
}

/// In a frame each vector is the cross product of the next two.
proof fn lemma_frame_turns(a: Three, b: Three, c: Three)
    requires
        is_frame(a, b, c),
    ensures
        cross3(b, c) == a,
        cross3(c, a) == b,
{
    let (one, zero) = (dot3(b, b), dot3(a, b));
    lemma_double_cross(a.0, a.1, a.2, b.0, b.1, b.2);
    lemma_double_cross(a.1, a.2, a.0, b.1, b.2, b.0);
    lemma_double_cross(a.2, a.0, a.1, b.2, b.0, b.1);
    lemma_double_cross(b.0, b.1, b.2, a.0, a.1, a.2);
    lemma_double_cross(b.1, b.2, b.0, a.1, a.2, a.0);
    lemma_double_cross(b.2, b.0, b.1, a.2, a.0, a.1);
    assert(dot3(b, a) == dot3(a, b)) by {
        comm(a.0, b.0);
        comm(a.1, b.1);
        comm(a.2, b.2);
    }
    times_one(a.0, dot3(b, b));
    times_one(a.1, dot3(b, b));
    times_one(a.2, dot3(b, b));
    times_one(b.0, dot3(a, a));
    times_one(b.1, dot3(a, a));
    times_one(b.2, dot3(a, a));
    times_zero(a.0, dot3(a, b));
    times_zero(a.1, dot3(a, b));
    times_zero(a.2, dot3(a, b));
    times_zero(b.0, dot3(a, b));
    times_zero(b.1, dot3(a, b));
    times_zero(b.2, dot3(a, b));
    // a × b with its factors exchanged.
    comm(a.0, b.1);
    comm(a.1, b.0);
    comm(a.1, b.2);
    comm(a.2, b.1);
    comm(a.2, b.0);
    comm(a.0, b.2);
    neg(a.0, c.1);
    neg(a.0, c.2);
    neg(a.1, c.0);
    neg(a.1, c.2);
    neg(a.2, c.0);
    neg(a.2, c.1);
    comm(c.0, a.1);
    comm(c.0, a.2);
    comm(c.1, a.0);
    comm(c.1, a.2);
    comm(c.2, a.0);
    comm(c.2, a.1);
    assert(b.0 * a.1 - b.1 * a.0 == -c.2);
    assert(b.2 * a.0 - b.0 * a.2 == -c.1);
    assert(b.1 * a.2 - b.2 * a.1 == -c.0);
}

/// `c · (a × b) = a · (b × c)`.
proof fn lemma_triple_product(a: Three, b: Three, c: Three)
    ensures
        dot3(c, cross3(a, b)) == dot3(a, cross3(b, c)),
{
    dist_sub(c.0, a.1 * b.2, a.2 * b.1);
    dist_sub(c.1, a.2 * b.0, a.0 * b.2);
    dist_sub(c.2, a.0 * b.1, a.1 * b.0);
    dist_sub(a.0, b.1 * c.2, b.2 * c.1);
    dist_sub(a.1, b.2 * c.0, b.0 * c.2);
    dist_sub(a.2, b.0 * c.1, b.1 * c.0);
    lemma_three(a.0, b.1, c.2);
    lemma_three(a.0, b.2, c.1);
    lemma_three(a.1, b.2, c.0);
    lemma_three(a.1, b.0, c.2);
    lemma_three(a.2, b.0, c.1);
    lemma_three(a.2, b.1, c.0);
}

/// A cross product is at right angles to its factors.
proof fn lemma_cross_is_square(a: Three, b: Three)
    ensures
        dot3(a, cross3(a, b)) == 0real,
        dot3(b, cross3(a, b)) == 0real,
{
    dist_sub(a.0, a.1 * b.2, a.2 * b.1);
    dist_sub(a.1, a.2 * b.0, a.0 * b.2);
    dist_sub(a.2, a.0 * b.1, a.1 * b.0);
    lemma_three(a.0, a.1, b.2);
    lemma_three(a.0, a.2, b.1);
    lemma_three(a.1, a.2, b.0);
    dist_sub(b.0, a.1 * b.2, a.2 * b.1);
    dist_sub(b.1, a.2 * b.0, a.0 * b.2);
    dist_sub(b.2, a.0 * b.1, a.1 * b.0);
    lemma_three(b.0, a.1, b.2);
    lemma_three(b.0, a.2, b.1);
    lemma_three(b.1, a.0, b.2);
}

/// The third vector of a frame has length one.
proof fn lemma_frame_third(a: Three, b: Three, c: Three)
    requires
        is_frame(a, b, c),
    ensures
        dot3(c, c) == 1real,
        dot3(a, c) == 0real,
        dot3(b, c) == 0real,
{
    lemma_frame_turns(a, b, c);
    lemma_triple_product(a, b, c);
    lemma_cross_is_square(a, b);
}

/// The nine numbers of a rotation, row by row: rows and columns are orthonormal, and each number is
/// its own cofactor.
spec fn proper(
    m00: real,
    m01: real,
    m02: real,
    m10: real,
    m11: real,
    m12: real,
    m20: real,
    m21: real,
    m22: real,
) -> bool {
    &&& m00 * m00 + m01 * m01 + m02 * m02 == 1real
    &&& m00 * m10 + m01 * m11 + m02 * m12 == 0real
    &&& m00 * m20 + m01 * m21 + m02 * m22 == 0real
    &&& m10 * m10 + m11 * m11 + m12 * m12 == 1real
    &&& m10 * m20 + m11 * m21 + m12 * m22 == 0real
    &&& m20 * m20 + m21 * m21 + m22 * m22 == 1real
    &&& m00 * m00 + m10 * m10 + m20 * m20 == 1real
    &&& m00 * m01 + m10 * m11 + m20 * m21 == 0real
    &&& m00 * m02 + m10 * m12 + m20 * m22 == 0real
    &&& m01 * m01 + m11 * m11 + m21 * m21 == 1real
    &&& m01 * m02 + m11 * m12 + m21 * m22 == 0real
    &&& m02 * m02 + m12 * m12 + m22 * m22 == 1real
    &&& m00 == m11 * m22 - m12 * m21
    &&& m01 == m12 * m20 - m10 * m22
    &&& m02 == m10 * m21 - m11 * m20
    &&& m10 == m21 * m02 - m22 * m01
    &&& m11 == m22 * m00 - m20 * m02
    &&& m12 == m20 * m01 - m21 * m00
    &&& m20 == m01 * m12 - m02 * m11
    &&& m21 == m02 * m10 - m00 * m12
    &&& m22 == m00 * m11 - m01 * m10
}

/// One row of a frame: its squares add up to one, and it is at right angles to another row.
proof fn lemma_row(a: Three, b: Three, c: Three)
    requires
        cross3(b, c) == a,
        cross3(c, a) == b,
        cross3(a, b) == c,
        dot3(a, a) == 1real,
    ensures
        a.0 * a.0 + b.0 * b.0 + c.0 * c.0 == 1real,
        a.0 * a.1 + b.0 * b.1 + c.0 * c.1 == 0real,
{
    let (a0, a1, a2) = a;
    let (b0, b1, b2) = b;
    let (c0, c1, c2) = c;
    dist_sub(a0, b1 * c2, b2 * c1);
    dist_sub(b0, c1 * a2, c2 * a1);
    dist_sub(c0, a1 * b2, a2 * b1);
    dist_sub(a1, b2 * c0, b0 * c2);
    dist_sub(a2, b0 * c1, b1 * c0);
    lemma_three(a0, b1, c2);
    lemma_three(a0, b2, c1);
    lemma_three(b0, c1, a2);
    lemma_three(b0, c2, a1);
    lemma_three(c0, a1, b2);
    lemma_three(c0, a2, b1);
    dist_sub_right(b1 * c2, b2 * c1, a1);
    dist_sub_right(c1 * a2, c2 * a1, b1);
    dist_sub_right(a1 * b2, a2 * b1, c1);
    comm(b1 * c2, a1);
    comm(b2 * c1, a1);
    comm(c1 * a2, b1);
    comm(c2 * a1, b1);
    comm(a1 * b2, c1);
    comm(a2 * b1, c1);
    lemma_three(a1, b1, c2);
    lemma_three(a1, b2, c1);
    lemma_three(b1, c1, a2);
}

/// The matrix with the vectors of a frame as columns.
proof fn lemma_frame_is_proper(a: Three, b: Three, c: Three)
    requires
        is_frame(a, b, c),
    ensures
        proper(a.0, b.0, c.0, a.1, b.1, c.1, a.2, b.2, c.2),
{
    lemma_frame_turns(a, b, c);
    lemma_frame_third(a, b, c);
    lemma_row(a, b, c);
    lemma_row((a.1, a.2, a.0), (b.1, b.2, b.0), (c.1, c.2, c.0));
    lemma_row((a.2, a.0, a.1), (b.2, b.0, b.1), (c.2, c.0, c.1));
    comm(a.0, a.1);
    comm(a.0, a.2);
    comm(a.0, b.0);
    comm(a.0, b.1);
    comm(a.0, b.2);
    comm(a.0, c.0);
    comm(a.0, c.1);
    comm(a.0, c.2);
    comm(a.1, a.2);
    comm(a.1, b.0);
    comm(a.1, b.1);
    comm(a.1, b.2);
    comm(a.1, c.0);
    comm(a.1, c.1);
    comm(a.1, c.2);
    comm(a.2, b.0);
    comm(a.2, b.1);
    comm(a.2, b.2);
    comm(a.2, c.0);
    comm(a.2, c.1);
    comm(a.2, c.2);
    comm(b.0, b.1);
    comm(b.0, b.2);
    comm(b.0, c.0);
    comm(b.0, c.1);
    comm(b.0, c.2);
    comm(b.1, b.2);
    comm(b.1, c.0);
    comm(b.1, c.1);
    comm(b.1, c.2);
    comm(b.2, c.0);
    comm(b.2, c.1);
    comm(b.2, c.2);
    comm(c.0, c.1);
    comm(c.0, c.2);
    comm(c.1, c.2);
}

/// `(1 + a − b − c) u`.
proof fn lemma_four_terms(a: real, b: real, c: real, u: real)
    ensures
        (1real + a - b - c) * u == u + a * u - b * u - c * u,
{
    dist_sub_right(1real + a - b, c, u);
    dist_sub_right(1real + a, b, u);
    dist_right(1real, a, u);
    times_one(u, 1real);
    comm(u, 1real);
}

/// `(1 + a + b + c) u`.
proof fn lemma_four_sums(a: real, b: real, c: real, u: real)
    ensures
        (1real + a + b + c) * u == u + a * u + b * u + c * u,
{
    dist_right(1real + a + b, c, u);
    dist_right(1real + a, b, u);
    dist_right(1real, a, u);
    times_one(u, 1real);
    comm(u, 1real);
}

/// The product of a sum and a difference.
proof fn lemma_sum_by_difference(p: real, q: real)
    ensures
        (p + q) * (p - q) == p * p - q * q,
{
    dist_sub(p + q, p, q);
    dist_right(p, q, p);
    dist_right(p, q, q);
    comm(p, q);
}

/// The table of the products of the components of a rotation's quaternion, four times each: the
/// minors that hold the entry of the x component.
proof fn lemma_minors(
    m00: real,
    m01: real,
    m02: real,
    m10: real,
    m11: real,
    m12: real,
    m20: real,
    m21: real,
    m22: real,
)
    requires
        proper(m00, m01, m02, m10, m11, m12, m20, m21, m22),
    ensures
        ({
            let ww = 1real + m00 + m11 + m22;
            let xx = 1real + m00 - m11 - m22;
            let yy = 1real - m00 + m11 - m22;
            let zz = 1real - m00 - m11 + m22;
            let (wx, wy, wz) = (m21 - m12, m02 - m20, m10 - m01);
            let (xy, xz, yz) = (m01 + m10, m02 + m20, m12 + m21);
            &&& wx * wx == ww * xx
            &&& yz * yz == yy * zz
            &&& wx * wy == ww * xy
            &&& wx * xy == xx * wy
            &&& wx * xz == xx * wz
            &&& xy * xz == xx * yz
        }),
{
    let ww = 1real + m00 + m11 + m22;
    let xx = 1real + m00 - m11 - m22;
    let yy = 1real - m00 + m11 - m22;
    let zz = 1real - m00 - m11 + m22;
    let (wx, wy, wz) = (m21 - m12, m02 - m20, m10 - m01);
    let (xy, xz, yz) = (m01 + m10, m02 + m20, m12 + m21);
    assert(m12 * m12 + m21 * m21 == 1real + m00 * m00 - m11 * m11 - m22 * m22);
    comm(m12, m21);
    assert(wx * wx == ww * xx) by {
        square_of_difference(m21, m12);
        lemma_sum_by_difference(1real + m00, m11 + m22);
        square_of_sum(1real, m00);
        square_of_sum(m11, m22);
    }
    assert(yz * yz == yy * zz) by {
        square_of_sum(m12, m21);
        lemma_sum_by_difference(1real - m00, m11 - m22);
        square_of_difference(1real, m00);
        square_of_difference(m11, m22);
    }
    assert(wx * wy == ww * xy) by {
        dist_sub_right(m21, m12, wy);
        dist_sub(m21, m02, m20);
        dist_sub(m12, m02, m20);
        lemma_four_sums(m00, m11, m22, xy);
        dist(m00, m01, m10);
        dist(m11, m01, m10);
        dist(m22, m01, m10);
        comm(m21, m02);
        comm(m22, m01);
        comm(m12, m20);
        comm(m22, m10);
        comm(m21, m20);
        comm(m11, m10);
        comm(m12, m02);
        comm(m11, m01);
    }
    assert(wx * xy == xx * wy) by {
        dist_sub_right(m21, m12, xy);
        dist(m21, m01, m10);
        dist(m12, m01, m10);
        lemma_four_terms(m00, m11, m22, wy);
        dist_sub(m00, m02, m20);
        dist_sub(m11, m02, m20);
        dist_sub(m22, m02, m20);
        comm(m21, m01);
        comm(m21, m10);
        comm(m12, m01);
        comm(m12, m10);
        comm(m00, m20);
        comm(m22, m20);
        comm(m22, m02);
        comm(m11, m02);
    }
    assert(wx * xz == xx * wz) by {
        dist_sub_right(m21, m12, xz);
        dist(m21, m02, m20);
        dist(m12, m02, m20);
        lemma_four_terms(m00, m11, m22, wz);
        dist_sub(m00, m10, m01);
        dist_sub(m11, m10, m01);
        dist_sub(m22, m10, m01);
        comm(m21, m02);
        comm(m22, m01);
        comm(m12, m20);
        comm(m22, m10);
        comm(m21, m20);
        comm(m11, m10);
        comm(m12, m02);
        comm(m11, m01);
    }
    assert(xy * xz == xx * yz) by {
        dist_right(m01, m10, xz);
        dist(m01, m02, m20);
        dist(m10, m02, m20);
        lemma_four_terms(m00, m11, m22, yz);
        dist(m00, m12, m21);
        dist(m11, m12, m21);
        dist(m22, m12, m21);
        comm(m01, m20);
        comm(m10, m02);
        comm(m22, m21);
        comm(m22, m12);
    }
}

/// The table is the same seen from the next axis.
proof fn lemma_proper_turns(
    m00: real,
    m01: real,
    m02: real,
    m10: real,
    m11: real,
    m12: real,
    m20: real,
    m21: real,
    m22: real,
)
    requires
        proper(m00, m01, m02, m10, m11, m12, m20, m21, m22),
    ensures
        proper(m11, m12, m10, m21, m22, m20, m01, m02, m00),
{
    comm(m00, m11);
    comm(m00, m22);
    comm(m11, m22);
    comm(m01, m10);
    comm(m02, m20);
    comm(m12, m21);
}

/// Products of the components that Shepperd's method finds: `u` and `v` stand beside the pivot,
/// whose entry in the table is `k`.
proof fn lemma_beside_pivot(k: real, root: real, s: real, u: real, v: real, w: real)
    requires
        k > 0real,
        root >= 0real,
        root * root == k,
        s == root * 2real,
        u * v == k * w,
    ensures
        s != 0real,
        4real * ((1real / 4real * s) * (1real / 4real * s)) == k,
        4real * ((1real / 4real * s) * (u / s)) == u,
        4real * ((u / s) * (v / s)) == w,
{
    if root == 0real {
        times_zero(root, root);
    }
    let q = 1real / 4real * s;
    let i = 1real / s;
    assert(q == root / 2real);
    lemma_reciprocal(u, s);
    lemma_reciprocal(v, s);
    // q² = k/4.
    assert(4real * (q * q) == k) by {
        square_of_product(2real, q);
        assert(2real * q == root);
    }
    assert(4real * (q * (u * i)) == u) by {
        assoc(q, i, u);
        comm(u, i);
        assoc(1real / 4real, s, i);
        let h = q * i;
        assert(h == 1real / 4real);
        assoc(4real, h, u);
        times_one(u, 4real * h);
        comm(u, 4real * h);
    }
    assert(4real * ((u * i) * (v * i)) == w) by {
        swap_middle(u, i, v, i);
        square_of_product(s, i);
        square_of_product(2real, root);
        let j = i * i;
        assert(s * s == 4real * k) by {
            comm(root, 2real);
        }
        assert((4real * k) * j == 1real);
        comm(k, w);
        assoc(w, k, j);
        assoc(4real, k, j);
        assoc(4real, w, k * j);
        comm(4real, w);
        assoc(w, 4real, k * j);
        times_one(w, 4real * (k * j));
    }
}

/// The products of the components of a quaternion, four times each, are those that a rotation
/// matrix gives.
spec fn fits<T>(val: spec_fn(T) -> real, q: Quat<T>, r: Grid<T>) -> bool {
    let (w, x, y, z) = four(val, q);
    let (m00, m01, m02) = (val(r[0][0]), val(r[0][1]), val(r[0][2]));
    let (m10, m11, m12) = (val(r[1][0]), val(r[1][1]), val(r[1][2]));
    let (m20, m21, m22) = (val(r[2][0]), val(r[2][1]), val(r[2][2]));
    &&& 4real * (w * w) == 1real + m00 + m11 + m22
    &&& 4real * (x * x) == 1real + m00 - m11 - m22
    &&& 4real * (y * y) == 1real - m00 + m11 - m22
    &&& 4real * (z * z) == 1real - m00 - m11 + m22
    &&& 4real * (w * x) == m21 - m12
    &&& 4real * (w * y) == m02 - m20
    &&& 4real * (w * z) == m10 - m01
    &&& 4real * (x * y) == m01 + m10
    &&& 4real * (x * z) == m02 + m20
    &&& 4real * (y * z) == m12 + m21
}

proof fn lemma_components_fit<T: Real>(val: spec_fn(T) -> real, r: Grid<T>)
    requires
        exact(val),
        right_handed(val, r),
    ensures
        fits(val, matrix_components(r), r),
{
    lemma_constants(val);
    let (m00, m01, m02) = (val(r[0][0]), val(r[0][1]), val(r[0][2]));
    let (m10, m11, m12) = (val(r[1][0]), val(r[1][1]), val(r[1][2]));
    let (m20, m21, m22) = (val(r[2][0]), val(r[2][1]), val(r[2][2]));
    lemma_frame_is_proper((m00, m10, m20), (m01, m11, m21), (m02, m12, m22));
    lemma_proper_turns(m00, m01, m02, m10, m11, m12, m20, m21, m22);
    lemma_proper_turns(m11, m12, m10, m21, m22, m20, m01, m02, m00);
    lemma_minors(m00, m01, m02, m10, m11, m12, m20, m21, m22);
    lemma_minors(m11, m12, m10, m21, m22, m20, m01, m02, m00);
    lemma_minors(m22, m20, m21, m02, m00, m01, m12, m10, m11);
    let ww = 1real + m00 + m11 + m22;
    let xx = 1real + m00 - m11 - m22;
    let yy = 1real - m00 + m11 - m22;
    let zz = 1real - m00 - m11 + m22;
    let (wx, wy, wz) = (m21 - m12, m02 - m20, m10 - m01);
    let (xy, xz, yz) = (m01 + m10, m02 + m20, m12 + m21);
    assert(wx * wx == ww * xx && wy * wy == ww * yy && wz * wz == ww * zz);
    assert(yz * yz == yy * zz && xz * xz == zz * xx && xy * xy == xx * yy);
    assert(wx * wy == ww * xy && wy * wz == ww * yz && wz * wx == ww * xz);
    assert(wx * xy == xx * wy && wy * yz == yy * wz && wz * xz == zz * wx);
    assert(wx * xz == xx * wz && wy * xy == yy * wx && wz * yz == zz * wy);
    assert(xy * xz == xx * yz && yz * xy == yy * xz && xz * yz == zz * xy);
    let trace = sum(sum(r[0][0], r[1][1]), r[2][2]);
    let q = matrix_components(r);
    let (w, x, y, z) = four(val, q);
    comm(w, x);
    comm(w, y);
    comm(w, z);
    comm(x, y);
    comm(x, z);
    comm(y, z);
    if less(lit::<T>(0, 1), trace) {
        let inside = sum(trace, lit::<T>(1, 1));
        let p = val(root(inside));
        let s = p * 2real;
        assert(val(inside) == ww);
        lemma_beside_pivot(ww, p, s, wx, wx, xx);
        lemma_beside_pivot(ww, p, s, wy, wy, yy);
        lemma_beside_pivot(ww, p, s, wz, wz, zz);
        lemma_beside_pivot(ww, p, s, wx, wy, xy);
        comm(wx, wz);
        lemma_beside_pivot(ww, p, s, wx, wz, xz);
        lemma_beside_pivot(ww, p, s, wy, wz, yz);
    } else if less(r[1][1], r[0][0]) && less(r[2][2], r[0][0]) {
        let inside = diff(diff(sum(lit::<T>(1, 1), r[0][0]), r[1][1]), r[2][2]);
        let p = val(root(inside));
        let s = p * 2real;
        assert(val(inside) == xx);
        comm(ww, xx);
        comm(xx, zz);
        lemma_beside_pivot(xx, p, s, wx, wx, ww);
        lemma_beside_pivot(xx, p, s, xy, xy, yy);
        lemma_beside_pivot(xx, p, s, xz, xz, zz);
        lemma_beside_pivot(xx, p, s, wx, xy, wy);
        lemma_beside_pivot(xx, p, s, wx, xz, wz);
        lemma_beside_pivot(xx, p, s, xy, xz, yz);
    } else if less(r[2][2], r[1][1]) {
        let inside = diff(diff(sum(lit::<T>(1, 1), r[1][1]), r[0][0]), r[2][2]);
        let p = val(root(inside));
        let s = p * 2real;
        assert(val(inside) == yy);
        comm(ww, yy);
        comm(xx, yy);
        comm(xy, yz);
        lemma_beside_pivot(yy, p, s, wy, wy, ww);
        lemma_beside_pivot(yy, p, s, xy, xy, xx);
        lemma_beside_pivot(yy, p, s, yz, yz, zz);
        lemma_beside_pivot(yy, p, s, wy, xy, wx);
        lemma_beside_pivot(yy, p, s, wy, yz, wz);
        lemma_beside_pivot(yy, p, s, xy, yz, xz);
    } else {
        let inside = diff(diff(sum(lit::<T>(1, 1), r[2][2]), r[0][0]), r[1][1]);
        let p = val(root(inside));
        let s = p * 2real;
        assert(val(inside) == zz);
        comm(ww, zz);
        comm(yy, zz);
        lemma_beside_pivot(zz, p, s, wz, wz, ww);
        lemma_beside_pivot(zz, p, s, xz, xz, xx);
        lemma_beside_pivot(zz, p, s, yz, yz, yy);
        lemma_beside_pivot(zz, p, s, wz, xz, wx);
        lemma_beside_pivot(zz, p, s, wz, yz, wy);
        lemma_beside_pivot(zz, p, s, xz, yz, xy);
    }
}

/// A rotation matrix is the matrix of its quaternion, which is a unit one.
pub proof fn matrix_is_recovered<T: Real>(val: spec_fn(T) -> real, r: Grid<T>)
    requires
        exact(val),
        right_handed(val, r),
    ensures
        is_unit(val, matrix_quat(r)),
        agree(numbers(val, rotation_rows(matrix_quat(r))), numbers(val, r), 3, 3),
{
    lemma_components_fit(val, r);
    let c = matrix_components(r);
    assert(size(val, c) == 1real);
    normalizing_keeps_unit(val, c);
    let q = matrix_quat(r);
    lemma_entries(val, q);
    let a = numbers(val, rotation_rows(q));
    let b = numbers(val, r);
    assert(a(0, 0) == b(0, 0) && a(0, 1) == b(0, 1) && a(0, 2) == b(0, 2));
    assert(a(1, 0) == b(1, 0) && a(1, 1) == b(1, 1) && a(1, 2) == b(1, 2));
    assert(a(2, 0) == b(2, 0) && a(2, 1) == b(2, 1) && a(2, 2) == b(2, 2));
}

/// A vector with a positive length, scaled to length one.
proof fn lemma_direction<T: Real>(val: spec_fn(T) -> real, v: V3<T>)
    requires
        exact(val),
        dot3(triple(val, v), triple(val, v)) > 0real,
    ensures
        ({
            let n = val(v3::length(v));
            let d = triple(val, v3::direction(v));
            &&& n > 0real
            &&& n * n == dot3(triple(val, v), triple(val, v))
            &&& n * (1real / n) == 1real
            &&& d == times3(1real / n, triple(val, v))
            &&& times3(n, d) == triple(val, v)
            &&& dot3(d, d) == 1real
        }),
{
    lemma_constants(val);
    let (a, b, c) = triple(val, v);
    let n = val(v3::length(v));
    assert(n * n == a * a + b * b + c * c);
    if n == 0real {
        times_zero(n, n);
    }
    let i = 1real / n;
    lemma_reciprocal(1real, n);
    comm(a, i);
    comm(b, i);
    comm(c, i);
    let d = triple(val, v3::direction(v));
    assert(d == (i * a, i * b, i * c));
    assoc(n, i, a);
    assoc(n, i, b);
    assoc(n, i, c);
    times_one(a, n * i);
    times_one(b, n * i);
    times_one(c, n * i);
    comm(a, n * i);
    comm(b, n * i);
    comm(c, n * i);
    square_of_product(i, a);
    square_of_product(i, b);
    square_of_product(i, c);
    dist(i * i, a * a + b * b, c * c);
    dist(i * i, a * a, b * b);
    square_of_product(i, n);
    comm(i, n);
    times_one(1real, i * n);
}

/// The products of vectors that are scaled and added.
proof fn lemma_combination(f: Three, l: Three, u: Three, c: real, s: real)
    ensures
        ({
            let v = plus3(times3(c, l), times3(s, u));
            let fl = cross3(f, l);
            let fu = cross3(f, u);
            &&& dot3(f, v) == c * dot3(f, l) + s * dot3(f, u)
            &&& cross3(f, v) == plus3(times3(c, fl), times3(s, fu))
            &&& dot3(v, v) == (c * c) * dot3(l, l) + 2real * ((c * s) * dot3(l, u)) + (s * s) * dot3(
                u,
                u,
            )
        }),
{
    let v = plus3(times3(c, l), times3(s, u));
    // The inner product.
    dist(c, f.0 * l.0 + f.1 * l.1, f.2 * l.2);
    dist(c, f.0 * l.0, f.1 * l.1);
    dist(s, f.0 * u.0 + f.1 * u.1, f.2 * u.2);
    dist(s, f.0 * u.0, f.1 * u.1);
    lemma_scaled_term(f.0, l.0, u.0, c, s);
    lemma_scaled_term(f.1, l.1, u.1, c, s);
    lemma_scaled_term(f.2, l.2, u.2, c, s);
    assert(dot3(f, v) == c * dot3(f, l) + s * dot3(f, u));
    // The cross product.
    lemma_scaled_term(f.0, l.1, u.1, c, s);
    lemma_scaled_term(f.0, l.2, u.2, c, s);
    lemma_scaled_term(f.1, l.0, u.0, c, s);
    lemma_scaled_term(f.1, l.2, u.2, c, s);
    lemma_scaled_term(f.2, l.0, u.0, c, s);
    lemma_scaled_term(f.2, l.1, u.1, c, s);
    dist_sub(c, f.1 * l.2, f.2 * l.1);
    dist_sub(c, f.2 * l.0, f.0 * l.2);
    dist_sub(c, f.0 * l.1, f.1 * l.0);
    dist_sub(s, f.1 * u.2, f.2 * u.1);
    dist_sub(s, f.2 * u.0, f.0 * u.2);
    dist_sub(s, f.0 * u.1, f.1 * u.0);
    // The square.
    lemma_square_term(l.0, u.0, c, s);
    lemma_square_term(l.1, u.1, c, s);
    lemma_square_term(l.2, u.2, c, s);
    dist(c * c, l.0 * l.0 + l.1 * l.1, l.2 * l.2);
    dist(c * c, l.0 * l.0, l.1 * l.1);
    dist(s * s, u.0 * u.0 + u.1 * u.1, u.2 * u.2);
    dist(s * s, u.0 * u.0, u.1 * u.1);
    dist(c * s, l.0 * u.0 + l.1 * u.1, l.2 * u.2);
    dist(c * s, l.0 * u.0, l.1 * u.1);
}

/// `f (c l + s u)`.
proof fn lemma_scaled_term(f: real, l: real, u: real, c: real, s: real)
    ensures
        f * (c * l + s * u) == c * (f * l) + s * (f * u),
{
    dist(f, c * l, s * u);
    lemma_three(f, c, l);
    lemma_three(f, s, u);
}

/// `(c l + s u)²`.
proof fn lemma_square_term(l: real, u: real, c: real, s: real)
    ensures
        (c * l + s * u) * (c * l + s * u) == (c * c) * (l * l) + 2real * ((c * s) * (l * u)) + (s * s)
            * (u * u),
{
    square_of_sum(c * l, s * u);
    square_of_product(c, l);
    square_of_product(s, u);
    swap_middle(c, l, s, u);
}

/// A frame rolled about its first axis is a frame.
proof fn lemma_rolled_frame(f: Three, l: Three, u: Three, c: real, s: real)
    requires
        is_frame(f, l, u),
        c * c + s * s == 1real,
    ensures
        is_frame(
            f,
            plus3(times3(c, l), times3(s, u)),
            plus3(times3(-s, l), times3(c, u)),
        ),
{
    lemma_combination(f, l, u, c, s);
    lemma_frame_turns(f, l, u);
    lemma_frame_third(f, l, u);
    times_zero(c, dot3(f, l));
    times_zero(s, dot3(f, u));
    times_zero(c * s, dot3(l, u));
    times_one(c * c, dot3(l, l));
    times_one(s * s, dot3(u, u));
    // f × u = −l, since u × f = l.
    assert(cross3(f, u) == (-l.0, -l.1, -l.2)) by {
        comm(f.0, u.1);
        comm(f.0, u.2);
        comm(f.1, u.0);
        comm(f.1, u.2);
        comm(f.2, u.0);
        comm(f.2, u.1);
    }
    neg(s, l.0);
    neg(s, l.1);
    neg(s, l.2);
    comm(-s, l.0);
    comm(-s, l.1);
    comm(-s, l.2);
    neg(l.0, s);
    neg(l.1, s);
    neg(l.2, s);
    comm(s, l.0);
    comm(s, l.1);
    comm(s, l.2);
}

/// The speed over ground is at least the speed of climb, and positive.
proof fn lemma_speeds<T: Real>(val: spec_fn(T) -> real, t: T)
    requires
        exact(val),
        val(turn::<T>()) > 0real,
    ensures
        ({
            let (u, v, w) = triple(val, true_velocity(t));
            &&& u * u + v * v > 0real
            &&& w * w <= u * u + v * v
        }),
{
    orbit_is_circular(val, t);
    let (u, v, w) = triple(val, true_velocity(t));
    let tau = val(turn::<T>());
    let ground = (ORBIT_RADIUS as real) * val(orbit_rate::<T>());
    assert(val(orbit_rate::<T>()) == tau / 30real);
    assert(val(climb_rate::<T>()) == tau / 17real);
    let climb = 8real * val(climb_rate::<T>());
    assert(CLIMB_AMPLITUDE as real == 8real && ORBIT_RADIUS as real == 40real);
    let amplitude = lit::<T>(CLIMB_AMPLITUDE, 1);
    assert(val(amplitude) == CLIMB_AMPLITUDE as real / 1real);
    assert(ground == 40real * (tau / 30real));
    assert(0real < climb <= ground);
    let angle = prod(climb_rate::<T>(), t);
    let (c, s) = (val(cosine(angle)), val(sine(angle)));
    assert(w == climb * c);
    assert(c * c + s * s == 1real);
    // w² = climb² (1 − s²).
    square_of_product(climb, c);
    square_of_product(climb, s);
    dist(climb * climb, c * c, s * s);
    times_one(climb * climb, c * c + s * s);
    lemma_square(climb * s);
    // climb² ≤ ground².
    lemma_sum_by_difference(ground, climb);
    let (p, q) = (ground + climb, ground - climb);
    assert(p * q >= 0real) by (nonlinear_arith)
        requires
            p >= 0real,
            q >= 0real,
    ;
    assert(ground * ground > 0real) by (nonlinear_arith)
        requires
            ground > 0real,
    ;
}

/// A number below a millionth has a square below a half.
proof fn lemma_small_square(n: real)
    requires
        0real <= n < 1real / 1_000_000real,
    ensures
        n * n < 1real / 2real,
{
    let m = 1real - n;
    dist_sub(n, 1real, n);
    times_one(n, 1real);
    assert(n * m >= 0real) by (nonlinear_arith)
        requires
            n >= 0real,
            m >= 0real,
    ;
}

/// The level frame of the flight: nose along the velocity, wings level.
pub proof fn lemma_level_frame<T: Real>(val: spec_fn(T) -> real, t: T)
    requires
        exact(val),
        val(turn::<T>()) > 0real,
    ensures
        ({
            let fwd = v3::direction(true_velocity(t));
            let left = level_left(fwd);
            &&& is_frame(
                triple(val, fwd),
                triple(val, left),
                triple(val, v3::crossed(fwd, left)),
            )
            &&& val(left[2]) == 0real
            &&& val(v3::crossed(fwd, left)[2]) > 0real
            &&& times3(val(v3::length(true_velocity(t))), triple(val, fwd)) == triple(
                val,
                true_velocity(t),
            )
            &&& val(v3::length(true_velocity(t))) > 0real
        }),
{
    lemma_constants(val);
    lemma_speeds(val, t);
    let velocity = true_velocity(t);
    let (u, v, w) = triple(val, velocity);
    lemma_square(w);
    lemma_direction(val, velocity);
    let n = val(v3::length(velocity));
    let i = 1real / n;
    let fwd = v3::direction(velocity);
    let (a, b, c) = triple(val, fwd);
    let up: V3<T> = [lit::<T>(0, 1), lit::<T>(0, 1), lit::<T>(1, 1)];
    let side = v3::crossed(up, fwd);
    times_zero(a, 0real);
    times_zero(b, 0real);
    times_zero(c, 0real);
    times_one(a, 1real);
    times_one(b, 1real);
    comm(a, 0real);
    comm(b, 0real);
    comm(c, 0real);
    comm(a, 1real);
    comm(b, 1real);
    assert(triple(val, side) == (-b, a, 0real));
    // a² + b² is at least a half.
    let ground = u * u + v * v;
    let k = i * i;
    square_of_product(i, u);
    square_of_product(i, v);
    square_of_product(i, w);
    dist(k, u * u, v * v);
    assert(a * a + b * b == k * ground);
    assert(k * ground + k * (w * w) == 1real) by {
        dist(k, ground, w * w);
        square_of_product(i, n);
        comm(i, n);
        times_one(1real, i * n);
    }
    assert(k * (w * w) <= k * ground) by {
        let gap = ground - w * w;
        lemma_square(i);
        dist_sub(k, ground, w * w);
        assert(k * gap >= 0real) by (nonlinear_arith)
            requires
                k >= 0real,
                gap >= 0real,
        ;
    }
    neg(-b, b);
    comm(-b, b);
    neg(b, b);
    times_zero(0real, 0real);
    let sides = dot3(triple(val, side), triple(val, side));
    assert(sides == a * a + b * b);
    lemma_direction(val, side);
    let small = lit::<T>(1, 1_000_000);
    assert(val(small) == 1real / 1_000_000real);
    let m = val(v3::length(side));
    if m < val(small) {
        lemma_small_square(m);
    }
    let left = level_left(fwd);
    assert(left == v3::direction(side));
    let j = 1real / m;
    times_zero(j, 0real);
    // fwd · left = j (−ab + ba).
    lemma_three(a, j, -b);
    lemma_three(b, j, a);
    neg(a, b);
    comm(a, b);
    times_zero(c, 0real);
    neg(j, a * b);
    // The third axis rises by j (a² + b²).
    lemma_three(a, j, a);
    lemma_three(b, j, -b);
    neg(b, b);
    neg(j, b * b);
    dist(j, a * a, b * b);
    let sq = a * a + b * b;
    assert(j > 0real) by (nonlinear_arith)
        requires
            m > 0real,
            j == 1real / m,
    ;
    assert(j * sq > 0real) by (nonlinear_arith)
        requires
            j > 0real,
            sq > 0real,
    ;
}

/// The nose of the aircraft points along its velocity: the first body axis, in the world, times the
/// speed is the velocity. The wings roll about it out of the level: the matrix of the true
/// orientation is made of the axes that the banked attitude gives, and the quaternion is a unit one.
pub proof fn nose_along_velocity<T: Real>(val: spec_fn(T) -> real, t: T)
    requires
        exact(val),
        val(turn::<T>()) > 0real,
    ensures
        ({
            let q = true_orientation(t);
            let nose = rotated(q, [lit::<T>(1, 1), lit::<T>(0, 1), lit::<T>(0, 1)]);
            let speed = val(v3::length(true_velocity(t)));
            &&& speed > 0real
            &&& times3(speed, triple(val, nose)) == triple(val, true_velocity(t))
            &&& agree(numbers(val, rotation_rows(q)), numbers(val, attitude_rows(t)), 3, 3)
            &&& is_unit(val, q)
        }),
{
    lemma_constants(val);
    lemma_level_frame(val, t);
    let fwd = v3::direction(true_velocity(t));
    let left0 = level_left(fwd);
    let up0 = v3::crossed(fwd, left0);
    let r = attitude_rows(t);
    let phi = arctan2(
        v3::inner(true_acceleration(t), left0),
        lit::<T>(980_665, 100_000),
    );
    let (c, s) = (val(cosine(phi)), val(sine(phi)));
    assert(c * c + s * s == 1real);
    let (f, l, u) = (triple(val, fwd), triple(val, left0), triple(val, up0));
    neg(-s, s);
    comm(-s, s);
    neg(s, s);
    lemma_rolled_frame(f, l, u, c, -s);
    comm(l.0, c);
    comm(l.1, c);
    comm(l.2, c);
    comm(u.0, c);
    comm(u.1, c);
    comm(u.2, c);
    comm(l.0, s);
    comm(l.1, s);
    comm(l.2, s);
    comm(u.0, -s);
    comm(u.1, -s);
    comm(u.2, -s);
    neg(u.0, s);
    neg(u.1, s);
    neg(u.2, s);
    assert(-(-s) == s);
    assert(right_handed(val, r));
    matrix_is_recovered(val, r);
    let q = true_orientation(t);
    let m = numbers(val, rotation_rows(q));
    let k = numbers(val, r);
    assert(m(0, 0) == k(0, 0) && m(0, 1) == k(0, 1) && m(0, 2) == k(0, 2));
    assert(m(1, 0) == k(1, 0) && m(1, 1) == k(1, 1) && m(1, 2) == k(1, 2));
    assert(m(2, 0) == k(2, 0) && m(2, 1) == k(2, 1) && m(2, 2) == k(2, 2));
    times_one(f.0, 1real);
    times_one(f.1, 1real);
    times_one(f.2, 1real);
    times_zero(m(0, 1), 0real);
    times_zero(m(0, 2), 0real);
    times_zero(m(1, 1), 0real);
    times_zero(m(1, 2), 0real);
    times_zero(m(2, 1), 0real);
    times_zero(m(2, 2), 0real);
}

/// The sine of an arctangent with a positive second argument has the sign of the first.
pub open spec fn exact_lean<T: Real>(val: spec_fn(T) -> real) -> bool {
    forall|y: T, x: T|
        #![trigger arctan2(y, x)]
        val(x) > 0real ==> {
            &&& val(y) > 0real ==> val(sine(arctan2(y, x))) > 0real
            &&& val(y) < 0real ==> val(sine(arctan2(y, x))) < 0real
            &&& val(y) == 0real ==> val(sine(arctan2(y, x))) == 0real
        }
}

/// The aircraft is rolled into the turn: its lift, the body's up axis, leans to the side to which it
/// accelerates. With `left` for the horizontal left of the nose, the lean is the sine of the bank
/// angle, and has the sign of the lateral acceleration.
pub proof fn lift_leans_into_the_turn<T: Real>(val: spec_fn(T) -> real, t: T)
    requires
        exact(val),
        exact_lean(val),
        val(turn::<T>()) > 0real,
    ensures
        ({
            let q = true_orientation(t);
            let up = triple(val, rotated(q, [lit::<T>(0, 1), lit::<T>(0, 1), lit::<T>(1, 1)]));
            let side = level_left(v3::direction(true_velocity(t)));
            let left = triple(val, side);
            let lean = dot3(up, left);
            let lateral = dot3(triple(val, true_acceleration(t)), left);
            &&& lateral > 0real ==> lean > 0real
            &&& lateral < 0real ==> lean < 0real
            &&& lateral == 0real ==> lean == 0real
            &&& ({
                let phi = arctan2(v3::inner(true_acceleration(t), side), lit::<T>(980_665, 100_000));
                let level = triple(val, v3::crossed(v3::direction(true_velocity(t)), side));
                up == plus3(times3(val(sine(phi)), left), times3(val(cosine(phi)), level))
            })
            &&& lean == val(
                sine(
                    arctan2(v3::inner(true_acceleration(t), side), lit::<T>(980_665, 100_000)),
                ),
            )
        }),
{
    lemma_constants(val);
    nose_along_velocity(val, t);
    lemma_level_frame(val, t);
    let fwd = v3::direction(true_velocity(t));
    let left0 = level_left(fwd);
    let up0 = v3::crossed(fwd, left0);
    let (f, l, u) = (triple(val, fwd), triple(val, left0), triple(val, up0));
    lemma_frame_third(f, l, u);
    let g = lit::<T>(980_665, 100_000);
    assert(val(g) == 980_665real / 100_000real);
    let phi = arctan2(v3::inner(true_acceleration(t), left0), g);
    let (c, s) = (val(cosine(phi)), val(sine(phi)));
    let q = true_orientation(t);
    let m = numbers(val, rotation_rows(q));
    let k = numbers(val, attitude_rows(t));
    assert(m(0, 2) == k(0, 2) && m(1, 2) == k(1, 2) && m(2, 2) == k(2, 2));
    times_one(m(0, 2), 1real);
    times_one(m(1, 2), 1real);
    times_one(m(2, 2), 1real);
    times_zero(m(0, 0), 0real);
    times_zero(m(0, 1), 0real);
    times_zero(m(1, 0), 0real);
    times_zero(m(1, 1), 0real);
    times_zero(m(2, 0), 0real);
    times_zero(m(2, 1), 0real);
    comm(l.0, s);
    comm(l.1, s);
    comm(l.2, s);
    comm(u.0, c);
    comm(u.1, c);
    comm(u.2, c);
    let up = plus3(times3(s, l), times3(c, u));
    assert(triple(val, rotated(q, [lit::<T>(0, 1), lit::<T>(0, 1), lit::<T>(1, 1)])) == up);
    lemma_combination(l, l, u, s, c);
    comm(l.0, up.0);
    comm(l.1, up.1);
    comm(l.2, up.2);
    times_one(s, dot3(l, l));
    times_zero(c, dot3(l, u));
}

} // verus!
