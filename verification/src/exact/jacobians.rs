//! The Jacobians of the measurements are their first-order terms.
//!
//! Each law moves the state by an error and says exactly what the measurement becomes: what it was,
//! plus the Jacobian times the error, plus terms in which the error occurs at least twice.

use vstd::prelude::*;

use crate::exact::algebra::{
    assoc, comm, dist, dist_right, dist_sub, dist_sub_right, neg, square_of_sum, swap, swap_middle,
    times_one, times_zero,
};
use crate::exact::composition::product_composes_rotations;
use crate::exact::matrices::{flipped, lemma_row_by_col, numbers};
use crate::exact::quaternions::{four, is_unit, triple};
use crate::exact::rotations::{conjugate_transposes, lemma_entries, lemma_signs};
use crate::exact::sums::lemma_single;
use crate::exact::{exact, lemma_constants, lemma_reciprocal, lemma_square};
use crate::filter::{block_jacobian, body_velocity, lidar_model, range_model, Nominal, IP, ITH, N};
use crate::linalg::{identity_grid, product, v3, Grid, V3};
use crate::quat::{conjugated, hamilton, rotated, rotated_back, rotation_rows, Quat};
use crate::scalar::{lit, quot, Real};

verus! {

/// A vector of three real numbers.
pub type Three = (real, real, real);

/// `a + b`.
pub open spec fn plus3(a: Three, b: Three) -> Three {
    (a.0 + b.0, a.1 + b.1, a.2 + b.2)
}

/// `k` times `a`.
pub open spec fn times3(k: real, a: Three) -> Three {
    (k * a.0, k * a.1, k * a.2)
}

/// `a · b`.
pub open spec fn dot3(a: Three, b: Three) -> real {
    a.0 * b.0 + a.1 * b.1 + a.2 * b.2
}

/// `a × b`.
pub open spec fn cross3(a: Three, b: Three) -> Three {
    (a.1 * b.2 - a.2 * b.1, a.2 * b.0 - a.0 * b.2, a.0 * b.1 - a.1 * b.0)
}

/// One component of the rotation formula: a row of the rotation matrix times a vector.
proof fn lemma_rotation_row(w: real, x: real, y: real, z: real, s: real, t: real, u: real)
    ensures
        (1real - 2real * (y * y + z * z)) * s + (2real * (x * y - w * z)) * t + (2real * (x * z + w
            * y)) * u == s + 2real * (w * (y * u - z * t)) + 2real * (y * (x * t - y * s) - z * (z
            * s - x * u)),
{
    dist_sub_right(1real, 2real * (y * y + z * z), s);
    times_one(s, 1real);
    comm(s, 1real);
    assoc(2real, y * y + z * z, s);
    dist_right(y * y, z * z, s);
    assoc(2real, x * y - w * z, t);
    dist_sub_right(x * y, w * z, t);
    assoc(2real, x * z + w * y, u);
    dist_right(x * z, w * y, u);
    dist_sub(w, y * u, z * t);
    assoc(w, y, u);
    assoc(w, z, t);
    dist_sub(y, x * t, y * s);
    assoc(y, x, t);
    comm(y, x);
    assoc(y, y, s);
    dist_sub(z, z * s, x * u);
    assoc(z, z, s);
    assoc(z, x, u);
    comm(z, x);
}

/// The rotation formula: `R(e) u = u + 2w (d × u) + 2 d × (d × u)` for the quaternion `e = (w, d)`.
pub proof fn rotation_formula<T: Real>(val: spec_fn(T) -> real, e: Quat<T>, v: V3<T>)
    requires
        exact(val),
    ensures
        ({
            let d = (val(e.x), val(e.y), val(e.z));
            let u = triple(val, v);
            let du = cross3(d, u);
            triple(val, rotated(e, v)) == plus3(
                plus3(u, times3(2real, times3(val(e.w), du))),
                times3(2real, cross3(d, du)),
            )
        }),
{
    lemma_entries(val, e);
    let (w, x, y, z) = four(val, e);
    let (s, t, u) = triple(val, v);
    lemma_rotation_row(w, x, y, z, s, t, u);
    lemma_rotation_row(w, y, z, x, t, u, s);
    lemma_rotation_row(w, z, x, y, u, s, t);
    comm(x, y);
    comm(y, z);
    comm(x, z);
    let r = rotation_rows(e);
    assert(1real - 2real * (z * z + x * x) == val(r[1][1]));
    assert(2real * (y * x + w * z) == val(r[1][0]));
    assert(2real * (y * z - w * x) == val(r[1][2]));
    assert(1real - 2real * (x * x + y * y) == val(r[2][2]));
    assert(2real * (z * x - w * y) == val(r[2][0]));
    assert(2real * (z * y + w * x) == val(r[2][1]));
}

/// Turning depends on the numbers alone.
proof fn lemma_turn_of_numbers<T: Real>(
    val: spec_fn(T) -> real,
    a: Quat<T>,
    b: Quat<T>,
    u: V3<T>,
    v: V3<T>,
)
    requires
        exact(val),
        four(val, a) == four(val, b),
        triple(val, u) == triple(val, v),
    ensures
        triple(val, rotated(a, u)) == triple(val, rotated(b, v)),
{
    rotation_formula(val, a, u);
    rotation_formula(val, b, v);
}

/// A world vector seen in a body frame that is turned by `e = (w, d)`: with `u` for what is seen
/// before, it is `u + 2w (u × d) + 2 d × (d × u)`. For `e = exp(½ δθ)`, with `w` near one and `d`
/// near `½ δθ`, the first-order term is `[u]× δθ`, which is the Jacobian of the magnetometer and of
/// the velocity in the body frame.
pub proof fn seen_from_a_turned_body<T: Real>(
    val: spec_fn(T) -> real,
    q: Quat<T>,
    e: Quat<T>,
    m: V3<T>,
)
    requires
        exact(val),
        is_unit(val, q),
        is_unit(val, e),
    ensures
        ({
            let d = (val(e.x), val(e.y), val(e.z));
            let u = triple(val, rotated_back(q, m));
            triple(val, rotated_back(hamilton(q, e), m)) == plus3(
                plus3(u, times3(2real, times3(val(e.w), cross3(u, d)))),
                times3(2real, cross3(d, cross3(d, u))),
            )
        }),
{
    let (w, x, y, z) = four(val, q);
    let (a, b, c, d) = four(val, e);
    let (qc, ec) = (conjugated(q), conjugated(e));
    let whole = conjugated(hamilton(q, e));
    lemma_conjugated_product(val, q, e);
    lemma_signs(w, x, y, z);
    lemma_signs(a, b, c, d);
    product_composes_rotations(val, ec, qc, m);
    lemma_turn_of_numbers(val, whole, hamilton(ec, qc), m, m);
    let seen = rotated_back(q, m);
    rotation_formula(val, ec, seen);
    // (−d) × u = u × d, and the signs of the second-order term cancel.
    let u = triple(val, seen);
    let v = (b, c, d);
    let nv = (-b, -c, -d);
    lemma_cross_negated(v, u);
    let vu = cross3(v, u);
    let back = cross3(nv, u);
    assert(back == (-vu.0, -vu.1, -vu.2));
    lemma_cross_both_negated(v, vu);
}

/// `(a ⊗ b)* = b* ⊗ a*`, number by number.
proof fn lemma_conjugated_product<T: Real>(val: spec_fn(T) -> real, a: Quat<T>, b: Quat<T>)
    requires
        exact(val),
    ensures
        four(val, conjugated(hamilton(a, b))) == four(val, hamilton(conjugated(b), conjugated(a))),
{
    crate::exact::composition::lemma_conjugate_of_product(four(val, a), four(val, b));
}

/// `(−v) × u = −(v × u) = u × v`.
proof fn lemma_cross_negated(v: Three, u: Three)
    ensures
        ({
            let n = (-v.0, -v.1, -v.2);
            let vu = cross3(v, u);
            &&& cross3(n, u) == (-vu.0, -vu.1, -vu.2)
            &&& cross3(n, u) == cross3(u, v)
        }),
{
    lemma_negated_factor(v.0, u.1);
    lemma_negated_factor(v.0, u.2);
    lemma_negated_factor(v.1, u.0);
    lemma_negated_factor(v.1, u.2);
    lemma_negated_factor(v.2, u.0);
    lemma_negated_factor(v.2, u.1);
}

proof fn lemma_negated_factor(a: real, b: real)
    ensures
        (-a) * b == -(a * b),
        a * b == b * a,
{
    comm(-a, b);
    neg(b, a);
    comm(a, b);
}

/// `(−v) × (−u) = v × u`.
proof fn lemma_cross_both_negated(v: Three, u: Three)
    ensures
        cross3((-v.0, -v.1, -v.2), (-u.0, -u.1, -u.2)) == cross3(v, u),
{
    lemma_both_signs(v.0, u.1);
    lemma_both_signs(v.0, u.2);
    lemma_both_signs(v.1, u.0);
    lemma_both_signs(v.1, u.2);
    lemma_both_signs(v.2, u.0);
    lemma_both_signs(v.2, u.1);
}

proof fn lemma_both_signs(a: real, b: real)
    ensures
        (-a) * (-b) == a * b,
{
    neg(-a, b);
    lemma_negated_factor(a, b);
}

/// The velocity in the body frame is the world velocity turned back.
pub proof fn body_velocity_is_turned_back<T: Real>(val: spec_fn(T) -> real, nom: Nominal<T>)
    requires
        exact(val),
    ensures
        triple(val, body_velocity(nom)) == triple(val, rotated_back(nom.q, nom.v)),
{
    conjugate_transposes(val, nom.q);
    let r = rotation_rows(nom.q);
    let a = numbers(val, rotation_rows(conjugated(nom.q)));
    let b = flipped(numbers(val, r));
    assert(a(0, 0) == b(0, 0) && a(0, 1) == b(0, 1) && a(0, 2) == b(0, 2));
    assert(a(1, 0) == b(1, 0) && a(1, 1) == b(1, 1) && a(1, 2) == b(1, 2));
    assert(a(2, 0) == b(2, 0) && a(2, 1) == b(2, 1) && a(2, 2) == b(2, 2));
}

/// Where a measurement is a block of the error state itself (GPS position and velocity, an attitude
/// fix), the Jacobian times the error is that block, and nothing is left over.
pub proof fn picking_a_block_is_exact<T: Real>(val: spec_fn(T) -> real, c: int, dx: Grid<T>, i: int)
    requires
        exact(val),
        0 <= c <= N - 3,
        0 <= i < 3,
    ensures
        val(product(block_jacobian(c, identity_grid::<T>(3)), dx, 3, N as nat, 1)[i][0]) == val(
            dx[c + i][0],
        ),
{
    lemma_constants(val);
    let h = block_jacobian(c, identity_grid::<T>(3));
    let n = N as nat;
    lemma_row_by_col(val, h, dx, i, 0, n);
    let f = |t: int| val(h[i][t]) * val(dx[t][0]);
    assert forall|t: int| 0 <= t < n && t != c + i implies #[trigger] f(t) == 0real by {
        assert(val(h[i][t]) == 0real);
        times_zero(val(dx[t][0]), val(h[i][t]));
        comm(val(dx[t][0]), val(h[i][t]));
    }
    lemma_single(n, c + i, f);
    assert(val(h[i][c + i]) == 1real);
    times_one(val(dx[c + i][0]), val(h[i][c + i]));
    comm(val(dx[c + i][0]), val(h[i][c + i]));
}

/// A range from a displaced position: with `r` for the range and `h` for its Jacobian, the square of
/// the new range is `(r + h·δ)² + |δ|² − (h·δ)²`, so that `h·δ` is its first-order change.
pub proof fn range_from_a_displaced_position<T: Real>(
    val: spec_fn(T) -> real,
    p: V3<T>,
    beacon: V3<T>,
    delta: Three,
)
    requires
        exact(val),
        range_model(p, beacon) is Some,
    ensures
        ({
            let (range, jac) = range_model(p, beacon)->0;
            let h = (val(jac[0][0]), val(jac[0][1]), val(jac[0][2]));
            let moved = plus3(triple(val, v3::subtracted(p, beacon)), delta);
            let along = dot3(h, delta);
            let guess = val(range) + along;
            dot3(moved, moved) == guess * guess + dot3(delta, delta) - along * along
        }),
{
    lemma_constants(val);
    let d = v3::subtracted(p, beacon);
    let (a, b, c) = triple(val, d);
    let (s, t, u) = delta;
    let dist_t = v3::length(d);
    lemma_square(a);
    lemma_square(b);
    lemma_square(c);
    let r = val(dist_t);
    assert(r * r == a * a + b * b + c * c);
    let near = lit::<T>(1, 1000);
    assert(val(near) == 1real / 1000real);
    assert(r > 0real);
    lemma_reciprocal(1real, r);
    let i = val(quot(lit::<T>(1, 1), dist_t));
    assert(i == 1real / r);
    let (range, jac) = range_model(p, beacon)->0;
    let h = (val(jac[0][0]), val(jac[0][1]), val(jac[0][2]));
    assert(h == (a * i, b * i, c * i));
    // r (h·δ) = d·δ.
    let along = dot3(h, delta);
    assert(r * along == a * s + b * t + c * u) by {
        dist(r, (a * i) * s + (b * i) * t, (c * i) * u);
        dist(r, (a * i) * s, (b * i) * t);
        lemma_undo(r, a, i, s);
        lemma_undo(r, b, i, t);
        lemma_undo(r, c, i, u);
    }
    square_of_sum(r, along);
    square_of_sum(a, s);
    square_of_sum(b, t);
    square_of_sum(c, u);
}

/// `r ((a i) s) = a s` where `r i = 1`.
proof fn lemma_undo(r: real, a: real, i: real, s: real)
    requires
        r * i == 1real,
    ensures
        r * ((a * i) * s) == a * s,
{
    assoc(r, a * i, s);
    swap(r, a, i);
    times_one(a, r * i);
}

/// The slant range from a displaced and turned body: with `r₂₂` taken to `r₂₂ + a`, `a` the
/// first-order change of the tilt, and the height changed by `δ`, the range `s` and its Jacobian `h`
/// satisfy `(s + h·δx)(r₂₂ + a) = p_z + δ + (δ r₂₂ − p_z a) a / r₂₂²`, the last term of second order.
pub proof fn slant_range_from_a_displaced_body<T: Real>(
    val: spec_fn(T) -> real,
    nom: Nominal<T>,
    height: real,
    roll: real,
    pitch: real,
)
    requires
        exact(val),
        lidar_model(nom) is Some,
    ensures
        ({
            let (range, jac) = lidar_model(nom)->0;
            let r = rotation_rows(nom.q);
            let (r20, r21, r22) = (val(r[2][0]), val(r[2][1]), val(r[2][2]));
            let pz = val(nom.p[2]);
            let tilt = r20 * pitch - r21 * roll;
            let change = val(jac[0][IP + 2]) * height + val(jac[0][ITH as int]) * roll + val(
                jac[0][ITH + 1],
            ) * pitch;
            (val(range) + change) * (r22 + tilt) == pz + height + (height * r22 - pz * tilt) * (tilt
                / (r22 * r22))
        }),
{
    lemma_constants(val);
    let (range, jac) = lidar_model(nom)->0;
    let r = rotation_rows(nom.q);
    let (r20, r21, k) = (val(r[2][0]), val(r[2][1]), val(r[2][2]));
    let pz = val(nom.p[2]);
    let tilt = r20 * pitch - r21 * roll;
    assert(val(lit::<T>(2, 10)) == 2real / 10real);
    assert(k > 0real);
    let i = 1real / k;
    lemma_reciprocal(pz, k);
    lemma_reciprocal(1real, k);
    let kk = k * k;
    assert(kk > 0real) by {
        assert(kk != 0real) by {
            assoc(i, k, k);
            comm(i, k);
            times_one(k, i * k);
            comm(i * k, k);
            if kk == 0real {
                times_zero(i, kk);
            }
        }
        lemma_square(k);
    }
    lemma_reciprocal(pz, kk);
    lemma_reciprocal(tilt, kk);
    let j = 1real / kk;
    // 1/k² = (1/k)².
    assert(j == i * i) by {
        swap_middle(k, i, k, i);
        times_one(k * i, k * i);
        assert(kk * (i * i) == 1real);
        assoc(j, kk, i * i);
        comm(j, kk);
        times_one(i * i, j * kk);
        comm(i * i, j * kk);
        times_one(j, kk * (i * i));
    }
    let c = pz * j;
    let h_z = i;
    let h_roll = c * r21;
    let h_pitch = (-c) * r20;
    assert(val(jac[0][IP + 2]) == h_z);
    assert(val(jac[0][ITH as int]) == h_roll);
    assert(val(jac[0][ITH + 1]) == h_pitch);
    assert(val(range) == pz * i);
    // The change is (height − pz i tilt) i, since c = (pz i) i.
    let change = h_z * height + h_roll * roll + h_pitch * pitch;
    assert(change == i * height - c * tilt) by {
        assoc(c, r21, roll);
        comm(-c, r20);
        neg(r20, c);
        comm(r20, c);
        let cp = c * r20;
        comm(-cp, pitch);
        neg(pitch, cp);
        comm(pitch, cp);
        assoc(c, r20, pitch);
        dist_sub(c, r20 * pitch, r21 * roll);
    }
    let s = pz * i;
    assert(c == s * i) by {
        assoc(pz, i, i);
    }
    // (s + change) k = pz + height − s tilt.
    let all = s + change;
    assert(all * k == pz + height - s * tilt) by {
        dist_right(s, change, k);
        dist_sub_right(i * height, c * tilt, k);
        assoc(pz, i, k);
        comm(i, k);
        times_one(pz, i * k);
        comm(i, height);
        assoc(height, i, k);
        times_one(height, i * k);
        comm(s * i, tilt);
        assoc(tilt, s, i);
        assoc(tilt * s, i, k);
        times_one(tilt * s, i * k);
        comm(tilt, s);
    }
    // (s + change) tilt = s tilt + (height k − pz tilt) (tilt j).
    assert(all * tilt == s * tilt + (height * k - pz * tilt) * (tilt * j)) by {
        dist_right(s, change, tilt);
        dist_sub_right(height * k, pz * tilt, tilt * j);
        // (height k)(tilt j) = (height i) tilt.
        comm(tilt, j);
        swap_middle(height, k, j, tilt);
        assert(k * j == i) by {
            assoc(k, i, i);
            times_one(i, k * i);
            comm(k * i, i);
        }
        swap(k, j, tilt);
        assert((height * k) * (j * tilt) == (height * i) * tilt) by {
            assoc(height * k, j, tilt);
            assoc(height, k, j);
        }
        // (pz tilt)(tilt j) = (c tilt) tilt.
        assert((pz * tilt) * (j * tilt) == (c * tilt) * tilt) by {
            assoc(pz * tilt, j, tilt);
            assoc(pz, tilt, j);
            comm(tilt, j);
            assoc(pz, j, tilt);
        }
        dist_sub_right(i * height, c * tilt, tilt);
        comm(i, height);
    }
    dist(all, k, tilt);
}

} // verus!
