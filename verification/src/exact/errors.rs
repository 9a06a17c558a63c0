//! How an error of the state moves: with the body, through a correction, and into the metrics.

use vstd::prelude::*;

use crate::exact::algebra::{
    assoc, comm, dist, dist_right, dist_sub, dist_sub_right, neg, times_one, times_zero,
};
use crate::exact::composition::{
    lemma_conjugate_of_product, lemma_qmul_associative, lemma_sandwich, lemma_times_conjugate,
    product_composes_rotations, pure, qconj, qmul, Four,
};
use crate::exact::jacobians::{cross3, plus3, rotation_formula, times3};
use crate::exact::matrices::lemma_row_by_col;
use crate::exact::quaternions::{four, is_unit, triple};
use crate::exact::sums::lemma_zero;
use crate::exact::{exact, lemma_constants};
use crate::filter::{Nominal, N};
use crate::linalg::gauss::inverse_grid;
use crate::linalg::{product, transposed, v3, Grid, V3};
use crate::metrics::{error_column, error_part, weighed};
use crate::quat::{
    angular_error, conjugated, hamilton, log_map, rotated, rotated_back, short_way, Quat,
};
use crate::scalar::{lit, Real};
use crate::trajectory::TrueState;

verus! {

/// The vector part of a quaternion.
pub open spec fn vector_part<T>(q: Quat<T>) -> V3<T> {
    [q.x, q.y, q.z]
}

/// The error that carries the orientation `b` onto `a`, as a quaternion: the `e` with `a = b ⊗ e`.
pub open spec fn error_between<T: Real>(a: Quat<T>, b: Quat<T>) -> Quat<T> {
    hamilton(conjugated(b), a)
}

/// `a ⊗ (w + d) = w a + a ⊗ d`.
proof fn lemma_right_factor(a: Four, e: Four)
    ensures
        ({
            let p = qmul(a, pure((e.1, e.2, e.3)));
            qmul(a, e) == (e.0 * a.0 + p.0, e.0 * a.1 + p.1, e.0 * a.2 + p.2, e.0 * a.3 + p.3)
        }),
{
    times_zero(a.0, 0real);
    times_zero(a.1, 0real);
    times_zero(a.2, 0real);
    times_zero(a.3, 0real);
    comm(a.0, e.0);
    comm(a.1, e.0);
    comm(a.2, e.0);
    comm(a.3, e.0);
}

/// `(w a + p) ⊗ x = w (a ⊗ x) + p ⊗ x`.
proof fn lemma_left_factor(w: real, a: Four, p: Four, x: Four)
    ensures
        ({
            let s = (w * a.0 + p.0, w * a.1 + p.1, w * a.2 + p.2, w * a.3 + p.3);
            let (ax, px) = (qmul(a, x), qmul(p, x));
            qmul(s, x) == (w * ax.0 + px.0, w * ax.1 + px.1, w * ax.2 + px.2, w * ax.3 + px.3)
        }),
{
    lemma_component(w, a, p, x.0);
    lemma_component(w, a, p, x.1);
    lemma_component(w, a, p, x.2);
    lemma_component(w, a, p, x.3);
    dist_sub(w, a.0 * x.0 - a.1 * x.1 - a.2 * x.2, a.3 * x.3);
    dist_sub(w, a.0 * x.0 - a.1 * x.1, a.2 * x.2);
    dist_sub(w, a.0 * x.0, a.1 * x.1);
    dist_sub(w, a.0 * x.1 + a.1 * x.0 + a.2 * x.3, a.3 * x.2);
    dist(w, a.0 * x.1 + a.1 * x.0, a.2 * x.3);
    dist(w, a.0 * x.1, a.1 * x.0);
    dist(w, a.0 * x.2 - a.1 * x.3 + a.2 * x.0, a.3 * x.1);
    dist(w, a.0 * x.2 - a.1 * x.3, a.2 * x.0);
    dist_sub(w, a.0 * x.2, a.1 * x.3);
    dist(w, a.0 * x.3 + a.1 * x.2 - a.2 * x.1, a.3 * x.0);
    dist_sub(w, a.0 * x.3 + a.1 * x.2, a.2 * x.1);
    dist(w, a.0 * x.3, a.1 * x.2);
}

/// Each component of `w a + p`, times `k`.
proof fn lemma_component(w: real, a: Four, p: Four, k: real)
    ensures
        (w * a.0 + p.0) * k == w * (a.0 * k) + p.0 * k,
        (w * a.1 + p.1) * k == w * (a.1 * k) + p.1 * k,
        (w * a.2 + p.2) * k == w * (a.2 * k) + p.2 * k,
        (w * a.3 + p.3) * k == w * (a.3 * k) + p.3 * k,
{
    dist_right(w * a.0, p.0, k);
    dist_right(w * a.1, p.1, k);
    dist_right(w * a.2, p.2, k);
    dist_right(w * a.3, p.3, k);
    assoc(w, a.0, k);
    assoc(w, a.1, k);
    assoc(w, a.2, k);
    assoc(w, a.3, k);
}

/// The conjugate of a unit quaternion is one, and its own conjugate is the quaternion.
pub proof fn lemma_conjugate<T: Real>(val: spec_fn(T) -> real, x: Quat<T>)
    requires
        exact(val),
        is_unit(val, x),
    ensures
        is_unit(val, conjugated(x)),
        qconj(four(val, conjugated(x))) == four(val, x),
        qmul(four(val, conjugated(x)), four(val, x)) == (1real, 0real, 0real, 0real),
{
    let f = four(val, x);
    lemma_negated_square(f.1);
    lemma_negated_square(f.2);
    lemma_negated_square(f.3);
    lemma_times_conjugate(qconj(f));
}

proof fn lemma_negated_square(a: real)
    ensures
        (-a) * (-a) == a * a,
{
    neg(-a, a);
    comm(-a, a);
    neg(a, a);
}

/// `q* ⊗ (q ⊗ r) = r` in numbers.
pub proof fn lemma_undone(q: Four, r: Four)
    requires
        qmul(qconj(q), q) == (1real, 0real, 0real, 0real),
    ensures
        qmul(qconj(q), qmul(q, r)) == r,
{
    lemma_qmul_associative(qconj(q), q, r);
    times_one(r.0, 1real);
    times_one(r.1, 1real);
    times_one(r.2, 1real);
    times_one(r.3, 1real);
    comm(r.0, 1real);
    comm(r.1, 1real);
    comm(r.2, 1real);
    comm(r.3, 1real);
    times_zero(r.0, 0real);
    times_zero(r.1, 0real);
    times_zero(r.2, 0real);
    times_zero(r.3, 0real);
    comm(r.0, 0real);
    comm(r.1, 0real);
    comm(r.2, 0real);
    comm(r.3, 0real);
}

/// An orientation error turns with the body, exactly. Where the nominal orientation `q` and the true
/// one `q ⊗ e` both turn by `x`, the error keeps its angle, and its axis is turned back by `x`. For
/// `x = exp(½ ω dt)` that is the block `exp(−[ω]× dt)` of the transition.
pub proof fn orientation_error_turns_with_the_body<T: Real>(
    val: spec_fn(T) -> real,
    q: Quat<T>,
    e: Quat<T>,
    x: Quat<T>,
)
    requires
        exact(val),
        is_unit(val, q),
        is_unit(val, x),
    ensures
        ({
            let after = error_between(hamilton(hamilton(q, e), x), hamilton(q, x));
            &&& val(after.w) == val(e.w)
            &&& triple(val, vector_part(after)) == triple(val, rotated_back(x, vector_part(e)))
        }),
{
    let (fq, fe, fx) = (four(val, q), four(val, e), four(val, x));
    let (cq, cx) = (qconj(fq), qconj(fx));
    lemma_conjugate(val, q);
    lemma_conjugate(val, x);
    lemma_conjugate_of_product(fq, fx);
    let after = error_between(hamilton(hamilton(q, e), x), hamilton(q, x));
    assert(four(val, after) == qmul(qmul(cx, cq), qmul(qmul(fq, fe), fx)));
    // (x* q*)((q e) x) = x* (e x) = (x* e) x.
    lemma_qmul_associative(cx, cq, qmul(qmul(fq, fe), fx));
    lemma_qmul_associative(fq, fe, fx);
    lemma_undone(fq, qmul(fe, fx));
    lemma_qmul_associative(cx, fe, fx);
    let d = triple(val, vector_part(e));
    lemma_right_factor(cx, fe);
    lemma_left_factor(fe.0, cx, qmul(cx, pure(d)), fx);
    lemma_sandwich(val, conjugated(x), vector_part(e));
    times_one(fe.0, 1real);
    times_zero(fe.0, 0real);
}

/// An orientation error after a correction. Where the nominal orientation is moved by `x`, the error
/// that was `e` becomes `m − d × m`, with `d` for the vector part of `x` and `m` for that of `e` less
/// `d`, up to terms that hold a scalar part less one. With twice the vector parts as angles, this is
/// the reset Jacobian `I − ½[δθ]×`.
pub proof fn error_after_a_correction<T: Real>(
    val: spec_fn(T) -> real,
    q: Quat<T>,
    e: Quat<T>,
    x: Quat<T>,
)
    requires
        exact(val),
        is_unit(val, q),
    ensures
        ({
            let after = error_between(hamilton(q, e), hamilton(q, x));
            let d = triple(val, vector_part(x));
            let f = triple(val, vector_part(e));
            let m = plus3(f, times3(-1real, d));
            let rest = plus3(times3(val(x.w) - 1real, f), times3(1real - val(e.w), d));
            triple(val, vector_part(after)) == plus3(
                plus3(m, times3(-1real, cross3(d, m))),
                rest,
            )
        }),
{
    let (fq, fe, fx) = (four(val, q), four(val, e), four(val, x));
    let (cq, cx) = (qconj(fq), qconj(fx));
    lemma_conjugate(val, q);
    lemma_conjugate_of_product(fq, fx);
    let after = error_between(hamilton(q, e), hamilton(q, x));
    assert(four(val, after) == qmul(qmul(cx, cq), qmul(fq, fe)));
    lemma_qmul_associative(cx, cq, qmul(fq, fe));
    lemma_undone(fq, fe);
    assert(four(val, after) == qmul(cx, fe));
    let (w, f0, f1, f2) = fe;
    let (k, d0, d1, d2) = fx;
    lemma_moved(k, w, d0, d1, d2, f0, f1, f2);
    lemma_moved(k, w, d1, d2, d0, f1, f2, f0);
    lemma_moved(k, w, d2, d0, d1, f2, f0, f1);
}

/// One component of the error after a correction.
proof fn lemma_moved(k: real, w: real, d0: real, d1: real, d2: real, f0: real, f1: real, f2: real)
    ensures
        k * f0 + (-d0) * w + (-d1) * f2 - (-d2) * f1 == (f0 + -1real * d0) + -1real * (d1 * (f2
            + -1real * d2) - d2 * (f1 + -1real * d1)) + ((k - 1real) * f0 + (1real - w) * d0),
        (-d1) * f2 == -(d1 * f2),
        (-d2) * f1 == -(d2 * f1),
{
    comm(-d0, w);
    neg(w, d0);
    comm(w, d0);
    comm(-d1, f2);
    neg(f2, d1);
    comm(f2, d1);
    comm(-d2, f1);
    neg(f1, d2);
    comm(f1, d2);
    dist_sub(d1, f2, d2);
    dist_sub(d2, f1, d1);
    comm(d1, d2);
    dist_sub_right(k, 1real, f0);
    dist_sub_right(1real, w, d0);
    times_one(f0, 1real);
    comm(f0, 1real);
    times_one(d0, 1real);
    comm(d0, 1real);
    assert(f2 + -1real * d2 == f2 - d2);
    assert(f1 + -1real * d1 == f1 - d1);
}

/// The specific force of a body that is turned by `e = (w, d)`: it is that of the body seen from the
/// nominal frame, turned by `q`, of `u + 2w (d × u) + 2 d × (d × u)`. The first-order term is
/// `−R[u]× δθ`, the block of the transition that takes an orientation error to a velocity error.
pub proof fn force_on_a_turned_body<T: Real>(
    val: spec_fn(T) -> real,
    q: Quat<T>,
    e: Quat<T>,
    u: V3<T>,
)
    requires
        exact(val),
        is_unit(val, q),
        is_unit(val, e),
    ensures
        ({
            let seen = rotated(e, u);
            let d = triple(val, vector_part(e));
            let f = triple(val, u);
            &&& triple(val, rotated(hamilton(q, e), u)) == triple(val, rotated(q, seen))
            &&& triple(val, seen) == plus3(
                plus3(f, times3(2real, times3(val(e.w), cross3(d, f)))),
                times3(2real, cross3(d, cross3(d, f))),
            )
        }),
{
    product_composes_rotations(val, q, e, u);
    rotation_formula(val, e, u);
}

/// The logarithm of no rotation, of either sign, is zero.
pub proof fn lemma_log_of_identity<T: Real>(val: spec_fn(T) -> real, e: Quat<T>)
    requires
        exact(val),
        four(val, e) == (1real, 0real, 0real, 0real) || four(val, e) == (-1real, 0real, 0real, 0real),
    ensures
        triple(val, log_map(e)) == (0real, 0real, 0real),
{
    lemma_constants(val);
    let s = short_way(e);
    let v = vector_part(s);
    assert(triple(val, v) == (0real, 0real, 0real));
    let n = val(v3::length(v));
    times_zero(0real, 0real);
    assert(n * n == 0real);
    let tiny = lit::<T>(1, 1_000_000_000);
    assert(val(tiny) == 1real / 1_000_000_000real);
    if n >= val(tiny) {
        lemma_positive_square(n);
    }
    times_zero(2real, 0real);
    comm(2real, 0real);
}

/// The orientation error of a perfect estimate is zero.
proof fn lemma_no_turn<T: Real>(val: spec_fn(T) -> real, q: Quat<T>)
    requires
        exact(val),
        is_unit(val, q),
    ensures
        triple(val, angular_error(q, q)) == (0real, 0real, 0real),
{
    lemma_conjugate(val, q);
    lemma_log_of_identity(val, hamilton(conjugated(q), q));
}

/// The square of a positive number is positive.
pub proof fn lemma_positive_square(n: real)
    requires
        n > 0real,
    ensures
        n * n > 0real,
{
    assert(n * n > 0real) by (nonlinear_arith)
        requires
            n > 0real,
    ;
}

/// A perfect estimate scores zero: where the nominal state is the truth, the error is zero in every
/// component, and so is the NEES under any covariance that can be inverted.
pub proof fn perfect_estimate_scores_zero<T: Real>(
    val: spec_fn(T) -> real,
    nom: Nominal<T>,
    truth: TrueState<T>,
    p: Grid<T>,
)
    requires
        exact(val),
        is_unit(val, nom.q),
        truth.p == nom.p && truth.v == nom.v && truth.q == nom.q,
        truth.accel_bias == nom.accel_bias && truth.gyro_bias == nom.gyro_bias,
        weighed(error_column(nom, truth), p, N as nat) is Some,
    ensures
        forall|i: int| 0 <= i < N ==> val(#[trigger] error_column(nom, truth)[i][0]) == 0real,
        val(weighed(error_column(nom, truth), p, N as nat)->0) == 0real,
{
    lemma_no_turn(val, nom.q);
    let e = error_column(nom, truth);
    let n = N as nat;
    assert forall|i: int| 0 <= i < N implies val(#[trigger] e[i][0]) == 0real by {
        let part = error_part(nom, truth, i / 3);
        assert(triple(val, part) == (0real, 0real, 0real));
        assert(i % 3 == 0 || i % 3 == 1 || i % 3 == 2);
        assert(e[i][0] == part[i % 3]);
    }
    let inv = inverse_grid(p, n)->0;
    let row = product(transposed(e, n, 1), inv, 1, n, n);
    lemma_row_by_col(val, row, e, 0, 0, n);
    let f = |t: int| val(row[0][t]) * val(e[t][0]);
    assert forall|t: int| 0 <= t < n implies #[trigger] f(t) == 0real by {
        assert(val(e[t][0]) == 0real);
        times_zero(val(row[0][t]), val(e[t][0]));
    }
    lemma_zero(n, f);
}

} // verus!
