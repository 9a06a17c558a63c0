//! What the scores of a flight measure.

use vstd::prelude::*;

use crate::campaign::Scenario;
use crate::exact::{exact, lemma_constants, lemma_square};
use crate::exact::algebra::{assoc, comm, square_of_product};
use crate::exact::covariance::flight_stays_sound;
use crate::exact::inverse::inverse_inverts;
use crate::exact::jacobians::{dot3, Three};
use crate::exact::matrices::{
    agree, delta, dot, lemma_row_by_col, lemma_row_through, numbers, row_times, times, RealMat,
    RealVec,
};
use crate::exact::measurements::lemma_dot_agree;
use crate::exact::quaternions::triple;
use crate::exact::readings::entries;
use crate::exact::residuals::apart;
use crate::exact::small::lemma_times_quotient;
use crate::exact::sums::{lemma_single, lemma_terms, rsum};
use crate::exact::windows::exact_counts;
use crate::filter::{FilterState, Nominal};
use crate::flight::{
    errors_of, filter_of, full_nees_of, full_samples, position_nees_of, position_samples, rmse,
    settling, squared, ticks_in, time_of, truth_of, with_errors, Errors,
};
use crate::linalg::{column, product, shaped, table, transposed, v3, Grid, V3};
use crate::linalg::gauss::inverse_grid;
use crate::metrics::{error_column, weighed};
use crate::quat::angular_error;
use crate::scalar::{degrees, larger, lit, quot, root, turn, whole, Real};
use crate::series::{
    accumulated, drift_of, ensemble, envelope_of, means, nees_samples, sample_count, three_sigma,
    NeesSample, NeesSum,
};
use crate::sim::SimConfig;
use crate::trajectory::TrueState;

verus! {

/// Angles become degrees with a full turn taken as 360.
pub open spec fn exact_degrees<T: Real>(val: spec_fn(T) -> real) -> bool {
    &&& val(turn::<T>()) > 0real
    &&& forall|a: T| val(#[trigger] degrees(a)) * val(turn::<T>()) == 360real * val(a)
}

/// `a − b`.
pub open spec fn minus3(a: Three, b: Three) -> Three {
    (a.0 - b.0, a.1 - b.1, a.2 - b.2)
}

/// The row `y` times `p` is `e`.
pub open spec fn explains(y: RealVec, p: RealMat, e: RealVec, n: nat) -> bool {
    forall|i: int| 0 <= i < n ==> #[trigger] row_times(y, p, n)(i) == e(i)
}

/// `v` is the error `e` weighed by the covariance `p`: `y · e` for a `y` with `y p = e`.
pub open spec fn is_weight(v: real, p: RealMat, e: RealVec, n: nat) -> bool {
    exists|y: RealVec| #[trigger] explains(y, p, e, n) && v == dot(y, e, n)
}

/// The first column of a grid.
pub open spec fn first_column<T>(val: spec_fn(T) -> real, e: Grid<T>) -> RealVec {
    |i: int| val(e[i][0])
}

/// What weighing gives solves for the error.
pub proof fn weighing_solves_for_the_error<T: Real>(
    val: spec_fn(T) -> real,
    e: Grid<T>,
    p: Grid<T>,
    n: nat,
)
    requires
        exact(val),
        shaped(p, n, n),
        weighed(e, p, n) is Some,
    ensures
        is_weight(val(weighed(e, p, n)->0), numbers(val, p), first_column(val, e), n),
{
    inverse_inverts(val, p, n);
    let inv = inverse_grid(p, n)->0;
    let rp = numbers(val, p);
    let ri = numbers(val, inv);
    let re = first_column(val, e);
    let et = transposed(e, n, 1);
    let row = product(et, inv, 1, n, n);
    lemma_row_by_col(val, row, e, 0, 0, n);
    let y = row_times(re, ri, n);
    let f = |t: int| val(row[0][t]) * val(e[t][0]);
    let g = |t: int| y(t) * re(t);
    assert forall|t: int| 0 <= t < n implies #[trigger] f(t) == g(t) by {
        lemma_row_by_col(val, et, inv, 0, t, n);
        lemma_terms(n, |k: int| val(et[0][k]) * val(inv[k][t]), |k: int| re(k) * ri(k, t));
    }
    lemma_terms(n, f, g);
    let yp = row_times(y, rp, n);
    assert forall|t: int| 0 <= t < n implies #[trigger] yp(t) == re(t) by {
        lemma_row_through(re, ri, rp, n, n, t);
        let h = |i: int| re(i) * times(ri, rp, n)(i, t);
        assert forall|i: int| 0 <= i < n && i != t implies #[trigger] h(i) == 0real by {
            assert(times(ri, rp, n)(i, t) == delta()(i, t));
            let x = re(i);
            assert(x * 0real == 0real) by (nonlinear_arith);
        }
        lemma_single(n, t, h);
        assert(times(ri, rp, n)(t, t) == delta()(t, t));
        let x = re(t);
        assert(x * 1real == x) by (nonlinear_arith);
    }
    assert(explains(y, rp, re, n));
    assert(dot(y, re, n) == rsum(n, g));
}

/// A weight is told by the numbers alone.
proof fn lemma_weight_agrees(v: real, p: RealMat, q: RealMat, e: RealVec, d: RealVec, n: nat)
    requires
        is_weight(v, p, e, n),
        agree(p, q, n, n),
        forall|i: int| 0 <= i < n ==> #[trigger] e(i) == d(i),
    ensures
        is_weight(v, q, d, n),
{
    let y = choose|y: RealVec| #[trigger] explains(y, p, e, n) && v == dot(y, e, n);
    assert forall|i: int| 0 <= i < n implies #[trigger] row_times(y, q, n)(i) == d(i) by {
        assert(row_times(y, p, n)(i) == e(i));
        let a = |t: int| y(t) * p(t, i);
        let b = |t: int| y(t) * q(t, i);
        assert forall|t: int| 0 <= t < n implies #[trigger] a(t) == b(t) by {
            assert(p(t, i) == q(t, i));
        }
        lemma_terms(n, a, b);
    }
    assert(explains(y, q, d, n));
    lemma_dot_agree(y, y, e, d, n);
}

/// The fifteen errors of an estimate: of position, velocity, orientation, accelerometer bias and gyroscope
/// bias, each the truth less the estimate, the orientation's as the rotation from the one to the other.
pub open spec fn error_entries<T: Real>(
    val: spec_fn(T) -> real,
    nom: Nominal<T>,
    x: TrueState<T>,
) -> RealVec {
    |i: int|
        if i < 3 {
            entries(minus3(triple(val, x.p), triple(val, nom.p)))(i)
        } else if i < 6 {
            entries(minus3(triple(val, x.v), triple(val, nom.v)))(i - 3)
        } else if i < 9 {
            entries(triple(val, angular_error(x.q, nom.q)))(i - 6)
        } else if i < 12 {
            entries(minus3(triple(val, x.accel_bias), triple(val, nom.accel_bias)))(i - 9)
        } else {
            entries(minus3(triple(val, x.gyro_bias), triple(val, nom.gyro_bias)))(i - 12)
        }
}

/// The position NEES is the position error weighed by the covariance of the position, and the full-state
/// NEES the whole error weighed by the whole covariance.
pub proof fn nees_weighs_the_error<T: Real>(
    val: spec_fn(T) -> real,
    f: FilterState<T>,
    x: TrueState<T>,
)
    requires
        exact(val),
        shaped(f.p, 15, 15),
    ensures
        ({
            let small = table(3, 3, |i: int, j: int| f.p[i][j]);
            weighed(column(v3::subtracted(x.p, f.nom.p)), small, 3) matches Some(v) ==> is_weight(
                val(v),
                numbers(val, f.p),
                entries(minus3(triple(val, x.p), triple(val, f.nom.p))),
                3,
            )
        }),
        weighed(error_column(f.nom, x), f.p, 15) matches Some(v) ==> is_weight(
            val(v),
            numbers(val, f.p),
            error_entries(val, f.nom, x),
            15,
        ),
{
    let small = table(3, 3, |i: int, j: int| f.p[i][j]);
    let e = column(v3::subtracted(x.p, f.nom.p));
    if weighed(e, small, 3) is Some {
        weighing_solves_for_the_error(val, e, small, 3);
        let d = entries(minus3(triple(val, x.p), triple(val, f.nom.p)));
        assert forall|i: int| 0 <= i < 3 implies #[trigger] first_column(val, e)(i) == d(i) by {
            assert(i == 0 || i == 1 || i == 2);
        }
        lemma_weight_agrees(
            val(weighed(e, small, 3)->0),
            numbers(val, small),
            numbers(val, f.p),
            first_column(val, e),
            d,
            3,
        );
    }
    let e = error_column(f.nom, x);
    if weighed(e, f.p, 15) is Some {
        weighing_solves_for_the_error(val, e, f.p, 15);
        let d = error_entries(val, f.nom, x);
        assert forall|i: int| 0 <= i < 15 implies #[trigger] first_column(val, e)(i) == d(i) by {
            assert(i % 3 == i - 3 * (i / 3));
            assert(i / 3 == 0 || i / 3 == 1 || i / 3 == 2 || i / 3 == 3 || i / 3 == 4);
            assert(i % 3 == 0 || i % 3 == 1 || i % 3 == 2);
        }
        lemma_weight_agrees(
            val(weighed(e, f.p, 15)->0),
            numbers(val, f.p),
            numbers(val, f.p),
            first_column(val, e),
            d,
            15,
        );
    }
}

/// The NEES of a flight after tick `k` weighs the error of the filter after that tick against the truth of
/// that tick: the position error by the position covariance, or the whole error by the whole covariance.
/// There is one exactly where the covariance can be inverted.
pub proof fn flight_nees_weighs_the_error<T: Real>(
    val: spec_fn(T) -> real,
    cfg: SimConfig<T>,
    seed: u64,
    k: nat,
)
    requires
        exact(val),
        val(cfg.imu_rate) > 0real,
    ensures
        ({
            let f = filter_of(cfg, seed, k);
            let x = truth_of(cfg, seed, k);
            let small = table(3, 3, |i: int, j: int| f.p[i][j]);
            &&& position_nees_of(cfg, seed, k) matches Some(v) ==> is_weight(
                val(v),
                numbers(val, f.p),
                entries(minus3(triple(val, x.p), triple(val, f.nom.p))),
                3,
            )
            &&& full_nees_of(cfg, seed, k) matches Some(v) ==> is_weight(
                val(v),
                numbers(val, f.p),
                error_entries(val, f.nom, x),
                15,
            )
            &&& position_nees_of(cfg, seed, k) is Some <==> inverse_grid(small, 3) is Some
            &&& full_nees_of(cfg, seed, k) is Some <==> inverse_grid(f.p, 15) is Some
        }),
{
    flight_stays_sound(val, cfg, seed, k + 1);
    nees_weighs_the_error(val, filter_of(cfg, seed, k), truth_of(cfg, seed, k));
}

/// Scoring an estimate adds the squared distances between it and the truth, that of the orientation the
/// square of the angle between, and counts one more.
pub proof fn scoring_adds_squared_errors<T: Real>(
    val: spec_fn(T) -> real,
    e: Errors<T>,
    f: FilterState<T>,
    x: TrueState<T>,
)
    requires
        exact(val),
    ensures
        ({
            let more = with_errors(e, f, x);
            let angle = triple(val, angular_error(x.q, f.nom.q));
            &&& val(more.pos) == val(e.pos) + apart(triple(val, f.nom.p), triple(val, x.p))
            &&& val(more.vel) == val(e.vel) + apart(triple(val, f.nom.v), triple(val, x.v))
            &&& val(more.att) == val(e.att) + dot3(angle, angle)
            &&& val(more.count) == val(e.count) + 1real
        }),
{
    lemma_constants(val);
}

/// The root of a mean, squared and times the count, is the sum.
proof fn lemma_root_mean<T: Real>(val: spec_fn(T) -> real, s: T, n: T)
    requires
        exact(val),
        val(s) >= 0real,
        val(n) > 0real,
    ensures
        val(root(quot(s, n))) >= 0real,
        (val(root(quot(s, n))) * val(root(quot(s, n)))) * val(n) == val(s),
{
    let (a, b) = (val(s), val(n));
    assert(a / b >= 0real) by (nonlinear_arith)
        requires
            a >= 0real,
            b > 0real,
    ;
    lemma_times_quotient(b, a);
    comm(b, a / b);
}

/// The figures of a score are root mean squares: their squares times the count are the sums of squared
/// errors, with the angle in degrees, a full turn being 360.
pub proof fn figures_are_root_mean_squares<T: Real>(val: spec_fn(T) -> real, e: Errors<T>)
    requires
        exact(val),
        exact_degrees(val),
        val(e.count) > 0real,
        val(e.pos) >= 0real && val(e.vel) >= 0real && val(e.att) >= 0real,
    ensures
        ({
            let (p, v, a) = (val(rmse(e).0), val(rmse(e).1), val(rmse(e).2));
            let n = val(e.count);
            let angle = a * val(turn::<T>());
            &&& p >= 0real && (p * p) * n == val(e.pos)
            &&& v >= 0real && (v * v) * n == val(e.vel)
            &&& angle >= 0real && (angle * angle) * n == (360real * 360real) * val(e.att)
        }),
{
    lemma_root_mean(val, e.pos, e.count);
    lemma_root_mean(val, e.vel, e.count);
    lemma_root_mean(val, e.att, e.count);
    let r = val(root(quot(e.att, e.count)));
    let n = val(e.count);
    square_of_product(360real, r);
    assoc(360real * 360real, r * r, n);
}

/// A flight of so many seconds has two hundred ticks for each, and the first five seconds, a thousand
/// ticks, are left out of every score.
pub proof fn two_hundred_ticks_a_second<T: Real>(val: spec_fn(T) -> real, seconds: T)
    requires
        exact(val),
        exact_counts(val),
        0real <= val(seconds) < 21_000_000real,
    ensures
        ticks_in(seconds) as real <= 200real * val(seconds) < ticks_in(seconds) as real + 1real,
        settling::<T>() == 1000,
{
    assert(val(lit::<T>(200, 1)) == 200real);
    assert(val(lit::<T>(5, 1)) == 5real);
    comm(200real, val(seconds));
    let s = settling::<T>();
    assert(s as real <= 1000real < s as real + 1real);
}

/// The time of tick `k`, in two-hundredths of a second.
proof fn lemma_time<T: Real>(val: spec_fn(T) -> real, k: nat)
    requires
        exact(val),
        k <= u64::MAX,
    ensures
        val(time_of::<T>(k)) == k as real / 200real,
{
    assert(val(lit::<T>(200, 1)) == 200real);
    assert(val(whole::<T>(k as u64)) == k as real);
}

/// The NEES is sampled at every twentieth tick from the thousandth on, with the time of the tick: a
/// position sample where the position covariance can be inverted, a full-state sample where the whole
/// one can, and a sample of a series where both can.
pub proof fn nees_is_sampled_every_twentieth_tick<T: Real>(
    val: spec_fn(T) -> real,
    cfg: SimConfig<T>,
    seed: u64,
    k: nat,
)
    requires
        exact(val),
        exact_counts(val),
        k <= u64::MAX,
    ensures
        ({
            let due = k >= 1000 && k % 20 == 0;
            let pos = position_nees_of(cfg, seed, k);
            let full = full_nees_of(cfg, seed, k);
            let (p0, p1) = (position_samples(cfg, seed, k), position_samples(cfg, seed, k + 1));
            let (f0, f1) = (full_samples(cfg, seed, k), full_samples(cfg, seed, k + 1));
            let (s0, s1) = (nees_samples(cfg, seed, k), nees_samples(cfg, seed, k + 1));
            &&& due && pos is Some ==> {
                &&& p1.len() == p0.len() + 1
                &&& p1.drop_last() == p0
                &&& p1.last().1 == pos->0
                &&& val(p1.last().0) == k as real / 200real
            }
            &&& !(due && pos is Some) ==> p1 == p0
            &&& due && full is Some ==> f1.len() == f0.len() + 1 && f1.drop_last() == f0 && f1.last()
                == full->0
            &&& !(due && full is Some) ==> f1 == f0
            &&& due && pos is Some && full is Some ==> {
                &&& s1.len() == s0.len() + 1
                &&& s1.drop_last() == s0
                &&& s1.last().pos == pos->0
                &&& s1.last().full == full->0
                &&& val(s1.last().t) == k as real / 200real
            }
            &&& !(due && pos is Some && full is Some) ==> s1 == s0
        }),
        position_samples(cfg, seed, 0).len() == 0,
        full_samples(cfg, seed, 0).len() == 0,
        nees_samples(cfg, seed, 0).len() == 0,
{
    lemma_settled(val);
    lemma_time(val, k);
    let (p0, p1) = (position_samples(cfg, seed, k), position_samples(cfg, seed, k + 1));
    let (f0, f1) = (full_samples(cfg, seed, k), full_samples(cfg, seed, k + 1));
    let (s0, s1) = (nees_samples(cfg, seed, k), nees_samples(cfg, seed, k + 1));
    assert(p1.len() == p0.len() + 1 ==> p1.drop_last() =~= p0);
    assert(f1.len() == f0.len() + 1 ==> f1.drop_last() =~= f0);
    assert(s1.len() == s0.len() + 1 ==> s1.drop_last() =~= s0);
}

proof fn lemma_settled<T: Real>(val: spec_fn(T) -> real)
    requires
        exact(val),
        exact_counts(val),
    ensures
        settling::<T>() == 1000,
{
    lemma_constants(val);
    two_hundred_ticks_a_second(val, lit::<T>(1, 1));
}

/// The squared position error after tick `k`.
pub open spec fn position_off<T: Real>(
    val: spec_fn(T) -> real,
    cfg: SimConfig<T>,
    seed: u64,
    k: int,
) -> real {
    apart(
        triple(val, filter_of(cfg, seed, k as nat).nom.p),
        triple(val, truth_of(cfg, seed, k as nat).p),
    )
}

/// The squared velocity error after tick `k`.
pub open spec fn velocity_off<T: Real>(
    val: spec_fn(T) -> real,
    cfg: SimConfig<T>,
    seed: u64,
    k: int,
) -> real {
    apart(
        triple(val, filter_of(cfg, seed, k as nat).nom.v),
        triple(val, truth_of(cfg, seed, k as nat).v),
    )
}

/// The square of the angle between the true orientation and the estimate after tick `k`.
pub open spec fn orientation_off<T: Real>(
    val: spec_fn(T) -> real,
    cfg: SimConfig<T>,
    seed: u64,
    k: int,
) -> real {
    let e = triple(
        val,
        angular_error(truth_of(cfg, seed, k as nat).q, filter_of(cfg, seed, k as nat).nom.q),
    );
    dot3(e, e)
}

/// `f` from the thousandth tick on.
pub open spec fn once_settled(f: RealVec) -> RealVec {
    |k: int|
        if k >= 1000 {
            f(k)
        } else {
            0real
        }
}

/// The errors of a flight are the sums of the squared errors after every tick from the thousandth on, and
/// their number.
#[verifier::rlimit(40)]
pub proof fn errors_are_summed_once_settled<T: Real>(
    val: spec_fn(T) -> real,
    cfg: SimConfig<T>,
    seed: u64,
    n: nat,
)
    requires
        exact(val),
        exact_counts(val),
    ensures
        ({
            let e = errors_of(cfg, seed, n);
            &&& val(e.pos) == rsum(n, once_settled(|k: int| position_off(val, cfg, seed, k)))
            &&& val(e.vel) == rsum(n, once_settled(|k: int| velocity_off(val, cfg, seed, k)))
            &&& val(e.att) == rsum(n, once_settled(|k: int| orientation_off(val, cfg, seed, k)))
            &&& val(e.count) == (if n >= 1000 {
                (n - 1000) as real
            } else {
                0real
            })
        }),
    decreases n,
{
    lemma_constants(val);
    lemma_settled(val);
    if n > 0 {
        let k = (n - 1) as nat;
        errors_are_summed_once_settled(val, cfg, seed, k);
        scoring_adds_squared_errors(
            val,
            errors_of(cfg, seed, k),
            filter_of(cfg, seed, k),
            truth_of(cfg, seed, k),
        );
    }
}

/// Three standard deviations, squared, are nine variances; a variance below zero counts as zero.
pub proof fn three_sigmas_squared_are_nine_variances<T: Real>(val: spec_fn(T) -> real, var: T)
    requires
        exact(val),
    ensures
        val(three_sigma(var)) >= 0real,
        val(var) >= 0real ==> val(three_sigma(var)) * val(three_sigma(var)) == 9real * val(var),
        val(var) < 0real ==> val(three_sigma(var)) * val(three_sigma(var)) == 0real,
{
    lemma_constants(val);
    assert(val(lit::<T>(3, 1)) == 3real);
    let r = val(root(larger(var, lit::<T>(0, 1))));
    square_of_product(3real, r);
}

/// The samples of a plot: the error of the estimate in x and in z, with three standard deviations of
/// each from its own variance, and the distance between estimate and truth; all with the time of the tick.
pub proof fn plots_show_the_errors<T: Real>(
    val: spec_fn(T) -> real,
    cfg: SimConfig<T>,
    seed: u64,
    k: nat,
)
    requires
        exact(val),
        k <= u64::MAX,
    ensures
        ({
            let f = filter_of(cfg, seed, k);
            let x = truth_of(cfg, seed, k);
            let e = envelope_of(cfg, seed, k);
            let d = drift_of(cfg, seed, k);
            &&& val(e.t) == k as real / 200real && val(d.t) == k as real / 200real
            &&& val(e.ex) == val(f.nom.p[0]) - val(x.p[0])
            &&& val(e.ez) == val(f.nom.p[2]) - val(x.p[2])
            &&& val(f.p[0][0]) >= 0real ==> val(e.s3x) >= 0real && val(e.s3x) * val(e.s3x) == 9real * val(
                f.p[0][0],
            )
            &&& val(f.p[2][2]) >= 0real ==> val(e.s3z) >= 0real && val(e.s3z) * val(e.s3z) == 9real * val(
                f.p[2][2],
            )
            &&& val(d.err) >= 0real
            &&& val(d.err) * val(d.err) == apart(triple(val, f.nom.p), triple(val, x.p))
        }),
{
    let f = filter_of(cfg, seed, k);
    let x = truth_of(cfg, seed, k);
    lemma_time(val, k);
    three_sigmas_squared_are_nine_variances(val, f.p[0][0]);
    three_sigmas_squared_are_nine_variances(val, f.p[2][2]);
    let dp = v3::subtracted(f.nom.p, x.p);
    lemma_length(val, dp);
    assert(apart(triple(val, f.nom.p), triple(val, x.p)) == dot3(triple(val, dp), triple(val, dp)));
}

/// A plot of `n` ticks has a sample for every twentieth, from the first on: as many as there are multiples
/// of twenty below `n`.
pub proof fn plots_sample_every_twentieth_tick(n: nat, k: nat)
    ensures
        k < sample_count(n) <==> 20 * k < n,
{
}

/// The root of the inner product of a vector with itself is its length.
pub proof fn lemma_length<T: Real>(val: spec_fn(T) -> real, v: V3<T>)
    requires
        exact(val),
    ensures
        val(root(squared(v))) >= 0real,
        val(root(squared(v))) * val(root(squared(v))) == dot3(triple(val, v), triple(val, v)),
{
    lemma_square(val(v[0]));
    lemma_square(val(v[1]));
    lemma_square(val(v[2]));
}

/// Adding the samples of a flight to the sums: the first flight sets them, and every other adds to the
/// places that it has, counting itself there; the other places stay.
pub proof fn flights_add_place_by_place<T: Real>(
    val: spec_fn(T) -> real,
    acc: Seq<NeesSum<T>>,
    more: Seq<NeesSample<T>>,
    i: int,
)
    requires
        exact(val),
    ensures
        ({
            let out = accumulated(acc, more);
            &&& acc.len() == 0 ==> {
                &&& out.len() == more.len()
                &&& 0 <= i < more.len() ==> {
                    &&& out[i].t == more[i].t && out[i].pos == more[i].pos && out[i].full == more[i].full
                    &&& val(out[i].count) == 1real
                }
            }
            &&& acc.len() > 0 ==> {
                &&& out.len() == acc.len()
                &&& 0 <= i < acc.len() && i < more.len() ==> {
                    &&& out[i].t == acc[i].t
                    &&& val(out[i].pos) == val(acc[i].pos) + val(more[i].pos)
                    &&& val(out[i].full) == val(acc[i].full) + val(more[i].full)
                    &&& val(out[i].count) == val(acc[i].count) + 1real
                }
                &&& more.len() <= i < acc.len() ==> out[i] == acc[i]
            }
        }),
{
    lemma_constants(val);
}

/// The samples of flight `r` of a batch.
pub open spec fn flight_series<T: Real>(
    cfg: SimConfig<T>,
    base: u64,
    stride: u64,
    seconds: T,
    r: int,
) -> Seq<
    NeesSample<T>,
> {
    nees_samples(cfg, (base + r * stride) as u64, ticks_in(seconds) as nat)
}

/// The sums of a batch, where every flight has as many samples: those of each flight, one added to the
/// other, and the number of flights.
proof fn lemma_ensemble<T: Real>(
    val: spec_fn(T) -> real,
    cfg: SimConfig<T>,
    base: u64,
    stride: u64,
    seconds: T,
    n: nat,
    len: nat,
    i: int,
)
    requires
        exact(val),
        n > 0,
        0 <= i < len,
        forall|r: int| 0 <= r < n ==> (#[trigger] flight_series(cfg, base, stride, seconds, r)).len() == len,
    ensures
        ({
            let all = ensemble(cfg, base, stride, seconds, n);
            &&& all.len() == len
            &&& all[i].t == flight_series(cfg, base, stride, seconds, 0)[i].t
            &&& val(all[i].pos) == rsum(
                n,
                |r: int| val(flight_series(cfg, base, stride, seconds, r)[i].pos),
            )
            &&& val(all[i].full) == rsum(
                n,
                |r: int| val(flight_series(cfg, base, stride, seconds, r)[i].full),
            )
            &&& val(all[i].count) == n as real
        }),
    decreases n,
{
    lemma_constants(val);
    let m = (n - 1) as nat;
    let last = flight_series(cfg, base, stride, seconds, m as int);
    let before = ensemble(cfg, base, stride, seconds, m);
    assert(ensemble(cfg, base, stride, seconds, n) == accumulated(before, last));
    assert(last.len() == len);
    if m == 0 {
        reveal_with_fuel(rsum, 2);
    } else {
        lemma_ensemble(val, cfg, base, stride, seconds, m, len, i);
    }
}

/// The mean series of a batch: at every place the arithmetic means of what its flights have there, and
/// the time that the first has.
pub proof fn mean_series_is_the_mean<T: Real>(
    val: spec_fn(T) -> real,
    cfg: SimConfig<T>,
    base: u64,
    stride: u64,
    seconds: T,
    n: nat,
    len: nat,
    i: int,
)
    requires
        exact(val),
        n > 0,
        0 <= i < len,
        forall|r: int| 0 <= r < n ==> (#[trigger] flight_series(cfg, base, stride, seconds, r)).len() == len,
    ensures
        ({
            let out = means(ensemble(cfg, base, stride, seconds, n));
            &&& out.len() == len
            &&& out[i].t == flight_series(cfg, base, stride, seconds, 0)[i].t
            &&& val(out[i].pos) * (n as real) == rsum(
                n,
                |r: int| val(flight_series(cfg, base, stride, seconds, r)[i].pos),
            )
            &&& val(out[i].full) * (n as real) == rsum(
                n,
                |r: int| val(flight_series(cfg, base, stride, seconds, r)[i].full),
            )
        }),
{
    lemma_ensemble(val, cfg, base, stride, seconds, n, len, i);
    let a = ensemble(cfg, base, stride, seconds, n)[i];
    let k = n as real;
    lemma_times_quotient(k, val(a.pos));
    lemma_times_quotient(k, val(a.full));
    comm(k, val(a.pos) / k);
    comm(k, val(a.full) / k);
}

/// The scenarios that change the noise: the IMU five times as noisy, or the biases walking ten times as
/// fast. Everything else stays.
pub proof fn noisy_scenarios_scale_the_noise<T: Real>(val: spec_fn(T) -> real, cfg: SimConfig<T>)
    requires
        exact(val),
    ensures
        ({
            let a = Scenario::NoisyImu.settings(cfg);
            let b = Scenario::BiasDrift.settings(cfg);
            &&& val(a.accel_noise) == 5real * val(cfg.accel_noise)
            &&& val(a.gyro_noise) == 5real * val(cfg.gyro_noise)
            &&& val(b.accel_bias_walk) == 10real * val(cfg.accel_bias_walk)
            &&& val(b.gyro_bias_walk) == 10real * val(cfg.gyro_bias_walk)
            &&& a == (SimConfig { accel_noise: a.accel_noise, gyro_noise: a.gyro_noise, ..cfg })
            &&& b == (SimConfig {
                accel_bias_walk: b.accel_bias_walk,
                gyro_bias_walk: b.gyro_bias_walk,
                ..cfg
            })
        }),
{
    assert(val(lit::<T>(5, 1)) == 5real);
    assert(val(lit::<T>(10, 1)) == 10real);
}

/// The other scenarios only switch sensors. Without aiding, no sensor is on; without GPS, that one is off
/// and the rest as it was; with everything fused, the altimeter, the ranging, the flow, both velocities and
/// the attitude are on.
pub proof fn scenarios_switch_sensors<T: Real>(s: Scenario, cfg: SimConfig<T>)
    requires
        s != Scenario::NoisyImu,
        s != Scenario::BiasDrift,
    ensures
        ({
            let c = s.settings(cfg);
            &&& c == (SimConfig {
                gps_enabled: c.gps_enabled,
                baro_enabled: c.baro_enabled,
                mag_enabled: c.mag_enabled,
                lidar_enabled: c.lidar_enabled,
                uwb_enabled: c.uwb_enabled,
                flow_enabled: c.flow_enabled,
                gps_vel_enabled: c.gps_vel_enabled,
                dvl_enabled: c.dvl_enabled,
                att_enabled: c.att_enabled,
                ..cfg
            })
            &&& c.gps_enabled <==> cfg.gps_enabled && s != Scenario::ImuOnly && s != Scenario::GpsDropout
                && s != Scenario::GpsDeniedUwb && s != Scenario::Indoor
            &&& c.baro_enabled <==> cfg.baro_enabled && s != Scenario::ImuOnly
            &&& c.mag_enabled <==> cfg.mag_enabled && s != Scenario::ImuOnly
            &&& c.lidar_enabled <==> (cfg.lidar_enabled && s != Scenario::ImuOnly) || s == Scenario::Indoor
                || s == Scenario::FullFusion
            &&& c.uwb_enabled <==> cfg.uwb_enabled || s == Scenario::GpsDeniedUwb || s == Scenario::Indoor
                || s == Scenario::FullFusion
            &&& c.flow_enabled <==> cfg.flow_enabled || s == Scenario::Indoor || s == Scenario::FullFusion
            &&& c.gps_vel_enabled <==> cfg.gps_vel_enabled || s == Scenario::FullFusion
            &&& c.dvl_enabled <==> cfg.dvl_enabled || s == Scenario::VisionAided || s
                == Scenario::FullFusion
            &&& c.att_enabled <==> cfg.att_enabled || s == Scenario::VisionAided || s
                == Scenario::FullFusion
        }),
{
}

} // verus!
