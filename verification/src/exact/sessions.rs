//! What a session shows of the flight.

use vstd::prelude::*;

use crate::exact::{exact, lemma_constants};
use crate::exact::algebra::{cancel, comm, same_square, square_of_product};
use crate::exact::jacobians::dot3;
use crate::exact::matrices::numbers;
use crate::exact::quaternions::triple;
use crate::exact::readings::entries;
use crate::exact::residuals::apart;
use crate::exact::scores::{exact_degrees, is_weight, lemma_length, minus3, nees_weighs_the_error};
use crate::exact::small::lemma_both;
use crate::exact::windows::exact_counts;
use crate::filter::{initial_covariance, standard_sigma, Correction};
use crate::flight::{driven, guarded, logged, squared};
use crate::linalg::{shaped, v3, Grid};
use crate::metrics::{error_column, weighed};
use crate::narrow::{narrowed, Narrow};
use crate::quat::angular_error;
use crate::scalar::{degrees, lit, prod, root, rounded, turn, Real};
use crate::session::{
    advanced, advanced_by, beacon_points, frame, next_seed, payload, payload_layout,
    position_score, position_sigma, session_start, ticks_for, SensorStat, SessionState,
};
use crate::sim::{anchors, launched, sampled_start, stepped, SimConfig};
use crate::trajectory::{true_orientation, true_position, true_velocity};

verus! {

/// What a running figure is drawn to, when one tick takes it from `before` to `after`: a tick takes it a
/// fiftieth of the way.
pub open spec fn drawn_to(before: real, after: real) -> real {
    before + 50real * (after - before)
}

/// The angle between the true orientation and the estimate is `d` degrees, with a full turn taken as 360.
pub open spec fn is_off_by<T: Real, U>(
    val: spec_fn(T) -> real,
    s: SessionState<T, U>,
    d: real,
) -> bool {
    let e = triple(val, angular_error(s.last_truth.q, s.filter.nom.q));
    let angle = d * val(turn::<T>());
    d >= 0real && angle * angle == (360real * 360real) * dot3(e, e)
}

/// One tick draws each running figure a fiftieth of the way: the attitude error towards the angle between
/// true and estimated orientation in degrees, the position error towards the distance between true and
/// estimated position, and the NEES towards that of the tick, where it has one.
pub proof fn figures_are_drawn_a_fiftieth<U: Real, T: Narrow<U>>(
    val: spec_fn(T) -> real,
    s: SessionState<T, U>,
)
    requires
        exact(val),
        exact_degrees(val),
    ensures
        ({
            let next = advanced(s);
            let x = next.last_truth;
            let f = next.filter;
            &&& is_off_by(val, next, drawn_to(val(s.ema_att), val(next.ema_att)))
            &&& drawn_to(val(s.ema_pos), val(next.ema_pos)) == val(next.inst_pos)
            &&& val(next.inst_pos) >= 0real
            &&& val(next.inst_pos) * val(next.inst_pos) == apart(triple(val, f.nom.p), triple(val, x.p))
            &&& position_score(f, x) matches Some(v) ==> drawn_to(val(s.ema_nees), val(next.ema_nees))
                == val(v)
            &&& position_score(f, x) is None ==> next.ema_nees == s.ema_nees
        }),
{
    let next = advanced(s);
    let x = next.last_truth;
    let f = next.filter;
    let k = lit::<T>(2, 100);
    assert(val(k) == 2real / 100real);
    let e = angular_error(x.q, f.nom.q);
    let angle = v3::length(e);
    lemma_length(val, e);
    let d = val(degrees(angle));
    let t = val(turn::<T>());
    assert(d * t == 360real * val(angle));
    square_of_product(360real, val(angle));
    if d < 0real {
        assert(d * t < 0real) by (nonlinear_arith)
            requires
                d < 0real,
                t > 0real,
        ;
    }
    assert(drawn_to(val(s.ema_att), val(next.ema_att)) == d);
    let dp = v3::subtracted(f.nom.p, x.p);
    lemma_length(val, dp);
    assert(apart(triple(val, f.nom.p), triple(val, x.p)) == dot3(triple(val, dp), triple(val, dp)));
    assert(next.inst_pos == root(squared(dp)));
}

/// The NEES that a session follows is the position error weighed by the covariance of the position.
pub proof fn session_weighs_the_position_error<U: Real, T: Narrow<U>>(
    val: spec_fn(T) -> real,
    s: SessionState<T, U>,
)
    requires
        exact(val),
        shaped(s.filter.p, 15, 15),
    ensures
        position_score(s.filter, s.last_truth) matches Some(v) ==> is_weight(
            val(v),
            numbers(val, s.filter.p),
            entries(minus3(triple(val, s.last_truth.p), triple(val, s.filter.nom.p))),
            3,
        ),
{
    nees_weighs_the_error(val, s.filter, s.last_truth);
}

/// An angle has one number of degrees, and a quarter turn has ninety.
pub proof fn quarter_turn_is_ninety_degrees<T: Real, U>(
    val: spec_fn(T) -> real,
    s: SessionState<T, U>,
    d: real,
    c: real,
)
    requires
        exact_degrees(val),
    ensures
        is_off_by(val, s, d) && is_off_by(val, s, c) ==> d == c,
        ({
            let e = triple(val, angular_error(s.last_truth.q, s.filter.nom.q));
            is_off_by(val, s, 90real) <==> 16real * dot3(e, e) == val(turn::<T>()) * val(turn::<T>())
        }),
{
    let t = val(turn::<T>());
    if is_off_by(val, s, d) && is_off_by(val, s, c) {
        lemma_both(d, t);
        lemma_both(c, t);
        same_square(d * t, c * t);
        comm(d, t);
        comm(c, t);
        cancel(t, d);
        cancel(t, c);
    }
    square_of_product(90real, t);
}

/// A constant error takes the running figure towards it and no further: with the orientation off by `d`
/// degrees after every tick, a figure that is not above `d` never gets there, and never falls. A quarter
/// turn takes it to ninety and no more.
pub proof fn constant_error_is_approached<U: Real, T: Narrow<U>>(
    val: spec_fn(T) -> real,
    s: SessionState<T, U>,
    d: real,
    n: nat,
)
    requires
        exact(val),
        exact_degrees(val),
        val(s.ema_att) <= d,
        forall|m: nat| 0 < m <= n ==> is_off_by(val, #[trigger] advanced_by(s, m), d),
    ensures
        val(s.ema_att) <= val(advanced_by(s, n).ema_att) <= d,
        n > 0 ==> 50real * (d - val(advanced_by(s, n).ema_att)) == 49real * (d - val(
            advanced_by(s, (n - 1) as nat).ema_att,
        )),
    decreases n,
{
    if n > 0 {
        let m = (n - 1) as nat;
        constant_error_is_approached(val, s, d, m);
        let before = advanced_by(s, m);
        figures_are_drawn_a_fiftieth(val, before);
        let after = advanced_by(s, n);
        quarter_turn_is_ninety_degrees(
            val,
            after,
            d,
            drawn_to(val(before.ema_att), val(after.ema_att)),
        );
    }
}

/// A tick of a session is a tick of its simulator, which its filter takes in with the settings of the
/// session; it counts one more tick and keeps settings, seed and snapshot.
pub proof fn session_follows_its_simulator<U: Real, T: Narrow<U>>(s: SessionState<T, U>)
    ensures
        ({
            let next = advanced(s);
            let (tick, sim) = stepped(s.sim);
            &&& next.sim == sim
            &&& next.filter == driven(s.filter, tick, s.cfg)
            &&& next.last_truth == tick.truth
            &&& next.step_count == s.step_count + 1
            &&& next.cfg == s.cfg
            &&& next.seed == s.seed
            &&& next.snapshot == s.snapshot
        }),
{
}

/// The pulse of a sensor after a tick: one where it fired, and otherwise 94 hundredths of what it was.
pub open spec fn beats<U: Real>(val: spec_fn(U) -> real, before: U, after: U, fired: bool) -> bool {
    val(after) == (if fired {
        1real
    } else {
        94real * val(before) / 100real
    })
}

/// Every sensor has its own pulse, in a fixed order, which a reading of that sensor sets and every other
/// tick lets fade.
pub proof fn pulses_mark_and_fade<U: Real, T: Narrow<U>>(
    val: spec_fn(U) -> real,
    s: SessionState<T, U>,
)
    requires
        exact(val),
    ensures
        ({
            let (a, b) = (s.pulse, advanced(s).pulse);
            let tick = stepped(s.sim).0;
            &&& b.len() == 9
            &&& beats(val, a[0], b[0], tick.gps is Some)
            &&& beats(val, a[1], b[1], tick.baro is Some)
            &&& beats(val, a[2], b[2], tick.mag is Some)
            &&& beats(val, a[3], b[3], tick.lidar is Some)
            &&& beats(val, a[4], b[4], tick.uwb is Some)
            &&& beats(val, a[5], b[5], tick.flow is Some)
            &&& beats(val, a[6], b[6], tick.gps_vel is Some)
            &&& beats(val, a[7], b[7], tick.dvl is Some)
            &&& beats(val, a[8], b[8], tick.att is Some)
        }),
{
    lemma_constants(val);
    assert(val(lit::<U>(94, 100)) == 94real / 100real);
}

/// What is shown of a sensor after a tick: its last correction, where it fired, and what was shown
/// before, where it did not.
pub open spec fn shows<U: Real, T: Narrow<U>>(
    val: spec_fn(U) -> real,
    before: SensorStat<U>,
    after: SensorStat<U>,
    fired: bool,
    record: Option<Correction<T>>,
) -> bool {
    match record {
        Some(u) if fired => {
            &&& val(after.dim) == u.dim as real
            &&& after.nis == narrowed::<U, T>(u.nis)
            &&& after.innov == narrowed::<U, T>(u.innovation_norm)
            &&& val(after.accepted) == (if u.accepted {
                1real
            } else {
                0real
            })
        },
        _ => after == before,
    }
}

/// Every sensor has its own figures, in the order of the pulses: the dimension, the normalised innovation
/// and its length of the correction that its own reading made, and whether it was accepted.
pub proof fn figures_show_the_last_correction<U: Real, T: Narrow<U>>(
    val: spec_fn(U) -> real,
    s: SessionState<T, U>,
)
    requires
        exact(val),
    ensures
        ({
            let (a, b) = (s.sensor_stats, advanced(s).sensor_stats);
            let tick = stepped(s.sim).0;
            let log = logged(s.filter, tick, guarded(s.cfg));
            &&& b.len() == 9
            &&& shows(val, a[0], b[0], tick.gps is Some, log.gps)
            &&& shows(val, a[1], b[1], tick.baro is Some, log.baro)
            &&& shows(val, a[2], b[2], tick.mag is Some, log.mag)
            &&& shows(val, a[3], b[3], tick.lidar is Some, log.lidar)
            &&& shows(val, a[4], b[4], tick.uwb is Some, log.uwb)
            &&& shows(val, a[5], b[5], tick.flow is Some, log.flow)
            &&& shows(val, a[6], b[6], tick.gps_vel is Some, log.gps_vel)
            &&& shows(val, a[7], b[7], tick.dvl is Some, log.dvl)
            &&& shows(val, a[8], b[8], tick.att is Some, log.att)
        }),
{
    lemma_constants(val);
}

/// Every fourth tick, from the first on, leaves a mark on both trails: the estimate's position on the
/// one, the true position on the other, as the newest of at most three thousand points. The other ticks
/// leave none.
pub proof fn every_fourth_tick_leaves_a_mark<U: Real, T: Narrow<U>>(s: SessionState<T, U>)
    requires
        s.est_trail.len() <= 9000,
        s.truth_trail.len() <= 9000,
    ensures
        ({
            let next = advanced(s);
            let (p, x) = (next.filter.nom.p, next.last_truth.p);
            &&& s.step_count % 4 != 0 ==> next.est_trail == s.est_trail && next.truth_trail
                == s.truth_trail
            &&& s.step_count % 4 == 0 ==> marked(
                s.est_trail,
                next.est_trail,
                narrowed::<U, T>(p[0]),
                narrowed::<U, T>(p[1]),
                narrowed::<U, T>(p[2]),
            )
            &&& s.step_count % 4 == 0 ==> marked(
                s.truth_trail,
                next.truth_trail,
                narrowed::<U, T>(x[0]),
                narrowed::<U, T>(x[1]),
                narrowed::<U, T>(x[2]),
            )
        }),
{
}

/// The point `(x, y, z)` is the newest of a trail of at most three thousand, and the rest are the latest
/// of those before.
pub open spec fn marked<U>(before: Seq<U>, after: Seq<U>, x: U, y: U, z: U) -> bool {
    let n = after.len() as int;
    let dropped = before.len() + 3 - n;
    &&& n == (if before.len() < 9000 {
        before.len() + 3
    } else {
        9000
    })
    &&& after[n - 3] == x && after[n - 2] == y && after[n - 1] == z
    &&& forall|i: int| 0 <= i < n - 3 ==> #[trigger] after[i] == before[dropped + i]
}

/// A step of the viewer's time runs the nearest number of ticks, but at least one and at most eight.
pub proof fn step_runs_the_nearest_count<T: Real>(val: spec_fn(T) -> real, dt: T, rate: T)
    requires
        exact(val),
        exact_counts(val),
        val(dt) * val(rate) < 4_000_000_000real,
    ensures
        ({
            let n = ticks_for(dt, rate);
            let w = val(dt) * val(rate);
            &&& 1 <= n <= 8
            &&& w < 3real / 2real ==> n == 1
            &&& w >= 15real / 2real ==> n == 8
            &&& 3real / 2real <= w < 15real / 2real ==> n as real - 1real / 2real <= w < n as real + 1real
                / 2real
        }),
{
    let a = prod(dt, rate);
    let r = rounded(a);
    if val(a) >= 0real {
        assert(r as real - 1real / 2real <= val(a) < r as real + 1real / 2real);
    }
    if r >= 8 {
        assert(r as real >= 8real);
    } else {
        assert(r as real <= 7real);
    }
    if r >= 2 {
        assert(r as real >= 2real);
    } else {
        assert(r as real <= 1real);
    }
}

/// The shown sigma of the position, squared, is the mean of the three position variances.
pub proof fn shown_sigma_is_the_mean_variance<T: Real>(val: spec_fn(T) -> real, p: Grid<T>)
    requires
        exact(val),
    ensures
        ({
            let trace = val(p[0][0]) + val(p[1][1]) + val(p[2][2]);
            let s = val(position_sigma(p));
            &&& s >= 0real
            &&& trace >= 0real ==> 3real * (s * s) == trace
            &&& trace < 0real ==> s * s == 0real
        }),
{
    lemma_constants(val);
    assert(val(lit::<T>(3, 1)) == 3real);
}

/// A session starts with no error shown and a NEES of three, its expectation; with no pulse and no trail;
/// and its filter is told the noise of the settings as it is.
pub proof fn session_starts_blank<T: Real, U: Real>(
    val: spec_fn(T) -> real,
    val2: spec_fn(U) -> real,
    cfg: SimConfig<T>,
    seed: u64,
    snapshot: Seq<U>,
    i: int,
)
    requires
        exact(val),
        exact(val2),
        0 <= i < 9,
    ensures
        ({
            let s = session_start::<T, U>(cfg, seed, snapshot);
            &&& val(s.ema_pos) == 0real && val(s.ema_att) == 0real && val(s.inst_pos) == 0real
            &&& val(s.ema_nees) == 3real
            &&& s.step_count == 0 && s.est_trail.len() == 0 && s.truth_trail.len() == 0
            &&& s.pulse.len() == 9 && val2(s.pulse[i]) == 0real
            &&& s.sensor_stats.len() == 9
            &&& val2(s.sensor_stats[i].dim) == 0real && val2(s.sensor_stats[i].nis) == 0real
            &&& val2(s.sensor_stats[i].innov) == 0real && val2(s.sensor_stats[i].accepted) == 0real
            &&& s.cfg == cfg && s.seed == seed && s.sim.cfg == cfg
            &&& s.filter.noise.accel == cfg.accel_noise && s.filter.noise.gyro == cfg.gyro_noise
            &&& s.filter.noise.accel_bias == cfg.accel_bias_walk && s.filter.noise.gyro_bias
                == cfg.gyro_bias_walk
            &&& triple(val, s.filter.noise.gravity) == (0real, 0real, -980_665real / 100_000real)
            &&& s.filter.last_update is None
        }),
{
    lemma_constants(val);
    lemma_constants(val2);
    assert(val(lit::<T>(3, 1)) == 3real);
    assert(val(lit::<T>((-980_665) as i64, 100_000)) == -980_665real / 100_000real);
}

/// Three numbers in a row, in the narrower type.
pub open spec fn three_at<U: Real, T: Narrow<U>>(o: Seq<U>, i: int, x: T, y: T, z: T) -> bool {
    &&& o[i] == narrowed::<U, T>(x)
    &&& o[i + 1] == narrowed::<U, T>(y)
    &&& o[i + 2] == narrowed::<U, T>(z)
}

/// The numbers of a frame, each in its place: position, velocity, orientation, true position, true
/// orientation, the position covariance row by row, the running figures, the time, the biases, the pulses,
/// the sigma of the position and its error.
pub proof fn frame_holds_the_numbers<U: Real, T: Narrow<U>>(s: SessionState<T, U>, i: int)
    requires
        s.pulse.len() == 9,
        0 <= i < 9,
    ensures
        ({
            let f = frame(s);
            let (n, x, c) = (s.filter.nom, s.last_truth, s.filter.p);
            &&& f.len() == 48
            &&& three_at(f, 0, n.p[0], n.p[1], n.p[2])
            &&& three_at(f, 3, n.v[0], n.v[1], n.v[2])
            &&& f[6] == narrowed::<U, T>(n.q.w) && three_at(f, 7, n.q.x, n.q.y, n.q.z)
            &&& three_at(f, 10, x.p[0], x.p[1], x.p[2])
            &&& f[13] == narrowed::<U, T>(x.q.w) && three_at(f, 14, x.q.x, x.q.y, x.q.z)
            &&& three_at(f, 17, c[0][0], c[0][1], c[0][2])
            &&& three_at(f, 20, c[1][0], c[1][1], c[1][2])
            &&& three_at(f, 23, c[2][0], c[2][1], c[2][2])
            &&& three_at(f, 26, s.ema_pos, s.ema_att, s.ema_nees)
            &&& f[29] == narrowed::<U, T>(s.sim.t)
            &&& three_at(f, 30, n.accel_bias[0], n.accel_bias[1], n.accel_bias[2])
            &&& three_at(f, 33, n.gyro_bias[0], n.gyro_bias[1], n.gyro_bias[2])
            &&& f[36 + i] == s.pulse[i]
            &&& f[45] == narrowed::<U, T>(position_sigma(c)) && f[46] == narrowed::<U, T>(s.inst_pos)
            &&& f[47] == s.snapshot[47]
        }),
{
}

/// The numbers of the analytics, each in its place: the estimate and the truth, the fifteen errors, the
/// covariance row by row, the NEES of position and state or zero, the time, and four figures of each
/// sensor.
pub proof fn analytics_hold_the_numbers<U: Real, T: Narrow<U>>(
    s: SessionState<T, U>,
    r: int,
    c: int,
    i: int,
)
    requires
        s.sensor_stats.len() == 9,
        0 <= r < 15,
        0 <= c < 15,
        0 <= i < 9,
    ensures
        ({
            let o = payload(s);
            let (n, x, p) = (s.filter.nom, s.last_truth, s.filter.p);
            let st = s.sensor_stats[i];
            &&& o.len() == 305
            &&& three_at(o, 0, n.p[0], n.p[1], n.p[2])
            &&& three_at(o, 3, n.v[0], n.v[1], n.v[2])
            &&& o[6] == narrowed::<U, T>(n.q.w) && three_at(o, 7, n.q.x, n.q.y, n.q.z)
            &&& three_at(o, 10, n.accel_bias[0], n.accel_bias[1], n.accel_bias[2])
            &&& three_at(o, 13, n.gyro_bias[0], n.gyro_bias[1], n.gyro_bias[2])
            &&& three_at(o, 16, x.p[0], x.p[1], x.p[2])
            &&& three_at(o, 19, x.v[0], x.v[1], x.v[2])
            &&& o[22] == narrowed::<U, T>(x.q.w) && three_at(o, 23, x.q.x, x.q.y, x.q.z)
            &&& o[26 + r] == narrowed::<U, T>(error_column(n, x)[r][0])
            &&& o[41 + (15 * r + c)] == narrowed::<U, T>(p[r][c])
            &&& position_score(s.filter, x) matches Some(v) ==> o[266] == narrowed::<U, T>(v)
            &&& position_score(s.filter, x) is None ==> o[266] == narrowed::<U, T>(lit::<T>(0, 1))
            &&& weighed(error_column(n, x), p, 15) matches Some(v) ==> o[267] == narrowed::<U, T>(v)
            &&& weighed(error_column(n, x), p, 15) is None ==> o[267] == narrowed::<U, T>(lit::<T>(0, 1))
            &&& o[268] == narrowed::<U, T>(s.sim.t)
            &&& o[269 + 4 * i] == st.dim && o[270 + 4 * i] == st.nis
            &&& o[271 + 4 * i] == st.innov && o[272 + 4 * i] == st.accepted
        }),
{
    payload_layout(s, r, c, i);
    let o = payload(s);
    let st = s.sensor_stats[i];
    let four = o.subrange(269 + 4 * i, 273 + 4 * i);
    assert(four[0] == o[269 + 4 * i] && four[1] == o[270 + 4 * i]);
    assert(four[2] == o[271 + 4 * i] && four[3] == o[272 + 4 * i]);
    let first = o.subrange(0, 16);
    let second = o.subrange(16, 26);
    assert(forall|k: int| 0 <= k < 16 ==> #[trigger] o[k] == first[k]);
    assert(forall|k: int| 16 <= k < 26 ==> #[trigger] o[k] == second[k - 16]);
}

/// The beacons as a viewer draws them, one after another.
pub proof fn beacons_stand_in_order<U: Real, T: Narrow<U>>(k: int)
    requires
        0 <= k < 4,
    ensures
        ({
            let b = anchors::<T>()[k];
            &&& beacon_points::<U, T>().len() == 12
            &&& three_at(beacon_points::<U, T>(), 3 * k, b[0], b[1], b[2])
        }),
{
    assert(k == 0 || k == 1 || k == 2 || k == 3);
}

/// The seed after a reset: a multiple of the seed, and one, within 64 bits.
pub proof fn reset_moves_the_seed_on(seed: u64)
    ensures
        next_seed(seed) as int == (seed * 6_364_136_223_846_793_005int + 1) % 0x1_0000_0000_0000_0000int,
{
    let m = 0x1_0000_0000_0000_0000int;
    let a = seed * 6_364_136_223_846_793_005int;
    let p = seed.wrapping_mul(6_364_136_223_846_793_005);
    assert(p as int == a % m);
    assert((a + 1) % m == (a % m + 1) % m) by {
        vstd::arithmetic::div_mod::lemma_add_mod_noop(a, 1, m);
        vstd::arithmetic::div_mod::lemma_small_mod(1, m as nat);
    }
}

/// A session starts with the truth of time zero, without biases.
pub proof fn session_starts_from_the_truth<T: Real, U: Real>(
    val: spec_fn(T) -> real,
    cfg: SimConfig<T>,
    seed: u64,
    snapshot: Seq<U>,
)
    requires
        exact(val),
    ensures
        ({
            let s = session_start::<T, U>(cfg, seed, snapshot);
            let zero = lit::<T>(0, 1);
            &&& s.last_truth.p == true_position(zero)
            &&& s.last_truth.v == true_velocity(zero)
            &&& s.last_truth.q == true_orientation(zero)
            &&& triple(val, s.last_truth.accel_bias) == (0real, 0real, 0real)
            &&& triple(val, s.last_truth.gyro_bias) == (0real, 0real, 0real)
            &&& s.sim == sampled_start(launched(cfg, seed), standard_sigma()).1
            &&& s.filter.nom == sampled_start(launched(cfg, seed), standard_sigma()).0
            &&& s.filter.p == initial_covariance(standard_sigma::<T>())
        }),
{
    lemma_constants(val);
}

} // verus!
