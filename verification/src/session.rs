//! A live session for a viewer: a simulator and a filter that advance together, one frame at a
//! time, with what the viewer draws.

use vstd::arithmetic::div_mod::lemma_fundamental_div_mod_converse;
use vstd::prelude::*;

use crate::filter::{symmetric, Correction, Eskf, FilterState, Noise, N};
use crate::flight::{
    airborne, boarded, driven, flight_is_the_simulation, followed, fuse, grounded, guard, guarded,
    imu_noise, logged, seed_filter, told_noise, FlightState, Log,
};
use crate::linalg::{column, table, v3, Grid, V3};
use crate::metrics::{error_column, error_state, nees, position_nees, weighed};
use crate::narrow::{narrow_gives_narrowed, narrowed, narrows, Narrow};
use crate::quat::{angular_error, boxminus, Quat};
use crate::scalar::{
    degrees, diff, functional, group_real_ops, larger, lit, prod, quot, root, rounded, sum, whole,
    Real,
};
use crate::sim::{
    anchors, beacons, initial_nominal, launched, standard_config, stepped, SimConfig, Simulator,
    Tick,
};
use crate::trajectory::TrueState;

verus! {

broadcast use {group_real_ops, narrow_gives_narrowed};

/// Points in a trail: sixty seconds at fifty hertz.
pub const TRAIL_MAX: usize = 3000;

/// A point is added to the trails every so many ticks.
pub const TRAIL_STRIDE: usize = 4;

/// Length of the snapshot.
pub const SNAPSHOT_LEN: usize = 48;

/// Length of the analytics payload.
pub const ANALYTICS_LEN: usize = 305;

/// Most ticks that one step runs.
pub const STEP_MAX: usize = 8;

/// Index of the GPS position among the sensors.
pub const S_GPS: usize = 0;

/// Index of the barometer.
pub const S_BARO: usize = 1;

/// Index of the magnetometer.
pub const S_MAG: usize = 2;

/// Index of the laser altimeter.
pub const S_LIDAR: usize = 3;

/// Index of the radio ranging.
pub const S_UWB: usize = 4;

/// Index of the optical flow.
pub const S_FLOW: usize = 5;

/// Index of the GPS velocity.
pub const S_GPS_VEL: usize = 6;

/// Index of the Doppler velocity in the body frame.
pub const S_DVL: usize = 7;

/// Index of the attitude fix.
pub const S_ATT: usize = 8;

/// Number of aiding sensors.
pub const N_SENSORS: usize = 9;

/// The most recent correction of one sensor, as the viewer shows it.
#[derive(Clone, Copy, Debug)]
pub struct SensorStat<U> {
    pub dim: U,
    pub nis: U,
    pub innov: U,
    pub accepted: U,
}

/// The statistics of a sensor that has not fired.
pub open spec fn no_stat<U: Real>() -> SensorStat<U> {
    let zero = lit::<U>(0, 1);
    SensorStat { dim: zero, nis: zero, innov: zero, accepted: zero }
}

/// A correction, as the viewer shows it.
pub open spec fn stat_of<U: Real, T: Narrow<U>>(u: Correction<T>) -> SensorStat<U> {
    SensorStat {
        dim: whole::<U>(u.dim),
        nis: narrowed::<U, T>(u.nis),
        innov: narrowed::<U, T>(u.innovation_norm),
        accepted: if u.accepted {
            lit::<U>(1, 1)
        } else {
            lit::<U>(0, 1)
        },
    }
}

/// A session.
#[verifier::ext_equal]
pub struct SessionState<T, U> {
    pub cfg: SimConfig<T>,
    pub sim: Simulator<T>,
    pub filter: FilterState<T>,
    pub seed: u64,
    pub last_truth: TrueState<T>,
    pub est_trail: Seq<U>,
    pub truth_trail: Seq<U>,
    pub step_count: nat,
    pub ema_pos: T,
    pub ema_att: T,
    pub ema_nees: T,
    pub inst_pos: T,
    pub pulse: Seq<U>,
    pub sensor_stats: Seq<SensorStat<U>>,
    pub snapshot: Seq<U>,
}

impl<T, U> SessionState<T, U> {
    /// With other settings, in the session and in its simulator.
    pub open spec fn with_settings(self, cfg: SimConfig<T>) -> Self {
        SessionState { cfg, sim: Simulator { cfg, ..self.sim }, ..self }
    }

    /// With another noise model in the filter.
    pub open spec fn with_noise(self, noise: Noise<T>) -> Self {
        SessionState { filter: FilterState { noise, ..self.filter }, ..self }
    }
}

/// The true state at the start of a flight.
pub open spec fn starting_truth<T: Real>() -> TrueState<T> {
    let t = initial_nominal::<T>();
    TrueState { p: t.p, v: t.v, q: t.q, accel_bias: v3::origin(), gyro_bias: v3::origin() }
}

/// A session at the start of a flight with these settings and this seed.
pub open spec fn session_start<T: Real, U: Real>(
    cfg: SimConfig<T>,
    seed: u64,
    snapshot: Seq<U>,
) -> SessionState<T, U> {
    let zero = lit::<T>(0, 1);
    let start = boarded(launched(cfg, seed), told_noise(cfg));
    SessionState {
        cfg,
        sim: start.sim,
        filter: start.filter,
        seed,
        last_truth: starting_truth(),
        est_trail: Seq::empty(),
        truth_trail: Seq::empty(),
        step_count: 0,
        ema_pos: zero,
        ema_att: zero,
        ema_nees: lit::<T>(3, 1),
        inst_pos: zero,
        pulse: Seq::new(N_SENSORS as nat, |i: int| lit::<U>(0, 1)),
        sensor_stats: Seq::new(N_SENSORS as nat, |i: int| no_stat::<U>()),
        snapshot,
    }
}

/// The seed of the flight after this one.
pub open spec fn next_seed(seed: u64) -> u64 {
    seed.wrapping_mul(6_364_136_223_846_793_005).wrapping_add(1)
}

/// Three components, narrowed.
pub open spec fn narrowed3<U: Real, T: Narrow<U>>(v: V3<T>) -> Seq<U> {
    seq![narrowed::<U, T>(v[0]), narrowed::<U, T>(v[1]), narrowed::<U, T>(v[2])]
}

/// The components of a quaternion, scalar first, narrowed.
pub open spec fn narrowed4<U: Real, T: Narrow<U>>(q: Quat<T>) -> Seq<U> {
    seq![
        narrowed::<U, T>(q.w),
        narrowed::<U, T>(q.x),
        narrowed::<U, T>(q.y),
        narrowed::<U, T>(q.z),
    ]
}

/// The leading `n × n` entries of a matrix, row by row, narrowed.
pub open spec fn flattened<U: Real, T: Narrow<U>>(p: Grid<T>, n: nat) -> Seq<U> {
    Seq::new(n * n, |k: int| narrowed::<U, T>(p[k / n as int][k % n as int]))
}

/// The trail with a point more, and without its oldest one if it was full.
pub open spec fn extended<U: Real, T: Narrow<U>>(trail: Seq<U>, p: V3<T>) -> Seq<U> {
    (if trail.len() >= TRAIL_MAX * 3 {
        trail.skip(3)
    } else {
        trail
    }) + narrowed3(p)
}

/// A trail is whole points, and no more of them than it may hold.
pub open spec fn is_trail<U>(trail: Seq<U>) -> bool {
    trail.len() % 3 == 0 && trail.len() <= TRAIL_MAX * 3
}

/// Appends a point to a trail, dropping the oldest point where the trail is full.
pub fn push_trail<U: Real, T: Narrow<U>>(trail: &mut Vec<U>, p: V3<T>)
    requires
        is_trail(old(trail)@),
    ensures
        is_trail(final(trail)@),
        final(trail)@.len() == (if old(trail)@.len() == TRAIL_MAX * 3 {
            (TRAIL_MAX * 3) as nat
        } else {
            old(trail)@.len() + 3
        }),
        narrows::<U, T>() ==> final(trail)@ == extended(old(trail)@, p),
{
    let ghost before = trail@;
    if trail.len() >= TRAIL_MAX * 3 {
        trail.remove(0);
        trail.remove(0);
        trail.remove(0);
        assert(trail@ =~= before.skip(3));
    }
    trail.push(p[0].narrow());
    trail.push(p[1].narrow());
    trail.push(p[2].narrow());
    assert(narrows::<U, T>() ==> trail@ =~= extended(before, p));
}

fn push3<U: Real, T: Narrow<U>>(o: &mut Vec<U>, v: V3<T>)
    ensures
        final(o)@.len() == old(o)@.len() + 3,
        narrows::<U, T>() ==> final(o)@ == old(o)@ + narrowed3::<U, T>(v),
{
    let ghost before = o@;
    o.push(v[0].narrow());
    o.push(v[1].narrow());
    o.push(v[2].narrow());
    assert(narrows::<U, T>() ==> o@ =~= before + narrowed3::<U, T>(v));
}

fn push4<U: Real, T: Narrow<U>>(o: &mut Vec<U>, q: Quat<T>)
    ensures
        final(o)@.len() == old(o)@.len() + 4,
        narrows::<U, T>() ==> final(o)@ == old(o)@ + narrowed4::<U, T>(q),
{
    let ghost before = o@;
    o.push(q.w.narrow());
    o.push(q.x.narrow());
    o.push(q.y.narrow());
    o.push(q.z.narrow());
    assert(narrows::<U, T>() ==> o@ =~= before + narrowed4::<U, T>(q));
}

/// The beacon positions, flattened.
pub open spec fn beacon_points<U: Real, T: Narrow<U>>() -> Seq<U> {
    narrowed3::<U, T>(anchors::<T>()[0]) + narrowed3::<U, T>(anchors::<T>()[1]) + narrowed3::<U, T>(
        anchors::<T>()[2],
    ) + narrowed3::<U, T>(anchors::<T>()[3])
}

/// The fixed beacon positions, flattened, so that a viewer can draw them.
pub fn beacon_positions<U: Real, T: Narrow<U>>() -> (out: Vec<U>)
    ensures
        out@.len() == 12,
        functional::<T>() && narrows::<U, T>() ==> out@ == beacon_points::<U, T>(),
{
    let b = beacons::<T>();
    let mut out: Vec<U> = Vec::new();
    push3(&mut out, b[0]);
    push3(&mut out, b[1]);
    push3(&mut out, b[2]);
    push3(&mut out, b[3]);
    assert(functional::<T>() && narrows::<U, T>() ==> out@ =~= beacon_points::<U, T>());
    out
}

/// The pulses of the sensors that fire on a tick, set; the others a shade fainter.
pub open spec fn pulsed<U: Real, T>(pulse: Seq<U>, tick: Tick<T>) -> Seq<U> {
    Seq::new(
        N_SENSORS as nat,
        |i: int|
            if fires(tick, i) {
                lit::<U>(1, 1)
            } else {
                prod(pulse[i], lit::<U>(94, 100))
            },
    )
}

/// Whether sensor `i` fires on a tick.
pub open spec fn fires<T>(tick: Tick<T>, i: int) -> bool {
    ||| i == S_GPS && tick.gps is Some
    ||| i == S_BARO && tick.baro is Some
    ||| i == S_MAG && tick.mag is Some
    ||| i == S_LIDAR && tick.lidar is Some
    ||| i == S_UWB && tick.uwb is Some
    ||| i == S_FLOW && tick.flow is Some
    ||| i == S_GPS_VEL && tick.gps_vel is Some
    ||| i == S_DVL && tick.dvl is Some
    ||| i == S_ATT && tick.att is Some
}

/// The record of sensor `i` in a log.
pub open spec fn record_of<T>(log: Log<T>, i: int) -> Option<Correction<T>> {
    if i == S_GPS {
        log.gps
    } else if i == S_BARO {
        log.baro
    } else if i == S_MAG {
        log.mag
    } else if i == S_LIDAR {
        log.lidar
    } else if i == S_UWB {
        log.uwb
    } else if i == S_FLOW {
        log.flow
    } else if i == S_GPS_VEL {
        log.gps_vel
    } else if i == S_DVL {
        log.dvl
    } else {
        log.att
    }
}

/// The statistics of sensor `i` after a tick: those of the correction that it made, if it made one.
pub open spec fn stat_after<U: Real, T: Narrow<U>>(
    stat: SensorStat<U>,
    tick: Tick<T>,
    log: Log<T>,
    i: int,
) -> SensorStat<U> {
    match record_of(log, i) {
        Some(u) if fires(tick, i) => stat_of(u),
        _ => stat,
    }
}

/// A running mean drawn a little towards `x`.
pub open spec fn drawn<T: Real>(mean: T, x: T) -> T {
    sum(mean, prod(lit::<T>(2, 100), diff(x, mean)))
}

/// The position NEES of a filter against the truth.
pub open spec fn position_score<T: Real>(f: FilterState<T>, truth: TrueState<T>) -> Option<T> {
    weighed(
        column(v3::subtracted(truth.p, f.nom.p)),
        table(3, 3, |i: int, j: int| f.p[i][j]),
        3,
    )
}

/// The session after one tick.
pub open spec fn advanced<U: Real, T: Narrow<U>>(s: SessionState<T, U>) -> SessionState<T, U> {
    let (tick, sim) = stepped(s.sim);
    let f = driven(s.filter, tick, s.cfg);
    let log = logged(s.filter, tick, guarded(s.cfg));
    let inst_pos = v3::length(v3::subtracted(f.nom.p, tick.truth.p));
    let turn = v3::length(angular_error(tick.truth.q, f.nom.q));
    let leaves_mark = s.step_count % TRAIL_STRIDE as nat == 0;
    SessionState {
        cfg: s.cfg,
        sim,
        filter: f,
        seed: s.seed,
        last_truth: tick.truth,
        est_trail: if leaves_mark {
            extended(s.est_trail, f.nom.p)
        } else {
            s.est_trail
        },
        truth_trail: if leaves_mark {
            extended(s.truth_trail, tick.truth.p)
        } else {
            s.truth_trail
        },
        step_count: s.step_count + 1,
        ema_pos: drawn(s.ema_pos, inst_pos),
        ema_att: drawn(s.ema_att, degrees(turn)),
        ema_nees: match position_score(f, tick.truth) {
            Some(v) => drawn(s.ema_nees, v),
            None => s.ema_nees,
        },
        inst_pos,
        pulse: pulsed(s.pulse, tick),
        sensor_stats: Seq::new(
            N_SENSORS as nat,
            |i: int| stat_after(s.sensor_stats[i], tick, log, i),
        ),
        snapshot: s.snapshot,
    }
}

/// The session after `n` ticks.
pub open spec fn advanced_by<U: Real, T: Narrow<U>>(s: SessionState<T, U>, n: nat) -> SessionState<
    T,
    U,
>
    decreases n,
{
    if n == 0 {
        s
    } else {
        advanced(advanced_by(s, (n - 1) as nat))
    }
}

/// The ticks that a step of `dt` seconds runs: as many as fit, but at least one, and capped so that
/// a stalled viewer cannot set off a spiral of catching up.
pub open spec fn ticks_for<T: Real>(dt: T, imu_rate: T) -> nat {
    let want = rounded(prod(dt, imu_rate));
    if want < 1 {
        1
    } else if want > STEP_MAX {
        STEP_MAX as nat
    } else {
        want as nat
    }
}

/// The root mean square of the three position sigmas.
pub open spec fn position_sigma<T: Real>(p: Grid<T>) -> T {
    let trace = sum(sum(p[0][0], p[1][1]), p[2][2]);
    root(larger(quot(trace, lit::<T>(3, 1)), lit::<T>(0, 1)))
}

/// The numbers of one frame: pose, true pose, position covariance, metrics, time, biases, sensor
/// pulses, and the scale of the uncertainty. The last slot is spare.
pub open spec fn frame<U: Real, T: Narrow<U>>(s: SessionState<T, U>) -> Seq<U> {
    narrowed3::<U, T>(s.filter.nom.p) + narrowed3::<U, T>(s.filter.nom.v) + narrowed4::<U, T>(
        s.filter.nom.q,
    ) + narrowed3::<U, T>(s.last_truth.p) + narrowed4::<U, T>(s.last_truth.q) + flattened::<U, T>(
        s.filter.p,
        3,
    ) + seq![
        narrowed::<U, T>(s.ema_pos),
        narrowed::<U, T>(s.ema_att),
        narrowed::<U, T>(s.ema_nees),
        narrowed::<U, T>(s.sim.t),
    ] + narrowed3::<U, T>(s.filter.nom.accel_bias) + narrowed3::<U, T>(s.filter.nom.gyro_bias)
        + s.pulse + seq![
        narrowed::<U, T>(position_sigma(s.filter.p)),
        narrowed::<U, T>(s.inst_pos),
        s.snapshot[SNAPSHOT_LEN - 1],
    ]
}

/// `x`, or zero.
pub open spec fn or_zero<T: Real>(x: Option<T>) -> T {
    match x {
        Some(v) => v,
        None => lit::<T>(0, 1),
    }
}

/// The statistics of the sensors, four numbers each.
pub open spec fn flat_stats<U>(stats: Seq<SensorStat<U>>) -> Seq<U>
    decreases stats.len(),
{
    if stats.len() == 0 {
        Seq::empty()
    } else {
        let st = stats.last();
        flat_stats(stats.drop_last()) + seq![st.dim, st.nis, st.innov, st.accepted]
    }
}

/// The payload of the analytics view.
pub open spec fn payload<U: Real, T: Narrow<U>>(s: SessionState<T, U>) -> Seq<U> {
    let n = s.filter.nom;
    let t = s.last_truth;
    narrowed3::<U, T>(n.p) + narrowed3::<U, T>(n.v) + narrowed4::<U, T>(n.q) + narrowed3::<U, T>(
        n.accel_bias,
    ) + narrowed3::<U, T>(n.gyro_bias) + narrowed3::<U, T>(t.p) + narrowed3::<U, T>(t.v)
        + narrowed4::<U, T>(t.q) + Seq::new(
        N as nat,
        |i: int| narrowed::<U, T>(error_column(n, t)[i][0]),
    ) + flattened::<U, T>(s.filter.p, N as nat) + seq![
        narrowed::<U, T>(or_zero(position_score(s.filter, t))),
        narrowed::<U, T>(or_zero(weighed(error_column(n, t), s.filter.p, N as nat))),
        narrowed::<U, T>(s.sim.t),
    ] + flat_stats(s.sensor_stats)
}

/// The newest point is at the end of a trail, and the points before it are the latest ones of the
/// trail as it was.
pub proof fn trail_keeps_the_newest<U: Real, T: Narrow<U>>(trail: Seq<U>, p: V3<T>)
    requires
        is_trail(trail),
    ensures
        ({
            let next = extended::<U, T>(trail, p);
            let kept = (next.len() - 3) as nat;
            &&& is_trail(next)
            &&& next.skip(kept as int) == narrowed3::<U, T>(p)
            &&& kept == (if trail.len() == TRAIL_MAX * 3 {
                trail.len() - 3
            } else {
                trail.len() as int
            })
            &&& next.take(kept as int) == trail.skip(trail.len() - kept)
        }),
{
    let next = extended::<U, T>(trail, p);
    let kept = next.len() - 3;
    assert(next.skip(kept) =~= narrowed3::<U, T>(p));
    assert(next.take(kept) =~= trail.skip(trail.len() - kept));
}

/// The statistics take four slots to a sensor.
proof fn lemma_flat_stats<U>(stats: Seq<SensorStat<U>>, i: int)
    requires
        0 <= i < stats.len(),
    ensures
        flat_stats(stats).len() == 4 * stats.len(),
        flat_stats(stats).subrange(4 * i, 4 * i + 4) == seq![
            stats[i].dim,
            stats[i].nis,
            stats[i].innov,
            stats[i].accepted,
        ],
    decreases stats.len(),
{
    let init = stats.drop_last();
    let st = stats.last();
    let four = seq![st.dim, st.nis, st.innov, st.accepted];
    if init.len() == 0 {
        assert(flat_stats(init).len() == 0);
        assert(flat_stats(stats).subrange(4 * i, 4 * i + 4) =~= four);
    } else if i == stats.len() - 1 {
        lemma_flat_stats(init, 0);
        assert(flat_stats(stats).subrange(4 * i, 4 * i + 4) =~= four);
    } else {
        lemma_flat_stats(init, i);
        assert(flat_stats(stats).subrange(4 * i, 4 * i + 4) =~= flat_stats(init).subrange(
            4 * i,
            4 * i + 4,
        ));
    }
}

/// Where the parts of the analytics payload stand.
pub proof fn payload_layout<U: Real, T: Narrow<U>>(s: SessionState<T, U>, r: int, c: int, i: int)
    requires
        s.sensor_stats.len() == N_SENSORS,
        0 <= r < N,
        0 <= c < N,
        0 <= i < N_SENSORS,
    ensures
        ({
            let o = payload(s);
            let n = s.filter.nom;
            let t = s.last_truth;
            let st = s.sensor_stats[i];
            &&& o.len() == ANALYTICS_LEN
            &&& o.subrange(0, 16) == narrowed3::<U, T>(n.p) + narrowed3::<U, T>(n.v) + narrowed4::<
                U,
                T,
            >(n.q) + narrowed3::<U, T>(n.accel_bias) + narrowed3::<U, T>(n.gyro_bias)
            &&& o.subrange(16, 26) == narrowed3::<U, T>(t.p) + narrowed3::<U, T>(t.v) + narrowed4::<
                U,
                T,
            >(t.q)
            &&& o[26 + r] == narrowed::<U, T>(error_column(n, t)[r][0])
            &&& o[41 + (N * r + c)] == narrowed::<U, T>(s.filter.p[r][c])
            &&& o[266] == narrowed::<U, T>(or_zero(position_score(s.filter, t)))
            &&& o[267] == narrowed::<U, T>(
                or_zero(weighed(error_column(n, t), s.filter.p, N as nat)),
            )
            &&& o[268] == narrowed::<U, T>(s.sim.t)
            &&& o.subrange(269 + 4 * i, 273 + 4 * i) == seq![st.dim, st.nis, st.innov, st.accepted]
        }),
{
    let o = payload(s);
    let n = s.filter.nom;
    let t = s.last_truth;
    lemma_flat_stats(s.sensor_stats, i);
    let k = N * r + c;
    assert(k / N as int == r && k % N as int == c) by (nonlinear_arith)
        requires
            k == 15 * r + c,
            N == 15,
            0 <= c < 15,
            0 <= r,
    ;
    assert(o.subrange(0, 16) =~= narrowed3::<U, T>(n.p) + narrowed3::<U, T>(n.v) + narrowed4::<
        U,
        T,
    >(n.q) + narrowed3::<U, T>(n.accel_bias) + narrowed3::<U, T>(n.gyro_bias));
    assert(o.subrange(16, 26) =~= narrowed3::<U, T>(t.p) + narrowed3::<U, T>(t.v) + narrowed4::<
        U,
        T,
    >(t.q));
    assert(o.subrange(269 + 4 * i, 273 + 4 * i) =~= flat_stats(s.sensor_stats).subrange(
        4 * i,
        4 * i + 4,
    ));
}

/// Where the parts of a frame stand.
pub proof fn frame_layout<U: Real, T: Narrow<U>>(s: SessionState<T, U>, r: int, c: int, i: int)
    requires
        s.pulse.len() == N_SENSORS,
        s.snapshot.len() == SNAPSHOT_LEN,
        0 <= r < 3,
        0 <= c < 3,
        0 <= i < N_SENSORS,
    ensures
        ({
            let f = frame(s);
            let n = s.filter.nom;
            &&& f.len() == SNAPSHOT_LEN
            &&& f.subrange(0, 3) == narrowed3::<U, T>(n.p)
            &&& f.subrange(3, 6) == narrowed3::<U, T>(n.v)
            &&& f.subrange(6, 10) == narrowed4::<U, T>(n.q)
            &&& f.subrange(10, 13) == narrowed3::<U, T>(s.last_truth.p)
            &&& f.subrange(13, 17) == narrowed4::<U, T>(s.last_truth.q)
            &&& f[17 + 3 * r + c] == narrowed::<U, T>(s.filter.p[r][c])
            &&& f[26] == narrowed::<U, T>(s.ema_pos)
            &&& f[27] == narrowed::<U, T>(s.ema_att)
            &&& f[28] == narrowed::<U, T>(s.ema_nees)
            &&& f[29] == narrowed::<U, T>(s.sim.t)
            &&& f.subrange(30, 33) == narrowed3::<U, T>(n.accel_bias)
            &&& f.subrange(33, 36) == narrowed3::<U, T>(n.gyro_bias)
            &&& f[36 + i] == s.pulse[i]
            &&& f[45] == narrowed::<U, T>(position_sigma(s.filter.p))
            &&& f[46] == narrowed::<U, T>(s.inst_pos)
            &&& f[47] == s.snapshot[47]
        }),
{
    let f = frame(s);
    let n = s.filter.nom;
    assert(f.subrange(0, 3) =~= narrowed3::<U, T>(n.p));
    assert(f.subrange(3, 6) =~= narrowed3::<U, T>(n.v));
    assert(f.subrange(6, 10) =~= narrowed4::<U, T>(n.q));
    assert(f.subrange(10, 13) =~= narrowed3::<U, T>(s.last_truth.p));
    assert(f.subrange(13, 17) =~= narrowed4::<U, T>(s.last_truth.q));
    assert(f.subrange(30, 33) =~= narrowed3::<U, T>(n.accel_bias));
    assert(f.subrange(33, 36) =~= narrowed3::<U, T>(n.gyro_bias));
    assert((3 * r + c) / 3 == r && (3 * r + c) % 3 == c);
}

/// A session flies the very flight that is scored elsewhere: after `k` ticks from a start with these
/// settings and this seed, its simulator is that of the flight, and its filter has been driven through
/// the same ticks from the same start. It differs in what it is told of the noise alone: the IMU terms
/// as they are, so that the uncertainty shown reflects the real one.
pub proof fn session_flies_the_flight<U: Real, T: Narrow<U>>(
    cfg: SimConfig<T>,
    seed: u64,
    snapshot: Seq<U>,
    k: nat,
)
    ensures
        ({
            let s = advanced_by(session_start::<T, U>(cfg, seed, snapshot), k);
            let start = boarded(launched(cfg, seed), told_noise(cfg));
            &&& s.cfg == cfg && s.step_count == k
            &&& (FlightState { sim: s.sim, filter: s.filter }) == followed(start, cfg, k)
            &&& s.sim == airborne(cfg, seed, k).sim
            &&& start.filter.nom == airborne(cfg, seed, 0).filter.nom
            &&& start.filter.p == airborne(cfg, seed, 0).filter.p
        }),
    decreases k,
{
    let start = boarded(launched(cfg, seed), told_noise(cfg));
    flight_is_the_simulation(start, cfg, k);
    flight_is_the_simulation(grounded(cfg, seed), cfg, k);
    if k > 0 {
        session_flies_the_flight::<U, T>(cfg, seed, snapshot, (k - 1) as nat);
    }
}

/// A filter for a session, told the IMU noise of its settings.
pub fn build_filter<T: Real>(sim: &mut Simulator<T>, cfg: &SimConfig<T>) -> (f: Eskf<T>)
    ensures
        final(sim).cfg == old(sim).cfg,
        symmetric(f@.p, N as nat),
        f.noise.accel == cfg.accel_noise,
        f.noise.gyro == cfg.gyro_noise,
        f.noise.accel_bias == cfg.accel_bias_walk,
        f.noise.gyro_bias == cfg.gyro_bias_walk,
        functional::<T>() ==> (FlightState { sim: *final(sim), filter: f@ }) == boarded(
            *old(sim),
            told_noise(*cfg),
        ),
{
    seed_filter(sim, imu_noise(cfg))
}

/// A live session.
pub struct Session<T, U> {
    pub cfg: SimConfig<T>,
    pub sim: Simulator<T>,
    pub filter: Eskf<T>,
    pub seed: u64,
    pub last_truth: TrueState<T>,
    pub est_trail: Vec<U>,
    pub truth_trail: Vec<U>,
    pub step_count: usize,
    pub ema_pos: T,
    pub ema_att: T,
    pub ema_nees: T,
    pub inst_pos: T,
    pub pulse: [U; N_SENSORS],
    pub sensor_stats: [SensorStat<U>; N_SENSORS],
    pub snapshot: Vec<U>,
}

impl<T, U> View for Session<T, U> {
    type V = SessionState<T, U>;

    open spec fn view(&self) -> SessionState<T, U> {
        SessionState {
            cfg: self.cfg,
            sim: self.sim,
            filter: self.filter@,
            seed: self.seed,
            last_truth: self.last_truth,
            est_trail: self.est_trail@,
            truth_trail: self.truth_trail@,
            step_count: self.step_count as nat,
            ema_pos: self.ema_pos,
            ema_att: self.ema_att,
            ema_nees: self.ema_nees,
            inst_pos: self.inst_pos,
            pulse: self.pulse@,
            sensor_stats: self.sensor_stats@,
            snapshot: self.snapshot@,
        }
    }
}

impl<T, U> Session<T, U> {
    /// The simulator runs under the session's settings, the covariance is symmetric, the two trails
    /// run alongside each other, and the snapshot has its length.
    pub open spec fn wf(&self) -> bool {
        &&& self.sim.cfg == self.cfg
        &&& symmetric(self.filter@.p, N as nat)
        &&& is_trail(self.est_trail@)
        &&& is_trail(self.truth_trail@)
        &&& self.est_trail@.len() == self.truth_trail@.len()
        &&& self.snapshot@.len() == SNAPSHOT_LEN
    }
}

/// The true state at the start of a flight.
pub fn initial_truth<T: Real>(sim: &Simulator<T>) -> (r: TrueState<T>)
    ensures
        functional::<T>() ==> r == starting_truth::<T>(),
{
    let t = sim.truth_nominal();
    TrueState { p: t.p, v: t.v, q: t.q, accel_bias: v3::zero(), gyro_bias: v3::zero() }
}

fn blank_stat<U: Real>() -> (r: SensorStat<U>)
    ensures
        functional::<U>() ==> r == no_stat::<U>(),
{
    let zero = U::ratio(0, 1);
    SensorStat { dim: zero, nis: zero, innov: zero, accepted: zero }
}

fn square_of<U: Real, T: Narrow<U>>(o: &mut Vec<U>, f: &Eskf<T>, n: usize)
    requires
        0 < n <= N,
    ensures
        final(o)@.len() == old(o)@.len() + n * n,
        narrows::<U, T>() ==> final(o)@ == old(o)@ + flattened::<U, T>(f@.p, n as nat),
{
    let ghost before = o@;
    let p = f.covariance();
    for r in 0..n
        invariant
            0 < n <= N,
            p@ == f@.p,
            o@.len() == before.len() + r * n,
            forall|k: int| 0 <= k < before.len() ==> #[trigger] o@[k] == before[k],
            narrows::<U, T>() ==> forall|k: int|
                before.len() <= k < o@.len() ==> #[trigger] o@[k] == narrowed::<U, T>(
                    f@.p[(k - before.len()) / n as int][(k - before.len()) % n as int],
                ),
    {
        for c in 0..n
            invariant
                0 < n <= N,
                r < n,
                p@ == f@.p,
                o@.len() == before.len() + r * n + c,
                forall|k: int| 0 <= k < before.len() ==> #[trigger] o@[k] == before[k],
                narrows::<U, T>() ==> forall|k: int|
                    before.len() <= k < o@.len() ==> #[trigger] o@[k] == narrowed::<U, T>(
                        f@.p[(k - before.len()) / n as int][(k - before.len()) % n as int],
                    ),
        {
            assert(p.m[r as int][c as int] == f@.p[r as int][c as int]);
            proof {
                lemma_fundamental_div_mod_converse(r * n + c, n as int, r as int, c as int);
            }
            o.push(p.m[r][c].narrow());
        }
        assert((r + 1) * n == r * n + n) by (nonlinear_arith);
    }
    assert(narrows::<U, T>() ==> o@ =~= before + flattened::<U, T>(f@.p, n as nat));
}

/// Whether sensor `i` fired on a tick, and what it did.
fn outcome<T: Real>(tick: &Tick<T>, log: &Log<T>, i: usize) -> (out: (bool, Option<Correction<T>>))
    requires
        i < N_SENSORS,
    ensures
        out.0 == fires(*tick, i as int),
        out.1 == record_of(*log, i as int),
{
    if i == S_GPS {
        (tick.gps.is_some(), log.gps)
    } else if i == S_BARO {
        (tick.baro.is_some(), log.baro)
    } else if i == S_MAG {
        (tick.mag.is_some(), log.mag)
    } else if i == S_LIDAR {
        (tick.lidar.is_some(), log.lidar)
    } else if i == S_UWB {
        (tick.uwb.is_some(), log.uwb)
    } else if i == S_FLOW {
        (tick.flow.is_some(), log.flow)
    } else if i == S_GPS_VEL {
        (tick.gps_vel.is_some(), log.gps_vel)
    } else if i == S_DVL {
        (tick.dvl.is_some(), log.dvl)
    } else {
        (tick.att.is_some(), log.att)
    }
}

impl<U: Real, T: Narrow<U>> Session<T, U> {
    /// A session with the default settings, at the start of the flight of `seed`.
    pub fn new(seed: u64) -> (out: Session<T, U>)
        ensures
            out.wf(),
            out.seed == seed,
            out.step_count == 0,
            out.est_trail@.len() == 0,
            functional::<T>() && functional::<U>() ==> out@ == session_start(
                standard_config::<T>(),
                seed,
                Seq::new(SNAPSHOT_LEN as nat, |i: int| lit::<U>(0, 1)),
            ),
    {
        let cfg = SimConfig::<T>::default();
        let mut sim = Simulator::new(cfg, seed);
        let filter = build_filter(&mut sim, &cfg);
        let last_truth = initial_truth(&sim);
        let zero = T::ratio(0, 1);
        let mut snapshot: Vec<U> = Vec::new();
        for i in 0..SNAPSHOT_LEN
            invariant
                snapshot@.len() == i,
                functional::<U>() ==> forall|k: int|
                    0 <= k < i ==> #[trigger] snapshot@[k] == lit::<U>(0, 1),
        {
            snapshot.push(U::ratio(0, 1));
        }
        let out = Session {
            cfg,
            sim,
            filter,
            seed,
            last_truth,
            est_trail: Vec::with_capacity(TRAIL_MAX * 3),
            truth_trail: Vec::with_capacity(TRAIL_MAX * 3),
            step_count: 0,
            ema_pos: zero,
            ema_att: zero,
            ema_nees: T::ratio(3, 1),
            inst_pos: zero,
            pulse: [U::ratio(0, 1);N_SENSORS],
            sensor_stats: [blank_stat();N_SENSORS],
            snapshot,
        };
        assert(functional::<T>() && functional::<U>() ==> out@ =~= session_start(
            standard_config::<T>(),
            seed,
            Seq::new(SNAPSHOT_LEN as nat, |i: int| lit::<U>(0, 1)),
        ));
        out
    }

    /// Restarts from a fresh flight, keeping the settings.
    pub fn reset(&mut self)
        requires
            old(self).wf(),
        ensures
            final(self).wf(),
            final(self).cfg == old(self).cfg,
            final(self).seed == next_seed(old(self).seed),
            final(self).step_count == 0,
            final(self).est_trail@.len() == 0,
            functional::<T>() && functional::<U>() ==> final(self)@ == session_start(
                old(self).cfg,
                next_seed(old(self).seed),
                old(self).snapshot@,
            ),
    {
        self.seed = self.seed.wrapping_mul(6_364_136_223_846_793_005).wrapping_add(1);
        self.sim = Simulator::new(self.cfg, self.seed);
        self.filter = build_filter(&mut self.sim, &self.cfg);
        self.last_truth = initial_truth(&self.sim);
        self.est_trail.clear();
        self.truth_trail.clear();
        self.step_count = 0;
        let zero = T::ratio(0, 1);
        self.ema_pos = zero;
        self.ema_att = zero;
        self.ema_nees = T::ratio(3, 1);
        self.inst_pos = zero;
        self.pulse = [U::ratio(0, 1);N_SENSORS];
        self.sensor_stats = [blank_stat();N_SENSORS];
        assert(functional::<T>() && functional::<U>() ==> self@ =~= session_start(
            self.cfg,
            self.seed,
            self.snapshot@,
        ));
    }

    /// Sets the simulator's noise and, with it, the noise that the filter assumes.
    pub fn set_accel_noise(&mut self, v: T)
        requires
            old(self).wf(),
        ensures
            final(self).wf(),
            final(self)@ == old(self)@.with_settings(
                SimConfig { accel_noise: v, ..old(self)@.cfg },
            ).with_noise(Noise { accel: v, ..old(self)@.filter.noise }),
    {
        self.cfg.accel_noise = v;
        self.sim.cfg.accel_noise = v;
        self.filter.noise.accel = v;
    }

    /// Sets the simulator's noise and, with it, the noise that the filter assumes.
    pub fn set_gyro_noise(&mut self, v: T)
        requires
            old(self).wf(),
        ensures
            final(self).wf(),
            final(self)@ == old(self)@.with_settings(
                SimConfig { gyro_noise: v, ..old(self)@.cfg },
            ).with_noise(Noise { gyro: v, ..old(self)@.filter.noise }),
    {
        self.cfg.gyro_noise = v;
        self.sim.cfg.gyro_noise = v;
        self.filter.noise.gyro = v;
    }

    /// Sets the simulator's noise and, with it, the noise that the filter assumes.
    pub fn set_accel_bias_walk(&mut self, v: T)
        requires
            old(self).wf(),
        ensures
            final(self).wf(),
            final(self)@ == old(self)@.with_settings(
                SimConfig { accel_bias_walk: v, ..old(self)@.cfg },
            ).with_noise(Noise { accel_bias: v, ..old(self)@.filter.noise }),
    {
        self.cfg.accel_bias_walk = v;
        self.sim.cfg.accel_bias_walk = v;
        self.filter.noise.accel_bias = v;
    }

    /// Sets the simulator's noise and, with it, the noise that the filter assumes.
    pub fn set_gyro_bias_walk(&mut self, v: T)
        requires
            old(self).wf(),
        ensures
            final(self).wf(),
            final(self)@ == old(self)@.with_settings(
                SimConfig { gyro_bias_walk: v, ..old(self)@.cfg },
            ).with_noise(Noise { gyro_bias: v, ..old(self)@.filter.noise }),
    {
        self.cfg.gyro_bias_walk = v;
        self.sim.cfg.gyro_bias_walk = v;
        self.filter.noise.gyro_bias = v;
    }

    /// Sets the noise of the GPS.
    pub fn set_gps_noise(&mut self, v: T)
        requires
            old(self).wf(),
        ensures
            final(self).wf(),
            final(self)@ == old(self)@.with_settings(
                SimConfig { gps_noise: v, ..old(self)@.cfg },
            ),
    {
        self.cfg.gps_noise = v;
        self.sim.cfg.gps_noise = v;
    }

    /// Sets the noise of the barometer.
    pub fn set_baro_noise(&mut self, v: T)
        requires
            old(self).wf(),
        ensures
            final(self).wf(),
            final(self)@ == old(self)@.with_settings(
                SimConfig { baro_noise: v, ..old(self)@.cfg },
            ),
    {
        self.cfg.baro_noise = v;
        self.sim.cfg.baro_noise = v;
    }

    /// Sets the noise of the magnetometer.
    pub fn set_mag_noise(&mut self, v: T)
        requires
            old(self).wf(),
        ensures
            final(self).wf(),
            final(self)@ == old(self)@.with_settings(
                SimConfig { mag_noise: v, ..old(self)@.cfg },
            ),
    {
        self.cfg.mag_noise = v;
        self.sim.cfg.mag_noise = v;
    }

    /// Sets the noise of the altimeter.
    pub fn set_lidar_noise(&mut self, v: T)
        requires
            old(self).wf(),
        ensures
            final(self).wf(),
            final(self)@ == old(self)@.with_settings(
                SimConfig { lidar_noise: v, ..old(self)@.cfg },
            ),
    {
        self.cfg.lidar_noise = v;
        self.sim.cfg.lidar_noise = v;
    }

    /// Sets the noise of the radio ranging.
    pub fn set_uwb_noise(&mut self, v: T)
        requires
            old(self).wf(),
        ensures
            final(self).wf(),
            final(self)@ == old(self)@.with_settings(
                SimConfig { uwb_noise: v, ..old(self)@.cfg },
            ),
    {
        self.cfg.uwb_noise = v;
        self.sim.cfg.uwb_noise = v;
    }

    /// Sets the noise of the optical flow.
    pub fn set_flow_noise(&mut self, v: T)
        requires
            old(self).wf(),
        ensures
            final(self).wf(),
            final(self)@ == old(self)@.with_settings(
                SimConfig { flow_noise: v, ..old(self)@.cfg },
            ),
    {
        self.cfg.flow_noise = v;
        self.sim.cfg.flow_noise = v;
    }

    /// Sets the noise of the GPS velocity.
    pub fn set_gps_vel_noise(&mut self, v: T)
        requires
            old(self).wf(),
        ensures
            final(self).wf(),
            final(self)@ == old(self)@.with_settings(
                SimConfig { gps_vel_noise: v, ..old(self)@.cfg },
            ),
    {
        self.cfg.gps_vel_noise = v;
        self.sim.cfg.gps_vel_noise = v;
    }

    /// Sets the noise of the body-frame velocity.
    pub fn set_dvl_noise(&mut self, v: T)
        requires
            old(self).wf(),
        ensures
            final(self).wf(),
            final(self)@ == old(self)@.with_settings(
                SimConfig { dvl_noise: v, ..old(self)@.cfg },
            ),
    {
        self.cfg.dvl_noise = v;
        self.sim.cfg.dvl_noise = v;
    }

    /// Sets the noise of the attitude fix.
    pub fn set_att_noise(&mut self, v: T)
        requires
            old(self).wf(),
        ensures
            final(self).wf(),
            final(self)@ == old(self)@.with_settings(
                SimConfig { att_noise: v, ..old(self)@.cfg },
            ),
    {
        self.cfg.att_noise = v;
        self.sim.cfg.att_noise = v;
    }

    /// Switches the GPS on or off.
    pub fn set_gps_enabled(&mut self, on: bool)
        requires
            old(self).wf(),
        ensures
            final(self).wf(),
            final(self)@ == old(self)@.with_settings(
                SimConfig { gps_enabled: on, ..old(self)@.cfg },
            ),
    {
        self.cfg.gps_enabled = on;
        self.sim.cfg.gps_enabled = on;
    }

    /// Switches the barometer on or off.
    pub fn set_baro_enabled(&mut self, on: bool)
        requires
            old(self).wf(),
        ensures
            final(self).wf(),
            final(self)@ == old(self)@.with_settings(
                SimConfig { baro_enabled: on, ..old(self)@.cfg },
            ),
    {
        self.cfg.baro_enabled = on;
        self.sim.cfg.baro_enabled = on;
    }

    /// Switches the magnetometer on or off.
    pub fn set_mag_enabled(&mut self, on: bool)
        requires
            old(self).wf(),
        ensures
            final(self).wf(),
            final(self)@ == old(self)@.with_settings(
                SimConfig { mag_enabled: on, ..old(self)@.cfg },
            ),
    {
        self.cfg.mag_enabled = on;
        self.sim.cfg.mag_enabled = on;
    }

    /// Switches the altimeter on or off.
    pub fn set_lidar_enabled(&mut self, on: bool)
        requires
            old(self).wf(),
        ensures
            final(self).wf(),
            final(self)@ == old(self)@.with_settings(
                SimConfig { lidar_enabled: on, ..old(self)@.cfg },
            ),
    {
        self.cfg.lidar_enabled = on;
        self.sim.cfg.lidar_enabled = on;
    }

    /// Switches the radio ranging on or off.
    pub fn set_uwb_enabled(&mut self, on: bool)
        requires
            old(self).wf(),
        ensures
            final(self).wf(),
            final(self)@ == old(self)@.with_settings(
                SimConfig { uwb_enabled: on, ..old(self)@.cfg },
            ),
    {
        self.cfg.uwb_enabled = on;
        self.sim.cfg.uwb_enabled = on;
    }

    /// Switches the optical flow on or off.
    pub fn set_flow_enabled(&mut self, on: bool)
        requires
            old(self).wf(),
        ensures
            final(self).wf(),
            final(self)@ == old(self)@.with_settings(
                SimConfig { flow_enabled: on, ..old(self)@.cfg },
            ),
    {
        self.cfg.flow_enabled = on;
        self.sim.cfg.flow_enabled = on;
    }

    /// Switches the GPS velocity on or off.
    pub fn set_gps_vel_enabled(&mut self, on: bool)
        requires
            old(self).wf(),
        ensures
            final(self).wf(),
            final(self)@ == old(self)@.with_settings(
                SimConfig { gps_vel_enabled: on, ..old(self)@.cfg },
            ),
    {
        self.cfg.gps_vel_enabled = on;
        self.sim.cfg.gps_vel_enabled = on;
    }

    /// Switches the body-frame velocity on or off.
    pub fn set_dvl_enabled(&mut self, on: bool)
        requires
            old(self).wf(),
        ensures
            final(self).wf(),
            final(self)@ == old(self)@.with_settings(
                SimConfig { dvl_enabled: on, ..old(self)@.cfg },
            ),
    {
        self.cfg.dvl_enabled = on;
        self.sim.cfg.dvl_enabled = on;
    }

    /// Switches the attitude fix on or off.
    pub fn set_att_enabled(&mut self, on: bool)
        requires
            old(self).wf(),
        ensures
            final(self).wf(),
            final(self)@ == old(self)@.with_settings(
                SimConfig { att_enabled: on, ..old(self)@.cfg },
            ),
    {
        self.cfg.att_enabled = on;
        self.sim.cfg.att_enabled = on;
    }

    /// Advances by `dt` seconds of the viewer's time, running the matching number of ticks.
    pub fn step(&mut self, dt: T)
        requires
            old(self).wf(),
            old(self).step_count <= usize::MAX - STEP_MAX,
        ensures
            final(self).wf(),
            final(self).cfg == old(self).cfg,
            final(self).seed == old(self).seed,
            1 <= final(self).step_count - old(self).step_count <= STEP_MAX,
            functional::<T>() && functional::<U>() && narrows::<U, T>() ==> ({
                let s = advanced_by(old(self)@, ticks_for(dt, old(self).cfg.imu_rate));
                final(self)@ == (SessionState { snapshot: frame(s), ..s })
            }),
    {
        let want: usize = dt.times(self.cfg.imu_rate).round_usize();
        let n: usize = if want < 1 {
            1
        } else if want > STEP_MAX {
            STEP_MAX
        } else {
            want
        };
        let ghost before = self@;
        for i in 0..n
            invariant
                self.wf(),
                n <= STEP_MAX,
                before == old(self)@,
                self.cfg == before.cfg,
                self.seed == before.seed,
                self.step_count == before.step_count + i,
                before.step_count <= usize::MAX - STEP_MAX,
                functional::<T>() && functional::<U>() && narrows::<U, T>() ==> self@
                    == advanced_by(before, i as nat),
        {
            self.advance_one();
        }
        self.write_snapshot();
    }

    /// Runs one tick.
    pub fn advance_one(&mut self)
        requires
            old(self).wf(),
            old(self).step_count < usize::MAX,
        ensures
            final(self).wf(),
            final(self).cfg == old(self).cfg,
            final(self).seed == old(self).seed,
            final(self).step_count == old(self).step_count + 1,
            final(self).snapshot@ == old(self).snapshot@,
            functional::<T>() && functional::<U>() && narrows::<U, T>() ==> final(self)@ == advanced(
                old(self)@,
            ),
    {
        let ghost before = self@;
        self.fade();
        let ghost faint = self.pulse@;

        let tick = self.sim.step();
        let sigmas = guard(&self.cfg);
        let log = fuse(&mut self.filter, &tick, &sigmas);
        self.flag(&tick, &log);
        self.last_truth = tick.truth;

        let dp = v3::sub(self.filter.nom.p, tick.truth.p);
        let dth = boxminus(tick.truth.q, self.filter.nom.q);
        let a = T::ratio(2, 100);
        self.inst_pos = v3::norm(dp);
        self.ema_pos = self.ema_pos.plus(a.times(self.inst_pos.minus(self.ema_pos)));
        self.ema_att =
        self.ema_att.plus(a.times(v3::norm(dth).to_degrees().minus(self.ema_att)));
        if let Some(v) = position_nees(&self.filter.nom, &tick.truth, self.filter.covariance()) {
            self.ema_nees = self.ema_nees.plus(a.times(v.minus(self.ema_nees)));
        }
        if self.step_count % TRAIL_STRIDE == 0 {
            push_trail(&mut self.est_trail, self.filter.nom.p);
            push_trail(&mut self.truth_trail, tick.truth.p);
        }
        self.step_count = self.step_count + 1;
        assert(functional::<T>() && functional::<U>() && narrows::<U, T>() ==> self@ =~= advanced(
            before,
        ));
    }

    /// Fades the activity pulses.
    fn fade(&mut self)
        ensures
            functional::<U>() ==> forall|i: int|
                0 <= i < N_SENSORS ==> #[trigger] final(self).pulse[i] == prod(
                    old(self).pulse[i],
                    lit::<U>(94, 100),
                ),
            final(self)@ == (SessionState { pulse: final(self).pulse@, ..old(self)@ }),
    {
        for i in 0..N_SENSORS
            invariant
                functional::<U>() ==> forall|k: int|
                    0 <= k < i ==> #[trigger] self.pulse[k] == prod(
                        old(self).pulse[k],
                        lit::<U>(94, 100),
                    ),
                forall|k: int|
                    i <= k < N_SENSORS ==> #[trigger] self.pulse[k] == old(self).pulse[k],
                self@ == (SessionState { pulse: self.pulse@, ..old(self)@ }),
        {
            self.pulse[i] = self.pulse[i].times(U::ratio(94, 100));
        }
    }

    /// Flags every sensor that fired on a tick, and keeps what it did.
    fn flag(&mut self, tick: &Tick<T>, log: &Log<T>)
        ensures
            functional::<U>() ==> forall|i: int|
                0 <= i < N_SENSORS ==> #[trigger] final(self).pulse[i] == (if fires(*tick, i) {
                    lit::<U>(1, 1)
                } else {
                    old(self).pulse[i]
                }),
            functional::<U>() && narrows::<U, T>() ==> forall|i: int|
                0 <= i < N_SENSORS ==> #[trigger] final(self).sensor_stats[i] == stat_after(
                    old(self).sensor_stats[i],
                    *tick,
                    *log,
                    i,
                ),
            final(self)@ == (SessionState {
                pulse: final(self).pulse@,
                sensor_stats: final(self).sensor_stats@,
                ..old(self)@
            }),
    {
        let ghost before = self@;
        for i in 0..N_SENSORS
            invariant
                before == old(self)@,
                functional::<U>() ==> forall|k: int|
                    0 <= k < i ==> #[trigger] self.pulse[k] == (if fires(*tick, k) {
                        lit::<U>(1, 1)
                    } else {
                        before.pulse[k]
                    }),
                functional::<U>() && narrows::<U, T>() ==> forall|k: int|
                    0 <= k < i ==> #[trigger] self.sensor_stats[k] == stat_after(
                        before.sensor_stats[k],
                        *tick,
                        *log,
                        k,
                    ),
                functional::<U>() ==> forall|k: int|
                    i <= k < N_SENSORS ==> #[trigger] self.pulse[k] == before.pulse[k],
                functional::<U>() && narrows::<U, T>() ==> forall|k: int|
                    i <= k < N_SENSORS ==> #[trigger] self.sensor_stats[k]
                        == before.sensor_stats[k],
                self@ == (SessionState {
                    pulse: self.pulse@,
                    sensor_stats: self.sensor_stats@,
                    ..before
                }),
        {
            let (fired, record) = outcome(tick, log, i);
            if fired {
                self.mark(i, record);
            }
        }
    }

    /// Flags a sensor as having just fired, and mirrors what its last correction did, if it made
    /// one, for the analytics view.
    pub fn mark(&mut self, sensor: usize, last_update: Option<Correction<T>>)
        requires
            sensor < N_SENSORS,
        ensures
            old(self).wf() ==> final(self).wf(),
            functional::<U>() ==> final(self).pulse@ == old(self).pulse@.update(
                sensor as int,
                lit::<U>(1, 1),
            ),
            last_update is None ==> final(self).sensor_stats@ == old(self).sensor_stats@,
            functional::<U>() && narrows::<U, T>() && last_update is Some
                ==> final(self).sensor_stats@ == old(self).sensor_stats@.update(
                sensor as int,
                stat_of(last_update->0),
            ),
            final(self)@ == (SessionState {
                pulse: final(self).pulse@,
                sensor_stats: final(self).sensor_stats@,
                ..old(self)@
            }),
    {
        self.pulse[sensor] = U::ratio(1, 1);
        if let Some(u) = last_update {
            self.sensor_stats[sensor] = SensorStat {
                dim: U::from_u64(u.dim),
                nis: u.nis.narrow(),
                innov: u.innovation_norm.narrow(),
                accepted: if u.accepted {
                    U::ratio(1, 1)
                } else {
                    U::ratio(0, 1)
                },
            };
        }
    }

    /// The payload of the analytics view, computed only when the view asks for it:
    ///   `[0..16]` nominal p(3) v(3) q(4) accel_bias(3) gyro_bias(3),
    ///   `[16..26]` truth p(3) v(3) q(4),
    ///   `[26..41]` error δp(3) δv(3) δθ(3) δa_b(3) δω_b(3),
    ///   `[41..266]` covariance, row by row,
    ///   `[266]` position NEES, `[267]` full-state NEES, `[268]` time,
    ///   `[269..305]` per sensor: dimension, NIS, innovation norm, accepted.
    pub fn analytics(&self) -> (o: Vec<U>)
        ensures
            o@.len() == ANALYTICS_LEN,
            functional::<T>() && functional::<U>() && narrows::<U, T>() ==> o@ == payload(self@),
    {
        let n = &self.filter.nom;
        let t = &self.last_truth;
        let mut o: Vec<U> = Vec::new();
        push3(&mut o, n.p);
        assert(narrows::<U, T>() ==> o@ =~= narrowed3::<U, T>(n.p));
        push3(&mut o, n.v);
        push4(&mut o, n.q);
        push3(&mut o, n.accel_bias);
        push3(&mut o, n.gyro_bias);
        push3(&mut o, t.p);
        push3(&mut o, t.v);
        push4(&mut o, t.q);

        let e = error_state(n, t);
        let ghost pose = o@;
        for i in 0..N
            invariant
                functional::<T>() ==> e@ == error_column(*n, *t),
                o@.len() == pose.len() + i,
                functional::<T>() && narrows::<U, T>() ==> o@ == pose + Seq::new(
                    i as nat,
                    |k: int| narrowed::<U, T>(error_column(*n, *t)[k][0]),
                ),
        {
            assert(e.m[i as int][0] == e@[i as int][0]);
            o.push(e.m[i][0].narrow());
            assert(functional::<T>() && narrows::<U, T>() ==> o@ =~= pose + Seq::new(
                (i + 1) as nat,
                |k: int| narrowed::<U, T>(error_column(*n, *t)[k][0]),
            ));
        }
        square_of(&mut o, &self.filter, N);

        let p = self.filter.covariance();
        let position = match position_nees(n, t, p) {
            Some(v) => v,
            None => T::ratio(0, 1),
        };
        let full = match nees(n, t, p) {
            Some(v) => v,
            None => T::ratio(0, 1),
        };
        let ghost body = o@;
        o.push(position.narrow());
        o.push(full.narrow());
        o.push(self.sim.time().narrow());
        assert(functional::<T>() && narrows::<U, T>() ==> o@ =~= body + seq![
            narrowed::<U, T>(or_zero(position_score(self.filter@, *t))),
            narrowed::<U, T>(or_zero(weighed(error_column(*n, *t), self.filter@.p, N as nat))),
            narrowed::<U, T>(self.sim.t),
        ]);
        let ghost numbers = o@;
        let ghost stats = self.sensor_stats@;
        assert(numbers + flat_stats(stats.take(0)) =~= numbers);
        for i in 0..N_SENSORS
            invariant
                stats == self.sensor_stats@,
                numbers.len() == 269,
                o@.len() == 269 + 4 * i,
                o@ == numbers + flat_stats(stats.take(i as int)),
        {
            assert(stats.take(i as int + 1).drop_last() =~= stats.take(i as int));
            let st = self.sensor_stats[i];
            let ghost so_far = o@;
            o.push(st.dim);
            o.push(st.nis);
            o.push(st.innov);
            o.push(st.accepted);
            assert(o@ =~= so_far + seq![st.dim, st.nis, st.innov, st.accepted]);
            assert(o@ =~= numbers + flat_stats(stats.take(i as int + 1)));
        }
        assert(stats.take(N_SENSORS as int) =~= stats);
        o
    }

    /// Writes the numbers of this frame.
    pub fn write_snapshot(&mut self)
        requires
            old(self).wf(),
        ensures
            final(self).wf(),
            final(self)@ == (SessionState { snapshot: final(self).snapshot@, ..old(self)@ }),
            functional::<T>() && narrows::<U, T>() ==> final(self).snapshot@ == frame(old(self)@),
    {
        let mut s: Vec<U> = Vec::new();
        let n = self.filter.nom;
        let truth = self.last_truth;
        push3(&mut s, n.p);
        assert(narrows::<U, T>() ==> s@ =~= narrowed3::<U, T>(n.p));
        push3(&mut s, n.v);
        push4(&mut s, n.q);
        push3(&mut s, truth.p);
        push4(&mut s, truth.q);
        square_of(&mut s, &self.filter, 3);
        let ghost pose = s@;
        s.push(self.ema_pos.narrow());
        s.push(self.ema_att.narrow());
        s.push(self.ema_nees.narrow());
        s.push(self.sim.time().narrow());
        assert(narrows::<U, T>() ==> s@ =~= pose + seq![
            narrowed::<U, T>(self.ema_pos),
            narrowed::<U, T>(self.ema_att),
            narrowed::<U, T>(self.ema_nees),
            narrowed::<U, T>(self.sim.t),
        ]);
        push3(&mut s, n.accel_bias);
        push3(&mut s, n.gyro_bias);
        let ghost metrics = s@;
        for i in 0..N_SENSORS
            invariant
                s@.len() == metrics.len() + i,
                s@ == metrics + self.pulse@.take(i as int),
        {
            s.push(self.pulse[i]);
            assert(s@ =~= metrics + self.pulse@.take(i as int + 1));
        }
        assert(self.pulse@.take(N_SENSORS as int) =~= self.pulse@);
        let cov = self.filter.position_covariance();
        let ghost p = self.filter@.p;
        assert(cov.m[0][0] == cov@[0][0] && cov.m[1][1] == cov@[1][1] && cov.m[2][2] == cov@[2][2]);
        let trace = cov.m[0][0].plus(cov.m[1][1]).plus(cov.m[2][2]);
        let spread = trace.over(T::ratio(3, 1)).max(T::ratio(0, 1)).sqrt();
        let ghost pulses = s@;
        s.push(spread.narrow());
        s.push(self.inst_pos.narrow());
        s.push(self.snapshot[SNAPSHOT_LEN - 1]);
        assert(functional::<T>() && narrows::<U, T>() ==> s@ =~= pulses + seq![
            narrowed::<U, T>(position_sigma(p)),
            narrowed::<U, T>(self.inst_pos),
            self.snapshot@[SNAPSHOT_LEN - 1],
        ]);
        self.snapshot = s;
    }

    /// The numbers of the last frame.
    pub fn snapshot(&self) -> (out: Vec<U>)
        ensures
            out@ == self.snapshot@,
    {
        let mut out: Vec<U> = Vec::new();
        for i in 0..self.snapshot.len()
            invariant
                out@ == self.snapshot@.take(i as int),
        {
            out.push(self.snapshot[i]);
            assert(out@ =~= self.snapshot@.take(i as int + 1));
        }
        assert(self.snapshot@.take(self.snapshot@.len() as int) =~= self.snapshot@);
        out
    }

    /// The length of the estimated trail, three numbers to a point.
    pub fn est_trail_len(&self) -> (n: usize)
        ensures
            n == self.est_trail@.len(),
    {
        self.est_trail.len()
    }

    /// The length of the true trail, three numbers to a point.
    pub fn truth_trail_len(&self) -> (n: usize)
        ensures
            n == self.truth_trail@.len(),
    {
        self.truth_trail.len()
    }
}

} // verus!
