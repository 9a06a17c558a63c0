//! A flight simulator: the sensor streams that the filter consumes, and the ground truth to score it
//! against.
//!
//! From the analytic trajectory it synthesises a strapdown IMU (specific force and body rate, with
//! bias and white noise) and, at lower rates, the aiding sensors. Every noise term, the random walk
//! of the biases, and the dropout of a sensor can be set.

use vstd::prelude::*;

use crate::filter::{InitialSigma, Nominal};
use crate::linalg::{v3, V3};
use crate::quat::{exp_map, hamilton, rotated_back, rotation_rows, unit, Quat};
use crate::rng::{noisy3_draw, noisy_draw, seeded, Rng};
use crate::scalar::{functional, group_real_ops, less, lit, prod, quot, root, sum, Real};
use crate::trajectory::{
    accel_at, body_rate, true_acceleration, true_body_rate, truth, truth_at, TrueState,
};

verus! {

broadcast use group_real_ops;

/// World magnetic reference direction (unit): mostly north (+x) and downward, ~65° inclination.
pub open spec fn magnetic_north<T: Real>() -> V3<T> {
    [lit::<T>(422_618, 1_000_000), lit::<T>(0, 1), lit::<T>((-906_308) as i64, 1_000_000)]
}

/// World magnetic reference direction.
pub fn mag_reference<T: Real>() -> (r: V3<T>)
    ensures
        functional::<T>() ==> r == magnetic_north::<T>(),
{
    [T::ratio(422_618, 1_000_000), T::ratio(0, 1), T::ratio(-906_308, 1_000_000)]
}

/// Standard gravity, world frame.
pub open spec fn standard_gravity<T: Real>() -> V3<T> {
    [lit::<T>(0, 1), lit::<T>(0, 1), lit::<T>((-980_665) as i64, 100_000)]
}

/// Standard gravity, world frame.
pub fn gravity<T: Real>() -> (r: V3<T>)
    ensures
        functional::<T>() ==> r == standard_gravity::<T>(),
{
    [T::ratio(0, 1), T::ratio(0, 1), T::ratio(-980_665, 100_000)]
}

/// The fixed radio-ranging beacons, world positions in metres.
pub open spec fn anchors<T: Real>() -> [V3<T>; 4] {
    [
        [lit::<T>((-55) as i64, 1), lit::<T>((-55) as i64, 1), lit::<T>(0, 1)],
        [lit::<T>(58, 1), lit::<T>((-50) as i64, 1), lit::<T>(6, 1)],
        [lit::<T>(52, 1), lit::<T>(56, 1), lit::<T>(34, 1)],
        [lit::<T>((-50) as i64, 1), lit::<T>(54, 1), lit::<T>(18, 1)],
    ]
}

/// The fixed radio-ranging beacons.
pub fn beacons<T: Real>() -> (r: [V3<T>; 4])
    ensures
        functional::<T>() ==> r == anchors::<T>(),
{
    [
        [T::ratio(-55, 1), T::ratio(-55, 1), T::ratio(0, 1)],
        [T::ratio(58, 1), T::ratio(-50, 1), T::ratio(6, 1)],
        [T::ratio(52, 1), T::ratio(56, 1), T::ratio(34, 1)],
        [T::ratio(-50, 1), T::ratio(54, 1), T::ratio(18, 1)],
    ]
}

/// Everything a viewer can turn. Rates are in hertz; noise terms are 1-σ.
///
/// The last three sensors are not synthesised by the simulator; their settings are for flights that
/// come from elsewhere.
#[derive(Clone, Copy, Debug)]
pub struct SimConfig<T> {
    pub imu_rate: T,
    pub gps_rate: T,
    pub baro_rate: T,
    pub mag_rate: T,
    /// Accelerometer white noise, m/s².
    pub accel_noise: T,
    /// Gyroscope white noise, rad/s.
    pub gyro_noise: T,
    /// Accelerometer bias random-walk step density, (m/s²)/√s.
    pub accel_bias_walk: T,
    /// Gyroscope bias random-walk step density, (rad/s)/√s.
    pub gyro_bias_walk: T,
    /// GPS horizontal/vertical noise, m.
    pub gps_noise: T,
    /// Barometer noise, m.
    pub baro_noise: T,
    /// Magnetometer noise, unit-vector components.
    pub mag_noise: T,
    /// LiDAR (downward laser altimeter) noise, m, and its rate.
    pub lidar_noise: T,
    pub lidar_rate: T,
    /// Radio ranging noise, m, and its rate (one sweep of every beacon per tick).
    pub uwb_noise: T,
    pub uwb_rate: T,
    /// Optical-flow (body-frame horizontal velocity) noise, m/s, and its rate.
    pub flow_noise: T,
    pub flow_rate: T,
    /// GPS Doppler velocity noise, m/s.
    pub gps_vel_noise: T,
    /// Body-frame Doppler velocity noise, m/s.
    pub dvl_noise: T,
    /// Attitude-fix noise, rad.
    pub att_noise: T,
    pub gps_enabled: bool,
    pub baro_enabled: bool,
    pub mag_enabled: bool,
    pub lidar_enabled: bool,
    pub uwb_enabled: bool,
    pub flow_enabled: bool,
    pub gps_vel_enabled: bool,
    pub dvl_enabled: bool,
    pub att_enabled: bool,
}

/// The default settings: GPS, barometer, magnetometer and LiDAR on.
pub open spec fn standard_config<T: Real>() -> SimConfig<T> {
    SimConfig {
        imu_rate: lit::<T>(200, 1),
        gps_rate: lit::<T>(5, 1),
        baro_rate: lit::<T>(20, 1),
        mag_rate: lit::<T>(40, 1),
        accel_noise: lit::<T>(6, 100),
        gyro_noise: lit::<T>(4, 1000),
        accel_bias_walk: lit::<T>(2, 1000),
        gyro_bias_walk: lit::<T>(2, 10_000),
        gps_noise: lit::<T>(8, 10),
        baro_noise: lit::<T>(6, 10),
        mag_noise: lit::<T>(2, 100),
        lidar_noise: lit::<T>(15, 100),
        lidar_rate: lit::<T>(25, 1),
        uwb_noise: lit::<T>(35, 100),
        uwb_rate: lit::<T>(10, 1),
        flow_noise: lit::<T>(15, 100),
        flow_rate: lit::<T>(30, 1),
        gps_vel_noise: lit::<T>(0, 1),
        dvl_noise: lit::<T>(0, 1),
        att_noise: lit::<T>(0, 1),
        gps_enabled: true,
        baro_enabled: true,
        mag_enabled: true,
        lidar_enabled: true,
        uwb_enabled: false,
        flow_enabled: false,
        gps_vel_enabled: false,
        dvl_enabled: false,
        att_enabled: false,
    }
}

impl<T: Real> Default for SimConfig<T> {
    fn default() -> (r: Self)
        ensures
            functional::<T>() ==> r == standard_config::<T>(),
            r.gps_enabled && r.baro_enabled && r.mag_enabled && r.lidar_enabled,
            !r.uwb_enabled && !r.flow_enabled,
            !r.gps_vel_enabled && !r.dvl_enabled && !r.att_enabled,
    {
        SimConfig {
            imu_rate: T::ratio(200, 1),
            gps_rate: T::ratio(5, 1),
            baro_rate: T::ratio(20, 1),
            mag_rate: T::ratio(40, 1),
            accel_noise: T::ratio(6, 100),
            gyro_noise: T::ratio(4, 1000),
            accel_bias_walk: T::ratio(2, 1000),
            gyro_bias_walk: T::ratio(2, 10_000),
            gps_noise: T::ratio(8, 10),
            baro_noise: T::ratio(6, 10),
            mag_noise: T::ratio(2, 100),
            lidar_noise: T::ratio(15, 100),
            lidar_rate: T::ratio(25, 1),
            uwb_noise: T::ratio(35, 100),
            uwb_rate: T::ratio(10, 1),
            flow_noise: T::ratio(15, 100),
            flow_rate: T::ratio(30, 1),
            gps_vel_noise: T::ratio(0, 1),
            dvl_noise: T::ratio(0, 1),
            att_noise: T::ratio(0, 1),
            gps_enabled: true,
            baro_enabled: true,
            mag_enabled: true,
            lidar_enabled: true,
            uwb_enabled: false,
            flow_enabled: false,
            gps_vel_enabled: false,
            dvl_enabled: false,
            att_enabled: false,
        }
    }
}

/// What one IMU tick produces: an IMU sample always, and the aiding sensors when their turn comes.
#[derive(Clone, Copy, Debug)]
pub struct Tick<T> {
    pub t: T,
    pub dt: T,
    pub truth: TrueState<T>,
    pub accel: V3<T>,
    pub gyro: V3<T>,
    pub gps: Option<V3<T>>,
    pub baro: Option<T>,
    pub mag: Option<V3<T>>,
    pub lidar: Option<T>,
    pub uwb: Option<[T; 4]>,
    pub flow: Option<[T; 2]>,
    pub gps_vel: Option<V3<T>>,
    pub dvl: Option<V3<T>>,
    pub att: Option<Quat<T>>,
}

/// The simulator: its settings, its generator, the time, the true biases, and when each aiding sensor
/// is due next.
pub struct Simulator<T> {
    pub cfg: SimConfig<T>,
    pub rng: Rng<T>,
    pub t: T,
    pub accel_bias: V3<T>,
    pub gyro_bias: V3<T>,
    pub next_gps: T,
    pub next_baro: T,
    pub next_mag: T,
    pub next_lidar: T,
    pub next_uwb: T,
    pub next_flow: T,
}

/// The simulator at the start of a flight.
pub open spec fn launched<T: Real>(cfg: SimConfig<T>, seed: u64) -> Simulator<T> {
    let zero = lit::<T>(0, 1);
    Simulator {
        cfg,
        rng: Rng { state: seeded(seed), spare: None },
        t: zero,
        accel_bias: [lit::<T>(5, 100), lit::<T>((-3) as i64, 100), lit::<T>(2, 100)],
        gyro_bias: [lit::<T>(1, 1000), lit::<T>((-15) as i64, 10_000), lit::<T>(8, 10_000)],
        next_gps: zero,
        next_baro: zero,
        next_mag: zero,
        next_lidar: zero,
        next_uwb: zero,
        next_flow: zero,
    }
}

/// Whether a sensor's clock has come round at time `t`.
pub open spec fn come_round<T: Real>(t: T, next: T) -> bool {
    !less(t, next)
}

/// A sensor's clock after time `t`, whether or not the sensor is enabled: one period on if it has
/// come round.
pub open spec fn clock_after<T: Real>(t: T, next: T, rate: T) -> T {
    if come_round(t, next) {
        sum(next, quot(lit::<T>(1, 1), rate))
    } else {
        next
    }
}

/// The biases after one step of their random walk, and the generator after it.
pub open spec fn walked<T: Real>(
    r: Rng<T>,
    accel: V3<T>,
    gyro: V3<T>,
    aw: T,
    gw: T,
) -> (V3<T>, V3<T>, Rng<T>) {
    let (a0, r1) = noisy_draw(r, accel[0], aw);
    let (g0, r2) = noisy_draw(r1, gyro[0], gw);
    let (a1, r3) = noisy_draw(r2, accel[1], aw);
    let (g1, r4) = noisy_draw(r3, gyro[1], gw);
    let (a2, r5) = noisy_draw(r4, accel[2], aw);
    let (g2, r6) = noisy_draw(r5, gyro[2], gw);
    ([a0, a1, a2], [g0, g1, g2], r6)
}

/// A three-component reading of `v` if the sensor fires.
pub open spec fn read3<T: Real>(r: Rng<T>, fires: bool, v: V3<T>, sigma: T) -> (
    Option<V3<T>>,
    Rng<T>,
) {
    if fires {
        let (z, next) = noisy3_draw(r, v, sigma);
        (Some(z), next)
    } else {
        (None, r)
    }
}

/// A scalar reading of `x` if the sensor fires.
pub open spec fn read1<T: Real>(r: Rng<T>, fires: bool, x: T, sigma: T) -> (Option<T>, Rng<T>) {
    if fires {
        let (z, next) = noisy_draw(r, x, sigma);
        (Some(z), next)
    } else {
        (None, r)
    }
}

/// A two-component reading if the sensor fires.
pub open spec fn read2<T: Real>(r: Rng<T>, fires: bool, x: T, y: T, sigma: T) -> (
    Option<[T; 2]>,
    Rng<T>,
) {
    if fires {
        let (a, r1) = noisy_draw(r, x, sigma);
        let (b, r2) = noisy_draw(r1, y, sigma);
        (Some([a, b]), r2)
    } else {
        (None, r)
    }
}

/// The range from `p` to beacon `i`.
pub open spec fn beacon_range<T: Real>(p: V3<T>, i: int) -> T {
    v3::length(v3::subtracted(p, anchors::<T>()[i]))
}

/// One range to every beacon if the sweep fires.
pub open spec fn read_beacons<T: Real>(r: Rng<T>, fires: bool, p: V3<T>, sigma: T) -> (
    Option<[T; 4]>,
    Rng<T>,
) {
    if fires {
        let (a, r1) = noisy_draw(r, beacon_range(p, 0), sigma);
        let (b, r2) = noisy_draw(r1, beacon_range(p, 1), sigma);
        let (c, r3) = noisy_draw(r2, beacon_range(p, 2), sigma);
        let (d, r4) = noisy_draw(r3, beacon_range(p, 3), sigma);
        (Some([a, b, c, d]), r4)
    } else {
        (None, r)
    }
}

/// The altimeter beam reaches the ground: not banked past it, and above the plane.
pub open spec fn beam_reaches<T: Real>(s: TrueState<T>) -> bool {
    less(lit::<T>(2, 10), rotation_rows(s.q)[2][2]) && less(lit::<T>(0, 1), s.p[2])
}

/// The specific force in the body frame, `Rᵀ(a − g)`.
pub open spec fn specific_force<T: Real>(t: T, q: Quat<T>) -> V3<T> {
    rotated_back(q, v3::subtracted(true_acceleration(t), standard_gravity()))
}

/// One IMU period: the tick that the simulator emits, and the simulator after it.
#[verifier::opaque]
pub open spec fn stepped<T: Real>(s: Simulator<T>) -> (Tick<T>, Simulator<T>) {
    let cfg = s.cfg;
    let t = s.t;
    let dt = quot(lit::<T>(1, 1), cfg.imu_rate);
    let state = truth(t);
    let (accel_bias, gyro_bias, r0) = walked(
        s.rng,
        s.accel_bias,
        s.gyro_bias,
        prod(cfg.accel_bias_walk, root(dt)),
        prod(cfg.gyro_bias_walk, root(dt)),
    );
    let (accel, r1) = noisy3_draw(
        r0,
        v3::added(specific_force(t, state.q), accel_bias),
        cfg.accel_noise,
    );
    let (gyro, r2) = noisy3_draw(r1, v3::added(true_body_rate(t), gyro_bias), cfg.gyro_noise);
    let (gps, r3) = read3(
        r2,
        cfg.gps_enabled && come_round(t, s.next_gps),
        state.p,
        cfg.gps_noise,
    );
    let (baro, r4) = read1(
        r3,
        cfg.baro_enabled && come_round(t, s.next_baro),
        state.p[2],
        cfg.baro_noise,
    );
    let (mag, r5) = read3(
        r4,
        cfg.mag_enabled && come_round(t, s.next_mag),
        rotated_back(state.q, magnetic_north()),
        cfg.mag_noise,
    );
    let (lidar, r6) = read1(
        r5,
        cfg.lidar_enabled && come_round(t, s.next_lidar) && beam_reaches(state),
        quot(state.p[2], rotation_rows(state.q)[2][2]),
        cfg.lidar_noise,
    );
    let (uwb, r7) = read_beacons(
        r6,
        cfg.uwb_enabled && come_round(t, s.next_uwb),
        state.p,
        cfg.uwb_noise,
    );
    let vb = rotated_back(state.q, state.v);
    let (flow, r8) = read2(
        r7,
        cfg.flow_enabled && come_round(t, s.next_flow),
        vb[0],
        vb[1],
        cfg.flow_noise,
    );
    (
        Tick {
            t,
            dt,
            truth: TrueState { p: state.p, v: state.v, q: state.q, accel_bias, gyro_bias },
            accel,
            gyro,
            gps,
            baro,
            mag,
            lidar,
            uwb,
            flow,
            gps_vel: None,
            dvl: None,
            att: None,
        },
        Simulator {
            cfg,
            rng: r8,
            t: sum(t, dt),
            accel_bias,
            gyro_bias,
            next_gps: clock_after(t, s.next_gps, cfg.gps_rate),
            next_baro: clock_after(t, s.next_baro, cfg.baro_rate),
            next_mag: clock_after(t, s.next_mag, cfg.mag_rate),
            next_lidar: clock_after(t, s.next_lidar, cfg.lidar_rate),
            next_uwb: clock_after(t, s.next_uwb, cfg.uwb_rate),
            next_flow: clock_after(t, s.next_flow, cfg.flow_rate),
        },
    )
}

/// The simulator `k` ticks after `s`.
pub open spec fn simulated_from<T: Real>(s: Simulator<T>, k: nat) -> Simulator<T>
    decreases k,
{
    if k == 0 {
        s
    } else {
        stepped(simulated_from(s, (k - 1) as nat)).1
    }
}

/// The simulator after `k` ticks.
pub open spec fn simulated<T: Real>(cfg: SimConfig<T>, seed: u64, k: nat) -> Simulator<T> {
    simulated_from(launched(cfg, seed), k)
}

/// Tick `k` of a flight.
pub open spec fn emitted<T: Real>(cfg: SimConfig<T>, seed: u64, k: nat) -> Tick<T> {
    stepped(simulated(cfg, seed, k)).0
}

/// A tick holds no reading of a sensor that is switched off.
pub open spec fn respects<T>(tick: Tick<T>, cfg: SimConfig<T>) -> bool {
    &&& tick.gps is Some ==> cfg.gps_enabled
    &&& tick.baro is Some ==> cfg.baro_enabled
    &&& tick.mag is Some ==> cfg.mag_enabled
    &&& tick.lidar is Some ==> cfg.lidar_enabled
    &&& tick.uwb is Some ==> cfg.uwb_enabled
    &&& tick.flow is Some ==> cfg.flow_enabled
    &&& tick.gps_vel is Some ==> cfg.gps_vel_enabled
    &&& tick.dvl is Some ==> cfg.dvl_enabled
    &&& tick.att is Some ==> cfg.att_enabled
}

/// Whether a sensor fires at time `t`. Its clock moves on whether or not it is enabled, so that
/// switching it on again resumes at the right cadence rather than in a burst.
pub fn due<T: Real>(t: T, next: &mut T, rate: T, enabled: bool) -> (fires: bool)
    ensures
        fires ==> enabled,
        functional::<T>() ==> fires == (enabled && come_round(t, *old(next))),
        functional::<T>() ==> *final(next) == clock_after(t, *old(next), rate),
{
    if t.lt(*next) {
        return false;
    }
    *next = next.plus(T::ratio(1, 1).over(rate));
    enabled
}

impl<T: Real> Simulator<T> {
    /// A simulator at the start of a flight.
    pub fn new(cfg: SimConfig<T>, seed: u64) -> (out: Self)
        ensures
            out.cfg == cfg,
            functional::<T>() ==> out == launched(cfg, seed),
    {
        let zero = T::ratio(0, 1);
        Simulator {
            cfg,
            rng: Rng::new(seed),
            t: zero,
            accel_bias: [T::ratio(5, 100), T::ratio(-3, 100), T::ratio(2, 100)],
            gyro_bias: [T::ratio(1, 1000), T::ratio(-15, 10_000), T::ratio(8, 10_000)],
            next_gps: zero,
            next_baro: zero,
            next_mag: zero,
            next_lidar: zero,
            next_uwb: zero,
            next_flow: zero,
        }
    }

    /// The time of the next tick.
    pub fn time(&self) -> (t: T)
        ensures
            t == self.t,
    {
        self.t
    }

    /// The ideal filter seed: the true initial state, so a run scores the filter, not the guess.
    pub fn truth_nominal(&self) -> (r: Nominal<T>)
        ensures
            functional::<T>() ==> r == initial_nominal::<T>(),
    {
        let s = truth_at(T::ratio(0, 1));
        Nominal { p: s.p, v: s.v, q: s.q, accel_bias: v3::zero(), gyro_bias: v3::zero() }
    }

    /// A filter seed with a real initial error to converge from: the true state, moved in every
    /// direction of the error state by a Gaussian draw of the given standard deviation.
    pub fn sample_initial_nominal(&mut self, sigma: InitialSigma<T>) -> (r: Nominal<T>)
        ensures
            final(self).cfg == old(self).cfg,
            final(self).t == old(self).t,
            functional::<T>() ==> (r, *final(self)) == sampled_start(*old(self), sigma),
    {
        let s = truth_at(T::ratio(0, 1));
        let p = self.rng.noisy3(s.p, sigma.position);
        let v = self.rng.noisy3(s.v, sigma.velocity);
        let turn = self.rng.noisy3(v3::zero(), sigma.orientation);
        let accel_bias = self.rng.noisy3(self.accel_bias, sigma.accel_bias);
        let gyro_bias = self.rng.noisy3(self.gyro_bias, sigma.gyro_bias);
        let q = s.q.mul(Quat::from_rotation_vector(turn)).normalized();
        Nominal { p, v, q, accel_bias, gyro_bias }
    }

    /// Advances one IMU period and emits the samples.
    pub fn step(&mut self) -> (tick: Tick<T>)
        ensures
            respects(tick, old(self).cfg),
            final(self).cfg == old(self).cfg,
            tick.t == old(self).t,
            functional::<T>() ==> (tick, *final(self)) == stepped(*old(self)),
    {
        proof {
            reveal(stepped);
        }
        let dt = T::ratio(1, 1).over(self.cfg.imu_rate);
        let t = self.t;

        // Random walk of the biases.
        let aw = self.cfg.accel_bias_walk.times(dt.sqrt());
        let gw = self.cfg.gyro_bias_walk.times(dt.sqrt());
        let a0 = self.rng.noisy(self.accel_bias[0], aw);
        let g0 = self.rng.noisy(self.gyro_bias[0], gw);
        let a1 = self.rng.noisy(self.accel_bias[1], aw);
        let g1 = self.rng.noisy(self.gyro_bias[1], gw);
        let a2 = self.rng.noisy(self.accel_bias[2], aw);
        let g2 = self.rng.noisy(self.gyro_bias[2], gw);
        self.accel_bias = [a0, a1, a2];
        self.gyro_bias = [g0, g1, g2];

        let s = truth_at(t);
        let omega = body_rate(t);

        // Strapdown IMU: specific force Rᵀ(a − g), and body rate.
        let f_world = v3::sub(accel_at(t), gravity());
        let f_body = s.q.rotate_inv(f_world);
        let accel = self.rng.noisy3(v3::add(f_body, self.accel_bias), self.cfg.accel_noise);
        let gyro = self.rng.noisy3(v3::add(omega, self.gyro_bias), self.cfg.gyro_noise);

        let gps = if due(t, &mut self.next_gps, self.cfg.gps_rate, self.cfg.gps_enabled) {
            Some(self.rng.noisy3(s.p, self.cfg.gps_noise))
        } else {
            None
        };

        let baro = if due(t, &mut self.next_baro, self.cfg.baro_rate, self.cfg.baro_enabled) {
            Some(self.rng.noisy(s.p[2], self.cfg.baro_noise))
        } else {
            None
        };

        let mag = if due(t, &mut self.next_mag, self.cfg.mag_rate, self.cfg.mag_enabled) {
            let b = s.q.rotate_inv(mag_reference());
            Some(self.rng.noisy3(b, self.cfg.mag_noise))
        } else {
            None
        };

        let lidar = if due(t, &mut self.next_lidar, self.cfg.lidar_rate, self.cfg.lidar_enabled) {
            let rm = s.q.to_matrix();
            let r22 = rm.m[2][2];
            assert(r22 == rm@[2][2]);
            if T::ratio(2, 10).lt(r22) && T::ratio(0, 1).lt(s.p[2]) {
                Some(self.rng.noisy(s.p[2].over(r22), self.cfg.lidar_noise))
            } else {
                None
            }
        } else {
            None
        };

        let uwb = if due(t, &mut self.next_uwb, self.cfg.uwb_rate, self.cfg.uwb_enabled) {
            let b = beacons::<T>();
            let sigma = self.cfg.uwb_noise;
            let z0 = self.rng.noisy(v3::norm(v3::sub(s.p, b[0])), sigma);
            let z1 = self.rng.noisy(v3::norm(v3::sub(s.p, b[1])), sigma);
            let z2 = self.rng.noisy(v3::norm(v3::sub(s.p, b[2])), sigma);
            let z3 = self.rng.noisy(v3::norm(v3::sub(s.p, b[3])), sigma);
            Some([z0, z1, z2, z3])
        } else {
            None
        };

        let flow = if due(t, &mut self.next_flow, self.cfg.flow_rate, self.cfg.flow_enabled) {
            let vb = s.q.rotate_inv(s.v);
            let x = self.rng.noisy(vb[0], self.cfg.flow_noise);
            let y = self.rng.noisy(vb[1], self.cfg.flow_noise);
            Some([x, y])
        } else {
            None
        };

        let truth = TrueState {
            p: s.p,
            v: s.v,
            q: s.q,
            accel_bias: self.accel_bias,
            gyro_bias: self.gyro_bias,
        };
        self.t = t.plus(dt);
        Tick {
            t,
            dt,
            truth,
            accel,
            gyro,
            gps,
            baro,
            mag,
            lidar,
            uwb,
            flow,
            gps_vel: None,
            dvl: None,
            att: None,
        }
    }
}

/// The settings of a simulator never change by themselves.
pub proof fn lemma_settings_stay<T: Real>(cfg: SimConfig<T>, seed: u64, k: nat)
    ensures
        simulated(cfg, seed, k).cfg == cfg,
    decreases k,
{
    reveal(stepped);
    if k > 0 {
        lemma_settings_stay(cfg, seed, (k - 1) as nat);
    }
}

/// A tick holds no reading of a sensor that is switched off, wherever the simulator stands.
pub proof fn tick_respects_switches<T: Real>(s: Simulator<T>)
    ensures
        respects(stepped(s).0, s.cfg),
{
    reveal(stepped);
}

/// A sensor that is switched off stays silent for a whole flight.
pub proof fn dropout_is_silent<T: Real>(cfg: SimConfig<T>, seed: u64, k: nat)
    ensures
        respects(emitted(cfg, seed, k), cfg),
{
    reveal(stepped);
    lemma_settings_stay(cfg, seed, k);
}

/// The same settings with other switches.
pub open spec fn switched<T>(a: SimConfig<T>, b: SimConfig<T>) -> SimConfig<T> {
    SimConfig {
        gps_enabled: b.gps_enabled,
        baro_enabled: b.baro_enabled,
        mag_enabled: b.mag_enabled,
        lidar_enabled: b.lidar_enabled,
        uwb_enabled: b.uwb_enabled,
        flow_enabled: b.flow_enabled,
        gps_vel_enabled: b.gps_vel_enabled,
        dvl_enabled: b.dvl_enabled,
        att_enabled: b.att_enabled,
        ..a
    }
}

/// Two simulators whose sensor clocks and time stand alike.
pub open spec fn in_step<T>(a: Simulator<T>, b: Simulator<T>) -> bool {
    &&& a.t == b.t
    &&& a.next_gps == b.next_gps
    &&& a.next_baro == b.next_baro
    &&& a.next_mag == b.next_mag
    &&& a.next_lidar == b.next_lidar
    &&& a.next_uwb == b.next_uwb
    &&& a.next_flow == b.next_flow
}

/// Switching sensors on and off does not disturb the cadence: whatever the switches, the clocks of a
/// flight run alike, so that a sensor that comes back does so in step and not in a burst.
pub proof fn cadence_ignores_switches<T: Real>(
    cfg: SimConfig<T>,
    switches: SimConfig<T>,
    seed: u64,
    k: nat,
)
    ensures
        in_step(simulated(cfg, seed, k), simulated(switched(cfg, switches), seed, k)),
    decreases k,
{
    reveal(stepped);
    lemma_settings_stay(cfg, seed, k);
    lemma_settings_stay(switched(cfg, switches), seed, k);
    if k > 0 {
        lemma_settings_stay(cfg, seed, (k - 1) as nat);
        lemma_settings_stay(switched(cfg, switches), seed, (k - 1) as nat);
        cadence_ignores_switches(cfg, switches, seed, (k - 1) as nat);
    }
}

/// The true position, velocity and orientation at a tick are those of the trajectory at its time,
/// whatever the noise.
pub proof fn truth_is_the_trajectory<T: Real>(s: Simulator<T>)
    ensures
        stepped(s).0.t == s.t,
        stepped(s).0.truth.p == truth(s.t).p,
        stepped(s).0.truth.v == truth(s.t).v,
        stepped(s).0.truth.q == truth(s.t).q,
{
    reveal(stepped);
}

/// The true state at the start of the flight, without bias.
pub open spec fn initial_nominal<T: Real>() -> Nominal<T> {
    let s = truth(lit::<T>(0, 1));
    Nominal { p: s.p, v: s.v, q: s.q, accel_bias: v3::origin(), gyro_bias: v3::origin() }
}

/// A filter seed drawn about the true state at the start of the flight, and the simulator after the
/// draws: position, velocity, orientation, then the biases, each with its own standard deviation.
pub open spec fn sampled_start<T: Real>(s: Simulator<T>, sigma: InitialSigma<T>) -> (
    Nominal<T>,
    Simulator<T>,
) {
    let t = truth(lit::<T>(0, 1));
    let (p, r1) = noisy3_draw(s.rng, t.p, sigma.position);
    let (v, r2) = noisy3_draw(r1, t.v, sigma.velocity);
    let (turn, r3) = noisy3_draw(r2, v3::origin(), sigma.orientation);
    let (accel_bias, r4) = noisy3_draw(r3, s.accel_bias, sigma.accel_bias);
    let (gyro_bias, r5) = noisy3_draw(r4, s.gyro_bias, sigma.gyro_bias);
    (
        Nominal { p, v, q: unit(hamilton(t.q, exp_map(turn))), accel_bias, gyro_bias },
        Simulator { rng: r5, ..s },
    )
}

/// A simulator whose switches are turned between ticks: before tick `i` they are set as in
/// `switches(i)`.
pub open spec fn toggled<T: Real>(
    cfg: SimConfig<T>,
    seed: u64,
    switches: spec_fn(nat) -> SimConfig<T>,
    k: nat,
) -> Simulator<T>
    decreases k,
{
    if k == 0 {
        launched(cfg, seed)
    } else {
        let i = (k - 1) as nat;
        let before = toggled(cfg, seed, switches, i);
        stepped(Simulator { cfg: switched(cfg, switches(i)), ..before }).1
    }
}

/// However the sensors are switched on and off in flight, the clocks run alike: a sensor that comes
/// back resumes its cadence.
pub proof fn cadence_ignores_switching<T: Real>(
    cfg: SimConfig<T>,
    seed: u64,
    a: spec_fn(nat) -> SimConfig<T>,
    b: spec_fn(nat) -> SimConfig<T>,
    k: nat,
)
    ensures
        in_step(toggled(cfg, seed, a, k), toggled(cfg, seed, b, k)),
    decreases k,
{
    reveal(stepped);
    if k > 0 {
        cadence_ignores_switching(cfg, seed, a, b, (k - 1) as nat);
    }
}

} // verus!
