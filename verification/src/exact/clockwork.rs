//! The clocks of the simulator, its noise, and the course that it flies.

use vstd::prelude::*;

use crate::exact::{exact, lemma_constants, lemma_reciprocal};
use crate::exact::algebra::{
    assoc, cancel, comm, dist_right, square_of_product, times_one, times_zero,
};
use crate::exact::quaternions::{four, triple};
use crate::exact::readings::seeing_matrix;
use crate::exact::residuals::apart;
use crate::exact::rotations::lemma_entries;
use crate::exact::scores::lemma_length;
use crate::exact::small::lemma_times_quotient;
use crate::filter::InitialSigma;
use crate::flight::{
    airborne, flight_is_the_simulation, grounded, lemma_settings_kept, squared, time_of,
};
use crate::linalg::{v3, V3};
use crate::quat::{angular_error, exp_map, hamilton, rotated_back, rotation_rows, unit};
use crate::rng::{
    advanced, gaussian_draw, mixed, noisy3_draw, noisy_draw, step_of, unit_interval, Rng, STEPS,
};
use crate::scalar::{cosine, diff, lit, log, prod, quot, root, sine, sum, turn, whole, Real};
use crate::sim::{
    anchors, beacon_range, beam_reaches, come_round, emitted, launched, lemma_settings_stay,
    magnetic_north, read1, read2, read3, read_beacons, sampled_start, simulated, simulated_from,
    specific_force, standard_gravity, stepped, walked, SimConfig, Simulator,
};
use crate::trajectory::{
    climb_rate, orbit_rate, true_acceleration, true_body_rate, true_orientation, true_position,
    true_velocity, truth, TrueState,
};

verus! {

/// A tick lasts one period of the IMU, and the next one follows it at once: the time of the simulator
/// moves on by the `dt` that the tick tells, which is one over the IMU rate of the settings. The true
/// biases that a tick tells are those that the simulator goes on with, and its settings stay.
pub proof fn time_moves_on_by_a_period<T: Real>(val: spec_fn(T) -> real, s: Simulator<T>)
    requires
        exact(val),
        val(s.cfg.imu_rate) != 0real,
    ensures
        ({
            let (tick, next) = stepped(s);
            &&& val(tick.t) == val(s.t)
            &&& val(tick.dt) * val(s.cfg.imu_rate) == 1real
            &&& val(next.t) == val(tick.t) + val(tick.dt)
            &&& tick.truth.accel_bias == next.accel_bias
            &&& tick.truth.gyro_bias == next.gyro_bias
            &&& next.cfg == s.cfg
        }),
{
    reveal(stepped);
    lemma_constants(val);
    lemma_times_quotient(val(s.cfg.imu_rate), 1real);
    comm(val(s.cfg.imu_rate), 1real / val(s.cfg.imu_rate));
}

/// The simulator keeps its settings.
proof fn lemma_settings_last<T: Real>(s: Simulator<T>, k: nat)
    ensures
        simulated_from(s, k).cfg == s.cfg,
    decreases k,
{
    reveal(stepped);
    if k > 0 {
        lemma_settings_last(s, (k - 1) as nat);
    }
}

/// After `k` ticks the time has moved on by `k` periods.
pub proof fn ticks_are_periods_apart<T: Real>(val: spec_fn(T) -> real, s: Simulator<T>, k: nat)
    requires
        exact(val),
        val(s.cfg.imu_rate) != 0real,
    ensures
        (val(simulated_from(s, k).t) - val(s.t)) * val(s.cfg.imu_rate) == k as real,
    decreases k,
{
    let rate = val(s.cfg.imu_rate);
    if k == 0 {
        times_zero(rate, 0real);
        comm(rate, 0real);
    } else {
        let i = (k - 1) as nat;
        ticks_are_periods_apart(val, s, i);
        lemma_settings_last(s, i);
        let before = simulated_from(s, i);
        time_moves_on_by_a_period(val, before);
        let (a, b) = (val(before.t) - val(s.t), val(stepped(before).0.dt));
        dist_right(a, b, rate);
        assert(k as real == i as real + 1real);
    }
}

/// Tick `k` of a flight is at `k` over the IMU rate, with a filter on board or without.
pub proof fn tick_k_is_at_k_periods<T: Real>(
    val: spec_fn(T) -> real,
    cfg: SimConfig<T>,
    seed: u64,
    k: nat,
)
    requires
        exact(val),
        val(cfg.imu_rate) != 0real,
    ensures
        val(emitted(cfg, seed, k).t) * val(cfg.imu_rate) == k as real,
        val(stepped(airborne(cfg, seed, k).sim).0.t) * val(cfg.imu_rate) == k as real,
{
    lemma_constants(val);
    ticks_are_periods_apart(val, launched(cfg, seed), k);
    lemma_settings_stay(cfg, seed, k);
    time_moves_on_by_a_period(val, simulated(cfg, seed, k));
    let start = grounded(cfg, seed);
    flight_is_the_simulation(start, cfg, k);
    ticks_are_periods_apart(val, start.sim, k);
    lemma_settings_kept(cfg, seed, k);
    time_moves_on_by_a_period(val, airborne(cfg, seed, k).sim);
}

/// What times the rate is `k`, is `k` over the rate.
pub proof fn lemma_over_the_rate(t: real, rate: real, k: real)
    requires
        rate != 0real,
        t * rate == k,
    ensures
        t == k / rate,
{
    comm(rate, t);
    cancel(rate, t);
}

/// The time that a score gives to tick `k` is the time of that tick, at the rate of a scored flight.
pub proof fn scored_times_are_the_ticks<T: Real>(
    val: spec_fn(T) -> real,
    cfg: SimConfig<T>,
    seed: u64,
    k: nat,
)
    requires
        exact(val),
        val(cfg.imu_rate) == 200real,
        k <= u64::MAX,
    ensures
        val(time_of::<T>(k)) == k as real / 200real,
        val(time_of::<T>(k)) == val(stepped(airborne(cfg, seed, k).sim).0.t),
{
    assert(val(time_of::<T>(k)) == k as real / 200real) by {
        assert(val(lit::<T>(200, 1)) == 200real);
        assert(val(whole::<T>(k as u64)) == k as real);
    }
    tick_k_is_at_k_periods(val, cfg, seed, k);
    lemma_over_the_rate(val(stepped(airborne(cfg, seed, k).sim).0.t), 200real, k as real);
}

/// The clock of one sensor: where it has come round, it is one period of that sensor further on, and
/// otherwise it stands.
pub open spec fn clock_runs<T: Real>(
    val: spec_fn(T) -> real,
    t: T,
    before: T,
    after: T,
    rate: T,
) -> bool {
    val(after) == val(before) + (if val(t) >= val(before) {
        1real / val(rate)
    } else {
        0real
    })
}

/// Every sensor keeps its own rate: it fires when it is enabled and its clock has come round (the
/// altimeter, if its beam meets the ground below), and its clock moves on by one over its rate whether or
/// not it is enabled. GPS velocity, body velocity and attitude are not simulated.
pub proof fn sensors_keep_their_rates<T: Real>(val: spec_fn(T) -> real, s: Simulator<T>)
    requires
        exact(val),
        val(s.cfg.gps_rate) != 0real && val(s.cfg.baro_rate) != 0real && val(s.cfg.mag_rate) != 0real,
        val(s.cfg.lidar_rate) != 0real && val(s.cfg.uwb_rate) != 0real && val(s.cfg.flow_rate) != 0real,
    ensures
        ({
            let (tick, next) = stepped(s);
            let t = val(s.t);
            let tilt = seeing_matrix(four(val, tick.truth.q))(2, 2);
            let beam = tilt > 2real / 10real && val(tick.truth.p[2]) > 0real;
            &&& tick.gps is Some <==> s.cfg.gps_enabled && t >= val(s.next_gps)
            &&& tick.baro is Some <==> s.cfg.baro_enabled && t >= val(s.next_baro)
            &&& tick.mag is Some <==> s.cfg.mag_enabled && t >= val(s.next_mag)
            &&& tick.lidar is Some <==> s.cfg.lidar_enabled && t >= val(s.next_lidar) && beam
            &&& tick.uwb is Some <==> s.cfg.uwb_enabled && t >= val(s.next_uwb)
            &&& tick.flow is Some <==> s.cfg.flow_enabled && t >= val(s.next_flow)
            &&& tick.gps_vel is None && tick.dvl is None && tick.att is None
            &&& clock_runs(val, s.t, s.next_gps, next.next_gps, s.cfg.gps_rate)
            &&& clock_runs(val, s.t, s.next_baro, next.next_baro, s.cfg.baro_rate)
            &&& clock_runs(val, s.t, s.next_mag, next.next_mag, s.cfg.mag_rate)
            &&& clock_runs(val, s.t, s.next_lidar, next.next_lidar, s.cfg.lidar_rate)
            &&& clock_runs(val, s.t, s.next_uwb, next.next_uwb, s.cfg.uwb_rate)
            &&& clock_runs(val, s.t, s.next_flow, next.next_flow, s.cfg.flow_rate)
        }),
{
    reveal(stepped);
    lemma_constants(val);
    lemma_entries(val, stepped(s).0.truth.q);
    assert(val(lit::<T>(2, 10)) == 2real / 10real);
}

/// A flight starts at time zero with every clock come round, the generator of its seed, and its biases.
pub proof fn flight_starts_at_zero<T: Real>(val: spec_fn(T) -> real, cfg: SimConfig<T>, seed: u64)
    requires
        exact(val),
    ensures
        ({
            let s = launched(cfg, seed);
            &&& s.cfg == cfg
            &&& val(s.t) == 0real
            &&& val(s.next_gps) == 0real && val(s.next_baro) == 0real && val(s.next_mag) == 0real
            &&& val(s.next_lidar) == 0real && val(s.next_uwb) == 0real && val(s.next_flow) == 0real
            &&& s.rng.spare is None
            &&& s.rng.state == seed ^ 0x9e37_79b9_7f4a_7c15u64
            &&& triple(val, s.accel_bias) == (5real / 100real, -3real / 100real, 2real / 100real)
            &&& triple(val, s.gyro_bias) == (1real / 1000real, -15real / 10_000real, 8real / 10_000real)
        }),
{
    lemma_constants(val);
    assert(val(lit::<T>(5, 100)) == 5real / 100real);
    assert(val(lit::<T>((-3) as i64, 100)) == -3real / 100real);
    assert(val(lit::<T>(2, 100)) == 2real / 100real);
    assert(val(lit::<T>(1, 1000)) == 1real / 1000real);
    assert(val(lit::<T>((-15) as i64, 10_000)) == -15real / 10_000real);
    assert(val(lit::<T>(8, 10_000)) == 8real / 10_000real);
}

/// The generator after `n` Gaussian draws.
pub open spec fn after_draws<T: Real>(r: Rng<T>, n: nat) -> Rng<T>
    decreases n,
{
    if n == 0 {
        r
    } else {
        gaussian_draw(after_draws(r, (n - 1) as nat)).1
    }
}

proof fn lemma_draws_add<T: Real>(r: Rng<T>, a: nat, b: nat)
    ensures
        after_draws(after_draws(r, a), b) == after_draws(r, a + b),
    decreases b,
{
    if b > 0 {
        lemma_draws_add(r, a, (b - 1) as nat);
    }
}

/// Noise is a Gaussian draw times its sigma, one draw to a component, one after another.
pub proof fn noise_is_a_draw_times_sigma<T: Real>(
    val: spec_fn(T) -> real,
    r: Rng<T>,
    base: T,
    v: V3<T>,
    sigma: T,
)
    requires
        exact(val),
    ensures
        val(noisy_draw(r, base, sigma).0) == val(base) + val(sigma) * val(gaussian_draw(r).0),
        noisy_draw(r, base, sigma).1 == after_draws(r, 1),
        forall|i: int|
            0 <= i < 3 ==> val(#[trigger] noisy3_draw(r, v, sigma).0[i]) == val(v[i]) + val(sigma)
                * val(gaussian_draw(after_draws(r, i as nat)).0),
        noisy3_draw(r, v, sigma).1 == after_draws(r, 3),
{
    reveal_with_fuel(after_draws, 4);
    comm(val(sigma), val(gaussian_draw(r).0));
    comm(val(sigma), val(gaussian_draw(after_draws(r, 1)).0));
    comm(val(sigma), val(gaussian_draw(after_draws(r, 2)).0));
    assert forall|i: int| 0 <= i < 3 implies val(#[trigger] noisy3_draw(r, v, sigma).0[i]) == val(v[i])
        + val(sigma) * val(gaussian_draw(after_draws(r, i as nat)).0) by {
        assert(i == 0 || i == 1 || i == 2);
    }
}

/// A pair of Gaussian draws is a point in the plane, given by its distance and its direction: the square
/// of the distance is `−2 ln u` for the first uniform variate, and the direction is a full turn times
/// the second. The first draw is its one coordinate, the second the other.
pub proof fn gaussian_pair_is_a_point_in_the_plane<T: Real>(val: spec_fn(T) -> real, r: Rng<T>)
    requires
        exact(val),
        r.spare is None,
        val(log(unit_interval::<T>(mixed(advanced(r.state))))) <= 0real,
    ensures
        ({
            let u1 = unit_interval::<T>(mixed(advanced(r.state)));
            let u2 = unit_interval::<T>(mixed(advanced(advanced(r.state))));
            let (a, r1) = gaussian_draw(r);
            let (b, r2) = gaussian_draw(r1);
            exists|far: T, angle: T|
                #![trigger cosine(angle), val(far)]
                {
                    &&& val(far) >= 0real
                    &&& val(far) * val(far) == -2real * val(log(u1))
                    &&& val(angle) == val(turn::<T>()) * val(u2)
                    &&& val(a) == val(far) * val(cosine(angle))
                    &&& val(b) == val(far) * val(sine(angle))
                }
        }),
{
    let u1 = unit_interval::<T>(mixed(advanced(r.state)));
    let u2 = unit_interval::<T>(mixed(advanced(advanced(r.state))));
    let far = root(prod(lit::<T>((-2) as i64, 1), log(u1)));
    let angle = prod(turn::<T>(), u2);
    assert(val(lit::<T>((-2) as i64, 1)) == -2real);
    let l = val(log(u1));
    assert(-2real * l >= 0real);
    let (a, r1) = gaussian_draw(r);
    let (b, r2) = gaussian_draw(r1);
    assert(val(a) == val(far) * val(cosine(angle)));
    assert(val(b) == val(far) * val(sine(angle)));
}

/// The uniform variate of an output is the middle of its step, of `2⁵³` equal steps: the top 53 bits tell
/// which. The last step stands in for by the one before it.
pub proof fn uniform_is_the_middle_of_a_step<T: Real>(val: spec_fn(T) -> real, n: u64)
    requires
        exact(val),
    ensures
        ({
            let top = (n / 2048) as real;
            let step = if n / 2048 == 9_007_199_254_740_991 {
                top - 1real
            } else {
                top
            };
            val(unit_interval::<T>(n)) == (step + 1real / 2real) / 9_007_199_254_740_992real
        }),
{
    lemma_constants(val);
    assert(n >> 11 == n / 2048) by (bit_vector);
    assert(n / 2048 <= 9_007_199_254_740_991);
    let a = step_of(n) as real + 1real / 2real;
    let m = 9_007_199_254_740_992real;
    assert(STEPS as real == m);
    lemma_reciprocal(a, m);
}

/// A number drawn about `base` with `sigma`.
#[verifier::opaque]
pub open spec fn drawn1<T: Real>(z: T, base: T, sigma: T) -> bool {
    exists|r: Rng<T>| z == (#[trigger] noisy_draw(r, base, sigma)).0
}

/// Three numbers drawn about those of `base` with `sigma`.
#[verifier::opaque]
pub open spec fn drawn3<T: Real>(z: V3<T>, base: V3<T>, sigma: T) -> bool {
    exists|r: Rng<T>| z == (#[trigger] noisy3_draw(r, base, sigma)).0
}

proof fn lemma_drawn1<T: Real>(r: Rng<T>, base: T, sigma: T)
    ensures
        drawn1(noisy_draw(r, base, sigma).0, base, sigma),
{
    reveal(drawn1);
}

proof fn lemma_drawn3<T: Real>(r: Rng<T>, base: V3<T>, sigma: T)
    ensures
        drawn3(noisy3_draw(r, base, sigma).0, base, sigma),
{
    reveal(drawn3);
}

proof fn lemma_read1<T: Real>(r: Rng<T>, fires: bool, x: T, sigma: T)
    ensures
        read1(r, fires, x, sigma).0 matches Some(z) ==> drawn1(z, x, sigma),
{
    lemma_drawn1(r, x, sigma);
}

proof fn lemma_read3<T: Real>(r: Rng<T>, fires: bool, v: V3<T>, sigma: T)
    ensures
        read3(r, fires, v, sigma).0 matches Some(z) ==> drawn3(z, v, sigma),
{
    lemma_drawn3(r, v, sigma);
}

proof fn lemma_read2<T: Real>(r: Rng<T>, fires: bool, x: T, y: T, sigma: T)
    ensures
        read2(r, fires, x, y, sigma).0 matches Some(z) ==> drawn1(z[0], x, sigma) && drawn1(
            z[1],
            y,
            sigma,
        ),
{
    lemma_drawn1(r, x, sigma);
    lemma_drawn1(noisy_draw(r, x, sigma).1, y, sigma);
}

proof fn lemma_read_beacons<T: Real>(r: Rng<T>, fires: bool, p: V3<T>, sigma: T)
    ensures
        read_beacons(r, fires, p, sigma).0 matches Some(z) ==> {
            &&& drawn1(z[0], beacon_range(p, 0), sigma)
            &&& drawn1(z[1], beacon_range(p, 1), sigma)
            &&& drawn1(z[2], beacon_range(p, 2), sigma)
            &&& drawn1(z[3], beacon_range(p, 3), sigma)
        },
{
    let r1 = noisy_draw(r, beacon_range(p, 0), sigma).1;
    let r2 = noisy_draw(r1, beacon_range(p, 1), sigma).1;
    let r3 = noisy_draw(r2, beacon_range(p, 2), sigma).1;
    lemma_drawn1(r, beacon_range(p, 0), sigma);
    lemma_drawn1(r1, beacon_range(p, 1), sigma);
    lemma_drawn1(r2, beacon_range(p, 2), sigma);
    lemma_drawn1(r3, beacon_range(p, 3), sigma);
}

/// Each sensor has its own noise: what a tick holds of it is a draw about what it measures of the true
/// state, with the sigma that the settings give that sensor. The accelerometer measures the acceleration
/// less gravity, in the body frame, and its bias; the gyroscope the rate of turn and its bias.
#[verifier::rlimit(60)]
pub proof fn each_sensor_has_its_own_noise<T: Real>(s: Simulator<T>)
    ensures
        ({
            let tick = stepped(s).0;
            let x = tick.truth;
            let force = rotated_back(
                x.q,
                v3::subtracted(true_acceleration(s.t), standard_gravity()),
            );
            let seen = rotated_back(x.q, x.v);
            let tilt = rotation_rows(x.q)[2][2];
            &&& x == (TrueState { accel_bias: x.accel_bias, gyro_bias: x.gyro_bias, ..truth(s.t) })
            &&& drawn3(tick.accel, v3::added(force, x.accel_bias), s.cfg.accel_noise)
            &&& drawn3(tick.gyro, v3::added(true_body_rate(s.t), x.gyro_bias), s.cfg.gyro_noise)
            &&& tick.gps matches Some(z) ==> drawn3(z, x.p, s.cfg.gps_noise)
            &&& tick.baro matches Some(z) ==> drawn1(z, x.p[2], s.cfg.baro_noise)
            &&& tick.mag matches Some(z) ==> drawn3(
                z,
                rotated_back(x.q, magnetic_north()),
                s.cfg.mag_noise,
            )
            &&& tick.lidar matches Some(z) ==> drawn1(z, quot(x.p[2], tilt), s.cfg.lidar_noise)
            &&& tick.uwb matches Some(z) ==> {
                &&& drawn1(z[0], beacon_range(x.p, 0), s.cfg.uwb_noise)
                &&& drawn1(z[1], beacon_range(x.p, 1), s.cfg.uwb_noise)
                &&& drawn1(z[2], beacon_range(x.p, 2), s.cfg.uwb_noise)
                &&& drawn1(z[3], beacon_range(x.p, 3), s.cfg.uwb_noise)
            }
            &&& tick.flow matches Some(z) ==> {
                &&& drawn1(z[0], seen[0], s.cfg.flow_noise)
                &&& drawn1(z[1], seen[1], s.cfg.flow_noise)
            }
        }),
{
    reveal(stepped);
    let cfg = s.cfg;
    let t = s.t;
    let dt = quot(lit::<T>(1, 1), cfg.imu_rate);
    let x = truth(t);
    let (ab, gb, r0) = walked(
        s.rng,
        s.accel_bias,
        s.gyro_bias,
        prod(cfg.accel_bias_walk, root(dt)),
        prod(cfg.gyro_bias_walk, root(dt)),
    );
    let force = v3::added(specific_force(t, x.q), ab);
    let r1 = noisy3_draw(r0, force, cfg.accel_noise).1;
    lemma_drawn3(r0, force, cfg.accel_noise);
    let rate = v3::added(true_body_rate(t), gb);
    let r2 = noisy3_draw(r1, rate, cfg.gyro_noise).1;
    lemma_drawn3(r1, rate, cfg.gyro_noise);
    let on3 = cfg.gps_enabled && come_round(t, s.next_gps);
    let r3 = read3(r2, on3, x.p, cfg.gps_noise).1;
    lemma_read3(r2, on3, x.p, cfg.gps_noise);
    let on4 = cfg.baro_enabled && come_round(t, s.next_baro);
    let r4 = read1(r3, on4, x.p[2], cfg.baro_noise).1;
    lemma_read1(r3, on4, x.p[2], cfg.baro_noise);
    let on5 = cfg.mag_enabled && come_round(t, s.next_mag);
    let north = rotated_back(x.q, magnetic_north());
    let r5 = read3(r4, on5, north, cfg.mag_noise).1;
    lemma_read3(r4, on5, north, cfg.mag_noise);
    let on6 = cfg.lidar_enabled && come_round(t, s.next_lidar) && beam_reaches(x);
    let slant = quot(x.p[2], rotation_rows(x.q)[2][2]);
    let r6 = read1(r5, on6, slant, cfg.lidar_noise).1;
    lemma_read1(r5, on6, slant, cfg.lidar_noise);
    let on7 = cfg.uwb_enabled && come_round(t, s.next_uwb);
    let r7 = read_beacons(r6, on7, x.p, cfg.uwb_noise).1;
    lemma_read_beacons(r6, on7, x.p, cfg.uwb_noise);
    let vb = rotated_back(x.q, x.v);
    let on8 = cfg.flow_enabled && come_round(t, s.next_flow);
    lemma_read2(r7, on8, vb[0], vb[1], cfg.flow_noise);
}

/// The range to a beacon is the distance to where it stands.
pub proof fn ranges_are_distances<T: Real>(val: spec_fn(T) -> real, p: V3<T>, i: int)
    requires
        exact(val),
        0 <= i < 4,
    ensures
        val(beacon_range(p, i)) >= 0real,
        val(beacon_range(p, i)) * val(beacon_range(p, i)) == apart(
            triple(val, p),
            triple(val, anchors::<T>()[i]),
        ),
{
    let d = v3::subtracted(p, anchors::<T>()[i]);
    lemma_length(val, d);
    assert(beacon_range(p, i) == root(squared(d)));
}

/// The biases walk at random: each component of each moves by a draw whose sigma is the density of its
/// walk times the root of the period.
pub proof fn biases_walk<T: Real>(val: spec_fn(T) -> real, s: Simulator<T>)
    requires
        exact(val),
        val(s.cfg.imu_rate) > 0real,
    ensures
        ({
            let next = stepped(s).1;
            let d = val(stepped(s).0.dt);
            exists|a: T, g: T|
                #![trigger drawn1(next.accel_bias[0], s.accel_bias[0], a),
                    drawn1(next.gyro_bias[0], s.gyro_bias[0], g)]
                {
                    &&& val(a) * val(a) == (val(s.cfg.accel_bias_walk) * val(s.cfg.accel_bias_walk)) * d
                    &&& val(g) * val(g) == (val(s.cfg.gyro_bias_walk) * val(s.cfg.gyro_bias_walk)) * d
                    &&& drawn1(next.accel_bias[0], s.accel_bias[0], a)
                    &&& drawn1(next.accel_bias[1], s.accel_bias[1], a)
                    &&& drawn1(next.accel_bias[2], s.accel_bias[2], a)
                    &&& drawn1(next.gyro_bias[0], s.gyro_bias[0], g)
                    &&& drawn1(next.gyro_bias[1], s.gyro_bias[1], g)
                    &&& drawn1(next.gyro_bias[2], s.gyro_bias[2], g)
                }
        }),
{
    let dt = quot(lit::<T>(1, 1), s.cfg.imu_rate);
    let rate = val(s.cfg.imu_rate);
    let a = prod(s.cfg.accel_bias_walk, root(dt));
    let g = prod(s.cfg.gyro_bias_walk, root(dt));
    let (ab, gb, r6) = walked(s.rng, s.accel_bias, s.gyro_bias, a, g);
    assert(stepped(s).1.accel_bias == ab && stepped(s).1.gyro_bias == gb && stepped(s).0.dt == dt) by {
        reveal(stepped);
    }
    assert(val(dt) >= 0real) by {
        lemma_constants(val);
        assert(1real / rate >= 0real) by (nonlinear_arith)
            requires
                rate > 0real,
        ;
    }
    square_of_product(val(s.cfg.accel_bias_walk), val(root(dt)));
    square_of_product(val(s.cfg.gyro_bias_walk), val(root(dt)));
    let r1 = noisy_draw(s.rng, s.accel_bias[0], a).1;
    let r2 = noisy_draw(r1, s.gyro_bias[0], g).1;
    let r3 = noisy_draw(r2, s.accel_bias[1], a).1;
    let r4 = noisy_draw(r3, s.gyro_bias[1], g).1;
    let r5 = noisy_draw(r4, s.accel_bias[2], a).1;
    lemma_drawn1(s.rng, s.accel_bias[0], a);
    lemma_drawn1(r1, s.gyro_bias[0], g);
    lemma_drawn1(r2, s.accel_bias[1], a);
    lemma_drawn1(r3, s.gyro_bias[1], g);
    lemma_drawn1(r4, s.accel_bias[2], a);
    lemma_drawn1(r5, s.gyro_bias[2], g);
}

/// One if there is a reading, else none.
pub open spec fn if_fired<Z>(reading: Option<Z>, draws: nat) -> nat {
    if reading is Some {
        draws
    } else {
        0
    }
}

/// No draw is used twice: a tick takes from the generator one draw for each component of the biases, of
/// the IMU and of every reading, and leaves it as it is after that many.
pub proof fn every_component_takes_a_draw<T: Real>(s: Simulator<T>)
    ensures
        ({
            let (tick, next) = stepped(s);
            next.rng == after_draws(
                s.rng,
                12 + if_fired(tick.gps, 3) + if_fired(tick.baro, 1) + if_fired(tick.mag, 3) + if_fired(
                    tick.lidar,
                    1,
                ) + if_fired(tick.uwb, 4) + if_fired(tick.flow, 2),
            )
        }),
{
    reveal(stepped);
    let (tick, next) = stepped(s);
    let r = s.rng;
    reveal_with_fuel(after_draws, 14);
    let n0 = 12nat;
    let n1 = n0 + if_fired(tick.gps, 3);
    let n2 = n1 + if_fired(tick.baro, 1);
    let n3 = n2 + if_fired(tick.mag, 3);
    let n4 = n3 + if_fired(tick.lidar, 1);
    let n5 = n4 + if_fired(tick.uwb, 4);
    lemma_draws_add(r, n0, if_fired(tick.gps, 3));
    lemma_draws_add(r, n1, if_fired(tick.baro, 1));
    lemma_draws_add(r, n2, if_fired(tick.mag, 3));
    lemma_draws_add(r, n3, if_fired(tick.lidar, 1));
    lemma_draws_add(r, n4, if_fired(tick.uwb, 4));
    lemma_draws_add(r, n5, if_fired(tick.flow, 2));
}

proof fn lemma_draws_used<T: Real>(r: Rng<T>, fires: bool, v: V3<T>, x: T, y: T, sigma: T)
    ensures
        noisy_draw(r, x, sigma).1 == after_draws(r, 1),
        noisy3_draw(r, v, sigma).1 == after_draws(r, 3),
        read1(r, fires, x, sigma).1 == after_draws(r, if fires { 1 } else { 0 }),
        read2(r, fires, x, y, sigma).1 == after_draws(r, if fires { 2 } else { 0 }),
        read3(r, fires, v, sigma).1 == after_draws(r, if fires { 3 } else { 0 }),
        read_beacons(r, fires, v, sigma).1 == after_draws(r, if fires { 4 } else { 0 }),
{
    reveal_with_fuel(after_draws, 5);
}

/// The draws of a tick are taken in a fixed order: first the steps of the biases, component by component
/// and accelerometer before gyroscope, then the accelerometer, the gyroscope, the GPS, the barometer, the
/// magnetometer, the altimeter, the ranges beacon by beacon, and the flow. A sensor that does not fire
/// takes none.
#[verifier::rlimit(60)]
pub proof fn draws_are_taken_in_order<T: Real>(s: Simulator<T>)
    ensures
        ({
            let (tick, next) = stepped(s);
            let (r, x, c) = (s.rng, tick.truth, s.cfg);
            let n1 = 12 + if_fired(tick.gps, 3);
            let n2 = n1 + if_fired(tick.baro, 1);
            let n3 = n2 + if_fired(tick.mag, 3);
            let n4 = n3 + if_fired(tick.lidar, 1);
            let n5 = n4 + if_fired(tick.uwb, 4);
            let (aw, gw) = (prod(c.accel_bias_walk, root(tick.dt)), prod(c.gyro_bias_walk, root(tick.dt)));
            let force = rotated_back(
                x.q,
                v3::subtracted(true_acceleration(s.t), standard_gravity()),
            );
            let seen = rotated_back(x.q, x.v);
            let slant = quot(x.p[2], rotation_rows(x.q)[2][2]);
            &&& next.accel_bias[0] == noisy_draw(r, s.accel_bias[0], aw).0
            &&& next.gyro_bias[0] == noisy_draw(after_draws(r, 1), s.gyro_bias[0], gw).0
            &&& next.accel_bias[1] == noisy_draw(after_draws(r, 2), s.accel_bias[1], aw).0
            &&& next.gyro_bias[1] == noisy_draw(after_draws(r, 3), s.gyro_bias[1], gw).0
            &&& next.accel_bias[2] == noisy_draw(after_draws(r, 4), s.accel_bias[2], aw).0
            &&& next.gyro_bias[2] == noisy_draw(after_draws(r, 5), s.gyro_bias[2], gw).0
            &&& tick.accel == noisy3_draw(
                after_draws(r, 6),
                v3::added(force, x.accel_bias),
                c.accel_noise,
            ).0
            &&& tick.gyro == noisy3_draw(
                after_draws(r, 9),
                v3::added(true_body_rate(s.t), x.gyro_bias),
                c.gyro_noise,
            ).0
            &&& tick.gps matches Some(z) ==> z == noisy3_draw(after_draws(r, 12), x.p, c.gps_noise).0
            &&& tick.baro matches Some(z) ==> z == noisy_draw(after_draws(r, n1), x.p[2], c.baro_noise).0
            &&& tick.mag matches Some(z) ==> z == noisy3_draw(
                after_draws(r, n2),
                rotated_back(x.q, magnetic_north()),
                c.mag_noise,
            ).0
            &&& tick.lidar matches Some(z) ==> z == noisy_draw(after_draws(r, n3), slant, c.lidar_noise).0
            &&& tick.uwb matches Some(z) ==> {
                &&& z[0] == noisy_draw(after_draws(r, n4), beacon_range(x.p, 0), c.uwb_noise).0
                &&& z[1] == noisy_draw(after_draws(r, n4 + 1), beacon_range(x.p, 1), c.uwb_noise).0
                &&& z[2] == noisy_draw(after_draws(r, n4 + 2), beacon_range(x.p, 2), c.uwb_noise).0
                &&& z[3] == noisy_draw(after_draws(r, n4 + 3), beacon_range(x.p, 3), c.uwb_noise).0
            }
            &&& tick.flow matches Some(z) ==> {
                &&& z[0] == noisy_draw(after_draws(r, n5), seen[0], c.flow_noise).0
                &&& z[1] == noisy_draw(after_draws(r, n5 + 1), seen[1], c.flow_noise).0
            }
        }),
{
    reveal(stepped);
    let tick = stepped(s).0;
    let (r, cfg, t, x) = (s.rng, s.cfg, s.t, truth(s.t));
    let dt = quot(lit::<T>(1, 1), cfg.imu_rate);
    let (aw, gw) = (prod(cfg.accel_bias_walk, root(dt)), prod(cfg.gyro_bias_walk, root(dt)));
    let (ab, gb, r0) = walked(r, s.accel_bias, s.gyro_bias, aw, gw);
    assert(after_draws(r, 0) == r);
    lemma_draws_used(r, true, x.p, s.accel_bias[0], aw, aw);
    let q1 = noisy_draw(r, s.accel_bias[0], aw).1;
    lemma_draws_used(q1, true, x.p, s.gyro_bias[0], gw, gw);
    lemma_draws_add(r, 1, 1);
    let q2 = noisy_draw(q1, s.gyro_bias[0], gw).1;
    lemma_draws_used(q2, true, x.p, s.accel_bias[1], aw, aw);
    lemma_draws_add(r, 2, 1);
    let q3 = noisy_draw(q2, s.accel_bias[1], aw).1;
    lemma_draws_used(q3, true, x.p, s.gyro_bias[1], gw, gw);
    lemma_draws_add(r, 3, 1);
    let q4 = noisy_draw(q3, s.gyro_bias[1], gw).1;
    lemma_draws_used(q4, true, x.p, s.accel_bias[2], aw, aw);
    lemma_draws_add(r, 4, 1);
    let q5 = noisy_draw(q4, s.accel_bias[2], aw).1;
    lemma_draws_used(q5, true, x.p, s.gyro_bias[2], gw, gw);
    lemma_draws_add(r, 5, 1);
    assert(r0 == after_draws(r, 6));
    let force = v3::added(specific_force(t, x.q), ab);
    let r1 = noisy3_draw(r0, force, cfg.accel_noise).1;
    lemma_draws_used(r0, true, force, t, t, cfg.accel_noise);
    lemma_draws_add(r, 6, 3);
    let rate = v3::added(true_body_rate(t), gb);
    let r2 = noisy3_draw(r1, rate, cfg.gyro_noise).1;
    lemma_draws_used(r1, true, rate, t, t, cfg.gyro_noise);
    lemma_draws_add(r, 9, 3);
    let n1 = 12 + if_fired(tick.gps, 3);
    let on3 = cfg.gps_enabled && come_round(t, s.next_gps);
    let r3 = read3(r2, on3, x.p, cfg.gps_noise).1;
    lemma_draws_used(r2, on3, x.p, t, t, cfg.gps_noise);
    lemma_draws_add(r, 12, if_fired(tick.gps, 3));
    assert(r3 == after_draws(r, n1));
    let n2 = n1 + if_fired(tick.baro, 1);
    let on4 = cfg.baro_enabled && come_round(t, s.next_baro);
    let r4 = read1(r3, on4, x.p[2], cfg.baro_noise).1;
    lemma_draws_used(r3, on4, x.p, x.p[2], t, cfg.baro_noise);
    lemma_draws_add(r, n1, if_fired(tick.baro, 1));
    assert(r4 == after_draws(r, n2));
    let n3 = n2 + if_fired(tick.mag, 3);
    let on5 = cfg.mag_enabled && come_round(t, s.next_mag);
    let north = rotated_back(x.q, magnetic_north());
    let r5 = read3(r4, on5, north, cfg.mag_noise).1;
    lemma_draws_used(r4, on5, north, t, t, cfg.mag_noise);
    lemma_draws_add(r, n2, if_fired(tick.mag, 3));
    assert(r5 == after_draws(r, n3));
    let n4 = n3 + if_fired(tick.lidar, 1);
    let on6 = cfg.lidar_enabled && come_round(t, s.next_lidar) && beam_reaches(x);
    let slant = quot(x.p[2], rotation_rows(x.q)[2][2]);
    let r6 = read1(r5, on6, slant, cfg.lidar_noise).1;
    lemma_draws_used(r5, on6, x.p, slant, t, cfg.lidar_noise);
    lemma_draws_add(r, n3, if_fired(tick.lidar, 1));
    assert(r6 == after_draws(r, n4));
    let n5 = n4 + if_fired(tick.uwb, 4);
    let on7 = cfg.uwb_enabled && come_round(t, s.next_uwb);
    let r7 = read_beacons(r6, on7, x.p, cfg.uwb_noise).1;
    lemma_draws_used(r6, on7, x.p, t, t, cfg.uwb_noise);
    lemma_draws_add(r, n4, if_fired(tick.uwb, 4));
    assert(r7 == after_draws(r, n5));
    let b1 = noisy_draw(r6, beacon_range(x.p, 0), cfg.uwb_noise).1;
    lemma_draws_used(r6, on7, x.p, beacon_range(x.p, 0), t, cfg.uwb_noise);
    lemma_draws_add(r, n4, 1);
    let b2 = noisy_draw(b1, beacon_range(x.p, 1), cfg.uwb_noise).1;
    lemma_draws_used(b1, on7, x.p, beacon_range(x.p, 1), t, cfg.uwb_noise);
    lemma_draws_add(r, n4 + 1, 1);
    lemma_draws_used(b2, on7, x.p, beacon_range(x.p, 2), t, cfg.uwb_noise);
    lemma_draws_add(r, n4 + 2, 1);
    let vb = rotated_back(x.q, x.v);
    lemma_draws_used(r7, true, x.p, vb[0], vb[1], cfg.flow_noise);
    lemma_draws_add(r, n5, 1);
}

/// The draws of a start: three each for the position, the velocity, the orientation and the biases of
/// accelerometer and gyroscope, in that order.
pub proof fn start_is_drawn_in_order<T: Real>(s: Simulator<T>, sigma: InitialSigma<T>)
    ensures
        ({
            let nom = sampled_start(s, sigma).0;
            let zero = lit::<T>(0, 1);
            let o: V3<T> = [zero, zero, zero];
            let r = s.rng;
            &&& nom.p == noisy3_draw(r, true_position(zero), sigma.position).0
            &&& nom.v == noisy3_draw(after_draws(r, 3), true_velocity(zero), sigma.velocity).0
            &&& nom.q == unit(
                hamilton(
                    true_orientation(zero),
                    exp_map(noisy3_draw(after_draws(r, 6), o, sigma.orientation).0),
                ),
            )
            &&& nom.accel_bias == noisy3_draw(after_draws(r, 9), s.accel_bias, sigma.accel_bias).0
            &&& nom.gyro_bias == noisy3_draw(after_draws(r, 12), s.gyro_bias, sigma.gyro_bias).0
        }),
{
    let zero = lit::<T>(0, 1);
    let o: V3<T> = [zero, zero, zero];
    assert(v3::origin::<T>() =~= o);
    let r = s.rng;
    let r1 = noisy3_draw(r, true_position(zero), sigma.position).1;
    lemma_draws_used(r, true, true_position(zero), zero, zero, sigma.position);
    let r2 = noisy3_draw(r1, true_velocity(zero), sigma.velocity).1;
    lemma_draws_used(r1, true, true_velocity(zero), zero, zero, sigma.velocity);
    lemma_draws_add(r, 3, 3);
    let r3 = noisy3_draw(r2, o, sigma.orientation).1;
    lemma_draws_used(r2, true, o, zero, zero, sigma.orientation);
    lemma_draws_add(r, 6, 3);
    lemma_draws_used(r3, true, s.accel_bias, zero, zero, sigma.accel_bias);
    lemma_draws_add(r, 9, 3);
}

/// A drawn start is the true state at time zero, moved in every component by a draw with the sigma of
/// its block; the orientation is turned by three draws, and the biases are drawn about the true ones.
/// The flight itself is untouched, but for the generator.
pub proof fn drawn_start_is_about_the_truth<T: Real>(s: Simulator<T>, sigma: InitialSigma<T>)
    ensures
        ({
            let (nom, next) = sampled_start(s, sigma);
            let zero = lit::<T>(0, 1);
            &&& exists|r: Rng<T>|
                nom.p == (#[trigger] noisy3_draw(r, true_position(zero), sigma.position)).0
            &&& exists|r: Rng<T>|
                nom.v == (#[trigger] noisy3_draw(r, true_velocity(zero), sigma.velocity)).0
            &&& exists|r: Rng<T>, o: V3<T>|
                o == [zero, zero, zero] && nom.q == unit(
                    hamilton(
                        true_orientation(zero),
                        exp_map((#[trigger] noisy3_draw(r, o, sigma.orientation)).0),
                    ),
                )
            &&& exists|r: Rng<T>|
                nom.accel_bias == (#[trigger] noisy3_draw(r, s.accel_bias, sigma.accel_bias)).0
            &&& exists|r: Rng<T>|
                nom.gyro_bias == (#[trigger] noisy3_draw(r, s.gyro_bias, sigma.gyro_bias)).0
            &&& next == (Simulator { rng: after_draws(s.rng, 15), ..s })
        }),
{
    reveal_with_fuel(after_draws, 16);
    let zero = lit::<T>(0, 1);
    assert(v3::origin::<T>() =~= [zero, zero, zero]);
}

/// The course: a circle of forty metres in thirty seconds, about a height of twenty metres that rises
/// and falls by eight in seventeen seconds.
pub proof fn course_is_a_rising_and_falling_circle<T: Real>(val: spec_fn(T) -> real, t: T)
    requires
        exact(val),
    ensures
        exists|round: T, rise: T|
            #![trigger cosine(round), sine(rise)]
            {
                &&& val(round) == (val(turn::<T>()) / 30real) * val(t)
                &&& val(rise) == (val(turn::<T>()) / 17real) * val(t)
                &&& val(true_position(t)[0]) == 40real * val(cosine(round))
                &&& val(true_position(t)[1]) == 40real * val(sine(round))
                &&& val(true_position(t)[2]) == 20real + 8real * val(sine(rise))
            },
        truth(t).p == true_position(t),
        truth(t).v == true_velocity(t),
        truth(t).q == true_orientation(t),
        triple(val, truth(t).accel_bias) == (0real, 0real, 0real),
        triple(val, truth(t).gyro_bias) == (0real, 0real, 0real),
{
    lemma_constants(val);
    let round = prod(orbit_rate::<T>(), t);
    let rise = prod(climb_rate::<T>(), t);
    assert(val(lit::<T>(30, 1)) == 30real);
    assert(val(lit::<T>(17, 1)) == 17real);
    assert(val(lit::<T>(40, 1)) == 40real);
    assert(val(lit::<T>(20, 1)) == 20real);
    assert(val(lit::<T>(8, 1)) == 8real);
    assert(true_position(t)[0] == prod(lit::<T>(40, 1), cosine(round)));
    assert(true_position(t)[1] == prod(lit::<T>(40, 1), sine(round)));
    assert(true_position(t)[2] == sum(lit::<T>(20, 1), prod(lit::<T>(8, 1), sine(rise))));
}

/// The rate of turn is what turns the body from a ten-thousandth of a second before to one after, over
/// the time between.
pub proof fn body_rate_turns_the_body<T: Real>(val: spec_fn(T) -> real, t: T, i: int)
    requires
        exact(val),
        0 <= i < 3,
    ensures
        exists|before: T, after: T|
            #![trigger true_orientation(before), true_orientation(after)]
            {
                &&& val(before) == val(t) - 1real / 10_000real
                &&& val(after) == val(t) + 1real / 10_000real
                &&& val(true_body_rate(t)[i]) * (val(after) - val(before)) == val(
                    angular_error(true_orientation(after), true_orientation(before))[i],
                )
            },
{
    lemma_constants(val);
    let h = lit::<T>(1, 10_000);
    assert(val(h) == 1real / 10_000real);
    let before = diff(t, h);
    let after = sum(t, h);
    let e = angular_error(true_orientation(after), true_orientation(before));
    let gap = 2real / 10_000real;
    let k = 1real / gap;
    assert(val(quot(lit::<T>(1, 1), prod(lit::<T>(2, 1), h))) == k);
    let x = val(e[i]);
    assert(i == 0 || i == 1 || i == 2);
    assert(val(true_body_rate(t)[i]) == x * k);
    assoc(x, k, gap);
    times_one(x, k * gap);
    assert(val(after) - val(before) == gap);
    assert(true_orientation(before) == true_orientation(before));
}

} // verus!
