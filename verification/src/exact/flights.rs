//! The laws of the trajectory, of the noise, and of a body at rest.

use vstd::prelude::*;

use crate::exact::algebra::{
    assoc, comm, dist, dist_right, neg, square_of_product, swap_middle, times_one, times_zero,
};
use crate::exact::conversions::{lemma_exp_of_zero, normalizing_keeps_unit};
use crate::exact::quaternions::{four, is_unit, triple};
use crate::exact::{exact, lemma_constants, lemma_reciprocal};
use crate::exact::covariance::lemma_sandwich_agrees;
use crate::exact::inverse::lemma_times_delta;
use crate::exact::matrices::{agree, delta, flipped, lemma_times_agree, numbers, times};
use crate::exact::rotations::lemma_entries;
use crate::filter::{
    congruence, integrated, predicted, process_noise, symmetric, transition, FilterState, Nominal,
    IAB, IP, ITH, IV, IWB, N,
};
use crate::flight::{assumed_noise, guarded};
use crate::linalg::{grid_sum, identity_grid, product, skew_grid, v3, V3};
use crate::quat::{applied, exp_map, hamilton, rotated_back, rotation_rows, unit, Quat};
use crate::rng::{
    advanced, gaussian_draw, mixed, noisy3_draw, noisy_draw, polar, step_of,
    steps_keep_clear_of_the_end, unit_interval, Rng, STEPS,
};
use crate::scalar::{cosine, lit, log, negation, prod, quot, sine, Real};
use crate::sim::{
    beacon_range, magnetic_north, standard_config, standard_gravity, stepped, SimConfig, Simulator,
};
use crate::trajectory::{
    orbit_rate, true_acceleration, true_body_rate, true_position, true_velocity, ORBIT_RADIUS,
};

verus! {

/// A uniform variate lies strictly between zero and one.
pub proof fn uniform_is_inside<T: Real>(val: spec_fn(T) -> real, n: u64)
    requires
        exact(val),
    ensures
        0real < val(unit_interval::<T>(n)) < 1real,
{
    lemma_constants(val);
    steps_keep_clear_of_the_end(n);
    let m = STEPS as real;
    let a = step_of(n) as real + 1real / 2real;
    let i = 1real / m;
    lemma_reciprocal(1real, m);
    assert(val(unit_interval::<T>(n)) == a * i);
    assert(a < m);
    assert(1real / m > 0real) by (nonlinear_arith)
        requires
            m > 0real,
    ;
    lemma_between(a, m, i);
}

proof fn lemma_between(a: real, m: real, i: real)
    requires
        0real < a < m,
        i > 0real,
        m * i == 1real,
    ensures
        0real < a * i < 1real,
{
    let b = m - a;
    lemma_positive_product(a, i);
    lemma_positive_product(b, i);
    dist_right(a, b, i);
    assert(a + b == m);
}

proof fn lemma_positive_product(a: real, b: real)
    requires
        a > 0real,
        b > 0real,
    ensures
        a * b > 0real,
{
    assert(a * b > 0real) by (nonlinear_arith)
        requires
            a > 0real,
            b > 0real,
    ;
}

/// A Box–Muller pair lies on a circle: the squares of the two Gaussian variates drawn from fresh
/// uniform ones add up to `−2 ln u`.
pub proof fn gaussian_pair_is_on_circle<T: Real>(val: spec_fn(T) -> real, r: Rng<T>)
    requires
        exact(val),
        r.spare is None,
        val(log(unit_interval::<T>(mixed(advanced(r.state))))) <= 0real,
    ensures
        ({
            let (a, r1) = gaussian_draw(r);
            let (b, r2) = gaussian_draw(r1);
            &&& r2.spare is None
            &&& val(a) * val(a) + val(b) * val(b) == -2real * val(
                log(unit_interval::<T>(mixed(advanced(r.state)))),
            )
        }),
{
    let u1 = unit_interval::<T>(mixed(advanced(r.state)));
    let u2 = unit_interval::<T>(mixed(advanced(advanced(r.state))));
    let (mag, angle) = polar::<T>(u1, u2);
    let (m, c, s) = (val(mag), val(cosine(angle)), val(sine(angle)));
    assert(val(lit::<T>((-2) as i64, 1)) == -2real);
    assert(m * m == -2real * val(log(u1)));
    square_of_product(m, c);
    square_of_product(m, s);
    dist(m * m, c * c, s * s);
    assert(c * c + s * s == 1real);
    times_one(m * m, c * c + s * s);
}

/// A sensor without noise reads the truth.
pub proof fn silent_noise_reads_truth<T: Real>(
    val: spec_fn(T) -> real,
    r: Rng<T>,
    x: T,
    v: V3<T>,
    sigma: T,
)
    requires
        exact(val),
        val(sigma) == 0real,
    ensures
        val(noisy_draw(r, x, sigma).0) == val(x),
        triple(val, noisy3_draw(r, v, sigma).0) == triple(val, v),
{
    let (g, _) = gaussian_draw(r);
    times_zero(val(g), val(sigma));
    let (_, r1) = noisy_draw(r, v[0], sigma);
    let (g1, _) = gaussian_draw(r1);
    times_zero(val(g1), val(sigma));
    let (_, r2) = noisy_draw(r1, v[1], sigma);
    let (g2, _) = gaussian_draw(r2);
    times_zero(val(g2), val(sigma));
}

/// Seen from above the flight is a circle of the given radius, flown at a constant speed, and the
/// acceleration points at its centre.
pub proof fn orbit_is_circular<T: Real>(val: spec_fn(T) -> real, t: T)
    requires
        exact(val),
    ensures
        ({
            let (x, y, _) = triple(val, true_position(t));
            let (u, v, _) = triple(val, true_velocity(t));
            let (a, b, _) = triple(val, true_acceleration(t));
            let radius = ORBIT_RADIUS as real;
            let w = val(orbit_rate::<T>());
            &&& x * x + y * y == radius * radius
            &&& u * u + v * v == (radius * w) * (radius * w)
            &&& x * u + y * v == 0real
            &&& a == -((w * w) * x)
            &&& b == -((w * w) * y)
        }),
{
    let angle = prod(orbit_rate::<T>(), t);
    let (c, s) = (val(cosine(angle)), val(sine(angle)));
    let radius = ORBIT_RADIUS as real;
    let w = val(orbit_rate::<T>());
    assert(val(lit::<T>(ORBIT_RADIUS, 1)) == radius);
    let rw = radius * w;
    assert(c * c + s * s == 1real);
    neg(w, radius);
    comm(-radius, w);
    comm(radius, w);
    assert((-radius) * w == -rw);
    neg(s, rw);
    comm(-rw, s);
    comm(rw, s);
    assert((-rw) * s == -(rw * s));
    square_of_product(radius, c);
    square_of_product(radius, s);
    dist(radius * radius, c * c, s * s);
    times_one(radius * radius, c * c + s * s);
    // The speed.
    let rs = rw * s;
    neg(-rs, rs);
    neg(rs, rs);
    comm(-rs, rs);
    square_of_product(rw, s);
    square_of_product(rw, c);
    dist(rw * rw, s * s, c * c);
    times_one(rw * rw, s * s + c * c);
    // Velocity and radius at right angles.
    neg(radius * c, rs);
    swap_middle(radius, c, rw, s);
    swap_middle(radius, s, rw, c);
    comm(c, s);
    // The acceleration.
    neg(w, rw);
    comm(-rw, w);
    comm(rw, w);
    assert((-rw) * w == -(rw * w));
    let rww = rw * w;
    neg(c, rww);
    comm(-rww, c);
    comm(rww, c);
    neg(s, rww);
    comm(-rww, s);
    comm(rww, s);
    assoc(radius, w, w);
    comm(radius, w * w);
    assoc(w * w, radius, c);
    assoc(w * w, radius, s);
}

/// A body at rest whose accelerometer reads just what balances gravity, and whose gyroscope reads
/// nothing, stays put.
pub proof fn resting_body_stays_put<T: Real>(
    val: spec_fn(T) -> real,
    nom: Nominal<T>,
    gravity: V3<T>,
    a: V3<T>,
    w: V3<T>,
    dt: T,
)
    requires
        exact(val),
        is_unit(val, nom.q),
        triple(val, nom.v) == (0real, 0real, 0real),
        triple(val, w) == (0real, 0real, 0real),
        triple(val, v3::added(applied(rotation_rows(nom.q), a), gravity)) == (0real, 0real, 0real),
    ensures
        ({
            let next = integrated(nom, gravity, a, w, dt);
            &&& triple(val, next.p) == triple(val, nom.p)
            &&& triple(val, next.v) == triple(val, nom.v)
            &&& four(val, next.q) == four(val, nom.q)
        }),
{
    let half_dt2 = prod(prod(lit::<T>(1, 2), dt), dt);
    times_zero(val(dt), 0real);
    comm(val(dt), 0real);
    times_zero(val(half_dt2), 0real);
    comm(val(half_dt2), 0real);
    let turn = v3::scaled(w, dt);
    lemma_turn_by_nothing(val, nom.q, turn);
}

/// No sensor has noise.
pub open spec fn noiseless<T>(val: spec_fn(T) -> real, cfg: SimConfig<T>) -> bool {
    &&& val(cfg.accel_noise) == 0real && val(cfg.gyro_noise) == 0real
    &&& val(cfg.gps_noise) == 0real && val(cfg.baro_noise) == 0real && val(cfg.mag_noise) == 0real
    &&& val(cfg.lidar_noise) == 0real && val(cfg.uwb_noise) == 0real && val(cfg.flow_noise) == 0real
}

/// A scalar read without noise.
proof fn lemma_silent_draw<T: Real>(val: spec_fn(T) -> real, r: Rng<T>, x: T, sigma: T)
    requires
        exact(val),
        val(sigma) == 0real,
    ensures
        val(noisy_draw(r, x, sigma).0) == val(x),
{
    silent_noise_reads_truth(val, r, x, [x, x, x], sigma);
}

/// A whole tick without noise reads the truth: the accelerometer the specific force `Rᵀ(a − g)` with
/// its bias, the gyroscope the body rate with its bias, and every aiding sensor that fires what it
/// measures of the true state.
pub proof fn noiseless_tick_reads_the_truth<T: Real>(val: spec_fn(T) -> real, s: Simulator<T>)
    requires
        exact(val),
        noiseless(val, s.cfg),
    ensures
        ({
            let tick = stepped(s).0;
            let x = tick.truth;
            let force = rotated_back(
                x.q,
                v3::subtracted(true_acceleration(s.t), standard_gravity()),
            );
            let flow = rotated_back(x.q, x.v);
            &&& triple(val, tick.accel) == triple(val, v3::added(force, x.accel_bias))
            &&& triple(val, tick.gyro) == triple(val, v3::added(true_body_rate(s.t), x.gyro_bias))
            &&& tick.gps matches Some(z) ==> triple(val, z) == triple(val, x.p)
            &&& tick.baro matches Some(z) ==> val(z) == val(x.p[2])
            &&& tick.mag matches Some(z) ==> triple(val, z) == triple(
                val,
                rotated_back(x.q, magnetic_north()),
            )
            &&& tick.lidar matches Some(z) ==> val(z) == val(
                quot(x.p[2], rotation_rows(x.q)[2][2]),
            )
            &&& tick.uwb matches Some(z) ==> (forall|i: int|
                0 <= i < 4 ==> val(#[trigger] z[i]) == val(beacon_range(x.p, i)))
            &&& tick.flow matches Some(z) ==> val(z[0]) == val(flow[0]) && val(z[1]) == val(flow[1])
        }),
{
    reveal(stepped);
    assert forall|r: Rng<T>, x: T, sigma: T| val(sigma) == 0real implies val(
        (#[trigger] noisy_draw(r, x, sigma)).0,
    ) == val(x) by {
        lemma_silent_draw(val, r, x, sigma);
    }
    let tick = stepped(s).0;
    if let Some(z) = tick.uwb {
        assert(val(z[0]) == val(beacon_range(tick.truth.p, 0)));
        assert(val(z[1]) == val(beacon_range(tick.truth.p, 1)));
        assert(val(z[2]) == val(beacon_range(tick.truth.p, 2)));
        assert(val(z[3]) == val(beacon_range(tick.truth.p, 3)));
    }
}

/// Keeping the default sigmas from vanishing leaves those of the sensors that are simulated as they
/// are, and gives the others one.
pub proof fn default_sigmas_need_no_guard<T: Real>(val: spec_fn(T) -> real)
    requires
        exact(val),
    ensures
        ({
            let (cfg, kept) = (standard_config::<T>(), guarded(standard_config::<T>()));
            &&& val(kept.gps_noise) == val(cfg.gps_noise)
            &&& val(kept.baro_noise) == val(cfg.baro_noise)
            &&& val(kept.mag_noise) == val(cfg.mag_noise)
            &&& val(kept.lidar_noise) == val(cfg.lidar_noise)
            &&& val(kept.uwb_noise) == val(cfg.uwb_noise)
            &&& val(kept.flow_noise) == val(cfg.flow_noise)
            &&& val(kept.gps_vel_noise) > 0real
            &&& val(kept.dvl_noise) > 0real
            &&& val(kept.att_noise) > 0real
        }),
{
    assert(val(lit::<T>(1, 1000)) == 1real / 1000real);
    assert(val(lit::<T>(1, 10_000)) == 1real / 10_000real);
    assert(val(lit::<T>(8, 10)) == 8real / 10real);
    assert(val(lit::<T>(6, 10)) == 6real / 10real);
    assert(val(lit::<T>(2, 100)) == 2real / 100real);
    assert(val(lit::<T>(15, 100)) == 15real / 100real);
    assert(val(lit::<T>(35, 100)) == 35real / 100real);
}

/// What a filter assumes of the noise is derived from the settings and is not the same: each term
/// that is not zero differs from the setting that it comes from, and lies above it.
pub proof fn assumed_noise_differs<T: Real>(val: spec_fn(T) -> real, cfg: SimConfig<T>)
    requires
        exact(val),
        val(cfg.accel_noise) > 0real && val(cfg.gyro_noise) > 0real,
        val(cfg.accel_bias_walk) > 0real && val(cfg.gyro_bias_walk) > 0real,
    ensures
        ({
            let n = assumed_noise(cfg);
            &&& n.gravity == standard_gravity::<T>()
            &&& val(n.accel) > val(cfg.accel_noise)
            &&& val(n.gyro) > val(cfg.gyro_noise)
            &&& val(n.accel_bias) > val(cfg.accel_bias_walk)
            &&& val(n.gyro_bias) > val(cfg.gyro_bias_walk)
        }),
{
    let k = lit::<T>(105, 100);
    assert(val(k) == 105real / 100real);
    comm(val(cfg.accel_noise), val(k));
    comm(val(cfg.gyro_noise), val(k));
    comm(val(cfg.accel_bias_walk), val(k));
    comm(val(cfg.gyro_bias_walk), val(k));
}

/// Propagating over no time changes nothing: with `dt` zero the nominal state and the covariance stay
/// as they were, whatever the IMU reads.
pub proof fn no_time_changes_nothing<T: Real>(
    val: spec_fn(T) -> real,
    s: FilterState<T>,
    accel: V3<T>,
    gyro: V3<T>,
    dt: T,
)
    requires
        exact(val),
        is_unit(val, s.nom.q),
        symmetric(s.p, N as nat),
        val(dt) == 0real,
    ensures
        ({
            let next = predicted(s, accel, gyro, dt);
            &&& triple(val, next.nom.p) == triple(val, s.nom.p)
            &&& triple(val, next.nom.v) == triple(val, s.nom.v)
            &&& four(val, next.nom.q) == four(val, s.nom.q)
            &&& next.nom.accel_bias == s.nom.accel_bias
            &&& next.nom.gyro_bias == s.nom.gyro_bias
            &&& agree(numbers(val, next.p), numbers(val, s.p), N as nat, N as nat)
        }),
{
    lemma_constants(val);
    let n = N as nat;
    let a = v3::subtracted(accel, s.nom.accel_bias);
    let w = v3::subtracted(gyro, s.nom.gyro_bias);
    let back = negation(dt);
    assert forall|x: T| val(#[trigger] prod(x, dt)) == 0real by {
        times_zero(val(x), val(dt));
    }
    assert forall|x: T| val(#[trigger] prod(x, back)) == 0real by {
        times_zero(val(x), val(back));
    }
    // The nominal state.
    let r = rotation_rows(s.nom.q);
    let a_world = v3::added(applied(r, a), s.noise.gravity);
    let half_dt2 = prod(prod(lit::<T>(1, 2), dt), dt);
    times_zero(val(a_world[0]), val(half_dt2));
    times_zero(val(a_world[1]), val(half_dt2));
    times_zero(val(a_world[2]), val(half_dt2));
    lemma_turn_by_nothing(val, s.nom.q, v3::scaled(w, dt));
    // The transition.
    let still = v3::scaled(w, back);
    lemma_exp_of_zero(val, still);
    lemma_entries(val, exp_map(still));
    let f = transition(s.nom.q, a, w, dt);
    let rf = numbers(val, f);
    times_zero(0real, 0real);
    times_zero(1real, 0real);
    comm(1real, 0real);
    assert forall|i: int, j: int| 0 <= i < n && 0 <= j < n implies #[trigger] rf(i, j) == delta()(i, j) by {
        if IP <= i < IP + 3 && IV <= j < IV + 3 {
            assert(f[i][j] == prod(identity_grid::<T>(3)[i - IP][j - IV], dt));
        } else if IV <= i < IV + 3 && ITH <= j < ITH + 3 {
            assert(f[i][j] == prod(product(r, skew_grid(a), 3, 3, 3)[i - IV][j - ITH], back));
        } else if IV <= i < IV + 3 && IAB <= j < IAB + 3 {
            assert(f[i][j] == prod(r[i - IV][j - IAB], back));
        } else if ITH <= i < ITH + 3 && ITH <= j < ITH + 3 {
            assert(f[i][j] == rotation_rows(exp_map(still))[i - ITH][j - ITH]);
        } else if ITH <= i < ITH + 3 && IWB <= j < IWB + 3 {
            assert(f[i][j] == prod(identity_grid::<T>(3)[i - ITH][j - IWB], back));
        } else {
            assert(f[i][j] == identity_grid::<T>(n)[i][j]);
        }
    }
    // The covariance.
    let p = numbers(val, s.p);
    lemma_sandwich_agrees(val, f, s.p, n, n);
    let fp = times(rf, p, n);
    lemma_times_agree(rf, delta(), p, p, n, n, n);
    lemma_times_delta(p, n);
    assert(agree(fp, p, n, n)) by {
        assert forall|i: int, j: int| 0 <= i < n && 0 <= j < n implies #[trigger] fp(i, j) == p(i, j) by {
            assert(fp(i, j) == times(delta(), p, n)(i, j));
            assert(times(delta(), p, n)(i, j) == p(i, j));
        }
    }
    assert(agree(flipped(rf), delta(), n, n)) by {
        assert forall|i: int, j: int| 0 <= i < n && 0 <= j < n implies #[trigger] flipped(rf)(i, j)
            == delta()(i, j) by {
            assert(rf(j, i) == delta()(j, i));
        }
    }
    lemma_times_agree(fp, p, flipped(rf), delta(), n, n, n);
    let next = predicted(s, accel, gyro, dt);
    let q = process_noise(s.noise, dt);
    let c = congruence(f, s.p);
    let m = grid_sum(c, q, n, n);
    assert forall|i: int, j: int| 0 <= i < n && 0 <= j < n implies val(#[trigger] m[i][j]) == p(i, j) by {
        assert(numbers(val, c)(i, j) == times(fp, flipped(rf), n)(i, j));
        assert(times(fp, flipped(rf), n)(i, j) == times(p, delta(), n)(i, j));
        assert(times(p, delta(), n)(i, j) == p(i, j));
        assert(val(q[i][j]) == 0real);
    }
    assert forall|i: int, j: int| 0 <= i < n && 0 <= j < n implies #[trigger] numbers(val, next.p)(i, j)
        == p(i, j) by {
        assert(s.p[i][j] == s.p[j][i]);
        assert(val(m[i][j]) == p(i, j) && val(m[j][i]) == p(i, j));
    }
}

/// A turn by a rotation vector of zero.
proof fn lemma_turn_by_nothing<T: Real>(val: spec_fn(T) -> real, q: Quat<T>, turn: V3<T>)
    requires
        exact(val),
        is_unit(val, q),
        triple(val, turn) == (0real, 0real, 0real),
    ensures
        four(val, unit(hamilton(q, exp_map(turn)))) == four(val, q),
{
    lemma_exp_of_zero(val, turn);
    let e = exp_map(turn);
    let turned = hamilton(q, e);
    let (w, x, y, z) = four(val, q);
    times_one(w, val(e.w));
    times_one(x, val(e.w));
    times_one(y, val(e.w));
    times_one(z, val(e.w));
    times_zero(w, 0real);
    times_zero(x, 0real);
    times_zero(y, 0real);
    times_zero(z, 0real);
    assert(four(val, turned) == four(val, q));
    normalizing_keeps_unit(val, turned);
}

} // verus!
