//! The covariance of the filter stays positive semidefinite, and the NEES is never negative.

use vstd::prelude::*;

use crate::exact::inverse::inverse_inverts;
use crate::exact::measurements::lemma_innovation;
use crate::exact::matrices::{
    agree, delta, flipped, form, lemma_congruence_positive, lemma_diagonal_positive,
    lemma_form_agree, lemma_form_of_flipped, lemma_form_of_multiple, lemma_form_of_sum,
    lemma_row_by_col, lemma_row_through, lemma_times_agree, numbers, positive, product_is_exact,
    row_times, times, RealMat, RealVec,
};
use crate::exact::quaternions::{is_unit, normalized_is_unit};
use crate::exact::sums::{lemma_single, lemma_terms, rsum};
use crate::exact::{exact, lemma_constants, lemma_square};
use crate::filter::{
    attitude_corrected, baro_corrected, block_diagonal, body_velocity_corrected, congruence,
    corrected, error_block, flow_corrected, gain, gps_corrected, gps_velocity_corrected,
    initial_covariance, innovation, joseph, lidar_corrected, mag_corrected, noise3, predicted,
    process_noise, range_corrected, range_model, reported, reset_jacobian, single, standard_sigma,
    symmetrized, transition, FilterState, InitialSigma, Noise, Reading, ITH, N,
};
use crate::flight::{
    airborne, filter_of, full_nees_of, fused, guarded, lemma_settings_kept, ranged, truth_of,
};
use crate::linalg::gauss::inverse_grid;
use crate::linalg::{grid_diff, grid_sum, identity_grid, product, shaped, transposed, v3, Grid, V3};
use crate::metrics::{error_column, weighed};
use crate::quat::{exp_map, hamilton, matrix_components, Quat};
use crate::scalar::{diff, lit, prod, quot, Real};
use crate::rng::noisy3_draw;
use crate::sim::{anchors, launched, magnetic_north, stepped, SimConfig, Tick};
use crate::trajectory::{attitude_rows, true_orientation, truth};

verus! {

/// The covariance of a state is positive semidefinite, and its orientation a unit quaternion.
pub open spec fn sound<T: Real>(val: spec_fn(T) -> real, s: FilterState<T>) -> bool {
    &&& shaped(s.p, N as nat, N as nat)
    &&& positive(numbers(val, s.p), N as nat)
    &&& is_unit(val, s.nom.q)
}

/// What is positive semidefinite is told by the entries.
pub proof fn lemma_positive_agree(a: RealMat, b: RealMat, n: nat)
    requires
        agree(a, b, n, n),
        positive(b, n),
    ensures
        positive(a, n),
{
    assert forall|x: RealVec| #[trigger] form(a, x, n) >= 0real by {
        lemma_form_agree(a, b, x, n);
        assert(form(b, x, n) >= 0real);
    }
}

/// `a m aᵀ` on grids: `a` is `r`×`n` and `m` is `n`×`n`.
pub proof fn lemma_sandwich_agrees<T: Real>(
    val: spec_fn(T) -> real,
    a: Grid<T>,
    m: Grid<T>,
    r: nat,
    n: nat,
)
    requires
        exact(val),
    ensures
        agree(
            numbers(val, product(product(a, m, r, n, n), transposed(a, r, n), r, n, r)),
            times(times(numbers(val, a), numbers(val, m), n), flipped(numbers(val, a)), n),
            r,
            r,
        ),
{
    let am = product(a, m, r, n, n);
    let at = transposed(a, r, n);
    let ra = numbers(val, a);
    let rm = numbers(val, m);
    product_is_exact(val, a, m, r, n, n);
    product_is_exact(val, am, at, r, n, r);
    assert(agree(numbers(val, at), flipped(ra), n, r));
    lemma_times_agree(numbers(val, am), times(ra, rm, n), numbers(val, at), flipped(ra), r, n, r);
    let whole = numbers(val, product(am, at, r, n, r));
    let exact_one = times(times(ra, rm, n), flipped(ra), n);
    assert forall|i: int, j: int| 0 <= i < r && 0 <= j < r implies #[trigger] whole(i, j)
        == exact_one(i, j) by {
        assert(whole(i, j) == times(numbers(val, am), numbers(val, at), n)(i, j));
        assert(times(numbers(val, am), numbers(val, at), n)(i, j) == exact_one(i, j));
    }
}

/// A congruence of a positive grid is positive.
proof fn lemma_sandwich_positive<T: Real>(
    val: spec_fn(T) -> real,
    a: Grid<T>,
    m: Grid<T>,
    r: nat,
    n: nat,
)
    requires
        exact(val),
        positive(numbers(val, m), n),
    ensures
        positive(
            numbers(val, product(product(a, m, r, n, n), transposed(a, r, n), r, n, r)),
            r,
        ),
{
    lemma_sandwich_agrees(val, a, m, r, n);
    let ra = numbers(val, a);
    let rm = numbers(val, m);
    lemma_congruence_positive(ra, rm, r, n);
    lemma_positive_agree(
        numbers(val, product(product(a, m, r, n, n), transposed(a, r, n), r, n, r)),
        times(times(ra, rm, n), flipped(ra), n),
        r,
    );
}

/// A sum of positive grids is positive.
proof fn lemma_sum_positive<T: Real>(val: spec_fn(T) -> real, a: Grid<T>, b: Grid<T>, n: nat)
    requires
        exact(val),
        positive(numbers(val, a), n),
        positive(numbers(val, b), n),
    ensures
        positive(numbers(val, grid_sum(a, b, n, n)), n),
{
    let ra = numbers(val, a);
    let rb = numbers(val, b);
    let c = |i: int, j: int| ra(i, j) + rb(i, j);
    assert(agree(numbers(val, grid_sum(a, b, n, n)), c, n, n));
    assert forall|x: RealVec| #[trigger] form(c, x, n) >= 0real by {
        lemma_form_of_sum(ra, rb, x, n);
        assert(form(ra, x, n) >= 0real);
        assert(form(rb, x, n) >= 0real);
    }
    lemma_positive_agree(numbers(val, grid_sum(a, b, n, n)), c, n);
}

/// Taking the mean with the mirror image keeps the quadratic form.
pub proof fn lemma_symmetrized_form<T: Real>(val: spec_fn(T) -> real, m: Grid<T>, n: nat, x: RealVec)
    requires
        exact(val),
    ensures
        form(numbers(val, symmetrized(m, n)), x, n) == form(numbers(val, m), x, n),
{
    lemma_constants(val);
    let half = 1real / 2real;
    let rm = numbers(val, m);
    let a = |i: int, j: int| half * rm(i, j);
    let b = |i: int, j: int| half * flipped(rm)(i, j);
    let c = |i: int, j: int| a(i, j) + b(i, j);
    let rs = numbers(val, symmetrized(m, n));
    assert(agree(rs, c, n, n)) by {
        assert forall|i: int, j: int| 0 <= i < n && 0 <= j < n implies #[trigger] rs(i, j) == c(
            i,
            j,
        ) by {
            let (p, q) = (rm(i, j), rm(j, i));
            assert(half * (p + q) == half * p + half * q) by (nonlinear_arith);
            assert(half * (q + p) == half * p + half * q) by (nonlinear_arith);
            assert(half * p + half * p == p) by (nonlinear_arith)
                requires
                    half == 1real / 2real,
            ;
        }
    }
    lemma_form_agree(rs, c, x, n);
    lemma_form_of_sum(a, b, x, n);
    lemma_form_of_multiple(half, rm, x, n);
    lemma_form_of_multiple(half, flipped(rm), x, n);
    lemma_form_of_flipped(rm, x, n);
    let f = form(rm, x, n);
    assert(half * f + half * f == f) by (nonlinear_arith)
        requires
            half == 1real / 2real,
    ;
}

/// Taking the mean with the mirror image keeps a grid positive.
proof fn lemma_symmetrized_positive<T: Real>(val: spec_fn(T) -> real, m: Grid<T>, n: nat)
    requires
        exact(val),
        positive(numbers(val, m), n),
    ensures
        positive(numbers(val, symmetrized(m, n)), n),
{
    assert forall|x: RealVec| #[trigger] form(numbers(val, symmetrized(m, n)), x, n) >= 0real by {
        lemma_symmetrized_form(val, m, n, x);
        assert(form(numbers(val, m), x, n) >= 0real);
    }
}

/// A block-diagonal grid without negative entries is positive.
proof fn lemma_blocks_positive<T: Real>(val: spec_fn(T) -> real, p: T, v: T, th: T, ab: T, wb: T)
    requires
        exact(val),
        val(p) >= 0real,
        val(v) >= 0real,
        val(th) >= 0real,
        val(ab) >= 0real,
        val(wb) >= 0real,
    ensures
        positive(numbers(val, block_diagonal(p, v, th, ab, wb)), N as nat),
{
    lemma_constants(val);
    lemma_diagonal_positive(numbers(val, block_diagonal(p, v, th, ab, wb)), N as nat);
}

/// A filter starts with a positive covariance, whatever the standard deviations.
pub proof fn initial_covariance_is_positive<T: Real>(val: spec_fn(T) -> real, s: InitialSigma<T>)
    requires
        exact(val),
    ensures
        positive(numbers(val, initial_covariance(s)), N as nat),
{
    lemma_square(val(s.position));
    lemma_square(val(s.velocity));
    lemma_square(val(s.orientation));
    lemma_square(val(s.accel_bias));
    lemma_square(val(s.gyro_bias));
    lemma_blocks_positive(
        val,
        prod(s.position, s.position),
        prod(s.velocity, s.velocity),
        prod(s.orientation, s.orientation),
        prod(s.accel_bias, s.accel_bias),
        prod(s.gyro_bias, s.gyro_bias),
    );
}

/// The process noise is positive when time does not run backwards.
pub proof fn process_noise_is_positive<T: Real>(val: spec_fn(T) -> real, noise: Noise<T>, dt: T)
    requires
        exact(val),
        val(dt) >= 0real,
    ensures
        positive(numbers(val, process_noise(noise, dt)), N as nat),
{
    lemma_constants(val);
    let d = val(dt);
    lemma_square(val(noise.accel));
    lemma_square(val(noise.gyro));
    lemma_square(val(noise.accel_bias));
    lemma_square(val(noise.gyro_bias));
    let a = val(noise.accel) * val(noise.accel);
    let g = val(noise.gyro) * val(noise.gyro);
    let ab = val(noise.accel_bias) * val(noise.accel_bias);
    let wb = val(noise.gyro_bias) * val(noise.gyro_bias);
    assert(a * d >= 0real && g * d >= 0real && ab * d >= 0real && wb * d >= 0real)
        by (nonlinear_arith)
        requires
            a >= 0real,
            g >= 0real,
            ab >= 0real,
            wb >= 0real,
            d >= 0real,
    ;
    let (ad, gd) = (a * d, g * d);
    assert(ad * d >= 0real && gd * d >= 0real) by (nonlinear_arith)
        requires
            ad >= 0real,
            gd >= 0real,
            d >= 0real,
    ;
    lemma_blocks_positive(
        val,
        lit::<T>(0, 1),
        prod(prod(prod(noise.accel, noise.accel), dt), dt),
        prod(prod(prod(noise.gyro, noise.gyro), dt), dt),
        prod(prod(noise.accel_bias, noise.accel_bias), dt),
        prod(prod(noise.gyro_bias, noise.gyro_bias), dt),
    );
}

/// Propagation keeps the covariance positive semidefinite.
pub proof fn predicting_keeps_sound<T: Real>(
    val: spec_fn(T) -> real,
    s: FilterState<T>,
    accel: V3<T>,
    gyro: V3<T>,
    dt: T,
)
    requires
        exact(val),
        sound(val, s),
        val(dt) >= 0real,
    ensures
        sound(val, predicted(s, accel, gyro, dt)),
{
    let n = N as nat;
    let a = v3::subtracted(accel, s.nom.accel_bias);
    let w = v3::subtracted(gyro, s.nom.gyro_bias);
    let f = transition(s.nom.q, a, w, dt);
    let q = process_noise(s.noise, dt);
    lemma_sandwich_positive(val, f, s.p, n, n);
    process_noise_is_positive(val, s.noise, dt);
    lemma_sum_positive(val, congruence(f, s.p), q, n);
    lemma_symmetrized_positive(val, grid_sum(congruence(f, s.p), q, n, n), n);
    normalized_is_unit(val, hamilton(s.nom.q, exp_map(v3::scaled(w, dt))));
}

/// The Joseph form is positive whatever the gain.
pub proof fn joseph_form_is_positive<T: Real>(
    val: spec_fn(T) -> real,
    p: Grid<T>,
    k: Grid<T>,
    h: Grid<T>,
    r: Grid<T>,
    m: nat,
)
    requires
        exact(val),
        positive(numbers(val, p), N as nat),
        positive(numbers(val, r), m),
    ensures
        positive(numbers(val, joseph(p, k, h, r, m)), N as nat),
{
    let n = N as nat;
    let ikh = grid_diff(identity_grid::<T>(n), product(k, h, n, m, n), n, n);
    lemma_sandwich_positive(val, ikh, p, n, n);
    lemma_sandwich_positive(val, k, r, n, m);
    lemma_sum_positive(
        val,
        congruence(ikh, p),
        product(product(k, r, n, m, m), transposed(k, n, m), n, m, n),
        n,
    );
}

/// A correction keeps the covariance positive semidefinite, whatever is measured and however it
/// depends on the state.
pub proof fn correcting_keeps_sound<T: Real>(
    val: spec_fn(T) -> real,
    s: FilterState<T>,
    h: Grid<T>,
    z: Grid<T>,
    r: Grid<T>,
    m: nat,
)
    requires
        exact(val),
        sound(val, s),
        positive(numbers(val, r), m),
    ensures
        sound(val, corrected(s, h, z, r, m)),
{
    let n = N as nat;
    match gain(s.p, h, r, m) {
        None => {},
        Some(k) => {
            let dx = product(k, z, n, m, 1);
            let g = reset_jacobian(error_block(dx, ITH as int));
            lemma_sandwich_positive(val, g, s.p, n, n);
            let p = congruence(g, s.p);
            joseph_form_is_positive(val, p, k, h, r, m);
            lemma_symmetrized_positive(val, joseph(p, k, h, r, m), n);
            normalized_is_unit(val, hamilton(s.nom.q, exp_map(error_block(dx, ITH as int))));
        },
    }
}

/// The noise of a measurement of three components is positive semidefinite.
pub proof fn lemma_noise3_positive<T: Real>(val: spec_fn(T) -> real, sigma: T)
    requires
        exact(val),
    ensures
        positive(numbers(val, noise3(sigma)), 3),
{
    lemma_constants(val);
    let s = val(sigma);
    lemma_square(s);
    let s2 = s * s;
    assert(0real * s2 == 0real && 1real * s2 == s2) by (nonlinear_arith);
    lemma_diagonal_positive(numbers(val, noise3(sigma)), 3);
}

/// The noise of a measurement of one component is positive semidefinite.
pub proof fn lemma_single_positive<T: Real>(val: spec_fn(T) -> real, sigma: T)
    requires
        exact(val),
    ensures
        positive(numbers(val, single(prod(sigma, sigma))), 1),
{
    lemma_square(val(sigma));
    lemma_diagonal_positive(numbers(val, single(prod(sigma, sigma))), 1);
}

proof fn lemma_sweep_sound<T: Real>(
    val: spec_fn(T) -> real,
    s: FilterState<T>,
    ranges: [T; 4],
    sigma: T,
    k: nat,
)
    requires
        exact(val),
        sound(val, s),
        k <= 4,
    ensures
        sound(val, ranged(s, ranges, sigma, k)),
    decreases k,
{
    if k > 0 {
        let i = (k - 1) as nat;
        lemma_sweep_sound(val, s, ranges, sigma, i);
        ranging_keeps_sound(
            val,
            ranged(s, ranges, sigma, i),
            anchors::<T>()[i as int],
            ranges[i as int],
            sigma,
        );
    }
}

/// A range keeps the covariance positive semidefinite.
pub proof fn ranging_keeps_sound<T: Real>(
    val: spec_fn(T) -> real,
    s: FilterState<T>,
    beacon: V3<T>,
    range: T,
    sigma: T,
)
    requires
        exact(val),
        sound(val, s),
    ensures
        sound(val, range_corrected(s, beacon, range, sigma)),
{
    lemma_single_positive(val, sigma);
    match range_model(s.nom.p, beacon) {
        None => {},
        Some(model) => {
            correcting_keeps_sound(
                val,
                s,
                model.1,
                single(diff(range, model.0)),
                single(prod(sigma, sigma)),
                1,
            );
        },
    }
}

/// Every kind of measurement keeps the covariance positive semidefinite.
#[verifier::rlimit(40)]
pub proof fn every_sensor_keeps_sound<T: Real>(
    val: spec_fn(T) -> real,
    s: FilterState<T>,
    v: V3<T>,
    reference: V3<T>,
    x: T,
    xy: [T; 2],
    q: Quat<T>,
    sigma: T,
)
    requires
        exact(val),
        sound(val, s),
    ensures
        sound(val, gps_corrected(s, v, sigma)),
        sound(val, baro_corrected(s, x, sigma)),
        sound(val, mag_corrected(s, v, reference, sigma)),
        sound(val, range_corrected(s, v, x, sigma)),
        sound(val, lidar_corrected(s, x, sigma)),
        sound(val, flow_corrected(s, xy, sigma)),
        sound(val, gps_velocity_corrected(s, v, sigma)),
        sound(val, body_velocity_corrected(s, v, sigma)),
        sound(val, attitude_corrected(s, q, sigma)),
{
    lemma_constants(val);
    lemma_noise3_positive(val, sigma);
    lemma_single_positive(val, sigma);
    let s2 = prod(sigma, sigma);
    let zero = lit::<T>(0, 1);
    let r2 = seq![seq![s2, zero], seq![zero, s2]];
    lemma_square(val(sigma));
    lemma_diagonal_positive(numbers(val, r2), 2);
    ranging_keeps_sound(val, s, v, x, sigma);
    assert forall|h: Grid<T>, z: Grid<T>| sound(
        val,
        #[trigger] corrected(s, h, z, noise3(sigma), 3),
    ) by {
        correcting_keeps_sound(val, s, h, z, noise3(sigma), 3);
    }
    assert forall|h: Grid<T>, z: Grid<T>| sound(
        val,
        #[trigger] corrected(s, h, z, single(prod(sigma, sigma)), 1),
    ) by {
        correcting_keeps_sound(val, s, h, z, single(prod(sigma, sigma)), 1);
    }
    assert forall|h: Grid<T>, z: Grid<T>| sound(val, #[trigger] corrected(s, h, z, r2, 2)) by {
        correcting_keeps_sound(val, s, h, z, r2, 2);
    }
}

/// A tick keeps the covariance positive semidefinite.
pub proof fn fusing_keeps_sound<T: Real>(
    val: spec_fn(T) -> real,
    s: FilterState<T>,
    tick: Tick<T>,
    cfg: SimConfig<T>,
)
    requires
        exact(val),
        sound(val, s),
        val(tick.dt) >= 0real,
    ensures
        sound(val, fused(s, tick, cfg)),
{
    reveal(fused);
    predicting_keeps_sound(val, s, tick.accel, tick.gyro, tick.dt);
    let s0 = predicted(s, tick.accel, tick.gyro, tick.dt);
    let (v0, x0, q0) = (tick.accel, tick.dt, s.nom.q);
    let xy0 = [x0, x0];
    let s1 = match tick.gps {
        Some(z) => gps_corrected(s0, z, cfg.gps_noise),
        None => s0,
    };
    assert(sound(val, s1)) by {
        if let Some(z) = tick.gps {
            every_sensor_keeps_sound(val, s0, z, v0, x0, xy0, q0, cfg.gps_noise);
        }
    }
    let s2 = match tick.baro {
        Some(z) => baro_corrected(s1, z, cfg.baro_noise),
        None => s1,
    };
    assert(sound(val, s2)) by {
        if let Some(z) = tick.baro {
            every_sensor_keeps_sound(val, s1, v0, v0, z, xy0, q0, cfg.baro_noise);
        }
    }
    let north = magnetic_north::<T>();
    let s3 = match tick.mag {
        Some(z) => mag_corrected(s2, z, north, cfg.mag_noise),
        None => s2,
    };
    assert(sound(val, s3)) by {
        if let Some(z) = tick.mag {
            every_sensor_keeps_sound(val, s2, z, north, x0, xy0, q0, cfg.mag_noise);
        }
    }
    let s4 = match tick.lidar {
        Some(z) => lidar_corrected(s3, z, cfg.lidar_noise),
        None => s3,
    };
    assert(sound(val, s4)) by {
        if let Some(z) = tick.lidar {
            every_sensor_keeps_sound(val, s3, v0, v0, z, xy0, q0, cfg.lidar_noise);
        }
    }
    let s5 = match tick.uwb {
        Some(z) => ranged(s4, z, cfg.uwb_noise, 4),
        None => s4,
    };
    assert(sound(val, s5)) by {
        if let Some(z) = tick.uwb {
            lemma_sweep_sound(val, s4, z, cfg.uwb_noise, 4);
        }
    }
    let s6 = match tick.flow {
        Some(z) => flow_corrected(s5, z, cfg.flow_noise),
        None => s5,
    };
    assert(sound(val, s6)) by {
        if let Some(z) = tick.flow {
            every_sensor_keeps_sound(val, s5, v0, v0, x0, z, q0, cfg.flow_noise);
        }
    }
    let s7 = match tick.gps_vel {
        Some(z) => gps_velocity_corrected(s6, z, cfg.gps_vel_noise),
        None => s6,
    };
    assert(sound(val, s7)) by {
        if let Some(z) = tick.gps_vel {
            every_sensor_keeps_sound(val, s6, z, v0, x0, xy0, q0, cfg.gps_vel_noise);
        }
    }
    let s8 = match tick.dvl {
        Some(z) => body_velocity_corrected(s7, z, cfg.dvl_noise),
        None => s7,
    };
    assert(sound(val, s8)) by {
        if let Some(z) = tick.dvl {
            every_sensor_keeps_sound(val, s7, z, v0, x0, xy0, q0, cfg.dvl_noise);
        }
    }
    if let Some(z) = tick.att {
        every_sensor_keeps_sound(val, s8, v0, v0, x0, xy0, z, cfg.att_noise);
    }
}

/// The true orientation is a unit quaternion at every time.
pub proof fn orientation_is_unit<T: Real>(val: spec_fn(T) -> real, t: T)
    requires
        exact(val),
    ensures
        is_unit(val, true_orientation(t)),
{
    normalized_is_unit(val, matrix_components(attitude_rows(t)));
}

/// Throughout a flight, whatever its settings, seed and length, the covariance that the filter
/// reports is positive semidefinite and its orientation is a unit quaternion.
pub proof fn flight_stays_sound<T: Real>(
    val: spec_fn(T) -> real,
    cfg: SimConfig<T>,
    seed: u64,
    k: nat,
)
    requires
        exact(val),
        val(cfg.imu_rate) > 0real,
    ensures
        sound(val, airborne(cfg, seed, k).filter),
    decreases k,
{
    if k == 0 {
        initial_covariance_is_positive(val, standard_sigma::<T>());
        let t = truth(lit::<T>(0, 1));
        let (_, r1) = noisy3_draw(launched(cfg, seed).rng, t.p, standard_sigma().position);
        let (_, r2) = noisy3_draw(r1, t.v, standard_sigma().velocity);
        let (turn, _) = noisy3_draw(r2, v3::origin(), standard_sigma().orientation);
        normalized_is_unit(val, hamilton(t.q, exp_map(turn)));
    } else {
        let before = airborne(cfg, seed, (k - 1) as nat);
        flight_stays_sound(val, cfg, seed, (k - 1) as nat);
        lemma_settings_kept(cfg, seed, (k - 1) as nat);
        let tick = stepped(before.sim).0;
        assert(val(tick.dt) >= 0real) by {
            reveal(stepped);
            lemma_constants(val);
            let rate = val(cfg.imu_rate);
            assert(tick.dt == quot(lit::<T>(1, 1), cfg.imu_rate));
            assert(1real / rate >= 0real) by (nonlinear_arith)
                requires
                    rate > 0real,
            ;
        }
        fusing_keeps_sound(val, before.filter, tick, guarded(cfg));
    }
}

/// `eᵀ p⁻¹ e` is not negative where `p` is positive semidefinite and can be inverted.
pub proof fn weighed_is_not_negative<T: Real>(val: spec_fn(T) -> real, e: Grid<T>, p: Grid<T>, n: nat)
    requires
        exact(val),
        shaped(p, n, n),
        positive(numbers(val, p), n),
        weighed(e, p, n) is Some,
    ensures
        val(weighed(e, p, n)->0) >= 0real,
{
    inverse_inverts(val, p, n);
    let inv = inverse_grid(p, n)->0;
    let rp = numbers(val, p);
    let ri = numbers(val, inv);
    let re = |i: int| val(e[i][0]);
    let et = transposed(e, n, 1);
    let row = product(et, inv, 1, n, n);
    lemma_row_by_col(val, row, e, 0, 0, n);
    // y = eᵀ p⁻¹, so that the value is y·e, and e = y p.
    let y = row_times(re, ri, n);
    let f = |t: int| val(row[0][t]) * val(e[t][0]);
    let g = |t: int| y(t) * re(t);
    assert forall|t: int| 0 <= t < n implies #[trigger] f(t) == g(t) by {
        lemma_row_by_col(val, et, inv, 0, t, n);
        lemma_terms(n, |k: int| val(et[0][k]) * val(inv[k][t]), |k: int| re(k) * ri(k, t));
    }
    lemma_terms(n, f, g);
    let yp = row_times(y, rp, n);
    assert forall|t: int| 0 <= t < n implies #[trigger] yp(t) == re(t) by {
        lemma_row_through(re, ri, rp, n, n, t);
        let h = |i: int| re(i) * times(ri, rp, n)(i, t);
        assert forall|i: int| 0 <= i < n && i != t implies #[trigger] h(i) == 0real by {
            assert(times(ri, rp, n)(i, t) == delta()(i, t));
            let x = re(i);
            assert(x * 0real == 0real) by (nonlinear_arith);
        }
        lemma_single(n, t, h);
        assert(times(ri, rp, n)(t, t) == delta()(t, t));
        let x = re(t);
        assert(x * 1real == x) by (nonlinear_arith);
    }
    let q = |t: int| yp(t) * y(t);
    assert forall|t: int| 0 <= t < n implies #[trigger] g(t) == q(t) by {
        let (a, b) = (y(t), re(t));
        assert(yp(t) == b);
        assert(a * b == b * a) by (nonlinear_arith);
    }
    lemma_terms(n, g, q);
    assert(form(rp, y, n) == rsum(n, q));
    assert(form(rp, y, n) >= 0real);
}

/// The full-state NEES of a flight is never negative.
pub proof fn nees_is_not_negative<T: Real>(
    val: spec_fn(T) -> real,
    cfg: SimConfig<T>,
    seed: u64,
    k: nat,
)
    requires
        exact(val),
        val(cfg.imu_rate) > 0real,
        full_nees_of(cfg, seed, k) is Some,
    ensures
        val(full_nees_of(cfg, seed, k)->0) >= 0real,
{
    flight_stays_sound(val, cfg, seed, k + 1);
    let f = filter_of(cfg, seed, k);
    weighed_is_not_negative(
        val,
        error_column(f.nom, truth_of(cfg, seed, k)),
        f.p,
        N as nat,
    );
}

/// The normalised innovation squared of a correction is never negative.
pub proof fn nis_is_not_negative<T: Real>(val: spec_fn(T) -> real, s: FilterState<T>, x: Reading<T>)
    requires
        exact(val),
        sound(val, s),
        positive(numbers(val, x.r), x.m),
    ensures
        val(reported(s, x).nis) >= 0real,
{
    lemma_constants(val);
    let inn = innovation(s.p, x.h, x.r, x.m);
    if weighed(x.z, inn, x.m) is Some {
        let (rp, rh, rr) = (numbers(val, s.p), numbers(val, x.h), numbers(val, x.r));
        let n = N as nat;
        let hph = times(times(rh, rp, n), flipped(rh), n);
        lemma_innovation(val, s.p, x.h, x.r, x.m);
        lemma_congruence_positive(rh, rp, x.m, n);
        let both = |a: int, b: int| hph(a, b) + rr(a, b);
        assert forall|y: RealVec| #[trigger] form(both, y, x.m) >= 0real by {
            lemma_form_of_sum(hph, rr, y, x.m);
            assert(form(hph, y, x.m) >= 0real);
            assert(form(rr, y, x.m) >= 0real);
        }
        lemma_positive_agree(numbers(val, inn), both, x.m);
        weighed_is_not_negative(val, x.z, inn, x.m);
    }
}

} // verus!
