//! The error-state Kalman filter.
//!
//! Two states are in play. The nominal state (position, velocity, orientation, and the two IMU
//! biases) holds the full estimate and is integrated directly from the IMU. The error state, a
//! 15-vector `[δp, δv, δθ, δa_b, δω_b]` that is zero between steps, is what the Kalman machinery
//! estimates. Each correction is computed in the error state, injected into the nominal state, and
//! the error state is reset. The angular error is local, in the body frame.

use vstd::prelude::*;

use crate::linalg::gauss::inverse_grid;
use crate::linalg::{
    col3, column, grid_diff, grid_scaled, grid_sum, identity_grid, product, row_by_col, skew,
    skew_grid, table, transposed, v3, with_block, zeros_grid, Grid, Mat, V3,
};
use crate::metrics::weighed;
use crate::quat::{
    angular_error, applied, boxminus, exp_map, hamilton, mat_vec, rotated_back, rotation_rows, unit,
    Quat,
};
use crate::scalar::{
    at_most, diff, functional, group_real_ops, less, lit, negation, prod, quot, root, sum, Real,
};

verus! {

broadcast use group_real_ops;

/// Offset of the position error in the error state.
pub const IP: usize = 0;

/// Offset of the velocity error.
pub const IV: usize = 3;

/// Offset of the orientation error.
pub const ITH: usize = 6;

/// Offset of the accelerometer-bias error.
pub const IAB: usize = 9;

/// Offset of the gyroscope-bias error.
pub const IWB: usize = 12;

/// Dimension of the error state.
pub const N: usize = 15;

/// The full estimate, integrated directly from the IMU.
#[derive(Clone, Copy, Debug)]
pub struct Nominal<T> {
    pub p: V3<T>,
    pub v: V3<T>,
    pub q: Quat<T>,
    pub accel_bias: V3<T>,
    pub gyro_bias: V3<T>,
}

impl<T: Real> Nominal<T> {
    /// At rest at `p`, with orientation `q` and no bias.
    pub fn at_rest(p: V3<T>, q: Quat<T>) -> (r: Self)
        ensures
            r.p == p,
            r.q == q,
            functional::<T>() ==> r.v == v3::origin::<T>(),
            functional::<T>() ==> r.accel_bias == v3::origin::<T>(),
            functional::<T>() ==> r.gyro_bias == v3::origin::<T>(),
    {
        Nominal { p, v: v3::zero(), q, accel_bias: v3::zero(), gyro_bias: v3::zero() }
    }
}

/// Process-noise densities (continuous-time) and gravity: what the filter believes about the IMU.
#[derive(Clone, Copy, Debug)]
pub struct Noise<T> {
    /// Gravity vector, world frame (z up), m/s².
    pub gravity: V3<T>,
    /// Accelerometer white-noise density, (m/s²)/√Hz.
    pub accel: T,
    /// Gyroscope white-noise density, (rad/s)/√Hz.
    pub gyro: T,
    /// Accelerometer bias random-walk density, (m/s²)√Hz.
    pub accel_bias: T,
    /// Gyroscope bias random-walk density, (rad/s)√Hz.
    pub gyro_bias: T,
}

/// The default process noise, under standard gravity.
pub open spec fn standard_noise<T: Real>() -> Noise<T> {
    Noise {
        gravity: [lit::<T>(0, 1), lit::<T>(0, 1), lit::<T>((-980_665) as i64, 100_000)],
        accel: lit::<T>(8, 100),
        gyro: lit::<T>(6, 1000),
        accel_bias: lit::<T>(2, 1000),
        gyro_bias: lit::<T>(2, 10_000),
    }
}

impl<T: Real> Default for Noise<T> {
    fn default() -> (r: Self)
        ensures
            functional::<T>() ==> r == standard_noise::<T>(),
    {
        Noise {
            gravity: [T::ratio(0, 1), T::ratio(0, 1), T::ratio(-980_665, 100_000)],
            accel: T::ratio(8, 100),
            gyro: T::ratio(6, 1000),
            accel_bias: T::ratio(2, 1000),
            gyro_bias: T::ratio(2, 10_000),
        }
    }
}

/// Standard deviations of the initial error on each block.
#[derive(Clone, Copy, Debug)]
pub struct InitialSigma<T> {
    pub position: T,
    pub velocity: T,
    pub orientation: T,
    pub accel_bias: T,
    pub gyro_bias: T,
}

/// The default initial uncertainty.
pub open spec fn standard_sigma<T: Real>() -> InitialSigma<T> {
    InitialSigma {
        position: lit::<T>(3, 1),
        velocity: lit::<T>(3, 10),
        orientation: lit::<T>(1, 10),
        accel_bias: lit::<T>(1, 10),
        gyro_bias: lit::<T>(1, 100),
    }
}

impl<T: Real> Default for InitialSigma<T> {
    fn default() -> (r: Self)
        ensures
            functional::<T>() ==> r == standard_sigma::<T>(),
    {
        InitialSigma {
            position: T::ratio(3, 1),
            velocity: T::ratio(3, 10),
            orientation: T::ratio(1, 10),
            accel_bias: T::ratio(1, 10),
            gyro_bias: T::ratio(1, 100),
        }
    }
}

/// The model of a filter: the estimate, the rows of the error covariance, the noise that it assumes, and
/// what the last measurement did.
#[verifier::ext_equal]
pub struct FilterState<T> {
    pub nom: Nominal<T>,
    pub p: Grid<T>,
    pub noise: Noise<T>,
    /// The record of the last measurement.
    pub last_update: Option<Correction<T>>,
}

/// `m` equals its transpose.
pub open spec fn symmetric<T>(m: Grid<T>, n: nat) -> bool {
    forall|i: int, j: int| 0 <= i < n && 0 <= j < n ==> #[trigger] m[i][j] == m[j][i]
}

/// The 15×15 grid with the given values on the diagonal, three rows to each block, zero elsewhere.
pub open spec fn block_diagonal<T: Real>(p: T, v: T, th: T, ab: T, wb: T) -> Grid<T> {
    table(
        N as nat,
        N as nat,
        |i: int, j: int|
            if i != j {
                lit::<T>(0, 1)
            } else if i < IV {
                p
            } else if i < ITH {
                v
            } else if i < IAB {
                th
            } else if i < IWB {
                ab
            } else {
                wb
            },
    )
}

/// The covariance of a filter that starts with the standard deviations `s`.
pub open spec fn initial_covariance<T: Real>(s: InitialSigma<T>) -> Grid<T> {
    block_diagonal(
        prod(s.position, s.position),
        prod(s.velocity, s.velocity),
        prod(s.orientation, s.orientation),
        prod(s.accel_bias, s.accel_bias),
        prod(s.gyro_bias, s.gyro_bias),
    )
}

/// `m` with each entry off the diagonal replaced by the mean of it and its mirror image.
pub open spec fn symmetrized<T: Real>(m: Grid<T>, n: nat) -> Grid<T> {
    table(
        n,
        n,
        |i: int, j: int|
            if i == j {
                m[i][j]
            } else if i < j {
                prod(lit::<T>(1, 2), sum(m[i][j], m[j][i]))
            } else {
                prod(lit::<T>(1, 2), sum(m[j][i], m[i][j]))
            },
    )
}

/// The nominal state one IMU sample later: `a` is the specific force and `w` the angular rate, both
/// in the body frame with the bias removed.
pub open spec fn integrated<T: Real>(
    nom: Nominal<T>,
    gravity: V3<T>,
    a: V3<T>,
    w: V3<T>,
    dt: T,
) -> Nominal<T> {
    let a_world = v3::added(applied(rotation_rows(nom.q), a), gravity);
    let half_dt2 = prod(prod(lit::<T>(1, 2), dt), dt);
    Nominal {
        p: v3::added(nom.p, v3::added(v3::scaled(nom.v, dt), v3::scaled(a_world, half_dt2))),
        v: v3::added(nom.v, v3::scaled(a_world, dt)),
        q: unit(hamilton(nom.q, exp_map(v3::scaled(w, dt)))),
        accel_bias: nom.accel_bias,
        gyro_bias: nom.gyro_bias,
    }
}

/// The error-state transition `F`: the identity, with `I·dt` from velocity to position, `−R[a]×·dt`
/// from orientation and `−R·dt` from accelerometer bias to velocity, `exp(−[w]×·dt)` on the
/// orientation and `−I·dt` from gyroscope bias to it.
pub open spec fn transition<T: Real>(q: Quat<T>, a: V3<T>, w: V3<T>, dt: T) -> Grid<T> {
    let r = rotation_rows(q);
    let back = negation(dt);
    let eye = identity_grid::<T>(3);
    let f0 = identity_grid::<T>(N as nat);
    let f1 = with_block(f0, IP as int, IV as int, grid_scaled(eye, dt, 3, 3), 3, 3);
    let f2 = with_block(
        f1,
        IV as int,
        ITH as int,
        grid_scaled(product(r, skew_grid(a), 3, 3, 3), back, 3, 3),
        3,
        3,
    );
    let f3 = with_block(f2, IV as int, IAB as int, grid_scaled(r, back, 3, 3), 3, 3);
    let f4 = with_block(
        f3,
        ITH as int,
        ITH as int,
        rotation_rows(exp_map(v3::scaled(w, back))),
        3,
        3,
    );
    with_block(f4, ITH as int, IWB as int, grid_scaled(eye, back, 3, 3), 3, 3)
}

/// The process noise `Q` of one sample: `σ²·dt²` for the white noise on velocity and orientation,
/// `σ²·dt` for the random walk of the biases.
pub open spec fn process_noise<T: Real>(noise: Noise<T>, dt: T) -> Grid<T> {
    block_diagonal(
        lit::<T>(0, 1),
        prod(prod(prod(noise.accel, noise.accel), dt), dt),
        prod(prod(prod(noise.gyro, noise.gyro), dt), dt),
        prod(prod(noise.accel_bias, noise.accel_bias), dt),
        prod(prod(noise.gyro_bias, noise.gyro_bias), dt),
    )
}

/// `a m aᵀ`, for 15×15 grids.
pub open spec fn congruence<T: Real>(a: Grid<T>, m: Grid<T>) -> Grid<T> {
    let n = N as nat;
    product(product(a, m, n, n, n), transposed(a, n, n), n, n, n)
}

/// The filter one IMU sample later.
pub open spec fn predicted<T: Real>(s: FilterState<T>, accel: V3<T>, gyro: V3<T>, dt: T) -> FilterState<
    T,
> {
    let a = v3::subtracted(accel, s.nom.accel_bias);
    let w = v3::subtracted(gyro, s.nom.gyro_bias);
    FilterState {
        nom: integrated(s.nom, s.noise.gravity, a, w, dt),
        p: symmetrized(
            grid_sum(
                congruence(transition(s.nom.q, a, w, dt), s.p),
                process_noise(s.noise, dt),
                N as nat,
                N as nat,
            ),
            N as nat,
        ),
        noise: s.noise,
        last_update: s.last_update,
    }
}

/// The block of the error-state column `dx` at offset `i`.
pub open spec fn error_block<T>(dx: Grid<T>, i: int) -> V3<T> {
    [dx[i][0], dx[i + 1][0], dx[i + 2][0]]
}

/// The reset Jacobian: the identity, except for `I − ½[δθ]×` on the orientation.
pub open spec fn reset_jacobian<T: Real>(dth: V3<T>) -> Grid<T> {
    with_block(
        identity_grid::<T>(N as nat),
        ITH as int,
        ITH as int,
        grid_diff(
            identity_grid::<T>(3),
            skew_grid(v3::scaled(dth, lit::<T>(1, 2))),
            3,
            3,
        ),
        3,
        3,
    )
}

/// The nominal state with the error-state correction `dx` folded in.
pub open spec fn nudged<T: Real>(nom: Nominal<T>, dx: Grid<T>) -> Nominal<T> {
    Nominal {
        p: v3::added(nom.p, error_block(dx, IP as int)),
        v: v3::added(nom.v, error_block(dx, IV as int)),
        q: unit(hamilton(nom.q, exp_map(error_block(dx, ITH as int)))),
        accel_bias: v3::added(nom.accel_bias, error_block(dx, IAB as int)),
        gyro_bias: v3::added(nom.gyro_bias, error_block(dx, IWB as int)),
    }
}

/// The innovation covariance `H P Hᵀ + R` of a measurement of dimension `m`.
pub open spec fn innovation<T: Real>(p: Grid<T>, h: Grid<T>, r: Grid<T>, m: nat) -> Grid<T> {
    let n = N as nat;
    grid_sum(product(h, product(p, transposed(h, m, n), n, n, m), m, n, m), r, m, m)
}

/// The Kalman gain `P Hᵀ S⁻¹` for a measurement of dimension `m`, if the innovation covariance
/// `S = H P Hᵀ + R` can be inverted.
pub open spec fn gain<T: Real>(p: Grid<T>, h: Grid<T>, r: Grid<T>, m: nat) -> Option<Grid<T>> {
    let n = N as nat;
    let pht = product(p, transposed(h, m, n), n, n, m);
    match inverse_grid(grid_sum(product(h, pht, m, n, m), r, m, m), m) {
        None => None,
        Some(s_inv) => Some(product(pht, s_inv, n, m, m)),
    }
}

/// The Joseph form `(I − K H) P (I − K H)ᵀ + K R Kᵀ`.
pub open spec fn joseph<T: Real>(p: Grid<T>, k: Grid<T>, h: Grid<T>, r: Grid<T>, m: nat) -> Grid<T> {
    let n = N as nat;
    let ikh = grid_diff(identity_grid::<T>(n), product(k, h, n, m, n), n, n);
    grid_sum(
        congruence(ikh, p),
        product(product(k, r, n, m, m), transposed(k, n, m), n, m, n),
        n,
        n,
    )
}

/// The filter after a measurement of dimension `m` with Jacobian `h`, residual `z` and noise
/// covariance `r`. Where the innovation covariance is singular the estimate is unchanged, and only the
/// record says that there was a measurement.
pub open spec fn corrected<T: Real>(
    s: FilterState<T>,
    h: Grid<T>,
    z: Grid<T>,
    r: Grid<T>,
    m: nat,
) -> FilterState<T> {
    let last_update = Some(reported(s, (Reading { h, z, r, m })));
    match gain(s.p, h, r, m) {
        None => FilterState { last_update, ..s },
        Some(k) => {
            let dx = product(k, z, N as nat, m, 1);
            let p = congruence(reset_jacobian(error_block(dx, ITH as int)), s.p);
            FilterState {
                nom: nudged(s.nom, dx),
                p: symmetrized(joseph(p, k, h, r, m), N as nat),
                noise: s.noise,
                last_update,
            }
        },
    }
}

/// The 3×15 Jacobian that picks the block at offset `c`.
pub open spec fn block_jacobian<T: Real>(c: int, b: Grid<T>) -> Grid<T> {
    with_block(zeros_grid::<T>(3, N as nat), 0, c, b, 3, 3)
}

/// `σ²·I` of dimension three.
pub open spec fn noise3<T: Real>(sigma: T) -> Grid<T> {
    grid_scaled(identity_grid::<T>(3), prod(sigma, sigma), 3, 3)
}

/// The 1×1 grid with entry `x`.
pub open spec fn single<T>(x: T) -> Grid<T> {
    seq![seq![x]]
}

/// A measurement as the filter takes it in: the Jacobian, the residual, the noise covariance, and the
/// dimension.
pub struct Reading<T> {
    pub h: Grid<T>,
    pub z: Grid<T>,
    pub r: Grid<T>,
    pub m: nat,
}

/// The state after a measurement. Where there is nothing to measure the estimate is unchanged, and no
/// record is kept.
pub open spec fn absorbed<T: Real>(s: FilterState<T>, reading: Option<Reading<T>>) -> FilterState<T> {
    match reading {
        None => FilterState { last_update: None, ..s },
        Some(x) => corrected(s, x.h, x.z, x.r, x.m),
    }
}

/// What the correction by a measurement did.
pub open spec fn reported<T: Real>(s: FilterState<T>, x: Reading<T>) -> Correction<T> {
    let nis = weighed(x.z, innovation(s.p, x.h, x.r, x.m), x.m);
    Correction {
        dim: x.m as u64,
        nis: match nis {
            Some(v) => v,
            None => lit::<T>(0, 1),
        },
        innovation_norm: root(row_by_col(transposed(x.z, x.m, 1), x.z, 0, 0, x.m)),
        accepted: nis is Some,
    }
}

/// A GPS position `pos`.
pub open spec fn gps_reading<T: Real>(s: FilterState<T>, pos: V3<T>, sigma: T) -> Option<
    Reading<T>,
> {
    Some(
        Reading {
            h: block_jacobian(IP as int, identity_grid::<T>(3)),
            z: column(v3::subtracted(pos, s.nom.p)),
            r: noise3(sigma),
            m: 3,
        },
    )
}

/// The state after a GPS position `pos`.
pub open spec fn gps_corrected<T: Real>(s: FilterState<T>, pos: V3<T>, sigma: T) -> FilterState<T> {
    absorbed(s, gps_reading(s, pos, sigma))
}

/// The 1×15 Jacobian that picks entry `c`.
pub open spec fn pick<T: Real>(c: int, x: T) -> Grid<T> {
    zeros_grid::<T>(1, N as nat).update(0, zeros_grid::<T>(1, N as nat)[0].update(c, x))
}

/// A barometric `altitude`.
pub open spec fn baro_reading<T: Real>(s: FilterState<T>, altitude: T, sigma: T) -> Option<Reading<T>> {
    Some(
        Reading {
            h: pick(IP + 2, lit::<T>(1, 1)),
            z: single(diff(altitude, s.nom.p[2])),
            r: single(prod(sigma, sigma)),
            m: 1,
        },
    )
}

/// The state after a barometric `altitude`.
pub open spec fn baro_corrected<T: Real>(s: FilterState<T>, altitude: T, sigma: T) -> FilterState<T> {
    absorbed(s, baro_reading(s, altitude, sigma))
}

/// The magnetic `field` measured in the body frame, against a `reference` in the world.
pub open spec fn mag_reading<T: Real>(
    s: FilterState<T>,
    field: V3<T>,
    reference: V3<T>,
    sigma: T,
) -> Option<Reading<T>> {
    let expected = rotated_back(s.nom.q, reference);
    Some(
        Reading {
            h: block_jacobian(ITH as int, skew_grid(expected)),
            z: column(v3::subtracted(field, expected)),
            r: noise3(sigma),
            m: 3,
        },
    )
}

/// The state after the magnetic `field` has been measured in the body frame.
pub open spec fn mag_corrected<T: Real>(
    s: FilterState<T>,
    field: V3<T>,
    reference: V3<T>,
    sigma: T,
) -> FilterState<T> {
    absorbed(s, mag_reading(s, field, reference, sigma))
}

/// The range to a beacon and its Jacobian, the unit line of sight; nothing within a millimetre.
pub open spec fn range_model<T: Real>(p: V3<T>, beacon: V3<T>) -> Option<(T, Grid<T>)> {
    let d = v3::subtracted(p, beacon);
    let dist = v3::length(d);
    if less(dist, lit::<T>(1, 1000)) {
        None
    } else {
        let u = v3::scaled(d, quot(lit::<T>(1, 1), dist));
        let row = zeros_grid::<T>(1, N as nat)[0];
        Some(
            (
                dist,
                seq![row.update(IP as int, u[0]).update(IP + 1, u[1]).update(IP + 2, u[2])],
            ),
        )
    }
}

/// A `range` to `beacon`; nothing where the beacon is too near to tell a direction.
pub open spec fn range_reading<T: Real>(
    s: FilterState<T>,
    beacon: V3<T>,
    range: T,
    sigma: T,
) -> Option<Reading<T>> {
    match range_model(s.nom.p, beacon) {
        None => None,
        Some(model) => Some(
            Reading {
                h: model.1,
                z: single(diff(range, model.0)),
                r: single(prod(sigma, sigma)),
                m: 1,
            },
        ),
    }
}

/// The state after a `range` to `beacon`; as it was where the beacon is too near to tell a direction.
pub open spec fn range_corrected<T: Real>(
    s: FilterState<T>,
    beacon: V3<T>,
    range: T,
    sigma: T,
) -> FilterState<T> {
    absorbed(s, range_reading(s, beacon, range, sigma))
}

/// The slant range down to flat ground, `p_z / R₂₂`, and its Jacobian; nothing where the beam does
/// not point at the ground below.
pub open spec fn lidar_model<T: Real>(nom: Nominal<T>) -> Option<(T, Grid<T>)> {
    let r = rotation_rows(nom.q);
    let r22 = r[2][2];
    let pz = nom.p[2];
    if less(r22, lit::<T>(2, 10)) || at_most(pz, lit::<T>(0, 1)) {
        None
    } else {
        let c = quot(pz, prod(r22, r22));
        let row = zeros_grid::<T>(1, N as nat)[0];
        Some(
            (
                quot(pz, r22),
                seq![
                    row.update(IP + 2, quot(lit::<T>(1, 1), r22)).update(
                        ITH as int,
                        prod(c, r[2][1]),
                    ).update(ITH + 1, prod(negation(c), r[2][0])),
                ],
            ),
        )
    }
}

/// A slant `range` to the ground; nothing where the beam does not meet it.
pub open spec fn lidar_reading<T: Real>(s: FilterState<T>, range: T, sigma: T) -> Option<Reading<T>> {
    match lidar_model(s.nom) {
        None => None,
        Some(model) => Some(
            Reading {
                h: model.1,
                z: single(diff(range, model.0)),
                r: single(prod(sigma, sigma)),
                m: 1,
            },
        ),
    }
}

/// The state after a slant `range` to the ground; as it was where the beam does not meet it.
pub open spec fn lidar_corrected<T: Real>(s: FilterState<T>, range: T, sigma: T) -> FilterState<T> {
    absorbed(s, lidar_reading(s, range, sigma))
}

/// The velocity resolved in the body frame, `Rᵀ v`.
pub open spec fn body_velocity<T: Real>(nom: Nominal<T>) -> V3<T> {
    applied(transposed(rotation_rows(nom.q), 3, 3), nom.v)
}

/// The first `rows` rows of the Jacobian of `Rᵀ v`: `Rᵀ` on velocity, `[Rᵀ v]×` on orientation.
pub open spec fn body_velocity_jacobian<T: Real>(nom: Nominal<T>, rows: nat) -> Grid<T> {
    let rt = transposed(rotation_rows(nom.q), 3, 3);
    let sk = skew_grid(body_velocity(nom));
    table(
        rows,
        N as nat,
        |i: int, j: int|
            if IV <= j < IV + 3 {
                rt[i][j - IV]
            } else if ITH <= j < ITH + 3 {
                sk[i][j - ITH]
            } else {
                lit::<T>(0, 1)
            },
    )
}

/// The horizontal velocity `flow` measured in the body frame.
pub open spec fn flow_reading<T: Real>(s: FilterState<T>, flow: [T; 2], sigma: T) -> Option<Reading<T>> {
    let v = body_velocity(s.nom);
    let s2 = prod(sigma, sigma);
    let zero = lit::<T>(0, 1);
    Some(
        Reading {
            h: body_velocity_jacobian(s.nom, 2),
            z: seq![seq![diff(flow[0], v[0])], seq![diff(flow[1], v[1])]],
            r: seq![seq![s2, zero], seq![zero, s2]],
            m: 2,
        },
    )
}

/// The state after the horizontal velocity `flow` has been measured in the body frame.
pub open spec fn flow_corrected<T: Real>(s: FilterState<T>, flow: [T; 2], sigma: T) -> FilterState<T> {
    absorbed(s, flow_reading(s, flow, sigma))
}

/// A velocity `vel` in the world frame.
pub open spec fn gps_velocity_reading<T: Real>(s: FilterState<T>, vel: V3<T>, sigma: T) -> Option<Reading<T>> {
    Some(
        Reading {
            h: block_jacobian(IV as int, identity_grid::<T>(3)),
            z: column(v3::subtracted(vel, s.nom.v)),
            r: noise3(sigma),
            m: 3,
        },
    )
}

/// The state after a velocity `vel` in the world frame.
pub open spec fn gps_velocity_corrected<T: Real>(s: FilterState<T>, vel: V3<T>, sigma: T) -> FilterState<T> {
    absorbed(s, gps_velocity_reading(s, vel, sigma))
}

/// A velocity `vel` in the body frame.
pub open spec fn body_velocity_reading<T: Real>(s: FilterState<T>, vel: V3<T>, sigma: T) -> Option<Reading<T>> {
    Some(
        Reading {
            h: body_velocity_jacobian(s.nom, 3),
            z: column(v3::subtracted(vel, body_velocity(s.nom))),
            r: noise3(sigma),
            m: 3,
        },
    )
}

/// The state after a velocity `vel` in the body frame.
pub open spec fn body_velocity_corrected<T: Real>(s: FilterState<T>, vel: V3<T>, sigma: T) -> FilterState<T> {
    absorbed(s, body_velocity_reading(s, vel, sigma))
}

/// An attitude fix `z_q`.
pub open spec fn attitude_reading<T: Real>(s: FilterState<T>, z_q: Quat<T>, sigma: T) -> Option<Reading<T>> {
    Some(
        Reading {
            h: block_jacobian(ITH as int, identity_grid::<T>(3)),
            z: column(angular_error(z_q, s.nom.q)),
            r: noise3(sigma),
            m: 3,
        },
    )
}

/// The state after an attitude fix `z_q`.
pub open spec fn attitude_corrected<T: Real>(s: FilterState<T>, z_q: Quat<T>, sigma: T) -> FilterState<T> {
    absorbed(s, attitude_reading(s, z_q, sigma))
}

/// Two filters estimate the same: they differ at most in the record of the last measurement.
pub open spec fn same_estimate<T>(a: FilterState<T>, b: FilterState<T>) -> bool {
    a.nom == b.nom && a.p == b.p && a.noise == b.noise
}

/// A measurement whose innovation covariance cannot be inverted, a range to a beacon that is too
/// near, and an altimeter whose beam misses the ground leave the estimate as it is.
pub proof fn useless_measurements_change_nothing<T: Real>(
    s: FilterState<T>,
    h: Grid<T>,
    z: Grid<T>,
    r: Grid<T>,
    m: nat,
    beacon: V3<T>,
    x: T,
    sigma: T,
)
    ensures
        gain(s.p, h, r, m) is None ==> same_estimate(corrected(s, h, z, r, m), s),
        gain(s.p, h, r, m) is None ==> !(corrected(s, h, z, r, m).last_update->0).accepted,
        range_model(s.nom.p, beacon) is None ==> same_estimate(
            range_corrected(s, beacon, x, sigma),
            s,
        ),
        lidar_model(s.nom) is None ==> same_estimate(lidar_corrected(s, x, sigma), s),
{
}

/// What one correction did.
#[derive(Clone, Copy, Debug)]
pub struct Correction<T> {
    /// Dimension of the measurement.
    pub dim: u64,
    /// Normalised innovation squared, `νᵀ S⁻¹ ν`; zero where the correction was skipped.
    pub nis: T,
    /// Length of the innovation `ν`.
    pub innovation_norm: T,
    /// Whether the correction was applied.
    pub accepted: bool,
}

/// The filter: the nominal state, the covariance of its error, the noise that it assumes, and what
/// the last measurement did.
pub struct Eskf<T> {
    pub nom: Nominal<T>,
    pub p: Mat<T, N, N>,
    pub noise: Noise<T>,
    /// The record of the last measurement; none before the first, and none where there was no
    /// measurement to make of it.
    pub last_update: Option<Correction<T>>,
}

impl<T> View for Eskf<T> {
    type V = FilterState<T>;

    open spec fn view(&self) -> FilterState<T> {
        FilterState {
            nom: self.nom,
            p: self.p@,
            noise: self.noise,
            last_update: self.last_update,
        }
    }
}

/// Writes `x` on the three diagonal entries from `i` on.
fn set_diagonal<T: Real>(p: &mut Mat<T, N, N>, i: usize, x: T)
    requires
        i + 3 <= N,
    ensures
        forall|a: int, b: int|
            #![trigger final(p).m[a][b]]
            0 <= a < N && 0 <= b < N ==> final(p).m[a][b] == (if a == b && i <= a < i + 3 {
                x
            } else {
                old(p).m[a][b]
            }),
{
    let ghost before = *p;
    for k in 0..3usize
        invariant
            i + 3 <= N,
            forall|a: int, b: int|
                #![trigger p.m[a][b]]
                0 <= a < N && 0 <= b < N ==> p.m[a][b] == (if a == b && i <= a < i + k {
                    x
                } else {
                    before.m[a][b]
                }),
    {
        p.m[i + k][i + k] = x;
    }
}

impl<T: Real> Eskf<T> {
    /// A filter with the given initial nominal state and standard deviations of the initial error.
    pub fn new(nom: Nominal<T>, sigma: InitialSigma<T>, noise: Noise<T>) -> (out: Self)
        ensures
            out.nom == nom,
            out.noise == noise,
            out.last_update is None,
            symmetric(out@.p, N as nat),
            functional::<T>() ==> out@.p == initial_covariance(sigma),
    {
        let mut p = Mat::<T, N, N>::zeros();
        let ghost zero = p;
        set_diagonal(&mut p, IP, sigma.position.times(sigma.position));
        set_diagonal(&mut p, IV, sigma.velocity.times(sigma.velocity));
        set_diagonal(&mut p, ITH, sigma.orientation.times(sigma.orientation));
        set_diagonal(&mut p, IAB, sigma.accel_bias.times(sigma.accel_bias));
        set_diagonal(&mut p, IWB, sigma.gyro_bias.times(sigma.gyro_bias));
        assert(functional::<T>() ==> p@ =~~= initial_covariance(sigma)) by {
            assert(forall|a: int, b: int|
                0 <= a < N && 0 <= b < N ==> #[trigger] zero.m[a][b] == zero@[a][b]);
        }
        Eskf { nom, p, noise, last_update: None }
    }

    fn symmetrize(&mut self)
        ensures
            final(self).nom == old(self).nom,
            final(self).noise == old(self).noise,
            final(self).last_update == old(self).last_update,
            symmetric(final(self)@.p, N as nat),
            functional::<T>() ==> final(self)@.p == symmetrized(old(self)@.p, N as nat),
    {
        let ghost before = self.p;
        for i in 0..N
            invariant
                self.nom == old(self).nom,
                self.noise == old(self).noise,
                self.last_update == old(self).last_update,
                before == old(self).p,
                forall|a: int, b: int|
                    #![trigger self.p.m[a][b]]
                    0 <= a < N && 0 <= b < N && (a == b || (a >= i && b >= i)) ==> self.p.m[a][b]
                        == before.m[a][b],
                forall|a: int, b: int|
                    0 <= a < i && a < b < N ==> #[trigger] self.p.m[a][b] == self.p.m[b][a],
                functional::<T>() ==> forall|a: int, b: int|
                    0 <= a < i && a < b < N ==> #[trigger] self.p.m[a][b] == prod(
                        lit::<T>(1, 2),
                        sum(before.m[a][b], before.m[b][a]),
                    ),
        {
            for j in i + 1..N
                invariant
                    i < N,
                    self.nom == old(self).nom,
                    self.noise == old(self).noise,
                    self.last_update == old(self).last_update,
                    before == old(self).p,
                    forall|a: int, b: int|
                        #![trigger self.p.m[a][b]]
                        0 <= a < N && 0 <= b < N && (a == b || (a > i && b > i) || (a == i && b
                            >= j) || (b == i && a >= j)) ==> self.p.m[a][b] == before.m[a][b],
                    forall|a: int, b: int|
                        0 <= a < i && a < b < N ==> #[trigger] self.p.m[a][b] == self.p.m[b][a],
                    forall|b: int|
                        i < b < j ==> #[trigger] self.p.m[i as int][b] == self.p.m[b][i as int],
                    functional::<T>() ==> forall|a: int, b: int|
                        0 <= a < i && a < b < N ==> #[trigger] self.p.m[a][b] == prod(
                            lit::<T>(1, 2),
                            sum(before.m[a][b], before.m[b][a]),
                        ),
                    functional::<T>() ==> forall|b: int|
                        i < b < j ==> #[trigger] self.p.m[i as int][b] == prod(
                            lit::<T>(1, 2),
                            sum(before.m[i as int][b], before.m[b][i as int]),
                        ),
            {
                let avg = T::ratio(1, 2).times(self.p.m[i][j].plus(self.p.m[j][i]));
                self.p.m[i][j] = avg;
                self.p.m[j][i] = avg;
            }
        }
        assert(symmetric(self@.p, N as nat)) by {
            assert forall|a: int, b: int| 0 <= a < N && 0 <= b < N implies #[trigger] self@.p[a][b]
                == self@.p[b][a] by {
                assert(self@.p[a][b] == self.p.m[a][b] && self@.p[b][a] == self.p.m[b][a]);
            }
        }
        assert(functional::<T>() ==> self@.p =~~= symmetrized(before@, N as nat)) by {
            if functional::<T>() {
                assert forall|a: int, b: int| 0 <= a < N && 0 <= b < N implies #[trigger] self@.p[a][b]
                    == symmetrized(before@, N as nat)[a][b] by {
                    assert(self@.p[a][b] == self.p.m[a][b] && self@.p[b][a] == self.p.m[b][a]);
                    assert(before@[a][b] == before.m[a][b] && before@[b][a] == before.m[b][a]);
                }
            }
        }
    }

    /// Propagates with one IMU sample: integrates the nominal state and pushes the covariance
    /// through the error-state transition.
    pub fn predict(&mut self, accel_meas: V3<T>, gyro_meas: V3<T>, dt: T)
        ensures
            final(self).noise == old(self).noise,
            final(self).last_update == old(self).last_update,
            symmetric(final(self)@.p, N as nat),
            functional::<T>() ==> final(self)@ == predicted(old(self)@, accel_meas, gyro_meas, dt),
    {
        let a = v3::sub(accel_meas, self.nom.accel_bias);
        let w = v3::sub(gyro_meas, self.nom.gyro_bias);
        let q0 = self.nom.q;
        let r = q0.to_matrix();

        // Nominal integration.
        let a_world = v3::add(mat_vec(&r, a), self.noise.gravity);
        self.nom.p = v3::add(
            self.nom.p,
            v3::add(
                v3::scale(self.nom.v, dt),
                v3::scale(a_world, T::ratio(1, 2).times(dt).times(dt)),
            ),
        );
        self.nom.v = v3::add(self.nom.v, v3::scale(a_world, dt));
        self.nom.q = q0.mul(Quat::from_rotation_vector(v3::scale(w, dt))).normalized();

        // Error-state transition.
        let back = dt.negate();
        let mut f = Mat::<T, N, N>::identity();
        f.set_block(IP, IV, &Mat::<T, 3, 3>::identity().scale(dt));
        f.set_block(IV, ITH, &r.mul(&skew(a)).scale(back));
        f.set_block(IV, IAB, &r.scale(back));
        let phi_theta = Quat::from_rotation_vector(v3::scale(w, back)).to_matrix();
        f.set_block(ITH, ITH, &phi_theta);
        f.set_block(ITH, IWB, &Mat::<T, 3, 3>::identity().scale(back));
        assert(functional::<T>() ==> f@ == transition(q0, a, w, dt));

        // Process noise: a white-noise reading perturbs the integral by σ·dt, a random walk by
        // σ·√dt.
        let n = self.noise;
        let mut q = Mat::<T, N, N>::zeros();
        let ghost zero = q;
        set_diagonal(&mut q, IV, n.accel.times(n.accel).times(dt).times(dt));
        set_diagonal(&mut q, ITH, n.gyro.times(n.gyro).times(dt).times(dt));
        set_diagonal(&mut q, IAB, n.accel_bias.times(n.accel_bias).times(dt));
        set_diagonal(&mut q, IWB, n.gyro_bias.times(n.gyro_bias).times(dt));
        assert(functional::<T>() ==> q@ =~~= process_noise(n, dt)) by {
            assert(forall|a: int, b: int|
                0 <= a < N && 0 <= b < N ==> #[trigger] zero.m[a][b] == zero@[a][b]);
        }

        // P ← F P Fᵀ + Q
        self.p = f.mul(&self.p).mul(&f.transpose()).add(&q);
        self.symmetrize();
    }

    /// Folds the error-state correction into the nominal state and resets the error to zero,
    /// including the reset Jacobian for the orientation block of the covariance.
    fn inject(&mut self, dx: &Mat<T, N, 1>)
        ensures
            final(self).noise == old(self).noise,
            final(self).last_update == old(self).last_update,
            functional::<T>() ==> final(self).nom == nudged(old(self).nom, dx@),
            functional::<T>() ==> final(self)@.p == congruence(
                reset_jacobian(error_block(dx@, ITH as int)),
                old(self)@.p,
            ),
    {
        assert(forall|i: int| 0 <= i < N ==> #[trigger] dx.m[i]@ == dx@[i]);
        let dp = [dx.m[IP][0], dx.m[IP + 1][0], dx.m[IP + 2][0]];
        let dv = [dx.m[IV][0], dx.m[IV + 1][0], dx.m[IV + 2][0]];
        let dth = [dx.m[ITH][0], dx.m[ITH + 1][0], dx.m[ITH + 2][0]];
        let dab = [dx.m[IAB][0], dx.m[IAB + 1][0], dx.m[IAB + 2][0]];
        let dwb = [dx.m[IWB][0], dx.m[IWB + 1][0], dx.m[IWB + 2][0]];
        self.nom.p = v3::add(self.nom.p, dp);
        self.nom.v = v3::add(self.nom.v, dv);
        self.nom.q = self.nom.q.mul(Quat::from_rotation_vector(dth)).normalized();
        self.nom.accel_bias = v3::add(self.nom.accel_bias, dab);
        self.nom.gyro_bias = v3::add(self.nom.gyro_bias, dwb);

        let mut g = Mat::<T, N, N>::identity();
        g.set_block(
            ITH,
            ITH,
            &Mat::<T, 3, 3>::identity().sub(&skew(v3::scale(dth, T::ratio(1, 2)))),
        );
        self.p = g.mul(&self.p).mul(&g.transpose());
    }

    /// The generic Kalman correction for a measurement of dimension `M`: gain, injection, and a
    /// Joseph-form covariance update. A singular innovation covariance leaves the estimate as it is.
    pub fn update<const M: usize>(
        &mut self,
        h: &Mat<T, M, N>,
        residual: &Mat<T, M, 1>,
        r: &Mat<T, M, M>,
    )
        ensures
            final(self).noise == old(self).noise,
            symmetric(old(self)@.p, N as nat) ==> symmetric(final(self)@.p, N as nat),
            functional::<T>() ==> final(self)@ == corrected(
                old(self)@,
                h@,
                residual@,
                r@,
                M as nat,
            ),
            final(self).last_update is Some,
    {
        let pht = self.p.mul(&h.transpose());
        let s = h.mul(&pht).add(r);
        let row = residual.transpose();
        let square = row.mul(residual);
        assert(square.m[0]@ == square@[0]);
        let innovation_norm = square.m[0][0].sqrt();
        let s_inv = match s.inverse() {
            Some(inv) => inv,
            None => {
                self.last_update = Some(
                    Correction {
                        dim: M as u64,
                        nis: T::ratio(0, 1),
                        innovation_norm,
                        accepted: false,
                    },
                );
                return ;
            },
        };
        let nis = row.mul(&s_inv).mul(residual);
        assert(nis.m[0]@ == nis@[0]);
        self.last_update = Some(
            Correction { dim: M as u64, nis: nis.m[0][0], innovation_norm, accepted: true },
        );
        let k = pht.mul(&s_inv);
        let dx = k.mul(residual);
        self.inject(&dx);

        // P ← (I − KH) P (I − KH)ᵀ + K R Kᵀ
        let ikh = Mat::<T, N, N>::identity().sub(&k.mul(h));
        self.p = ikh.mul(&self.p).mul(&ikh.transpose()).add(&k.mul(r).mul(&k.transpose()));
        self.symmetrize();
    }

    /// GPS: a direct position measurement, world frame.
    pub fn update_gps(&mut self, pos: V3<T>, sigma: T)
        ensures
            final(self).noise == old(self).noise,
            symmetric(old(self)@.p, N as nat) ==> symmetric(final(self)@.p, N as nat),
            functional::<T>() ==> final(self)@ == gps_corrected(old(self)@, pos, sigma),
    {
        let mut h = Mat::<T, 3, N>::zeros();
        h.set_block(0, IP, &Mat::<T, 3, 3>::identity());
        let residual = col3(v3::sub(pos, self.nom.p));
        let r = Mat::<T, 3, 3>::identity().scale(sigma.times(sigma));
        self.update(&h, &residual, &r);
    }

    /// Barometer: altitude only (world up = +z).
    pub fn update_baro(&mut self, altitude: T, sigma: T)
        ensures
            final(self).noise == old(self).noise,
            symmetric(old(self)@.p, N as nat) ==> symmetric(final(self)@.p, N as nat),
            functional::<T>() ==> final(self)@ == baro_corrected(old(self)@, altitude, sigma),
    {
        let mut h = Mat::<T, 1, N>::zeros();
        let ghost zero = h@;
        h.m[0][IP + 2] = T::ratio(1, 1);
        assert(functional::<T>() ==> h@ =~~= pick(IP + 2, lit::<T>(1, 1))) by {
            assert(h@[0] =~= zero[0].update(IP + 2, h.m[0][IP + 2]));
        }
        let residual = single_mat(altitude.minus(self.nom.p[2]));
        let r = single_mat(sigma.times(sigma));
        self.update(&h, &residual, &r);
    }

    /// Magnetometer: the full field vector in the body frame, against a known world reference.
    pub fn update_mag(&mut self, field_body: V3<T>, reference_world: V3<T>, sigma: T)
        ensures
            final(self).noise == old(self).noise,
            symmetric(old(self)@.p, N as nat) ==> symmetric(final(self)@.p, N as nat),
            functional::<T>() ==> final(self)@ == mag_corrected(
                old(self)@,
                field_body,
                reference_world,
                sigma,
            ),
    {
        let h0 = self.nom.q.rotate_inv(reference_world);
        let mut h = Mat::<T, 3, N>::zeros();
        h.set_block(0, ITH, &skew(h0));
        let residual = col3(v3::sub(field_body, h0));
        let r = Mat::<T, 3, 3>::identity().scale(sigma.times(sigma));
        self.update(&h, &residual, &r);
    }

    /// Radio ranging to a fixed transmitter at a known world position: a scalar range, which sees
    /// only position.
    pub fn update_range(&mut self, beacon: V3<T>, range: T, sigma: T)
        ensures
            final(self).noise == old(self).noise,
            symmetric(old(self)@.p, N as nat) ==> symmetric(final(self)@.p, N as nat),
            functional::<T>() ==> final(self)@ == range_corrected(old(self)@, beacon, range, sigma),
    {
        let (dist, h) = match self.range_predict(beacon) {
            Some(v) => v,
            None => {
                self.last_update = None;
                return ;
            },
        };
        let residual = single_mat(range.minus(dist));
        let r = single_mat(sigma.times(sigma));
        self.update(&h, &residual, &r);
    }

    /// The range that the estimate predicts, and its Jacobian.
    pub fn range_predict(&self, beacon: V3<T>) -> (out: Option<(T, Mat<T, 1, N>)>)
        ensures
            functional::<T>() ==> match range_model(self.nom.p, beacon) {
                None => out is None,
                Some(model) => out is Some && (out->0).0 == model.0 && (out->0).1@ == model.1,
            },
    {
        let d = v3::sub(self.nom.p, beacon);
        let dist = v3::norm(d);
        if dist.lt(T::ratio(1, 1000)) {
            return None;
        }
        let u = v3::scale(d, T::ratio(1, 1).over(dist));
        let mut h = Mat::<T, 1, N>::zeros();
        let ghost zero = h@;
        h.m[0][IP] = u[0];
        h.m[0][IP + 1] = u[1];
        h.m[0][IP + 2] = u[2];
        assert(h@ =~~= seq![
            zero[0].update(IP as int, u[0]).update(IP + 1, u[1]).update(IP + 2, u[2]),
        ]);
        Some((dist, h))
    }

    /// Downward laser altimeter over flat ground (`z = 0`): the slant range along the body-down
    /// axis, which senses both height and attitude.
    pub fn update_lidar_altimeter(&mut self, range: T, sigma: T)
        ensures
            final(self).noise == old(self).noise,
            symmetric(old(self)@.p, N as nat) ==> symmetric(final(self)@.p, N as nat),
            functional::<T>() ==> final(self)@ == lidar_corrected(old(self)@, range, sigma),
    {
        let (h_pred, h) = match self.lidar_predict() {
            Some(v) => v,
            None => {
                self.last_update = None;
                return ;
            },
        };
        let residual = single_mat(range.minus(h_pred));
        let r = single_mat(sigma.times(sigma));
        self.update(&h, &residual, &r);
    }

    /// The slant range that the estimate predicts, and its Jacobian.
    pub fn lidar_predict(&self) -> (out: Option<(T, Mat<T, 1, N>)>)
        ensures
            functional::<T>() ==> match lidar_model(self.nom) {
                None => out is None,
                Some(model) => out is Some && (out->0).0 == model.0 && (out->0).1@ == model.1,
            },
    {
        let rm = self.nom.q.to_matrix();
        assert(rm.m[2]@ == rm@[2]);
        let r22 = rm.m[2][2];
        let pz = self.nom.p[2];
        if r22.lt(T::ratio(2, 10)) || pz.le(T::ratio(0, 1)) {
            return None;
        }
        let mut h = Mat::<T, 1, N>::zeros();
        let ghost zero = h@;
        let hz = T::ratio(1, 1).over(r22);
        let c = pz.over(r22.times(r22));
        let hx = c.times(rm.m[2][1]);
        let hy = c.negate().times(rm.m[2][0]);
        h.m[0][IP + 2] = hz;
        h.m[0][ITH] = hx;
        h.m[0][ITH + 1] = hy;
        assert(h@ =~~= seq![
            zero[0].update(IP + 2, hz).update(ITH as int, hx).update(ITH + 1, hy),
        ]);
        Some((pz.over(r22), h))
    }

    /// Downward optical flow: the horizontal velocity resolved in the body frame.
    pub fn update_optical_flow(&mut self, flow_body_xy: [T; 2], sigma: T)
        ensures
            final(self).noise == old(self).noise,
            symmetric(old(self)@.p, N as nat) ==> symmetric(final(self)@.p, N as nat),
            functional::<T>() ==> final(self)@ == flow_corrected(old(self)@, flow_body_xy, sigma),
    {
        let (pred, h) = self.flow_predict();
        let d0 = flow_body_xy[0].minus(pred[0]);
        let d1 = flow_body_xy[1].minus(pred[1]);
        let residual = Mat::<T, 2, 1>::from_rows([[d0], [d1]]);
        assert(residual@ =~~= seq![seq![d0], seq![d1]]);
        let s2 = sigma.times(sigma);
        let s2b = sigma.times(sigma);
        let z = T::ratio(0, 1);
        let r = Mat::<T, 2, 2>::from_rows([[s2, z], [z, s2b]]);
        assert(r@ =~~= seq![seq![s2, z], seq![z, s2b]]);
        self.update(&h, &residual, &r);
    }

    /// The body-frame horizontal velocity that the estimate predicts, and its Jacobian.
    pub fn flow_predict(&self) -> (out: ([T; 2], Mat<T, 2, N>))
        ensures
            functional::<T>() ==> out.0[0] == body_velocity(self.nom)[0],
            functional::<T>() ==> out.0[1] == body_velocity(self.nom)[1],
            functional::<T>() ==> out.1@ == body_velocity_jacobian(self.nom, 2),
    {
        let rt = self.nom.q.to_matrix().transpose();
        let vb = mat_vec(&rt, self.nom.v);
        let sk = skew(vb);
        let mut h = Mat::<T, 2, N>::zeros();
        let ghost zero = h;
        for row in 0..2usize
            invariant
                forall|i: int, j: int|
                    #![trigger h.m[i][j]]
                    0 <= i < 2 && 0 <= j < N ==> h.m[i][j] == (if i < row && IV <= j < IV + 3 {
                        rt.m[i][j - IV]
                    } else if i < row && ITH <= j < ITH + 3 {
                        sk.m[i][j - ITH]
                    } else {
                        zero.m[i][j]
                    }),
        {
            for k in 0..3usize
                invariant
                    row < 2,
                    forall|i: int, j: int|
                        #![trigger h.m[i][j]]
                        0 <= i < 2 && 0 <= j < N ==> h.m[i][j] == (if (i < row && IV <= j < IV + 3)
                            || (i == row && IV <= j < IV + k) {
                            rt.m[i][j - IV]
                        } else if (i < row && ITH <= j < ITH + 3) || (i == row && ITH <= j < ITH
                            + k) {
                            sk.m[i][j - ITH]
                        } else {
                            zero.m[i][j]
                        }),
            {
                h.m[row][IV + k] = rt.m[row][k];
                h.m[row][ITH + k] = sk.m[row][k];
            }
        }
        assert(functional::<T>() ==> h@ =~~= body_velocity_jacobian(self.nom, 2)) by {
            assert(forall|a: int, b: int|
                0 <= a < 2 && 0 <= b < N ==> #[trigger] zero.m[a][b] == zero@[a][b]);
            assert(forall|a: int| 0 <= a < 3 ==> #[trigger] rt.m[a]@ == rt@[a]);
            assert(forall|a: int| 0 <= a < 3 ==> #[trigger] sk.m[a]@ == sk@[a]);
        }
        ([vb[0], vb[1]], h)
    }

    /// GPS Doppler velocity: a direct world-frame velocity measurement.
    pub fn update_gps_velocity(&mut self, vel: V3<T>, sigma: T)
        ensures
            final(self).noise == old(self).noise,
            symmetric(old(self)@.p, N as nat) ==> symmetric(final(self)@.p, N as nat),
            functional::<T>() ==> final(self)@ == gps_velocity_corrected(old(self)@, vel, sigma),
    {
        let mut h = Mat::<T, 3, N>::zeros();
        h.set_block(0, IV, &Mat::<T, 3, 3>::identity());
        let residual = col3(v3::sub(vel, self.nom.v));
        let r = Mat::<T, 3, 3>::identity().scale(sigma.times(sigma));
        self.update(&h, &residual, &r);
    }

    /// A body-frame 3-D velocity sensor: the full velocity resolved in the body frame.
    pub fn update_body_velocity(&mut self, vel_body: V3<T>, sigma: T)
        ensures
            final(self).noise == old(self).noise,
            symmetric(old(self)@.p, N as nat) ==> symmetric(final(self)@.p, N as nat),
            functional::<T>() ==> final(self)@ == body_velocity_corrected(
                old(self)@,
                vel_body,
                sigma,
            ),
    {
        let (pred, h) = self.body_velocity_predict();
        let residual = col3(v3::sub(vel_body, pred));
        let r = Mat::<T, 3, 3>::identity().scale(sigma.times(sigma));
        self.update(&h, &residual, &r);
    }

    /// The body-frame velocity that the estimate predicts, and its Jacobian.
    pub fn body_velocity_predict(&self) -> (out: (V3<T>, Mat<T, 3, N>))
        ensures
            functional::<T>() ==> out.0 == body_velocity(self.nom),
            functional::<T>() ==> out.1@ == body_velocity_jacobian(self.nom, 3),
    {
        let rt = self.nom.q.to_matrix().transpose();
        let vb = mat_vec(&rt, self.nom.v);
        let mut h = Mat::<T, 3, N>::zeros();
        h.set_block(0, IV, &rt);
        h.set_block(0, ITH, &skew(vb));
        assert(functional::<T>() ==> h@ =~~= body_velocity_jacobian(self.nom, 3));
        (vb, h)
    }

    /// A direct attitude fix: the innovation is the body-frame rotation carrying the nominal onto
    /// the measurement, and the Jacobian is the identity on the orientation error.
    pub fn update_attitude(&mut self, z_q: Quat<T>, sigma: T)
        ensures
            final(self).noise == old(self).noise,
            symmetric(old(self)@.p, N as nat) ==> symmetric(final(self)@.p, N as nat),
            functional::<T>() ==> final(self)@ == attitude_corrected(old(self)@, z_q, sigma),
    {
        let residual = col3(boxminus(z_q, self.nom.q));
        let mut h = Mat::<T, 3, N>::zeros();
        h.set_block(0, ITH, &Mat::<T, 3, 3>::identity());
        let r = Mat::<T, 3, 3>::identity().scale(sigma.times(sigma));
        self.update(&h, &residual, &r);
    }

    /// The 3×3 position covariance block, for drawing the uncertainty ellipsoid.
    pub fn position_covariance(&self) -> (out: Mat<T, 3, 3>)
        ensures
            forall|i: int, j: int|
                0 <= i < 3 && 0 <= j < 3 ==> #[trigger] out.m[i][j] == self.p.m[i][j],
    {
        top_left(&self.p)
    }

    /// The covariance of the error state.
    pub fn covariance(&self) -> (out: &Mat<T, N, N>)
        ensures
            *out == self.p,
    {
        &self.p
    }
}

/// The 3×3 block in the top left corner.
pub fn top_left<T: Real>(p: &Mat<T, N, N>) -> (out: Mat<T, 3, 3>)
    ensures
        forall|i: int, j: int| 0 <= i < 3 && 0 <= j < 3 ==> #[trigger] out.m[i][j] == p.m[i][j],
        out@ == table(3, 3, |i: int, j: int| p@[i][j]),
{
    let mut out = Mat::<T, 3, 3>::zeros();
    for i in 0..3usize
        invariant
            forall|a: int, b: int| 0 <= a < i && 0 <= b < 3 ==> out.m[a][b] == p.m[a][b],
    {
        for j in 0..3usize
            invariant
                i < 3,
                forall|a: int, b: int| 0 <= a < i && 0 <= b < 3 ==> out.m[a][b] == p.m[a][b],
                forall|b: int| 0 <= b < j ==> out.m[i as int][b] == p.m[i as int][b],
        {
            out.m[i][j] = p.m[IP + i][IP + j];
        }
    }
    assert(out@ =~~= table(3, 3, |i: int, j: int| p@[i][j]));
    out
}

fn single_mat<T: Real>(x: T) -> (out: Mat<T, 1, 1>)
    ensures
        out@ == single(x),
{
    let out = Mat::<T, 1, 1>::from_rows([[x]]);
    assert(out@ =~~= single(x));
    out
}

} // verus!
