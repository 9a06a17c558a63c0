//! The filter, its algebra and its simulator, on hardware floats.

use eskf::filter::{Eskf, InitialSigma, Noise, Nominal, IP, N};
use eskf::linalg::{col3, skew, v3, Mat};
use eskf::quat::{boxminus, Quat};
use eskf::rng::Rng;
use eskf::scalar::Real;
use eskf::sim::{mag_reference, SimConfig, Simulator};
use eskf::trajectory::{accel_at, position_at, velocity_at};

/// A hardware float as a scalar.
#[derive(Clone, Copy, Debug, PartialEq, PartialOrd)]
struct F(f64);

impl Real for F {
    fn ratio(num: i64, den: u64) -> Self {
        F(num as f64 / den as f64)
    }
    fn from_u64(n: u64) -> Self {
        F(n as f64)
    }
    fn tau() -> Self {
        F(std::f64::consts::TAU)
    }
    fn frac_pi_2() -> Self {
        F(std::f64::consts::FRAC_PI_2)
    }
    fn plus(self, rhs: Self) -> Self {
        F(self.0 + rhs.0)
    }
    fn minus(self, rhs: Self) -> Self {
        F(self.0 - rhs.0)
    }
    fn times(self, rhs: Self) -> Self {
        F(self.0 * rhs.0)
    }
    fn over(self, rhs: Self) -> Self {
        F(self.0 / rhs.0)
    }
    fn negate(self) -> Self {
        F(-self.0)
    }
    fn abs(self) -> Self {
        F(self.0.abs())
    }
    fn max(self, rhs: Self) -> Self {
        F(self.0.max(rhs.0))
    }
    fn copysign(self, sign: Self) -> Self {
        F(self.0.copysign(sign.0))
    }
    fn lt(self, rhs: Self) -> bool {
        self.0 < rhs.0
    }
    fn le(self, rhs: Self) -> bool {
        self.0 <= rhs.0
    }
    fn equals(self, rhs: Self) -> bool {
        self.0 == rhs.0
    }
    fn sqrt(self) -> Self {
        F(self.0.sqrt())
    }
    fn sin(self) -> Self {
        F(self.0.sin())
    }
    fn cos(self) -> Self {
        F(self.0.cos())
    }
    fn atan2(self, x: Self) -> Self {
        F(self.0.atan2(x.0))
    }
    fn asin(self) -> Self {
        F(self.0.asin())
    }
    fn ln(self) -> Self {
        F(self.0.ln())
    }
    fn to_degrees(self) -> Self {
        F(self.0.to_degrees())
    }
    fn round_usize(self) -> usize {
        self.0.round() as usize
    }
    fn trunc_usize(self) -> usize {
        self.0 as usize
    }
}

fn v(a: [f64; 3]) -> [F; 3] {
    [F(a[0]), F(a[1]), F(a[2])]
}

fn norm3(a: [F; 3]) -> f64 {
    v3::norm(a).0
}

fn at_rest(p: [f64; 3]) -> Nominal<F> {
    Nominal::at_rest(v(p), Quat::identity())
}

fn fresh(nom: Nominal<F>) -> Eskf<F> {
    Eskf::new(nom, InitialSigma::default(), Noise::default())
}

#[test]
fn a_level_static_imu_stays_put() {
    // Level, at rest: the accelerometer reads +g up in body, gyro reads zero. The nominal
    // state must not drift.
    let mut f = fresh(at_rest([0.0; 3]));
    let accel = v([0.0, 0.0, 9.80665]);
    for _ in 0..1000 {
        f.predict(accel, v([0.0; 3]), F(0.01));
    }
    assert!(norm3(f.nom.p) < 1e-6, "drifted to {:?}", f.nom.p);
    assert!(norm3(f.nom.v) < 1e-6, "velocity {:?}", f.nom.v);
}

#[test]
fn covariance_grows_without_measurements() {
    let mut f = fresh(at_rest([0.0; 3]));
    let before = f.p.m[IP][IP];
    for _ in 0..500 {
        f.predict(v([0.0, 0.0, 9.80665]), v([0.0; 3]), F(0.01));
    }
    assert!(f.p.m[IP][IP] > before, "position variance should grow when coasting");
}

#[test]
fn a_gps_fix_shrinks_position_covariance() {
    let mut f = fresh(at_rest([0.0; 3]));
    for _ in 0..200 {
        f.predict(v([0.0, 0.0, 9.80665]), v([0.0; 3]), F(0.01));
    }
    let before = f.p.m[IP][IP];
    f.update_gps(v([0.1, -0.2, 0.05]), F(0.5));
    assert!(f.p.m[IP][IP] < before, "a fix should reduce position variance");
}

#[test]
fn gps_pulls_the_estimate_toward_the_measurement() {
    let mut f = fresh(at_rest([5.0, 0.0, 0.0]));
    // Truth is at the origin; the fix should pull the 5 m error down.
    for _ in 0..50 {
        f.update_gps(v([0.0, 0.0, 0.0]), F(0.5));
    }
    assert!(norm3(f.nom.p) < 0.5, "estimate did not converge: {:?}", f.nom.p);
}

#[test]
fn covariance_stays_symmetric_after_updates() {
    let mut f = fresh(at_rest([0.0; 3]));
    f.predict(v([0.1, 0.0, 9.9]), v([0.01, -0.02, 0.03]), F(0.01));
    f.update_gps(v([0.2, 0.1, -0.1]), F(0.5));
    f.update_mag(v([1.0, 0.0, 0.0]), v([1.0, 0.0, 0.0]), F(0.05));
    for i in 0..N {
        for j in 0..N {
            assert!((f.p.m[i][j].0 - f.p.m[j][i].0).abs() < 1e-12, "asymmetric at {i},{j}");
        }
    }
}

/// A filter at a non-trivial pose, so a Jacobian bug in any block actually shows.
fn sample_filter() -> Eskf<F> {
    fresh(Nominal {
        p: v([12.0, -4.0, 30.0]),
        v: v([3.0, 8.0, -1.0]),
        q: Quat::from_rotation_vector(v([0.2, -0.35, 0.6])).normalized(),
        accel_bias: v([0.03, -0.02, 0.01]),
        gyro_bias: v([0.001, 0.002, -0.0015]),
    })
}

/// Applies an error-state increment to a nominal state.
fn apply_error(nom: Nominal<F>, dx: [f64; N]) -> Nominal<F> {
    let mut n = nom;
    n.p = v3::add(n.p, v([dx[0], dx[1], dx[2]]));
    n.v = v3::add(n.v, v([dx[3], dx[4], dx[5]]));
    n.q = n.q.mul(Quat::from_rotation_vector(v([dx[6], dx[7], dx[8]]))).normalized();
    n.accel_bias = v3::add(n.accel_bias, v([dx[9], dx[10], dx[11]]));
    n.gyro_bias = v3::add(n.gyro_bias, v([dx[12], dx[13], dx[14]]));
    n
}

/// The filter moved by `±eps` in error direction `i`.
fn perturbed(f: &Eskf<F>, i: usize, eps: f64) -> (Eskf<F>, Eskf<F>) {
    let mut dp = [0.0; N];
    let mut dm = [0.0; N];
    dp[i] = eps;
    dm[i] = -eps;
    (fresh(apply_error(f.nom, dp)), fresh(apply_error(f.nom, dm)))
}

/// Compares a scalar measurement's analytic Jacobian to a central finite difference across all
/// 15 error directions.
fn check_scalar_jacobian(f: &Eskf<F>, jac: &Mat<F, 1, N>, h_of: impl Fn(&Eskf<F>) -> f64) {
    let eps = 1e-6;
    for i in 0..N {
        let (fp, fm) = perturbed(f, i, eps);
        let numeric = (h_of(&fp) - h_of(&fm)) / (2.0 * eps);
        assert!(
            (numeric - jac.m[0][i].0).abs() < 1e-4,
            "jacobian[{i}]: finite-diff {numeric:.6} vs analytic {:.6}",
            jac.m[0][i].0
        );
    }
}

#[test]
fn range_jacobian_matches_finite_difference() {
    let f = sample_filter();
    let beacon = v([-20.0, 10.0, 2.0]);
    let (_, jac) = f.range_predict(beacon).unwrap();
    check_scalar_jacobian(&f, &jac, |g| g.range_predict(beacon).unwrap().0 .0);
}

#[test]
fn lidar_jacobian_matches_finite_difference() {
    let f = sample_filter();
    let (_, jac) = f.lidar_predict().unwrap();
    check_scalar_jacobian(&f, &jac, |g| g.lidar_predict().unwrap().0 .0);
}

#[test]
fn optical_flow_jacobian_matches_finite_difference() {
    let f = sample_filter();
    let (_, jac) = f.flow_predict();
    let eps = 1e-6;
    for i in 0..N {
        let (fp, fm) = perturbed(&f, i, eps);
        let (hp, _) = fp.flow_predict();
        let (hm, _) = fm.flow_predict();
        for row in 0..2 {
            let numeric = (hp[row].0 - hm[row].0) / (2.0 * eps);
            assert!(
                (numeric - jac.m[row][i].0).abs() < 1e-4,
                "flow jacobian[{row}][{i}]: {numeric:.6} vs {:.6}",
                jac.m[row][i].0
            );
        }
    }
}

#[test]
fn range_beacons_localize_without_gps() {
    // The estimate starts 8 m off; ranges from four fixed beacons pull it home with no GPS.
    let truth = v([5.0, 3.0, 20.0]);
    let beacons = [
        v([-40.0, -40.0, 0.0]),
        v([40.0, -40.0, 5.0]),
        v([40.0, 40.0, 30.0]),
        v([-40.0, 40.0, 15.0]),
    ];
    let mut f = fresh(at_rest([13.0, -2.0, 26.0]));
    for _ in 0..100 {
        for b in beacons {
            let true_range = v3::norm(v3::sub(truth, b));
            f.update_range(b, true_range, F(0.3));
        }
    }
    assert!(
        norm3(v3::sub(f.nom.p, truth)) < 0.6,
        "range-only localization failed: {:?}",
        f.nom.p
    );
}

#[test]
fn body_velocity_jacobian_matches_finite_difference() {
    let f = sample_filter();
    let (_, jac) = f.body_velocity_predict();
    let eps = 1e-6;
    for i in 0..N {
        let (fp, fm) = perturbed(&f, i, eps);
        let (hp, _) = fp.body_velocity_predict();
        let (hm, _) = fm.body_velocity_predict();
        for row in 0..3 {
            let numeric = (hp[row].0 - hm[row].0) / (2.0 * eps);
            assert!(
                (numeric - jac.m[row][i].0).abs() < 1e-4,
                "body-velocity jacobian[{row}][{i}]: {numeric:.6} vs {:.6}",
                jac.m[row][i].0
            );
        }
    }
}

#[test]
fn gps_velocity_pulls_velocity_to_the_measurement() {
    let nom = Nominal { v: v([2.0, -1.0, 0.5]), ..at_rest([0.0; 3]) };
    let mut f = fresh(nom);
    for _ in 0..80 {
        f.update_gps_velocity(v([0.0, 0.0, 0.0]), F(0.1));
    }
    assert!(norm3(f.nom.v) < 0.2, "velocity did not converge: {:?}", f.nom.v);
}

#[test]
fn attitude_fix_converges_to_the_measurement() {
    // Seed a ~20° orientation error; attitude fixes at truth must drive it down (which only
    // happens if the update's sign is right: a flipped sign diverges).
    let truth = Quat::from_rotation_vector(v([0.1, -0.2, 0.15]));
    let nom = Nominal {
        q: truth.mul(Quat::from_rotation_vector(v([0.35, 0.0, 0.0]))),
        ..at_rest([0.0; 3])
    };
    let mut f = fresh(nom);
    for _ in 0..80 {
        f.update_attitude(truth, F(0.02));
    }
    let err = norm3(boxminus(truth, f.nom.q)).to_degrees();
    assert!(err < 1.0, "attitude did not converge: {err}°");
}

/// A filter seeded with the truth and fed all sensors should track a full flight to well under a
/// metre.
#[test]
fn filter_tracks_a_full_flight() {
    let cfg = SimConfig::<F>::default();
    let mut sim = Simulator::new(cfg, 7);
    let mut f = fresh(sim.truth_nominal());

    let mut last_err = 0.0;
    for _ in 0..(cfg.imu_rate.0 as usize * 40) {
        let tick = sim.step();
        f.predict(tick.accel, tick.gyro, tick.dt);
        if let Some(z) = tick.gps {
            f.update_gps(z, cfg.gps_noise);
        }
        if let Some(z) = tick.baro {
            f.update_baro(z, cfg.baro_noise);
        }
        if let Some(z) = tick.mag {
            f.update_mag(z, mag_reference(), cfg.mag_noise);
        }
        last_err = norm3(v3::sub(f.nom.p, tick.truth.p));
    }
    assert!(last_err < 1.5, "final position error {last_err:.2} m too large");
}

fn mat<const R: usize, const C: usize>(rows: [[f64; C]; R]) -> Mat<F, R, C> {
    Mat::from_rows(rows.map(|row| row.map(F)))
}

#[test]
fn multiply_and_transpose_agree_with_hand_calc() {
    let a = mat([[1.0, 2.0, 3.0], [4.0, 5.0, 6.0]]);
    let b = mat([[7.0, 8.0], [9.0, 10.0], [11.0, 12.0]]);
    let c = a.mul(&b);
    assert_eq!(c.m, [[F(58.0), F(64.0)], [F(139.0), F(154.0)]]);
    assert_eq!(a.transpose().m, [[F(1.0), F(4.0)], [F(2.0), F(5.0)], [F(3.0), F(6.0)]]);
}

#[test]
fn inverse_recovers_identity() {
    let a = mat([[2.0, 0.0, 1.0], [1.0, 3.0, 2.0], [1.0, 0.0, 2.0]]);
    let inv = a.inverse().expect("nonsingular");
    let prod = a.mul(&inv);
    for r in 0..3 {
        for c in 0..3 {
            let want = if r == c { 1.0 } else { 0.0 };
            assert!((prod.m[r][c].0 - want).abs() < 1e-12, "at {r},{c}: {}", prod.m[r][c].0);
        }
    }
}

#[test]
fn singular_matrix_has_no_inverse() {
    let a = mat([[1.0, 2.0], [2.0, 4.0]]);
    assert!(a.inverse().is_none());
}

#[test]
fn skew_matches_cross_product() {
    let a = v([0.3, -1.1, 2.0]);
    let b = v([4.0, 0.5, -0.7]);
    let via_skew = skew(a).mul(&col3(b));
    let via_cross = v3::cross(a, b);
    for i in 0..3 {
        assert!((via_skew.m[i][0].0 - via_cross[i].0).abs() < 1e-12);
    }
}

#[test]
fn set_block_places_submatrix() {
    let mut big = Mat::<F, 4, 4>::zeros();
    let blk = mat([[1.0, 2.0], [3.0, 4.0]]);
    big.set_block(1, 2, &blk);
    assert_eq!(big.m[1][2], F(1.0));
    assert_eq!(big.m[2][3], F(4.0));
    assert_eq!(big.m[0][0], F(0.0));
}

#[test]
fn exp_log_round_trip() {
    for phi in [[0.0, 0.0, 0.0], [0.1, -0.2, 0.3], [1.4, 0.0, 0.0], [0.7, 0.7, -0.7]] {
        let back = Quat::from_rotation_vector(v(phi)).to_rotation_vector();
        for i in 0..3 {
            assert!((back[i].0 - phi[i]).abs() < 1e-9, "phi {phi:?} -> {back:?}");
        }
    }
}

#[test]
fn rotation_is_orthonormal_and_matches_inverse() {
    let q = Quat::from_rotation_vector(v([0.3, -0.9, 0.5]));
    let x = v([1.2, -0.4, 2.0]);
    let back = q.rotate_inv(q.rotate(x));
    for i in 0..3 {
        assert!((back[i].0 - x[i].0).abs() < 1e-12);
    }
}

#[test]
fn known_90_deg_yaw_rotates_x_to_y() {
    // 90° about world/body z takes body +x to world +y.
    let q = Quat::from_rotation_vector(v([0.0, 0.0, core::f64::consts::FRAC_PI_2]));
    let r = q.rotate(v([1.0, 0.0, 0.0]));
    assert!(r[0].0.abs() < 1e-12 && (r[1].0 - 1.0).abs() < 1e-12 && r[2].0.abs() < 1e-12);
}

#[test]
fn matrix_round_trips_through_quaternion() {
    let q = Quat::from_rotation_vector(v([0.2, 1.1, -0.6])).normalized();
    let back = Quat::from_matrix(&q.to_matrix());
    // Same rotation up to sign.
    let err = norm3(boxminus(q, back));
    assert!(err < 1e-9, "err {err}");
}

#[test]
fn boxminus_of_a_known_perturbation_recovers_it() {
    let base = Quat::from_rotation_vector(v([0.4, -0.1, 0.8]));
    let delta = [0.02, -0.03, 0.01];
    let perturbed = base.mul(Quat::from_rotation_vector(v(delta)));
    let recovered = boxminus(perturbed, base);
    for i in 0..3 {
        assert!((recovered[i].0 - delta[i]).abs() < 1e-6, "{recovered:?} vs {delta:?}");
    }
}

#[test]
fn velocity_is_the_derivative_of_position() {
    // Central difference of the analytic position must match the analytic velocity.
    let h = 1e-6;
    for t in [0.0, 3.3, 11.7, 25.0] {
        let num = v3::scale(
            v3::sub(position_at(F(t + h)), position_at(F(t - h))),
            F(1.0 / (2.0 * h)),
        );
        let ana = velocity_at(F(t));
        for i in 0..3 {
            assert!((num[i].0 - ana[i].0).abs() < 1e-4, "t={t} axis {i}");
        }
    }
}

#[test]
fn acceleration_is_the_derivative_of_velocity() {
    let h = 1e-6;
    for t in [0.5, 7.0, 19.4] {
        let num = v3::scale(
            v3::sub(velocity_at(F(t + h)), velocity_at(F(t - h))),
            F(1.0 / (2.0 * h)),
        );
        let ana = accel_at(F(t));
        for i in 0..3 {
            assert!((num[i].0 - ana[i].0).abs() < 1e-3, "t={t} axis {i}");
        }
    }
}

#[test]
fn gaussian_is_roughly_standard_normal() {
    let mut rng = Rng::<F>::new(42);
    let n = 100_000;
    let mut sum = 0.0;
    let mut sq = 0.0;
    for _ in 0..n {
        let g = rng.gaussian().0;
        sum += g;
        sq += g * g;
    }
    let mean = sum / n as f64;
    let var = sq / n as f64 - mean * mean;
    assert!(mean.abs() < 0.02, "mean {mean}");
    assert!((var - 1.0).abs() < 0.03, "var {var}");
}

#[test]
fn gps_dropout_suppresses_fixes() {
    let cfg = SimConfig::<F> { gps_enabled: false, ..Default::default() };
    let mut sim = Simulator::new(cfg, 1);
    for _ in 0..400 {
        assert!(sim.step().gps.is_none(), "GPS leaked through a dropout");
    }
}
