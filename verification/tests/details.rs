//! Formulas, constants and edge cases, on hardware floats.

use eskf::filter::{Eskf, InitialSigma, Noise, Nominal, N};
use eskf::flight::{drive, full_config};
use eskf::linalg::{col3, skew, v3, Mat};
use eskf::metrics::{error_state, nees, position_nees};
use eskf::quat::{boxminus, Quat};
use eskf::rng::Rng;
use eskf::scalar::Real;
use eskf::sim::{beacons, due, gravity, mag_reference, SimConfig, Simulator};
use eskf::trajectory::{
    accel_at, body_rate, omega_climb, omega_orbit, orientation_at, position_at, truth_at,
    velocity_at, TrueState,
};

/// A hardware float as a scalar.
#[derive(Clone, Copy, Debug, PartialEq, PartialOrd)]
struct F(f64);

impl Real for F {
    fn ratio(num: i64, den: u64) -> Self {
        F(num as f64 / den as f64)
    }
    fn from_u64(n: u64) -> Self {
        F(n as f64)
    }
    fn tau() -> Self {
        F(std::f64::consts::TAU)
    }
    fn frac_pi_2() -> Self {
        F(std::f64::consts::FRAC_PI_2)
    }
    fn plus(self, rhs: Self) -> Self {
        F(self.0 + rhs.0)
    }
    fn minus(self, rhs: Self) -> Self {
        F(self.0 - rhs.0)
    }
    fn times(self, rhs: Self) -> Self {
        F(self.0 * rhs.0)
    }
    fn over(self, rhs: Self) -> Self {
        F(self.0 / rhs.0)
    }
    fn negate(self) -> Self {
        F(-self.0)
    }
    fn abs(self) -> Self {
        F(self.0.abs())
    }
    fn max(self, rhs: Self) -> Self {
        F(self.0.max(rhs.0))
    }
    fn copysign(self, sign: Self) -> Self {
        F(self.0.copysign(sign.0))
    }
    fn lt(self, rhs: Self) -> bool {
        self.0 < rhs.0
    }
    fn le(self, rhs: Self) -> bool {
        self.0 <= rhs.0
    }
    fn equals(self, rhs: Self) -> bool {
        self.0 == rhs.0
    }
    fn sqrt(self) -> Self {
        F(self.0.sqrt())
    }
    fn sin(self) -> Self {
        F(self.0.sin())
    }
    fn cos(self) -> Self {
        F(self.0.cos())
    }
    fn atan2(self, x: Self) -> Self {
        F(self.0.atan2(x.0))
    }
    fn asin(self) -> Self {
        F(self.0.asin())
    }
    fn ln(self) -> Self {
        F(self.0.ln())
    }
    fn to_degrees(self) -> Self {
        F(self.0.to_degrees())
    }
    fn round_usize(self) -> usize {
        self.0.round() as usize
    }
    fn trunc_usize(self) -> usize {
        self.0 as usize
    }
}

fn v(a: [f64; 3]) -> [F; 3] {
    [F(a[0]), F(a[1]), F(a[2])]
}

fn norm3(a: [F; 3]) -> f64 {
    v3::norm(a).0
}

fn close(a: F, b: f64, tol: f64) -> bool {
    (a.0 - b).abs() <= tol
}

fn close3(a: [F; 3], b: [f64; 3], tol: f64) -> bool {
    (0..3).all(|i| close(a[i], b[i], tol))
}

fn same_quat(a: Quat<F>, b: [f64; 4], tol: f64) -> bool {
    close(a.w, b[0], tol) && close(a.x, b[1], tol) && close(a.y, b[2], tol) && close(a.z, b[3], tol)
}

fn quat(w: f64, x: f64, y: f64, z: f64) -> Quat<F> {
    Quat::new(F(w), F(x), F(y), F(z))
}

fn mat<const R: usize, const C: usize>(rows: [[f64; C]; R]) -> Mat<F, R, C> {
    Mat::from_rows(rows.map(|row| row.map(F)))
}

fn fresh(nom: Nominal<F>) -> Eskf<F> {
    Eskf::new(nom, InitialSigma::default(), Noise::default())
}

fn level() -> Nominal<F> {
    Nominal::at_rest(v([0.0; 3]), Quat::identity())
}

#[test]
fn vector_operations() {
    let a = v([1.0, -2.0, 3.0]);
    let b = v([4.0, 5.0, -6.0]);
    assert_eq!(v3::add(a, b), v([5.0, 3.0, -3.0]));
    assert_eq!(v3::sub(a, b), v([-3.0, -7.0, 9.0]));
    assert_eq!(v3::scale(a, F(2.0)), v([2.0, -4.0, 6.0]));
    assert_eq!(v3::dot(a, b), F(-24.0));
    assert_eq!(v3::cross(a, b), v([-3.0, 18.0, 13.0]));
    assert_eq!(v3::norm(v([3.0, 4.0, 12.0])), F(13.0));
    assert_eq!(v3::normalize(v([0.0, 3.0, 4.0])), v([0.0, 3.0 * (1.0 / 5.0), 4.0 * (1.0 / 5.0)]));
    assert_eq!(v3::normalize(v([0.0; 3])), v([0.0; 3]));
    assert_eq!(v3::zero::<F>(), v([0.0; 3]));
}

#[test]
fn matrix_operations() {
    let a = mat([[1.0, 2.0], [3.0, 4.0]]);
    let b = mat([[10.0, 20.0], [30.0, 40.0]]);
    assert_eq!(a.add(&b).m, mat([[11.0, 22.0], [33.0, 44.0]]).m);
    assert_eq!(b.sub(&a).m, mat([[9.0, 18.0], [27.0, 36.0]]).m);
    assert_eq!(a.scale(F(-2.0)).m, mat([[-2.0, -4.0], [-6.0, -8.0]]).m);
    assert_eq!(a.add_diag(F(5.0)).m, mat([[6.0, 2.0], [3.0, 9.0]]).m);
    assert_eq!(Mat::<F, 2, 2>::identity().m, mat([[1.0, 0.0], [0.0, 1.0]]).m);
    assert_eq!(Mat::<F, 1, 2>::zeros().m, mat([[0.0, 0.0]]).m);
    assert_eq!(col3(v([7.0, 8.0, 9.0])).m, mat([[7.0], [8.0], [9.0]]).m);
    assert_eq!(
        skew(v([1.0, 2.0, 3.0])).m,
        mat([[0.0, -3.0, 2.0], [3.0, 0.0, -1.0], [-2.0, 1.0, 0.0]]).m
    );
    let back = a.transpose().transpose();
    assert_eq!(back.m, a.m);
}

#[test]
fn transposed_product_on_values() {
    let a = mat([[1.0, 2.0, 3.0], [4.0, 5.0, 6.0]]);
    let b = mat([[7.0, 8.0], [9.0, 10.0], [11.0, 12.0]]);
    assert_eq!(a.mul(&b).transpose().m, b.transpose().mul(&a.transpose()).m);
}

#[test]
fn inverse_swaps_rows_for_a_pivot() {
    let a = mat([[0.0, 2.0], [4.0, 0.0]]);
    assert_eq!(a.inverse().unwrap().m, mat([[0.0, 0.25], [0.5, 0.0]]).m);
    let tiny = mat([[1e-19]]);
    assert!(tiny.inverse().is_none());
    let small = mat([[1e-17]]);
    assert!(small.inverse().is_some());
}

#[test]
fn inverse_is_an_inverse_on_both_sides() {
    let a = mat([[4.0, 1.0, 0.5], [1.0, 3.0, -1.0], [0.5, -1.0, 2.0]]);
    let inv = a.inverse().unwrap();
    for p in [a.mul(&inv), inv.mul(&a)] {
        for i in 0..3 {
            for j in 0..3 {
                assert!(close(p.m[i][j], if i == j { 1.0 } else { 0.0 }, 1e-12));
            }
        }
    }
}

#[test]
fn hamilton_product_of_units() {
    let (i, j, k) = (quat(0.0, 1.0, 0.0, 0.0), quat(0.0, 0.0, 1.0, 0.0), quat(0.0, 0.0, 0.0, 1.0));
    assert_eq!(i.mul(j), k);
    assert_eq!(j.mul(k), i);
    assert_eq!(k.mul(i), j);
    assert_eq!(i.mul(i), quat(-1.0, 0.0, 0.0, 0.0));
    let a = quat(1.0, 2.0, 3.0, 4.0);
    let b = quat(5.0, 6.0, 7.0, 8.0);
    assert_eq!(a.mul(b), quat(-60.0, 12.0, 30.0, 24.0));
    assert_eq!(a.conjugate(), quat(1.0, -2.0, -3.0, -4.0));
    assert_eq!(quat(1.0, 1.0, 1.0, 1.0).norm(), F(2.0));
    assert_eq!(quat(2.0, 0.0, 0.0, 0.0).normalized(), quat(1.0, 0.0, 0.0, 0.0));
    assert_eq!(quat(0.0, 0.0, 0.0, 0.0).normalized(), Quat::identity());
    assert_eq!(quat(-1.0, 2.0, -3.0, 4.0).canonical(), quat(1.0, -2.0, 3.0, -4.0));
    assert_eq!(quat(1.0, 2.0, -3.0, 4.0).canonical(), quat(1.0, 2.0, -3.0, 4.0));
}

#[test]
fn conjugate_undoes_a_unit_quaternion() {
    let q = Quat::from_rotation_vector(v([0.4, -0.2, 0.9]));
    let r = quat(0.3, -0.4, 0.5, 0.6);
    assert!(same_quat(q.conjugate().mul(q.mul(r)), [0.3, -0.4, 0.5, 0.6], 1e-12));
}

#[test]
fn exponential_map_gives_unit_quaternions() {
    for phi in [[0.0, 0.0, 0.0], [1e-12, 0.0, 0.0], [0.3, -0.2, 0.1], [2.0, 2.0, 2.0]] {
        assert!(close(Quat::from_rotation_vector(v(phi)).norm(), 1.0, 1e-12));
    }
    let half_turn = Quat::from_rotation_vector(v([std::f64::consts::PI, 0.0, 0.0]));
    assert!(same_quat(half_turn, [0.0, 1.0, 0.0, 0.0], 1e-12));
}

#[test]
fn matrix_round_trips_through_every_branch() {
    for q in [
        quat(0.9, 0.1, -0.2, 0.3),
        quat(0.1, 0.9, -0.2, 0.3),
        quat(0.1, -0.2, 0.9, 0.3),
        quat(0.1, -0.2, 0.3, 0.9),
        quat(-0.1, 0.2, -0.3, -0.9),
    ] {
        let q = q.normalized();
        let back = Quat::from_matrix(&q.to_matrix());
        assert!(norm3(boxminus(q, back)) < 1e-9);
        assert!(close(back.norm(), 1.0, 1e-12));
    }
}

#[test]
fn euler_angles_of_known_rotations() {
    let quarter = std::f64::consts::FRAC_PI_2;
    let s = std::f64::consts::FRAC_1_SQRT_2;
    assert!(close3(quat(1.0, 0.0, 0.0, 0.0).to_euler(), [0.0; 3], 1e-12));
    assert!(close3(quat(s, s, 0.0, 0.0).to_euler(), [quarter, 0.0, 0.0], 1e-12));
    assert!(close3(quat(s, 0.0, 0.0, s).to_euler(), [0.0, 0.0, quarter], 1e-12));
    // At the pole and past it the pitch is a quarter turn with the sign of its sine.
    assert_eq!(quat(1.0, 0.0, 1.0, 0.0).to_euler()[1], F(quarter));
    assert_eq!(quat(1.0, 0.0, -1.0, 0.0).to_euler()[1], F(-quarter));
}

#[test]
fn rotation_of_a_vector_keeps_its_length() {
    let q = Quat::from_rotation_vector(v([0.3, 0.8, -0.5]));
    assert!(close(v3::norm(q.rotate(v([3.0, -4.0, 12.0]))), 13.0, 1e-12));
    let opposite = quat(-q.w.0, -q.x.0, -q.y.0, -q.z.0);
    assert!(close3(
        v3::sub(opposite.rotate(v([1.0, 2.0, 3.0])), q.rotate(v([1.0, 2.0, 3.0]))),
        [0.0; 3],
        1e-12
    ));
}

#[test]
fn defaults_are_the_documented_ones() {
    let n = Noise::<F>::default();
    assert_eq!(n.gravity, v([0.0, 0.0, -9.80665]));
    assert_eq!((n.accel, n.gyro, n.accel_bias, n.gyro_bias), (F(0.08), F(0.006), F(0.002), F(0.0002)));
    let s = InitialSigma::<F>::default();
    assert_eq!(
        (s.position, s.velocity, s.orientation, s.accel_bias, s.gyro_bias),
        (F(3.0), F(0.3), F(0.1), F(0.1), F(0.01))
    );
    let c = SimConfig::<F>::default();
    assert_eq!((c.imu_rate, c.gps_rate, c.baro_rate, c.mag_rate), (F(200.0), F(5.0), F(20.0), F(40.0)));
    assert_eq!((c.accel_noise, c.gyro_noise), (F(0.06), F(0.004)));
    assert_eq!((c.accel_bias_walk, c.gyro_bias_walk), (F(0.002), F(0.0002)));
    assert_eq!((c.gps_noise, c.baro_noise, c.mag_noise), (F(0.8), F(0.6), F(0.02)));
    assert_eq!((c.lidar_noise, c.lidar_rate), (F(0.15), F(25.0)));
    assert_eq!((c.uwb_noise, c.uwb_rate), (F(0.35), F(10.0)));
    assert_eq!((c.flow_noise, c.flow_rate), (F(0.15), F(30.0)));
    assert!(c.gps_enabled && c.baro_enabled && c.mag_enabled && c.lidar_enabled);
    assert!(!c.uwb_enabled && !c.flow_enabled);
    assert_eq!(mag_reference::<F>(), v([0.422618, 0.0, -0.906308]));
    assert_eq!(gravity::<F>(), v([0.0, 0.0, -9.80665]));
    assert_eq!(
        beacons::<F>(),
        [
            v([-55.0, -55.0, 0.0]),
            v([58.0, -50.0, 6.0]),
            v([52.0, 56.0, 34.0]),
            v([-50.0, 54.0, 18.0])
        ]
    );
}

#[test]
fn filter_starts_with_the_squared_sigmas() {
    let f = fresh(level());
    for i in 0..N {
        for j in 0..N {
            let sigma = [3.0, 0.3, 0.1, 0.1, 0.01][i / 3];
            let want = if i == j { sigma * sigma } else { 0.0 };
            assert_eq!(f.covariance().m[i][j], F(want));
        }
    }
    assert_eq!(f.position_covariance().m, mat([[9.0, 0.0, 0.0], [0.0, 9.0, 0.0], [0.0, 0.0, 9.0]]).m);
}

#[test]
fn prediction_integrates_the_nominal_state() {
    let mut f = fresh(Nominal { v: v([1.0, 0.0, 0.0]), ..level() });
    // 2 m/s² forward on top of what balances gravity, for half a second.
    f.predict(v([2.0, 0.0, 9.80665]), v([0.0, 0.0, 1.0]), F(0.5));
    assert!(close3(f.nom.p, [0.75, 0.0, 0.0], 1e-12));
    assert!(close3(f.nom.v, [2.0, 0.0, 0.0], 1e-12));
    assert!(close3(f.nom.q.to_rotation_vector(), [0.0, 0.0, 0.5], 1e-12));
}

#[test]
fn process_noise_has_the_documented_exponents() {
    let noise = Noise { gravity: v([0.0; 3]), accel: F(2.0), gyro: F(3.0), accel_bias: F(5.0), gyro_bias: F(7.0) };
    let zero = InitialSigma { position: F(0.0), velocity: F(0.0), orientation: F(0.0), accel_bias: F(0.0), gyro_bias: F(0.0) };
    let mut f = Eskf::new(level(), zero, noise);
    f.predict(v([0.0; 3]), v([0.0; 3]), F(0.5));
    let diagonal: Vec<f64> = (0..N).map(|i| f.p.m[i][i].0).collect();
    let want = [0.0, 4.0 * 0.25, 9.0 * 0.25, 25.0 * 0.5, 49.0 * 0.5];
    for i in 0..N {
        assert!((diagonal[i] - want[i / 3]).abs() < 1e-12);
    }
}

#[test]
fn velocity_uncertainty_leaks_into_position() {
    let mut f = fresh(level());
    f.predict(v([0.0, 0.0, 9.80665]), v([0.0; 3]), F(0.5));
    // P_pp + dt² P_vv, and the cross term dt P_vv.
    assert!(close(f.p.m[0][0], 9.0 + 0.25 * 0.09, 1e-12));
    assert!(close(f.p.m[0][3], 0.5 * 0.09, 1e-12));
}

#[test]
fn barometer_with_equal_uncertainty_meets_halfway() {
    let mut f = fresh(level());
    f.update_baro(F(4.0), F(3.0));
    assert!(close(f.nom.p[2], 2.0, 1e-12));
    assert!(close(f.p.m[2][2], 4.5, 1e-12));
    assert!(close(f.p.m[0][0], 9.0, 1e-12));
}

#[test]
fn gps_with_equal_uncertainty_meets_halfway() {
    let mut f = fresh(level());
    f.update_gps(v([4.0, -2.0, 6.0]), F(3.0));
    assert!(close3(f.nom.p, [2.0, -1.0, 3.0], 1e-12));
    for i in 0..3 {
        assert!(close(f.p.m[i][i], 4.5, 1e-12));
    }
}

#[test]
fn magnetometer_that_agrees_moves_nothing() {
    let mut f = fresh(level());
    f.update_mag(mag_reference(), mag_reference(), F(0.02));
    assert!(close3(f.nom.p, [0.0; 3], 1e-12));
    assert!(same_quat(f.nom.q, [1.0, 0.0, 0.0, 0.0], 1e-12));
    // Turning about the field itself is not seen; across it the filter is surer than it was.
    assert!(f.p.m[7][7].0 < 0.01);
}

#[test]
fn a_magnetometer_turned_about_the_up_axis_turns_the_estimate() {
    let truth = Quat::from_rotation_vector(v([0.0, 0.0, 0.05]));
    let mut f = fresh(level());
    for _ in 0..50 {
        f.update_mag(truth.rotate_inv(mag_reference()), mag_reference(), F(0.01));
    }
    let before = norm3(boxminus(truth, Quat::identity()));
    assert!(norm3(boxminus(truth, f.nom.q)) < before);
}

#[test]
fn singular_innovation_changes_nothing() {
    let zero = InitialSigma { position: F(0.0), velocity: F(0.0), orientation: F(0.0), accel_bias: F(0.0), gyro_bias: F(0.0) };
    let mut f = Eskf::new(level(), zero, Noise::default());
    f.update_gps(v([1.0, 2.0, 3.0]), F(0.0));
    assert_eq!(f.nom.p, v([0.0; 3]));
    assert_eq!(f.p.m[0][0], F(0.0));
}

#[test]
fn a_beacon_within_a_millimetre_is_skipped() {
    let mut f = fresh(level());
    assert!(f.range_predict(v([0.0005, 0.0, 0.0])).is_none());
    f.update_range(v([0.0005, 0.0, 0.0]), F(5.0), F(0.3));
    assert_eq!(f.nom.p, v([0.0; 3]));
    assert_eq!(f.p.m[0][0], F(9.0));
    let (range, jac) = f.range_predict(v([3.0, 4.0, 0.0])).unwrap();
    assert_eq!(range, F(5.0));
    assert!(close(jac.m[0][0], -0.6, 1e-12) && close(jac.m[0][1], -0.8, 1e-12));
}

#[test]
fn the_altimeter_needs_the_ground_below() {
    let f = fresh(Nominal { p: v([0.0, 0.0, -1.0]), ..level() });
    assert!(f.lidar_predict().is_none());
    let tilted = Quat::from_rotation_vector(v([1.5, 0.0, 0.0]));
    let mut g = fresh(Nominal { p: v([0.0, 0.0, 10.0]), q: tilted, ..level() });
    assert!(g.lidar_predict().is_none());
    g.update_lidar_altimeter(F(3.0), F(0.1));
    assert_eq!(g.nom.p[2], F(10.0));
    let h = fresh(Nominal { p: v([0.0, 0.0, 10.0]), ..level() });
    assert_eq!(h.lidar_predict().unwrap().0, F(10.0));
}

#[test]
fn flow_and_body_velocity_see_the_velocity_in_the_body_frame() {
    let yaw = Quat::from_rotation_vector(v([0.0, 0.0, std::f64::consts::FRAC_PI_2]));
    let f = fresh(Nominal { v: v([2.0, 3.0, 4.0]), q: yaw, ..level() });
    let (flow, _) = f.flow_predict();
    assert!(close(flow[0], 3.0, 1e-12) && close(flow[1], -2.0, 1e-12));
    let (body, _) = f.body_velocity_predict();
    assert!(close3(body, [3.0, -2.0, 4.0], 1e-12));
    let mut g = fresh(level());
    for _ in 0..50 {
        g.update_body_velocity(v([1.0, 0.0, 0.0]), F(0.05));
        g.update_optical_flow([F(1.0), F(0.0)], F(0.05));
    }
    assert!(close(g.nom.v[0], 1.0, 0.05));
}

#[test]
fn covariance_stays_positive_through_every_sensor() {
    let mut sim = Simulator::new(full_config::<F>(), 5);
    let mut f = fresh(sim.truth_nominal());
    for k in 0..400 {
        let tick = sim.step();
        drive(&mut f, &tick, &full_config());
        if k % 50 == 0 {
            // xᵀ P x for a few x, the diagonal among them.
            for i in 0..N {
                assert!(f.p.m[i][i].0 > 0.0);
                for j in 0..N {
                    let (a, b, c) = (f.p.m[i][i].0, f.p.m[j][j].0, f.p.m[i][j].0);
                    assert!(a + b - 2.0 * c >= -1e-12 && a + b + 2.0 * c >= -1e-12);
                    assert_eq!(f.p.m[i][j], f.p.m[j][i]);
                }
            }
            assert!(close(f.nom.q.norm(), 1.0, 1e-12));
        }
    }
}

#[test]
fn generator_is_splitmix64() {
    let mut rng = Rng::<F>::new(42);
    assert_eq!(rng.next_u64(), 0x28ef_e333_b266_f103);
    assert_eq!(rng.next_u64(), 0x4752_6757_130f_9f52);
    assert_eq!(rng.next_u64(), 0x581c_e1ff_0e4a_e394);
    assert_eq!(rng.next_u64(), 0x9bc5_85a2_4482_3f2);
    let golden = 0x9e37_79b9_7f4a_7c15u64;
    assert_eq!(rng.state, (42 ^ golden).wrapping_add(golden.wrapping_mul(4)));
}

#[test]
fn uniform_and_gaussian_values() {
    let mut rng = Rng::<F>::new(42);
    assert_eq!(rng.uniform(), F(0.15991039287692016));
    let mut rng = Rng::<F>::new(42);
    assert!(close(rng.gaussian(), -0.34224413473833487, 1e-14));
    assert!(rng.spare.is_some());
    assert!(close(rng.gaussian(), 1.8839193938540324, 1e-14));
    assert!(rng.spare.is_none());
    let mut rng = Rng::<F>::new(42);
    assert!(close(rng.noisy(F(10.0), F(2.0)), 10.0 - 2.0 * 0.34224413473833487, 1e-12));
    let mut rng = Rng::<F>::new(9);
    for _ in 0..10_000 {
        let u = rng.uniform().0;
        assert!(0.0 < u && u < 1.0);
    }
}

#[test]
fn silent_noise_reads_the_truth() {
    let mut rng = Rng::<F>::new(1);
    assert_eq!(rng.noisy(F(7.0), F(0.0)), F(7.0));
    assert_eq!(rng.noisy3(v([1.0, 2.0, 3.0]), F(0.0)), v([1.0, 2.0, 3.0]));
}

#[test]
fn a_sensor_clock_keeps_its_cadence_when_disabled() {
    let mut next = F(0.0);
    assert!(due(F(0.0), &mut next, F(4.0), true));
    assert_eq!(next, F(0.25));
    assert!(!due(F(0.2), &mut next, F(4.0), true));
    assert_eq!(next, F(0.25));
    assert!(!due(F(0.25), &mut next, F(4.0), false));
    assert_eq!(next, F(0.5));
    assert!(due(F(0.5), &mut next, F(4.0), true));
}

#[test]
fn switches_do_not_disturb_the_clocks() {
    let on = full_config::<F>();
    let off = SimConfig { gps_enabled: false, baro_enabled: false, uwb_enabled: false, ..on };
    let (mut a, mut b) = (Simulator::new(on, 3), Simulator::new(off, 3));
    for _ in 0..300 {
        let (x, y) = (a.step(), b.step());
        assert_eq!(x.truth.p, y.truth.p);
        assert!(y.gps.is_none() && y.baro.is_none() && y.uwb.is_none());
        assert_eq!(x.mag.is_some(), y.mag.is_some());
        assert_eq!(x.flow.is_some(), y.flow.is_some());
    }
    assert_eq!((a.next_gps, a.next_baro, a.next_uwb), (b.next_gps, b.next_baro, b.next_uwb));
}

#[test]
fn simulator_starts_with_known_biases_and_fires_every_sensor_at_once() {
    let mut sim = Simulator::new(full_config::<F>(), 11);
    assert_eq!(sim.accel_bias, v([0.05, -0.03, 0.02]));
    assert_eq!(sim.gyro_bias, v([0.001, -0.0015, 0.0008]));
    assert_eq!(sim.time(), F(0.0));
    let tick = sim.step();
    assert!(tick.gps.is_some() && tick.baro.is_some() && tick.mag.is_some());
    assert!(tick.lidar.is_some() && tick.uwb.is_some() && tick.flow.is_some());
    assert!(tick.gps_vel.is_none() && tick.dvl.is_none() && tick.att.is_none());
    assert_eq!(tick.dt, F(1.0 / 200.0));
    assert_eq!(sim.time(), F(1.0 / 200.0));
    let again = sim.step();
    assert!(again.gps.is_none() && again.baro.is_none() && again.lidar.is_none());
}

#[test]
fn the_same_seed_flies_the_same_flight() {
    let mut a = Simulator::new(SimConfig::<F>::default(), 77);
    let mut b = Simulator::new(SimConfig::<F>::default(), 77);
    let mut c = Simulator::new(SimConfig::<F>::default(), 78);
    let mut differs = false;
    for _ in 0..100 {
        let (x, y, z) = (a.step(), b.step(), c.step());
        assert_eq!(x.accel, y.accel);
        assert_eq!(x.gyro, y.gyro);
        assert_eq!(x.gps, y.gps);
        differs |= x.accel != z.accel;
    }
    assert!(differs);
}

#[test]
fn the_orbit_is_circular_seen_from_above() {
    for t in [0.0, 4.2, 13.0, 29.5] {
        let p = position_at(F(t));
        let u = velocity_at(F(t));
        let a = accel_at(F(t));
        let w = omega_orbit::<F>().0;
        assert!((p[0].0.hypot(p[1].0) - 40.0).abs() < 1e-9);
        assert!((u[0].0.hypot(u[1].0) - 40.0 * w).abs() < 1e-9);
        assert!((p[0].0 * u[0].0 + p[1].0 * u[1].0).abs() < 1e-9);
        assert!((a[0].0 + w * w * p[0].0).abs() < 1e-9);
        assert!((a[1].0 + w * w * p[1].0).abs() < 1e-9);
        assert!(close(orientation_at(F(t)).norm(), 1.0, 1e-12));
    }
    assert_eq!(position_at(F(0.0)), v([40.0, 0.0, 20.0]));
    assert!(close(omega_climb::<F>(), std::f64::consts::TAU / 17.0, 1e-15));
}

#[test]
fn the_nose_points_along_the_velocity() {
    for t in [1.0, 8.0, 21.0] {
        let truth = truth_at(F(t));
        let nose = truth.q.rotate(v([1.0, 0.0, 0.0]));
        let along = v3::normalize(truth.v);
        assert!(norm3(v3::sub(nose, along)) < 1e-9);
        // The rate of turn carries the orientation on.
        let rate = body_rate(F(t));
        let ahead = truth.q.mul(Quat::from_rotation_vector(v3::scale(rate, F(1e-3))));
        assert!(norm3(boxminus(orientation_at(F(t + 1e-3)), ahead)) < 1e-6);
    }
}

#[test]
fn error_state_is_truth_minus_nominal() {
    let nom = Nominal {
        p: v([1.0, 2.0, 3.0]),
        v: v([0.5, 0.0, -0.5]),
        q: Quat::identity(),
        accel_bias: v([0.1, 0.2, 0.3]),
        gyro_bias: v([0.01, 0.02, 0.03]),
    };
    let truth = TrueState {
        p: v([2.0, 4.0, 6.0]),
        v: v([1.0, 1.0, 1.0]),
        q: Quat::from_rotation_vector(v([0.1, -0.2, 0.3])),
        accel_bias: v([0.0; 3]),
        gyro_bias: v([0.0; 3]),
    };
    let e = error_state(&nom, &truth);
    let want = [1.0, 2.0, 3.0, 0.5, 1.0, 1.5, 0.1, -0.2, 0.3, -0.1, -0.2, -0.3, -0.01, -0.02, -0.03];
    for i in 0..N {
        assert!(close(e.m[i][0], want[i], 1e-12), "entry {i}");
    }
}

#[test]
fn nees_weighs_the_error_by_the_covariance() {
    let nom = level();
    let mut truth = TrueState {
        p: v([3.0, 0.0, 6.0]),
        v: v([0.3, 0.0, 0.0]),
        q: Quat::identity(),
        accel_bias: v([0.0; 3]),
        gyro_bias: v([0.0, 0.02, 0.0]),
    };
    let p = fresh(nom).p;
    // 1 + 4 for the position, 1 for the velocity, 4 for the bias.
    assert!(close(position_nees(&nom, &truth, &p).unwrap(), 5.0, 1e-9));
    assert!(close(nees(&nom, &truth, &p).unwrap(), 10.0, 1e-9));
    truth.p = v([0.0; 3]);
    assert!(close(position_nees(&nom, &truth, &p).unwrap(), 0.0, 1e-12));
    let none = Mat::<F, N, N>::zeros();
    assert!(nees(&nom, &truth, &none).is_none());
    assert!(position_nees(&nom, &truth, &none).is_none());
}

#[test]
fn the_product_turns_by_one_and_then_by_the_other() {
    let a = Quat::from_rotation_vector(v([0.3, -0.7, 0.2]));
    let b = Quat::from_rotation_vector(v([-1.1, 0.4, 0.9]));
    let u = v([1.5, -2.0, 0.25]);
    let at_once = a.mul(b).rotate(u);
    let in_turn = a.rotate(b.rotate(u));
    assert!(close3(at_once, [in_turn[0].0, in_turn[1].0, in_turn[2].0], 1e-12));
    assert!(close(a.mul(b).norm(), 1.0, 1e-12));
}

#[test]
fn the_rotation_formula_on_values() {
    let e = Quat::from_rotation_vector(v([0.3, -0.7, 0.2]));
    let d = [e.x, e.y, e.z];
    let u = v([1.5, -2.0, 0.25]);
    let du = v3::cross(d, u);
    let first = v3::scale(du, F(2.0 * e.w.0));
    let second = v3::scale(v3::cross(d, du), F(2.0));
    let sum = v3::add(v3::add(u, first), second);
    assert!(close3(e.rotate(u), [sum[0].0, sum[1].0, sum[2].0], 1e-12));
}

#[test]
fn an_orientation_error_turns_with_the_body() {
    let q = Quat::from_rotation_vector(v([0.2, 0.1, -0.4]));
    let delta = v([0.05, -0.02, 0.03]);
    let x = Quat::from_rotation_vector(v([0.0, 0.3, 0.1]));
    let truth = q.mul(Quat::from_rotation_vector(delta)).mul(x);
    let after = boxminus(truth, q.mul(x));
    let turned = x.rotate_inv(delta);
    assert!(close3(after, [turned[0].0, turned[1].0, turned[2].0], 1e-12));
}

#[test]
fn an_orientation_error_after_a_correction() {
    let q = Quat::from_rotation_vector(v([0.2, 0.1, -0.4]));
    let x = Quat::from_rotation_vector(v([0.2, -0.1, 0.15]));
    let e = Quat::from_rotation_vector(v([0.21, -0.15, 0.1]));
    let after = q.mul(x).conjugate().mul(q.mul(e));
    let (d, f) = ([x.x, x.y, x.z], [e.x, e.y, e.z]);
    let m = v3::sub(f, d);
    let first = v3::sub(m, v3::cross(d, m));
    let rest = v3::add(v3::scale(f, F(x.w.0 - 1.0)), v3::scale(d, F(1.0 - e.w.0)));
    let expected = v3::add(first, rest);
    assert!(close(after.x, expected[0].0, 1e-14));
    assert!(close(after.y, expected[1].0, 1e-14));
    assert!(close(after.z, expected[2].0, 1e-14));
}

#[test]
fn a_right_handed_frame_is_the_matrix_of_its_quaternion() {
    for rows in [
        [[0.0, 0.0, 1.0], [1.0, 0.0, 0.0], [0.0, 1.0, 0.0]],
        [[1.0, 0.0, 0.0], [0.0, -1.0, 0.0], [0.0, 0.0, -1.0]],
        [[-1.0, 0.0, 0.0], [0.0, 1.0, 0.0], [0.0, 0.0, -1.0]],
        [[-1.0, 0.0, 0.0], [0.0, -1.0, 0.0], [0.0, 0.0, 1.0]],
        [[0.6, 0.0, 0.8], [0.0, 1.0, 0.0], [-0.8, 0.0, 0.6]],
    ] {
        let back = Quat::from_matrix(&mat(rows)).to_matrix();
        for i in 0..3 {
            for j in 0..3 {
                assert!(close(back.m[i][j], rows[i][j], 1e-12));
            }
        }
    }
}

#[test]
fn a_range_grows_along_the_line_of_sight() {
    let (p, delta) = (v([3.0, -4.0, 12.0]), v([0.3, 0.1, -0.2]));
    let range = v3::norm(p);
    let along = v3::dot(v3::scale(p, F(1.0 / range.0)), delta);
    let moved = v3::add(p, delta);
    let guess = range.0 + along.0;
    let expected = guess * guess + v3::dot(delta, delta).0 - along.0 * along.0;
    assert!(close(v3::dot(moved, moved), expected, 1e-9));
}

#[test]
fn a_perfect_estimate_scores_zero() {
    let sim = Simulator::<F>::new(SimConfig::default(), 1);
    let nom = sim.truth_nominal();
    let truth = TrueState {
        p: nom.p,
        v: nom.v,
        q: nom.q,
        accel_bias: nom.accel_bias,
        gyro_bias: nom.gyro_bias,
    };
    let filter = fresh(nom);
    assert!(close(nees(&filter.nom, &truth, filter.covariance()).unwrap(), 0.0, 1e-20));
    assert_eq!(position_nees(&filter.nom, &truth, filter.covariance()), Some(F(0.0)));
}

#[test]
fn the_lift_leans_into_the_turn() {
    for t in [0.0, 1.0, 8.0, 21.0] {
        let truth = truth_at(F(t));
        let left = v3::normalize(v3::cross(v([0.0, 0.0, 1.0]), truth.v));
        let up = truth.q.rotate(v([0.0, 0.0, 1.0]));
        let lateral = v3::dot(accel_at(F(t)), left).0;
        let lean = v3::dot(up, left).0;
        assert!(lateral > 0.0 && lean > 0.0);
        let phi = lateral.atan2(9.80665);
        assert!((lean - phi.sin()).abs() < 1e-9);
    }
    // At the start the centre of the orbit lies towards −x.
    let up = orientation_at(F(0.0)).rotate(v([0.0, 0.0, 1.0]));
    assert!((up[0].0 + 0.176).abs() < 1e-3);
}

#[test]
fn a_rounded_pivot_does_not_make_a_singular_matrix_invertible() {
    assert!(mat([[49.0, 1.0], [49.0, 1.0]]).inverse().is_none());
    assert!(mat([[1.0, 2.0, 3.0], [4.0, 5.0, 6.0], [7.0, 8.0, 9.0]]).inverse().is_none());
    assert!(mat([[0.1, 0.3], [0.2, 0.6]]).inverse().is_none());
    // Zeros on the diagonal and small entries are no obstacle.
    let b = mat([[0.0, 2.0], [4.0, 0.0]]).inverse().unwrap();
    assert_eq!(b.m, mat([[0.0, 0.25], [0.5, 0.0]]).m);
    assert!(mat([[1e-9, 0.0], [0.0, 1e4]]).inverse().is_some());
    assert!(mat([[1e-12]]).inverse().is_some());
    assert!(mat([[3.0, 6.0, -9.0], [2.0, 4.0, -6.0], [1.0, 5.0, 7.0]]).inverse().is_none());
}

#[test]
fn the_scale_of_rows_and_columns_is_no_obstacle_to_an_inverse() {
    let a = mat([[1e6, 0.0], [0.0, 1e-12]]).inverse().unwrap();
    assert_eq!(a.m, mat([[1.0 / 1e6, 0.0], [0.0, 1.0 / 1e-12]]).m);
    let b = mat([[1.0, 1e6], [0.0, 1e-10]]).inverse().unwrap();
    assert!(close(b.m[0][0], 1.0, 0.0) && close(b.m[1][0], 0.0, 0.0));
    assert!(close(b.m[0][1], -1e16, 16.0) && close(b.m[1][1], 1e10, 1e-5));
    let c = mat([[1e-17, 0.0, 0.0], [0.0, 1e17, 0.0], [0.0, 1.0, 1.0]]).inverse();
    assert!(c.is_some());
    // A wide position beside a narrow bias.
    let sigma = InitialSigma { position: F(1e5), gyro_bias: F(1e-4), ..InitialSigma::default() };
    let f = Eskf::new(level(), sigma, Noise::default());
    let truth = TrueState {
        p: v([1e5, 0.0, 0.0]),
        v: v([0.0; 3]),
        q: Quat::identity(),
        accel_bias: v([0.0; 3]),
        gyro_bias: v([0.0, 2e-4, 0.0]),
    };
    assert!(close(nees(&f.nom, &truth, f.covariance()).unwrap(), 1.0 + 4.0, 1e-9));
}

#[test]
fn half_turns_have_their_quaternions() {
    let x = Quat::from_matrix(&mat([[1.0, 0.0, 0.0], [0.0, -1.0, 0.0], [0.0, 0.0, -1.0]]));
    let y = Quat::from_matrix(&mat([[-1.0, 0.0, 0.0], [0.0, 1.0, 0.0], [0.0, 0.0, -1.0]]));
    let z = Quat::from_matrix(&mat([[-1.0, 0.0, 0.0], [0.0, -1.0, 0.0], [0.0, 0.0, 1.0]]));
    assert!(same_quat(x, [0.0, 1.0, 0.0, 0.0], 1e-15));
    assert!(same_quat(y, [0.0, 0.0, 1.0, 0.0], 1e-15));
    assert!(same_quat(z, [0.0, 0.0, 0.0, 1.0], 1e-15));
}

#[test]
fn the_largest_draw_stays_below_one() {
    // The state before the output whose bits are all set.
    let mut r = Rng::<F> { state: 0x3162_8af6_7b21_31ab, spare: None };
    assert_eq!(r.next_u64(), u64::MAX);
    let mut r = Rng::<F> { state: 0x3162_8af6_7b21_31ab, spare: None };
    let u = r.uniform().0;
    assert!(0.0 < u && u < 1.0);
}

#[test]
fn the_exponential_undoes_the_logarithm() {
    for (w, x, y, z) in [(0.5, 0.5, -0.5, 0.5), (-0.5, 0.5, 0.5, 0.5), (0.0, 0.6, 0.0, 0.8), (1.0, 0.0, 0.0, 0.0)] {
        let q = quat(w, x, y, z);
        let phi = q.to_rotation_vector();
        assert!(norm3(phi) <= std::f64::consts::PI + 1e-12);
        let s = if w < 0.0 { -1.0 } else { 1.0 };
        assert!(same_quat(Quat::from_rotation_vector(phi), [s * w, s * x, s * y, s * z], 1e-12));
        if w != 0.0 {
            assert_eq!(quat(-w, -x, -y, -z).to_rotation_vector().map(|a| a.0 + 0.0), phi.map(|a| a.0 + 0.0));
        }
    }
    // Where the logarithm takes the vector part for small, to the cube of its length.
    for n in [9e-10, 4e-10, 1e-10] {
        let q = quat((1.0f64 - n * n).sqrt(), 0.6 * n, 0.0, -0.8 * n);
        let back = Quat::from_rotation_vector(q.to_rotation_vector());
        assert!(close(back.w, q.w.0, 1e-15));
        assert!(close3([back.x, back.y, back.z], [0.6 * n, 0.0, -0.8 * n], n * n * n + 1e-24));
        let phi = v([0.0, 2.0 * n, 0.0]);
        let there = Quat::from_rotation_vector(phi).to_rotation_vector();
        assert!(close3(there, [0.0, 2.0 * n, 0.0], 8.0 * n * n * n + 1e-24));
    }
    // A third of a turn about the diagonal.
    let third = quat(0.5, 0.5, 0.5, 0.5).to_rotation_vector();
    assert!(close(third[0], std::f64::consts::TAU / 3.0 / 3f64.sqrt(), 1e-12));
}

#[test]
fn the_error_folded_in_gives_the_truth() {
    let nom = Nominal {
        p: v([1.0, 2.0, 3.0]),
        v: v([0.5, 0.0, -0.5]),
        q: Quat::from_rotation_vector(v([0.4, -1.2, 0.3])),
        accel_bias: v([0.1, 0.2, 0.3]),
        gyro_bias: v([0.01, 0.02, 0.03]),
    };
    let truth = TrueState {
        p: v([-2.0, 4.0, 6.5]),
        v: v([1.0, 1.0, 1.0]),
        q: Quat::from_rotation_vector(v([-2.0, 0.2, 1.3])),
        accel_bias: v([0.0, 0.5, 0.0]),
        gyro_bias: v([0.2, 0.0, 0.0]),
    };
    let e = error_state(&nom, &truth);
    let part = |i: usize| [e.m[i][0], e.m[i + 1][0], e.m[i + 2][0]];
    let folded = Nominal {
        p: v3::add(nom.p, part(0)),
        v: v3::add(nom.v, part(3)),
        q: nom.q.mul(Quat::from_rotation_vector(part(6))).normalized(),
        accel_bias: v3::add(nom.accel_bias, part(9)),
        gyro_bias: v3::add(nom.gyro_bias, part(12)),
    };
    let left = error_state(&folded, &truth);
    for i in 0..N {
        assert!(close(left.m[i][0], 0.0, 1e-12), "entry {i}");
    }
}

#[test]
fn a_prediction_over_no_time_changes_nothing() {
    let mut f = fresh(Nominal { v: v([1.0, -2.0, 0.5]), ..level() });
    let before = f.p;
    f.predict(v([2.0, 1.0, 9.0]), v([0.3, -0.2, 1.0]), F(0.0));
    assert_eq!(f.nom.p, v([0.0; 3]));
    assert_eq!(f.nom.v, v([1.0, -2.0, 0.5]));
    assert!(same_quat(f.nom.q, [1.0, 0.0, 0.0, 0.0], 1e-15));
    for i in 0..N {
        for j in 0..N {
            assert!(close(f.p.m[i][j], before.m[i][j].0, 1e-15));
        }
    }
}

#[test]
fn a_fix_makes_an_uncertain_position_more_certain() {
    let mut f = fresh(level());
    f.predict(v([0.0, 0.0, 9.80665]), v([0.0; 3]), F(0.1));
    for sigma in [0.5, 30.0] {
        let before = [f.p.m[0][0].0, f.p.m[1][1].0, f.p.m[2][2].0];
        f.update_gps(v([0.1, 0.2, -0.1]), F(sigma));
        for i in 0..3 {
            assert!(f.p.m[i][i].0 < before[i]);
        }
    }
}

#[test]
fn a_certain_direction_never_appears() {
    // The determinants of the leading blocks, by elimination: all pivots stay positive.
    let mut f = fresh(level());
    for k in 0..50 {
        f.predict(v([0.2, -0.1, 9.8]), v([0.01, 0.02, -0.3]), F(0.01));
        if k % 5 == 0 {
            f.update_gps(v([0.0; 3]), F(0.8));
            f.update_baro(F(0.1), F(0.6));
        }
        let mut a: Vec<Vec<f64>> = f.p.m.iter().map(|row| row.iter().map(|x| x.0).collect()).collect();
        for c in 0..N {
            assert!(a[c][c] > 0.0, "step {k}, pivot {c}");
            for r in c + 1..N {
                let m = a[r][c] / a[c][c];
                for j in c..N {
                    a[r][j] -= m * a[c][j];
                }
            }
        }
    }
}

#[test]
fn a_tick_without_noise_reads_the_truth() {
    let zero = F(0.0);
    let cfg = SimConfig {
        accel_noise: zero,
        gyro_noise: zero,
        gps_noise: zero,
        baro_noise: zero,
        mag_noise: zero,
        lidar_noise: zero,
        uwb_noise: zero,
        flow_noise: zero,
        ..full_config::<F>()
    };
    let mut sim = Simulator::new(cfg, 5);
    for k in 0..120 {
        let tick = sim.step();
        let (x, t) = (tick.truth, tick.t);
        let force = x.q.rotate_inv(v3::sub(accel_at(t), gravity()));
        assert_eq!(tick.accel, v3::add(force, x.accel_bias));
        assert_eq!(tick.gyro, v3::add(body_rate(t), x.gyro_bias));
        assert!(k > 0 || (tick.gps.is_some() && tick.uwb.is_some()));
        if let Some(z) = tick.gps {
            assert_eq!(z, x.p);
        }
        if let Some(z) = tick.baro {
            assert_eq!(z, x.p[2]);
        }
        if let Some(z) = tick.mag {
            assert_eq!(z, x.q.rotate_inv(mag_reference()));
        }
        if let Some(z) = tick.lidar {
            assert_eq!(z, F(x.p[2].0 / x.q.to_matrix().m[2][2].0));
        }
        if let Some(z) = tick.uwb {
            assert_eq!(z, beacons().map(|b| v3::norm(v3::sub(x.p, b))));
        }
        if let Some(z) = tick.flow {
            let seen = x.q.rotate_inv(x.v);
            assert_eq!(z, [seen[0], seen[1]]);
        }
    }
}

#[test]
fn switching_between_ticks_leaves_the_cadence_alone() {
    let on = full_config::<F>();
    let (mut a, mut b) = (Simulator::new(on, 3), Simulator::new(on, 3));
    for k in 0..300 {
        b.cfg.gps_enabled = k % 70 < 35;
        b.cfg.flow_enabled = k % 7 == 0;
        let (x, y) = (a.step(), b.step());
        assert_eq!(y.gps.is_some(), x.gps.is_some() && b.cfg.gps_enabled);
        assert_eq!(y.flow.is_some(), x.flow.is_some() && b.cfg.flow_enabled);
        assert_eq!((x.t, x.truth.p), (y.t, y.truth.p));
    }
    assert_eq!((a.next_gps, a.next_flow), (b.next_gps, b.next_flow));
}

#[test]
fn a_skew_matrix_is_the_opposite_of_its_transpose() {
    let a = skew(v([1.0, -2.0, 3.5]));
    assert_eq!(a.transpose().m, a.scale(F(-1.0)).m);
}

#[test]
fn position_velocity_and_acceleration_belong_together() {
    for t in [0.7, 4.0, 12.5, 26.0] {
        for h in [1e-2, 1e-3, 1e-4] {
            let (p0, p1) = (position_at(F(t)), position_at(F(t + h)));
            let (u0, u1) = (velocity_at(F(t)), velocity_at(F(t + h)));
            let a0 = accel_at(F(t));
            for i in 0..3 {
                assert!((p1[i].0 - p0[i].0 - u0[i].0 * h).abs() <= h * h + 1e-12);
                assert!((u1[i].0 - u0[i].0 - a0[i].0 * h).abs() <= h * h + 1e-12);
            }
        }
    }
    // At the start the climb is at its fastest: the amplitude times the rate.
    assert!(close(velocity_at(F(0.0))[2], 8.0 * std::f64::consts::TAU / 17.0, 1e-12));
    assert!(close(accel_at(F(17.0 / 4.0))[2], -8.0 * (std::f64::consts::TAU / 17.0).powi(2), 1e-12));
}
