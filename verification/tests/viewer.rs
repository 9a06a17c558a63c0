//! A live session, computed in double and shown in single precision.

use eskf::filter::{Correction, Eskf, InitialSigma, Noise, N};
use eskf::flight::{imu_noise, Flight};
use eskf::metrics::{error_state, nees, position_nees};
use eskf::narrow::Narrow;
use eskf::scalar::Real;
use eskf::session::{
    beacon_positions, push_trail, Session, ANALYTICS_LEN, N_SENSORS, SNAPSHOT_LEN,
    S_ATT, S_BARO, S_DVL, S_GPS, S_LIDAR, S_UWB, TRAIL_MAX,
};
use eskf::sim::SimConfig;

/// A hardware float as a scalar.
#[derive(Clone, Copy, Debug, PartialEq, PartialOrd)]
struct F(f64);

impl Real for F {
    fn ratio(num: i64, den: u64) -> Self {
        F(num as f64 / den as f64)
    }
    fn from_u64(n: u64) -> Self {
        F(n as f64)
    }
    fn tau() -> Self {
        F(std::f64::consts::TAU)
    }
    fn frac_pi_2() -> Self {
        F(std::f64::consts::FRAC_PI_2)
    }
    fn plus(self, rhs: Self) -> Self {
        F(self.0 + rhs.0)
    }
    fn minus(self, rhs: Self) -> Self {
        F(self.0 - rhs.0)
    }
    fn times(self, rhs: Self) -> Self {
        F(self.0 * rhs.0)
    }
    fn over(self, rhs: Self) -> Self {
        F(self.0 / rhs.0)
    }
    fn negate(self) -> Self {
        F(-self.0)
    }
    fn abs(self) -> Self {
        F(self.0.abs())
    }
    fn max(self, rhs: Self) -> Self {
        F(self.0.max(rhs.0))
    }
    fn copysign(self, sign: Self) -> Self {
        F(self.0.copysign(sign.0))
    }
    fn lt(self, rhs: Self) -> bool {
        self.0 < rhs.0
    }
    fn le(self, rhs: Self) -> bool {
        self.0 <= rhs.0
    }
    fn equals(self, rhs: Self) -> bool {
        self.0 == rhs.0
    }
    fn sqrt(self) -> Self {
        F(self.0.sqrt())
    }
    fn sin(self) -> Self {
        F(self.0.sin())
    }
    fn cos(self) -> Self {
        F(self.0.cos())
    }
    fn atan2(self, x: Self) -> Self {
        F(self.0.atan2(x.0))
    }
    fn asin(self) -> Self {
        F(self.0.asin())
    }
    fn ln(self) -> Self {
        F(self.0.ln())
    }
    fn to_degrees(self) -> Self {
        F(self.0.to_degrees())
    }
    fn round_usize(self) -> usize {
        self.0.round() as usize
    }
    fn trunc_usize(self) -> usize {
        self.0 as usize
    }
}

/// A single-precision float as a scalar.
#[derive(Clone, Copy, Debug, PartialEq, PartialOrd)]
struct S(f32);

impl Real for S {
    fn ratio(num: i64, den: u64) -> Self {
        S(num as f32 / den as f32)
    }
    fn from_u64(n: u64) -> Self {
        S(n as f32)
    }
    fn tau() -> Self {
        S(std::f32::consts::TAU)
    }
    fn frac_pi_2() -> Self {
        S(std::f32::consts::FRAC_PI_2)
    }
    fn plus(self, rhs: Self) -> Self {
        S(self.0 + rhs.0)
    }
    fn minus(self, rhs: Self) -> Self {
        S(self.0 - rhs.0)
    }
    fn times(self, rhs: Self) -> Self {
        S(self.0 * rhs.0)
    }
    fn over(self, rhs: Self) -> Self {
        S(self.0 / rhs.0)
    }
    fn negate(self) -> Self {
        S(-self.0)
    }
    fn abs(self) -> Self {
        S(self.0.abs())
    }
    fn max(self, rhs: Self) -> Self {
        S(self.0.max(rhs.0))
    }
    fn copysign(self, sign: Self) -> Self {
        S(self.0.copysign(sign.0))
    }
    fn lt(self, rhs: Self) -> bool {
        self.0 < rhs.0
    }
    fn le(self, rhs: Self) -> bool {
        self.0 <= rhs.0
    }
    fn equals(self, rhs: Self) -> bool {
        self.0 == rhs.0
    }
    fn sqrt(self) -> Self {
        S(self.0.sqrt())
    }
    fn sin(self) -> Self {
        S(self.0.sin())
    }
    fn cos(self) -> Self {
        S(self.0.cos())
    }
    fn atan2(self, x: Self) -> Self {
        S(self.0.atan2(x.0))
    }
    fn asin(self) -> Self {
        S(self.0.asin())
    }
    fn ln(self) -> Self {
        S(self.0.ln())
    }
    fn to_degrees(self) -> Self {
        S(self.0.to_degrees())
    }
    fn round_usize(self) -> usize {
        self.0.round() as usize
    }
    fn trunc_usize(self) -> usize {
        self.0 as usize
    }
}

impl Narrow<S> for F {
    fn narrow(self) -> S {
        S(self.0 as f32)
    }
}

type Live = Session<F, S>;

#[test]
fn a_session_starts_blank() {
    let s = Live::new(9);
    assert_eq!(s.snapshot(), vec![S(0.0); SNAPSHOT_LEN]);
    assert_eq!((s.est_trail_len(), s.truth_trail_len()), (0, 0));
    assert_eq!(s.ema_nees, F(3.0));
    assert_eq!(s.last_truth.p, [F(40.0), F(0.0), F(20.0)]);
}

#[test]
fn beacons_are_handed_out_flat() {
    let b = beacon_positions::<S, F>();
    let want = [-55.0, -55.0, 0.0, 58.0, -50.0, 6.0, 52.0, 56.0, 34.0, -50.0, 54.0, 18.0];
    assert_eq!(b, want.map(S).to_vec());
}

#[test]
fn a_step_runs_as_many_ticks_as_fit_up_to_eight() {
    let mut s = Live::new(1);
    s.step(F(0.0));
    assert_eq!(s.step_count, 1);
    s.step(F(0.016));
    assert_eq!(s.step_count, 4);
    s.step(F(10.0));
    assert_eq!(s.step_count, 12);
    // A point for every fourth tick, from the first on.
    assert_eq!(s.est_trail_len(), 9);
    assert_eq!(s.truth_trail_len(), 9);
    assert_eq!(s.truth_trail[0], S(40.0));
}

#[test]
fn a_snapshot_lays_out_the_frame() {
    let mut s = Live::new(3);
    s.step(F(0.04));
    let f = s.snapshot();
    let n = &s.filter.nom;
    assert_eq!(f.len(), SNAPSHOT_LEN);
    assert_eq!(f[0], n.p[0].narrow());
    assert_eq!(f[5], n.v[2].narrow());
    assert_eq!(f[6], n.q.w.narrow());
    assert_eq!(f[10], s.last_truth.p[0].narrow());
    assert_eq!(f[16], s.last_truth.q.z.narrow());
    assert_eq!(f[17 + 3 + 2], s.filter.p.m[1][2].narrow());
    assert_eq!((f[26], f[27], f[28]), (s.ema_pos.narrow(), s.ema_att.narrow(), s.ema_nees.narrow()));
    assert_eq!(f[29], s.sim.time().narrow());
    assert_eq!(f[32], n.accel_bias[2].narrow());
    assert_eq!(f[35], n.gyro_bias[2].narrow());
    assert_eq!(f[36..45].to_vec(), s.pulse.to_vec());
    let p = &s.filter.p.m;
    let sigma = ((p[0][0].0 + p[1][1].0 + p[2][2].0) / 3.0).max(0.0).sqrt();
    assert_eq!(f[45], S(sigma as f32));
    assert_eq!(f[46], s.inst_pos.narrow());
    assert_eq!(f[47], S(0.0));
}

#[test]
fn pulses_fire_and_fade() {
    let mut s = Live::new(5);
    s.advance_one();
    // On the first tick the four sensors that are on all fire.
    assert_eq!(s.pulse[S_GPS], S(1.0));
    assert_eq!(s.pulse[S_LIDAR], S(1.0));
    assert_eq!(s.pulse[S_UWB], S(0.0));
    s.advance_one();
    assert_eq!(s.pulse[S_GPS], S(0.94));
    s.advance_one();
    assert_eq!(s.pulse[S_GPS], S(0.94 * 0.94));
}

#[test]
fn a_mark_keeps_the_correction() {
    let mut s = Live::new(5);
    s.mark(S_DVL, None);
    assert_eq!(s.pulse[S_DVL], S(1.0));
    assert_eq!(s.sensor_stats[S_DVL].dim, S(0.0));
    s.mark(
        S_ATT,
        Some(Correction { dim: 3, nis: F(2.5), innovation_norm: F(0.75), accepted: true }),
    );
    let st = s.sensor_stats[S_ATT];
    assert_eq!((st.dim, st.nis, st.innov, st.accepted), (S(3.0), S(2.5), S(0.75), S(1.0)));
    let o = s.analytics();
    assert_eq!(o[269 + 4 * S_ATT..273 + 4 * S_ATT], [S(3.0), S(2.5), S(0.75), S(1.0)]);
    s.mark(
        S_ATT,
        Some(Correction { dim: 3, nis: F(9.0), innovation_norm: F(1.0), accepted: false }),
    );
    assert_eq!(s.sensor_stats[S_ATT].accepted, S(0.0));
}

#[test]
fn analytics_lays_out_the_payload() {
    let mut s = Live::new(8);
    for _ in 0..20 {
        s.step(F(0.04));
    }
    let o = s.analytics();
    let n = &s.filter.nom;
    let t = &s.last_truth;
    assert_eq!(o.len(), ANALYTICS_LEN);
    assert_eq!(o[0], n.p[0].narrow());
    assert_eq!(o[6], n.q.w.narrow());
    assert_eq!(o[15], n.gyro_bias[2].narrow());
    assert_eq!(o[16], t.p[0].narrow());
    assert_eq!(o[25], t.q.z.narrow());
    let e = error_state(n, t);
    for i in 0..N {
        assert_eq!(o[26 + i], e.m[i][0].narrow());
        for j in 0..N {
            assert_eq!(o[41 + N * i + j], s.filter.p.m[i][j].narrow());
        }
    }
    let p = s.filter.covariance();
    assert_eq!(o[266], position_nees(n, t, p).unwrap().narrow());
    assert_eq!(o[267], nees(n, t, p).unwrap().narrow());
    assert_eq!(o[268], s.sim.time().narrow());
}

#[test]
fn settings_reach_the_simulator_and_the_filter() {
    let mut s = Live::new(2);
    s.set_accel_noise(F(0.5));
    s.set_gyro_noise(F(0.25));
    s.set_accel_bias_walk(F(0.125));
    s.set_gyro_bias_walk(F(0.0625));
    assert_eq!((s.cfg.accel_noise, s.sim.cfg.accel_noise, s.filter.noise.accel), (F(0.5), F(0.5), F(0.5)));
    assert_eq!((s.sim.cfg.gyro_noise, s.filter.noise.gyro), (F(0.25), F(0.25)));
    assert_eq!((s.sim.cfg.accel_bias_walk, s.filter.noise.accel_bias), (F(0.125), F(0.125)));
    assert_eq!((s.sim.cfg.gyro_bias_walk, s.filter.noise.gyro_bias), (F(0.0625), F(0.0625)));
    s.set_gps_noise(F(1.0));
    s.set_baro_noise(F(2.0));
    s.set_mag_noise(F(3.0));
    s.set_lidar_noise(F(4.0));
    s.set_uwb_noise(F(5.0));
    s.set_flow_noise(F(6.0));
    s.set_gps_vel_noise(F(7.0));
    s.set_dvl_noise(F(8.0));
    s.set_att_noise(F(9.0));
    let c = s.sim.cfg;
    assert_eq!(
        [c.gps_noise, c.baro_noise, c.mag_noise, c.lidar_noise, c.uwb_noise, c.flow_noise],
        [F(1.0), F(2.0), F(3.0), F(4.0), F(5.0), F(6.0)]
    );
    assert_eq!([c.gps_vel_noise, c.dvl_noise, c.att_noise], [F(7.0), F(8.0), F(9.0)]);
    s.set_gps_enabled(false);
    s.set_baro_enabled(false);
    s.set_mag_enabled(false);
    s.set_lidar_enabled(false);
    s.set_uwb_enabled(true);
    s.set_flow_enabled(true);
    s.set_gps_vel_enabled(true);
    s.set_dvl_enabled(true);
    s.set_att_enabled(true);
    for c in [s.cfg, s.sim.cfg] {
        assert!(!c.gps_enabled && !c.baro_enabled && !c.mag_enabled && !c.lidar_enabled);
        assert!(c.uwb_enabled && c.flow_enabled && c.gps_vel_enabled && c.dvl_enabled && c.att_enabled);
    }
}

#[test]
fn a_reset_keeps_the_settings_and_draws_a_new_seed() {
    let mut s = Live::new(7);
    s.set_gps_enabled(false);
    s.step(F(0.04));
    let frame = s.snapshot();
    s.reset();
    assert!(!s.cfg.gps_enabled && !s.sim.cfg.gps_enabled);
    assert_eq!(s.seed, 7u64.wrapping_mul(6_364_136_223_846_793_005).wrapping_add(1));
    assert_eq!((s.est_trail_len(), s.step_count), (0, 0));
    assert_eq!(s.pulse, [S(0.0); N_SENSORS]);
    assert_eq!(s.snapshot(), frame);
    assert_eq!(s.sim.time(), F(0.0));
}

#[test]
fn a_session_flies_the_scored_flight() {
    let mut s = Live::new(21);
    let mut flight = Flight::new(SimConfig::<F>::default(), 21);
    // The session is told the noise of the IMU as it is.
    flight.filter.noise = imu_noise(&SimConfig::default());
    for _ in 0..100 {
        s.advance_one();
        flight.tick();
    }
    assert_eq!(s.filter.nom.p, flight.filter.nom.p);
    assert_eq!(s.filter.p.m, flight.filter.p.m);
}

#[test]
fn a_full_trail_drops_its_oldest_point() {
    let mut trail: Vec<S> = Vec::new();
    for i in 0..TRAIL_MAX + 2 {
        push_trail(&mut trail, [F(i as f64), F(0.0), F(0.5)]);
    }
    assert_eq!(trail.len(), TRAIL_MAX * 3);
    assert_eq!(trail[0], S(2.0));
    assert_eq!(trail[TRAIL_MAX * 3 - 3..], [S((TRAIL_MAX + 1) as f32), S(0.0), S(0.5)]);
}

#[test]
fn a_trail_keeps_the_room_it_was_given() {
    let mut s = Live::new(3);
    let room = s.est_trail.capacity();
    assert!(room >= TRAIL_MAX * 3 && s.truth_trail.capacity() >= TRAIL_MAX * 3);
    for i in 0..TRAIL_MAX + 5 {
        push_trail(&mut s.est_trail, [F(i as f64), F(0.0), F(0.5)]);
    }
    assert_eq!(s.est_trail.len(), TRAIL_MAX * 3);
    assert_eq!(s.est_trail.capacity(), room);
    s.reset();
    assert_eq!((s.est_trail.len(), s.est_trail.capacity()), (0, room));
}

#[test]
fn error_metrics_follow_the_error() {
    let mut s = Live::new(31);
    s.advance_one();
    let dp: Vec<f64> = (0..3).map(|i| s.filter.nom.p[i].0 - s.last_truth.p[i].0).collect();
    let norm = (dp[0] * dp[0] + dp[1] * dp[1] + dp[2] * dp[2]).sqrt();
    assert_eq!(s.inst_pos, F(norm));
    assert_eq!(s.ema_pos, F(0.0 + 0.02 * (norm - 0.0)));
    let v = position_nees(&s.filter.nom, &s.last_truth, s.filter.covariance()).unwrap().0;
    assert_eq!(s.ema_nees, F(3.0 + 0.02 * (v - 3.0)));
}

#[test]
fn a_session_keeps_what_each_sensor_did() {
    let mut s = Live::new(5);
    s.advance_one();
    let (gps, baro) = (s.sensor_stats[S_GPS], s.sensor_stats[S_BARO]);
    assert_eq!((gps.dim, gps.accepted), (S(3.0), S(1.0)));
    assert_eq!((baro.dim, baro.accepted), (S(1.0), S(1.0)));
    assert!(gps.nis.0 > 0.0 && gps.innov.0 > 0.0);
    // A sensor that is off leaves no record, and one that is not due keeps its last.
    assert_eq!(s.sensor_stats[S_DVL].dim, S(0.0));
    s.advance_one();
    assert_eq!(s.sensor_stats[S_GPS].nis, gps.nis);
}

#[test]
fn a_correction_is_recorded() {
    let nom = Flight::<F>::new(SimConfig::default(), 1).filter.nom;
    let mut f = Eskf::new(nom, InitialSigma::default(), Noise::default());
    assert!(f.last_update.is_none());
    // Position variance 9 and sensor variance 16: an innovation of (3, 0, 4) scores 25 / 25.
    let fix = [F(nom.p[0].0 + 3.0), nom.p[1], F(nom.p[2].0 + 4.0)];
    f.update_gps(fix, F(4.0));
    let u = f.last_update.unwrap();
    assert!(u.accepted && u.dim == 3);
    assert!((u.nis.0 - 1.0).abs() < 1e-9 && (u.innovation_norm.0 - 5.0).abs() < 1e-9);
    // Nothing to measure: no record.
    let here = f.nom.p;
    f.update_range(here, F(1.0), F(0.1));
    assert!(f.last_update.is_none());
    // A singular innovation is recorded as skipped.
    f.p.m[2][2] = F(0.0);
    let altitude = F(f.nom.p[2].0 + 2.0);
    f.update_baro(altitude, F(0.0));
    let u = f.last_update.unwrap();
    assert!(!u.accepted && u.dim == 1 && u.nis == F(0.0));
    assert!((u.innovation_norm.0 - 2.0).abs() < 1e-9);
}
