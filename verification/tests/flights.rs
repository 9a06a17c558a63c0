//! Flights flown, scored, recorded and replayed, on hardware floats.

use eskf::campaign::{
    chi2_quantile_lower, chi2_quantile_upper, consistency_check, judge, judge_window, report_nees,
    run_batch, wilson_hilferty, Batch, Scenario, SEED_STRIDE,
};
use eskf::dataset::plots::{drift_csv, envelope_csv, inertial_config, nees_csv};
use eskf::dataset::record::{fields_of, record, COLUMNS, CSV_HEADER, RECORD_SEED};
use eskf::dataset::replay::{read_tick, replay};
use eskf::dataset::text::{push_row, split, split_lines, COMMA};
use eskf::decimal::Decimal;
use eskf::filter::InitialSigma;
use eskf::flight::{filter_noise, full_config, guard, run_flight, Flight};
use eskf::quat::Quat;
use eskf::rng::Rng;
use eskf::scalar::Real;
use eskf::series::{
    accumulate, drift_series, envelope_series, mean_nees_series, nees_series, DriftSample,
    EnvelopeSample, NeesSample,
};
use eskf::sim::{gravity, SimConfig, Simulator};

/// A hardware float as a scalar.
#[derive(Clone, Copy, Debug, PartialEq, PartialOrd)]
struct F(f64);

impl Real for F {
    fn ratio(num: i64, den: u64) -> Self {
        F(num as f64 / den as f64)
    }
    fn from_u64(n: u64) -> Self {
        F(n as f64)
    }
    fn tau() -> Self {
        F(std::f64::consts::TAU)
    }
    fn frac_pi_2() -> Self {
        F(std::f64::consts::FRAC_PI_2)
    }
    fn plus(self, rhs: Self) -> Self {
        F(self.0 + rhs.0)
    }
    fn minus(self, rhs: Self) -> Self {
        F(self.0 - rhs.0)
    }
    fn times(self, rhs: Self) -> Self {
        F(self.0 * rhs.0)
    }
    fn over(self, rhs: Self) -> Self {
        F(self.0 / rhs.0)
    }
    fn negate(self) -> Self {
        F(-self.0)
    }
    fn abs(self) -> Self {
        F(self.0.abs())
    }
    fn max(self, rhs: Self) -> Self {
        F(self.0.max(rhs.0))
    }
    fn copysign(self, sign: Self) -> Self {
        F(self.0.copysign(sign.0))
    }
    fn lt(self, rhs: Self) -> bool {
        self.0 < rhs.0
    }
    fn le(self, rhs: Self) -> bool {
        self.0 <= rhs.0
    }
    fn equals(self, rhs: Self) -> bool {
        self.0 == rhs.0
    }
    fn sqrt(self) -> Self {
        F(self.0.sqrt())
    }
    fn sin(self) -> Self {
        F(self.0.sin())
    }
    fn cos(self) -> Self {
        F(self.0.cos())
    }
    fn atan2(self, x: Self) -> Self {
        F(self.0.atan2(x.0))
    }
    fn asin(self) -> Self {
        F(self.0.asin())
    }
    fn ln(self) -> Self {
        F(self.0.ln())
    }
    fn to_degrees(self) -> Self {
        F(self.0.to_degrees())
    }
    fn round_usize(self) -> usize {
        self.0.round() as usize
    }
    fn trunc_usize(self) -> usize {
        self.0 as usize
    }
}

impl Decimal for F {
    fn to_fixed(self, digits: u8) -> Vec<u8> {
        format!("{:.*}", digits as usize, self.0).into_bytes()
    }
    fn parse(text: &[u8]) -> Option<Self> {
        std::str::from_utf8(text).ok()?.parse().ok().map(F)
    }
}

fn v(a: [f64; 3]) -> [F; 3] {
    [F(a[0]), F(a[1]), F(a[2])]
}

fn close(a: F, b: f64, tol: f64) -> bool {
    (a.0 - b).abs() <= tol
}

#[test]
fn chi2_band_of_the_documented_campaign() {
    // 40 flights: 3 degrees of freedom and 15.
    assert!(close(F(chi2_quantile_lower(F(120.0)).0 / 40.0), 2.289, 5e-4));
    assert!(close(F(chi2_quantile_upper(F(120.0)).0 / 40.0), 3.805, 5e-4));
    assert!(close(F(chi2_quantile_lower(F(600.0)).0 / 40.0), 13.350, 5e-4));
    assert!(close(F(chi2_quantile_upper(F(600.0)).0 / 40.0), 16.744, 5e-4));
    assert!(close(wilson_hilferty(F(120.0), F(0.0)), 120.0 * (1.0f64 - 2.0 / 1080.0).powi(3), 1e-9));
}

#[test]
fn a_mean_is_held_against_its_band() {
    let inside = report_nees(&vec![F(2.9), F(3.1)], 3, 40).unwrap();
    assert!(inside.ok && close(inside.mean, 3.0, 1e-12));
    assert!(!report_nees(&vec![F(4.0)], 3, 40).unwrap().ok);
    assert!(!report_nees(&vec![F(2.0)], 3, 40).unwrap().ok);
    assert!(report_nees(&Vec::<F>::new(), 3, 40).is_none());
}

#[test]
fn samples_are_shared_out_to_windows() {
    let samples = vec![
        (F(5.0), F(3.0)),
        (F(9.9), F(2.0)),
        (F(10.0), F(4.5)),
        (F(29.0), F(2.5)),
        (F(60.0), F(3.5)),
    ];
    let first = judge_window(&samples, 0);
    assert!(close(first.mean, 2.5, 1e-12) && first.ok);
    let second = judge_window(&samples, 1);
    assert!(close(second.mean, 4.5, 1e-12) && !second.ok);
    let empty = judge_window(&samples, 2);
    assert!(close(empty.mean, 0.0, 0.0) && !empty.ok);
    let last = judge_window(&samples, 4);
    assert!(close(last.mean, 3.0, 1e-12) && last.ok);
}

#[test]
fn the_verdict_needs_every_part() {
    let timed: Vec<(F, F)> = (0..25).map(|i| (F(5.0 + i as f64), F(3.0))).collect();
    let good = Batch {
        pos_nees: vec![F(3.0); 25],
        full_nees: vec![F(15.0); 25],
        pos_nees_time: timed,
        rmse: (F(0.1), F(0.2), F(0.3)),
    };
    let verdict = judge(&good, 40);
    assert!(verdict.ok);
    assert_eq!(verdict.rmse, (F(0.1), F(0.2), F(0.3)));
    let no_full = Batch { full_nees: vec![], ..good };
    assert!(!judge(&no_full, 40).ok);
}

#[test]
fn scenarios_turn_the_documented_switches() {
    let all = Scenario::all();
    assert_eq!(all.len(), 9);
    let apply = |s: Scenario| {
        let mut cfg = SimConfig::<F>::default();
        s.apply(&mut cfg);
        cfg
    };
    assert!(apply(Scenario::Nominal).gps_enabled);
    let dead = apply(Scenario::ImuOnly);
    assert!(!dead.gps_enabled && !dead.baro_enabled && !dead.mag_enabled && !dead.lidar_enabled);
    assert!(!apply(Scenario::GpsDropout).gps_enabled);
    let denied = apply(Scenario::GpsDeniedUwb);
    assert!(!denied.gps_enabled && denied.uwb_enabled);
    let indoor = apply(Scenario::Indoor);
    assert!(!indoor.gps_enabled && indoor.uwb_enabled && indoor.lidar_enabled && indoor.flow_enabled);
    let vision = apply(Scenario::VisionAided);
    assert!(vision.att_enabled && vision.dvl_enabled && vision.gps_enabled);
    let full = apply(Scenario::FullFusion);
    assert!(full.gps_vel_enabled && full.dvl_enabled && full.att_enabled && full.flow_enabled);
    let noisy = apply(Scenario::NoisyImu);
    assert_eq!((noisy.accel_noise, noisy.gyro_noise), (F(0.06 * 5.0), F(0.004 * 5.0)));
    let drifting = apply(Scenario::BiasDrift);
    assert_eq!(drifting.accel_bias_walk, F(0.002 * 10.0));
    assert_eq!(drifting.gyro_bias_walk, F(0.0002 * 10.0));
}

#[test]
fn a_vanishing_sigma_is_kept_from_vanishing() {
    let mut cfg = SimConfig::<F>::default();
    cfg.gps_noise = F(0.0);
    cfg.mag_noise = F(0.0);
    let safe = guard(&cfg);
    assert_eq!((safe.gps_noise, safe.mag_noise, safe.att_noise), (F(1e-3), F(1e-4), F(1e-4)));
    assert_eq!((safe.baro_noise, safe.gps_vel_noise), (F(0.6), F(1e-3)));
}

#[test]
fn a_scored_flight_is_short_of_error_and_reproducible() {
    let a = run_flight(full_config::<F>(), 1, F(8.0));
    let b = run_flight(full_config::<F>(), 1, F(8.0));
    // Samples from tick 1000 on, every twentieth of 1600.
    assert_eq!(a.pos_nees.len(), 30);
    assert_eq!(a.full_nees.len(), 30);
    assert_eq!(a.pos_nees_time[0].0, F(5.0));
    assert_eq!(a.pos_nees, b.pos_nees);
    assert_eq!(a.rmse_pos, b.rmse_pos);
    assert!(a.rmse_pos.0 < 1.0 && a.rmse_vel.0 < 1.0 && a.rmse_att_deg.0 < 5.0);
    assert!(a.pos_nees.iter().all(|x| x.0 >= 0.0));
    for (i, x) in a.pos_nees.iter().enumerate() {
        assert_eq!(*x, a.pos_nees_time[i].1);
    }
}

#[test]
fn dropping_gps_inflates_the_position_error() {
    let nominal = run_flight(SimConfig::<F>::default(), 1000, F(12.0));
    let mut cfg = SimConfig::<F>::default();
    cfg.gps_enabled = false;
    let denied = run_flight(cfg, 1000, F(12.0));
    assert!(denied.rmse_pos.0 > nominal.rmse_pos.0);
    assert!(denied.rmse_att_deg.0 < 5.0);
}

#[test]
fn a_flight_without_aiding_is_dead_reckoning() {
    let mut cfg = SimConfig::<F>::default();
    Scenario::ImuOnly.apply(&mut cfg);
    let mut flight = Flight::new(cfg, 4);
    let mut alone = Flight::new(cfg, 4).filter;
    for _ in 0..200 {
        let tick = flight.tick();
        alone.predict(tick.accel, tick.gyro, tick.dt);
        assert_eq!(flight.filter.nom.p, alone.nom.p);
        assert_eq!(flight.filter.p.m, alone.p.m);
    }
}

#[test]
fn a_batch_pools_its_flights() {
    let batch = run_batch(full_config::<F>(), 10, 5, 2, F(6.0));
    let a = run_flight(full_config::<F>(), 10, F(6.0));
    let b = run_flight(full_config::<F>(), 15, F(6.0));
    let both: Vec<F> = a.pos_nees.iter().chain(b.pos_nees.iter()).copied().collect();
    assert_eq!(batch.pos_nees, both);
    assert_eq!(batch.full_nees.len(), a.full_nees.len() + b.full_nees.len());
    assert!(close(batch.rmse.0, (a.rmse_pos.0 + b.rmse_pos.0) / 2.0, 1e-12));
}

#[test]
fn series_have_a_sample_every_twenty_ticks() {
    let cfg = full_config::<F>();
    let envelope = envelope_series(cfg, 7, F(1.05));
    assert_eq!(envelope.len(), 11);
    assert_eq!(envelope[10].t, F(1.0));
    assert!(envelope.iter().all(|s| s.s3x.0 > 0.0 && s.s3z.0 > 0.0));
    let drift = drift_series(cfg, 3, F(1.0));
    assert_eq!(drift.len(), 10);
    assert!(drift.iter().all(|s| s.err.0 >= 0.0));
    let nees = nees_series(cfg, 0, F(5.5));
    assert_eq!(nees.len(), 5);
    assert_eq!(nees[0].t, F(5.0));
    assert!(nees_series(cfg, 0, F(4.0)).is_empty());
}

#[test]
fn the_mean_series_averages_over_flights() {
    let cfg = full_config::<F>();
    let a = nees_series(cfg, 100, F(5.2));
    let b = nees_series(cfg, 101, F(5.2));
    let mean = mean_nees_series(cfg, 100, 1, 2, F(5.2));
    assert_eq!(mean.len(), 2);
    for i in 0..2 {
        assert_eq!(mean[i].t, a[i].t);
        assert!(close(mean[i].pos, (a[i].pos.0 + b[i].pos.0) / 2.0, 1e-12));
        assert!(close(mean[i].full, (a[i].full.0 + b[i].full.0) / 2.0, 1e-12));
    }
    let one = NeesSample { t: F(0.0), pos: F(1.0), full: F(2.0) };
    let mut acc = Vec::new();
    accumulate(&mut acc, &vec![one, one]);
    accumulate(&mut acc, &vec![one]);
    assert_eq!((acc[0].pos, acc[0].count), (F(2.0), F(2.0)));
    assert_eq!((acc[1].pos, acc[1].count), (F(1.0), F(1.0)));
}

fn text(bytes: &[u8]) -> &str {
    std::str::from_utf8(bytes).unwrap()
}

#[test]
fn a_recording_has_a_header_and_forty_one_columns() {
    let (bytes, rows) = record(F(0.1));
    assert_eq!(rows, 20);
    let lines: Vec<&str> = text(&bytes).lines().collect();
    assert_eq!(lines.len(), 21);
    assert_eq!(lines[0], CSV_HEADER);
    assert_eq!(CSV_HEADER.split(',').count(), COLUMNS);
    assert!(lines.iter().all(|l| l.split(',').count() == COLUMNS));
    let first: Vec<&str> = lines[1].split(',').collect();
    assert_eq!(first[0], "0.00000");
    assert_eq!(first[31], "40.00000");
    // The unmodelled sensors never fire; GPS fires on the first tick only.
    assert!(first[21..31].iter().all(|c| c.is_empty()));
    assert!(!first[7].is_empty());
    let second: Vec<&str> = lines[2].split(',').collect();
    assert_eq!(second[0], "0.00500");
    assert!(second[7].is_empty());
}

#[test]
fn recorded_fields_come_back() {
    let (bytes, _) = record(F(0.5));
    let lines = split_lines(&bytes);
    let mut sim = Simulator::new(full_config::<F>(), RECORD_SEED);
    for line in &lines[1..] {
        let tick = sim.step();
        let fields = split(line, COMMA);
        assert_eq!(fields, fields_of(&tick));
        let back = read_tick::<F>(&fields, tick.dt);
        let near = |a: F, b: F| (a.0 - b.0).abs() < 1e-5;
        assert!(near(back.t, tick.t) && near(back.accel[2], tick.accel[2]));
        assert!(near(back.truth.q.w, tick.truth.q.w));
        assert_eq!(back.gps.is_some(), tick.gps.is_some());
        assert_eq!(back.baro.is_some(), tick.baro.is_some());
        assert_eq!(back.mag.is_some(), tick.mag.is_some());
        assert_eq!(back.lidar.is_some(), tick.lidar.is_some());
        assert_eq!(back.uwb.is_some(), tick.uwb.is_some());
        assert_eq!(back.flow.is_some(), tick.flow.is_some());
        if let (Some(a), Some(b)) = (back.uwb, tick.uwb) {
            assert!((0..4).all(|i| near(a[i], b[i])));
        }
    }
}

#[test]
fn all_kinds_of_readings_are_written() {
    let mut tick = Simulator::new(full_config::<F>(), 2).step();
    tick.gps_vel = Some(v([1.0, 2.0, 3.0]));
    tick.dvl = Some(v([4.0, 5.0, 6.0]));
    tick.att = Some(Quat::new(F(1.0), F(0.0), F(-0.5), F(0.25)));
    let fields = fields_of(&tick);
    let shown: Vec<&str> = fields[21..31].iter().map(|f| text(f)).collect();
    assert_eq!(
        shown,
        vec![
            "1.00000", "2.00000", "3.00000", "4.00000", "5.00000", "6.00000", "1.00000", "0.00000",
            "-0.50000", "0.25000"
        ]
    );
    let back = read_tick::<F>(&fields, F(0.005));
    assert_eq!(back.gps_vel, tick.gps_vel);
    assert_eq!(back.dvl, tick.dvl);
    assert_eq!(back.att, tick.att);
}

#[test]
fn text_is_cut_like_lines() {
    let pieces = |s: &str| -> Vec<String> {
        split_lines(s.as_bytes()).into_iter().map(|l| String::from_utf8(l).unwrap()).collect()
    };
    assert_eq!(pieces(""), Vec::<String>::new());
    assert_eq!(pieces("a"), vec!["a"]);
    assert_eq!(pieces("a\n"), vec!["a"]);
    assert_eq!(pieces("a\r\n\r\nb"), vec!["a", "", "b"]);
    assert_eq!(pieces("a\n\nb\r"), vec!["a", "", "b\r"]);
    assert_eq!(split(b"x,,y,", COMMA), vec![b"x".to_vec(), vec![], b"y".to_vec(), vec![]]);
    let mut out = Vec::new();
    push_row(&mut out, &vec![b"x".to_vec(), vec![], b"y".to_vec()]);
    assert_eq!(text(&out), "x,,y\n");
}

#[test]
fn a_replay_scores_a_recording() {
    let (bytes, rows) = record(F(6.0));
    let report = replay::<F>(&bytes).unwrap();
    assert_eq!(report.rows, rows);
    assert!(report.rmse.0 .0 < 1.0);
    assert!(report.mean_nees.0 > 0.0);
    assert_eq!(report.consistent, (1.5..4.5).contains(&report.mean_nees.0));
}

#[test]
fn a_recording_of_other_sensors_is_replayed_with_some_noise() {
    // Doppler velocity and attitude columns, filled in from the truth.
    let (bytes, _) = record(F(7.0));
    let mut out = String::new();
    for (k, line) in text(&bytes).lines().enumerate() {
        let mut c: Vec<String> = line.split(',').map(String::from).collect();
        if k > 0 {
            for i in 0..3 {
                c[21 + i] = c[34 + i].clone();
            }
            for i in 0..4 {
                c[27 + i] = c[37 + i].clone();
            }
        }
        out.push_str(&c.join(","));
        out.push('\n');
    }
    let report = replay::<F>(out.as_bytes()).unwrap();
    let plain = replay::<F>(&bytes).unwrap();
    assert_eq!(report.rows, plain.rows);
    assert!(report.mean_nees.0.is_finite() && report.mean_nees.0 > 0.0);
    assert!(report.rmse.1 .0 < plain.rmse.1 .0 && report.rmse.2 .0 < plain.rmse.2 .0);
}

#[test]
fn a_replay_without_usable_rows_has_no_score() {
    assert!(replay::<F>(b"").is_none());
    assert!(replay::<F>(b"header\n1,2,3\n").is_none());
    // Rows there are, but none from five seconds on.
    let (bytes, _) = record(F(1.0));
    assert!(replay::<F>(&bytes).is_none());
}

#[test]
fn an_unreadable_field_counts_as_zero_and_a_gap_as_no_reading() {
    let mut fields: Vec<Vec<u8>> = vec![Vec::new(); COLUMNS];
    fields[1] = b"oops".to_vec();
    fields[2] = b"2.5".to_vec();
    fields[10] = b"not a number".to_vec();
    fields[14] = b"12.5".to_vec();
    let tick = read_tick::<F>(&fields, F(0.01));
    assert_eq!(tick.accel, v([0.0, 2.5, 0.0]));
    assert_eq!(tick.baro, None);
    assert_eq!(tick.lidar, Some(F(12.5)));
    assert_eq!(tick.gps, None);
    assert_eq!(tick.uwb, None);
    assert_eq!(tick.dt, F(0.01));
}

#[test]
fn plots_are_written_with_their_digits() {
    let nees = nees_csv(&vec![NeesSample { t: F(5.0), pos: F(2.90123), full: F(15.5) }]);
    assert_eq!(text(&nees), "t,pos,full\n5.00,2.9012,15.5000\n");
    let envelope = envelope_csv(&vec![EnvelopeSample {
        t: F(0.1),
        ex: F(-0.25),
        s3x: F(1.0),
        ez: F(0.5),
        s3z: F(2.0),
    }]);
    assert_eq!(text(&envelope), "t,ex,s3x,ez,s3z\n0.100,-0.2500,1.0000,0.5000,2.0000\n");
    let a = DriftSample { t: F(0.1), err: F(0.125) };
    let b = DriftSample { t: F(0.1), err: F(3.0) };
    let drift = drift_csv(&vec![a, a], &vec![b]);
    assert_eq!(text(&drift), "t,aided,imu_only\n0.100,0.12500,3.00000\n");
}

#[test]
fn a_campaign_finds_the_filter_consistent() {
    let runs = 16;
    let batch = run_batch(full_config::<F>(), 0, SEED_STRIDE, runs, F(20.0));
    let verdict = judge(&batch, runs);
    let (position, full) = (verdict.position.unwrap(), verdict.full.unwrap());
    assert!(position.ok, "{position:?}");
    assert!(full.ok, "{full:?}");
    assert!(verdict.windows[..3].iter().all(|w| w.ok), "{:?}", verdict.windows);
    // The flights end before the last windows, which are empty, so the verdict as a whole is no.
    assert!(!verdict.ok);
    assert!(verdict.rmse.0 .0 < 0.5 && verdict.rmse.2 .0 < 1.0);
}

#[test]
fn the_campaign_finds_the_filter_consistent_throughout() {
    let verdict = consistency_check::<F>();
    assert!(verdict.ok);
    let (position, full) = (verdict.position.unwrap(), verdict.full.unwrap());
    assert!(position.ok && full.ok && verdict.windows.iter().all(|w| w.ok));
    assert!(close(position.lo, 2.289, 5e-4) && close(position.hi, 3.805, 5e-4));
    assert!(close(full.lo, 13.350, 5e-4) && close(full.hi, 16.744, 5e-4));
    // The figures of this campaign.
    assert!(close(verdict.rmse.0, 0.082, 5e-4));
    assert!(close(verdict.rmse.1, 0.044, 5e-4));
    assert!(close(verdict.rmse.2, 0.234, 5e-4));
    assert!(close(position.mean, 2.902, 5e-4));
    assert!(close(full.mean, 15.256, 5e-4));
}

#[test]
fn the_drift_plot_compares_with_the_imu_alone() {
    let cfg = inertial_config::<F>();
    assert!(!cfg.gps_enabled && !cfg.baro_enabled && !cfg.mag_enabled && !cfg.lidar_enabled);
    assert!(!cfg.uwb_enabled && !cfg.flow_enabled);
    assert!(!cfg.gps_vel_enabled && !cfg.dvl_enabled && !cfg.att_enabled);
    let mut flight = Flight::new(cfg, 3);
    let mut alone = Flight::new(cfg, 3).filter;
    for _ in 0..400 {
        let tick = flight.tick();
        alone.predict(tick.accel, tick.gyro, tick.dt);
    }
    assert_eq!(flight.filter.nom.p, alone.nom.p);
    assert_eq!(flight.filter.p.m, alone.p.m);
    assert!(flight.filter.last_update.is_none());
}

#[test]
fn the_filter_allows_for_more_noise_than_there_is() {
    let cfg = SimConfig::<F>::default();
    let n = filter_noise(&cfg);
    assert_eq!(n.gravity, gravity());
    assert!(close(n.accel, 0.06 * 1.05, 1e-15) && close(n.gyro, 0.004 * 1.05, 1e-15));
    assert!(close(n.accel_bias, 0.002 * 1.05, 1e-15));
    assert!(close(n.gyro_bias, 0.0002 * 1.05, 1e-15));
    assert!(n.accel != cfg.accel_noise && n.gyro != cfg.gyro_noise);
    assert!(n.accel_bias != cfg.accel_bias_walk && n.gyro_bias != cfg.gyro_bias_walk);
}

#[test]
fn a_flight_starts_from_a_drawn_error() {
    let mut sim = Simulator::<F>::new(SimConfig::default(), 9);
    let ideal = sim.truth_nominal();
    let still = InitialSigma {
        position: F(0.0),
        velocity: F(0.0),
        orientation: F(0.0),
        accel_bias: F(0.0),
        gyro_bias: F(0.0),
    };
    // Without uncertainty the draw is the true state, the biases of the simulator with it.
    let exact = Simulator::<F>::new(SimConfig::default(), 9).sample_initial_nominal(still);
    assert_eq!((exact.p, exact.v), (ideal.p, ideal.v));
    assert_eq!((exact.accel_bias, exact.gyro_bias), (sim.accel_bias, sim.gyro_bias));
    // The first draw of the stream moves the first coordinate.
    let mut rng = Rng::<F>::new(9);
    let first = rng.gaussian();
    let drawn = sim.sample_initial_nominal(InitialSigma::default());
    assert_eq!(drawn.p[0], F(ideal.p[0].0 + first.0 * 3.0));
    assert!(drawn.p != ideal.p && drawn.v != ideal.v && drawn.q != ideal.q);
    assert_eq!(Flight::<F>::new(SimConfig::default(), 9).filter.nom.p, drawn.p);
}
