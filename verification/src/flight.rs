//! Flights: the simulator and the filter run together, tick by tick, and the filter is scored
//! against the truth.

use vstd::prelude::*;

use crate::filter::{
    attitude_corrected, baro_corrected, body_velocity_corrected, flow_corrected, gps_corrected,
    gps_velocity_corrected, initial_covariance, lidar_corrected, mag_corrected, predicted,
    range_corrected, standard_sigma, symmetric, Correction, Eskf, FilterState, InitialSigma, Noise,
    Nominal, N,
};
use crate::linalg::{column, table, v3, V3};
use crate::metrics::{error_column, nees, position_nees, weighed};
use crate::quat::{angular_error, boxminus};
use crate::scalar::{
    degrees, functional, group_real_ops, larger, lit, prod, quot, root, sum, truncated, whole, Real,
};
use crate::sim::{
    anchors, beacons, gravity, launched, mag_reference, magnetic_north, sampled_start,
    simulated_from, standard_config, standard_gravity, stepped, tick_respects_switches, SimConfig,
    Simulator, Tick,
};
use crate::trajectory::TrueState;

verus! {

broadcast use group_real_ops;

/// Only every so many ticks is a sample taken, to decorrelate the stream a little.
pub const SAMPLE_EVERY: usize = 20;

/// The IMU rate of a scored flight, in hertz.
pub open spec fn flight_rate<T: Real>() -> T {
    lit::<T>(200, 1)
}

fn imu_rate<T: Real>() -> (r: T)
    ensures
        functional::<T>() ==> r == flight_rate::<T>(),
{
    T::ratio(200, 1)
}

/// The ticks in `seconds` of flight.
pub open spec fn ticks_in<T: Real>(seconds: T) -> usize {
    truncated(prod(seconds, flight_rate()))
}

/// The ticks in `seconds` of flight.
pub fn step_count<T: Real>(seconds: T) -> (n: usize)
    ensures
        functional::<T>() ==> n == ticks_in(seconds),
{
    seconds.times(imu_rate()).trunc_usize()
}

/// The ticks of convergence, five seconds, that a score leaves out.
pub open spec fn settling<T: Real>() -> usize {
    ticks_in(lit::<T>(5, 1))
}

/// The time of tick `k`.
pub open spec fn time_of<T: Real>(k: nat) -> T {
    quot(whole::<T>(k as u64), flight_rate())
}

/// The time of tick `k`.
pub fn tick_time<T: Real>(k: usize) -> (t: T)
    ensures
        functional::<T>() ==> t == time_of::<T>(k as nat),
{
    T::from_u64(k as u64).over(imu_rate())
}

/// The default settings with every sensor on.
pub open spec fn every_sensor<T: Real>() -> SimConfig<T> {
    SimConfig {
        lidar_enabled: true,
        uwb_enabled: true,
        flow_enabled: true,
        gps_vel_enabled: true,
        dvl_enabled: true,
        att_enabled: true,
        ..standard_config()
    }
}

/// Every sensor enabled: the full fusion.
pub fn full_config<T: Real>() -> (r: SimConfig<T>)
    ensures
        functional::<T>() ==> r == every_sensor::<T>(),
        r.gps_enabled && r.baro_enabled && r.mag_enabled,
        r.lidar_enabled && r.uwb_enabled && r.flow_enabled,
        r.gps_vel_enabled && r.dvl_enabled && r.att_enabled,
{
    let mut cfg = SimConfig::<T>::default();
    cfg.lidar_enabled = true;
    cfg.uwb_enabled = true;
    cfg.flow_enabled = true;
    cfg.gps_vel_enabled = true;
    cfg.dvl_enabled = true;
    cfg.att_enabled = true;
    cfg
}

/// The process noise of a filter that is told the IMU terms of `cfg`.
pub open spec fn told_noise<T: Real>(cfg: SimConfig<T>) -> Noise<T> {
    Noise {
        gravity: standard_gravity(),
        accel: cfg.accel_noise,
        gyro: cfg.gyro_noise,
        accel_bias: cfg.accel_bias_walk,
        gyro_bias: cfg.gyro_bias_walk,
    }
}

/// The process noise of a filter that is told the IMU terms of `cfg` as they are.
pub fn imu_noise<T: Real>(cfg: &SimConfig<T>) -> (r: Noise<T>)
    ensures
        r.accel == cfg.accel_noise,
        r.gyro == cfg.gyro_noise,
        r.accel_bias == cfg.accel_bias_walk,
        r.gyro_bias == cfg.gyro_bias_walk,
        functional::<T>() ==> r == told_noise(*cfg),
{
    Noise {
        gravity: gravity(),
        accel: cfg.accel_noise,
        gyro: cfg.gyro_noise,
        accel_bias: cfg.accel_bias_walk,
        gyro_bias: cfg.gyro_bias_walk,
    }
}

/// What a filter makes of a noise term that it does not know exactly: a twentieth more.
pub open spec fn allowed<T: Real>(sigma: T) -> T {
    prod(sigma, lit::<T>(105, 100))
}

/// The process noise that a filter assumes for a flight with settings `cfg`: each IMU term with an
/// allowance, since a filter never knows the true noise.
pub open spec fn assumed_noise<T: Real>(cfg: SimConfig<T>) -> Noise<T> {
    Noise {
        gravity: standard_gravity(),
        accel: allowed(cfg.accel_noise),
        gyro: allowed(cfg.gyro_noise),
        accel_bias: allowed(cfg.accel_bias_walk),
        gyro_bias: allowed(cfg.gyro_bias_walk),
    }
}

/// The filter's assumed process noise, derived from the simulator's but deliberately not identical
/// to it: a filter never knows the true noise, and must be consistent all the same.
pub fn filter_noise<T: Real>(cfg: &SimConfig<T>) -> (r: Noise<T>)
    ensures
        functional::<T>() ==> r == assumed_noise(*cfg),
{
    let k = T::ratio(105, 100);
    Noise {
        gravity: gravity(),
        accel: cfg.accel_noise.times(k),
        gyro: cfg.gyro_noise.times(k),
        accel_bias: cfg.accel_bias_walk.times(k),
        gyro_bias: cfg.gyro_bias_walk.times(k),
    }
}

/// The settings with every sigma kept from vanishing: at least a thousandth, or a tenth of that
/// where it is a direction or an angle.
pub open spec fn guarded<T: Real>(cfg: SimConfig<T>) -> SimConfig<T> {
    let milli = lit::<T>(1, 1000);
    let tenth_milli = lit::<T>(1, 10_000);
    SimConfig {
        gps_noise: larger(cfg.gps_noise, milli),
        baro_noise: larger(cfg.baro_noise, milli),
        mag_noise: larger(cfg.mag_noise, tenth_milli),
        lidar_noise: larger(cfg.lidar_noise, milli),
        uwb_noise: larger(cfg.uwb_noise, milli),
        flow_noise: larger(cfg.flow_noise, milli),
        gps_vel_noise: larger(cfg.gps_vel_noise, milli),
        dvl_noise: larger(cfg.dvl_noise, milli),
        att_noise: larger(cfg.att_noise, tenth_milli),
        ..cfg
    }
}

/// The settings with every sigma kept from vanishing.
pub fn guard<T: Real>(cfg: &SimConfig<T>) -> (r: SimConfig<T>)
    ensures
        functional::<T>() ==> r == guarded(*cfg),
{
    let milli = T::ratio(1, 1000);
    let tenth_milli = T::ratio(1, 10_000);
    let mut r = *cfg;
    r.gps_noise = cfg.gps_noise.max(milli);
    r.baro_noise = cfg.baro_noise.max(milli);
    r.mag_noise = cfg.mag_noise.max(tenth_milli);
    r.lidar_noise = cfg.lidar_noise.max(milli);
    r.uwb_noise = cfg.uwb_noise.max(milli);
    r.flow_noise = cfg.flow_noise.max(milli);
    r.gps_vel_noise = cfg.gps_vel_noise.max(milli);
    r.dvl_noise = cfg.dvl_noise.max(milli);
    r.att_noise = cfg.att_noise.max(tenth_milli);
    r
}

/// The four ranges of a sweep taken in, beacon by beacon.
pub open spec fn ranged<T: Real>(s: FilterState<T>, ranges: [T; 4], sigma: T, k: nat) -> FilterState<
    T,
>
    decreases k,
{
    if k == 0 {
        s
    } else {
        let i = k - 1;
        range_corrected(ranged(s, ranges, sigma, i as nat), anchors::<T>()[i], ranges[i], sigma)
    }
}

/// The state after the GPS position of a tick, if it fired.
pub open spec fn after_gps<T: Real>(s: FilterState<T>, tick: Tick<T>, cfg: SimConfig<T>) -> FilterState<
    T,
> {
    match tick.gps {
        Some(z) => gps_corrected(s, z, cfg.gps_noise),
        None => s,
    }
}

/// The state after the barometer of a tick, if it fired.
pub open spec fn after_baro<T: Real>(s: FilterState<T>, tick: Tick<T>, cfg: SimConfig<T>) -> FilterState<
    T,
> {
    match tick.baro {
        Some(z) => baro_corrected(s, z, cfg.baro_noise),
        None => s,
    }
}

/// The state after the magnetometer of a tick, if it fired.
pub open spec fn after_mag<T: Real>(s: FilterState<T>, tick: Tick<T>, cfg: SimConfig<T>) -> FilterState<
    T,
> {
    match tick.mag {
        Some(z) => mag_corrected(s, z, magnetic_north(), cfg.mag_noise),
        None => s,
    }
}

/// The state after the laser altimeter of a tick, if it fired.
pub open spec fn after_lidar<T: Real>(s: FilterState<T>, tick: Tick<T>, cfg: SimConfig<T>) -> FilterState<
    T,
> {
    match tick.lidar {
        Some(z) => lidar_corrected(s, z, cfg.lidar_noise),
        None => s,
    }
}

/// The state after the radio ranging of a tick, if it fired.
pub open spec fn after_uwb<T: Real>(s: FilterState<T>, tick: Tick<T>, cfg: SimConfig<T>) -> FilterState<
    T,
> {
    match tick.uwb {
        Some(z) => ranged(s, z, cfg.uwb_noise, 4),
        None => s,
    }
}

/// The state after the optical flow of a tick, if it fired.
pub open spec fn after_flow<T: Real>(s: FilterState<T>, tick: Tick<T>, cfg: SimConfig<T>) -> FilterState<
    T,
> {
    match tick.flow {
        Some(z) => flow_corrected(s, z, cfg.flow_noise),
        None => s,
    }
}

/// The state after the GPS velocity of a tick, if it fired.
pub open spec fn after_gps_vel<T: Real>(s: FilterState<T>, tick: Tick<T>, cfg: SimConfig<T>) -> FilterState<
    T,
> {
    match tick.gps_vel {
        Some(z) => gps_velocity_corrected(s, z, cfg.gps_vel_noise),
        None => s,
    }
}

/// The state after the Doppler velocity of a tick, if it fired.
pub open spec fn after_dvl<T: Real>(s: FilterState<T>, tick: Tick<T>, cfg: SimConfig<T>) -> FilterState<
    T,
> {
    match tick.dvl {
        Some(z) => body_velocity_corrected(s, z, cfg.dvl_noise),
        None => s,
    }
}

/// The state after the attitude fix of a tick, if it fired.
pub open spec fn after_att<T: Real>(s: FilterState<T>, tick: Tick<T>, cfg: SimConfig<T>) -> FilterState<
    T,
> {
    match tick.att {
        Some(z) => attitude_corrected(s, z, cfg.att_noise),
        None => s,
    }
}

/// The filter after a tick: propagated on the IMU sample, then corrected by each sensor that fired,
/// in a fixed order, with the sigmas of `cfg`.
#[verifier::opaque]
pub open spec fn fused<T: Real>(s: FilterState<T>, tick: Tick<T>, cfg: SimConfig<T>) -> FilterState<
    T,
> {
    let s0 = predicted(s, tick.accel, tick.gyro, tick.dt);
    let s1 = after_gps(s0, tick, cfg);
    let s2 = after_baro(s1, tick, cfg);
    let s3 = after_mag(s2, tick, cfg);
    let s4 = after_lidar(s3, tick, cfg);
    let s5 = after_uwb(s4, tick, cfg);
    let s6 = after_flow(s5, tick, cfg);
    let s7 = after_gps_vel(s6, tick, cfg);
    let s8 = after_dvl(s7, tick, cfg);
    after_att(s8, tick, cfg)
}

/// What the measurements of a tick did, sensor by sensor; nothing for one that did not fire.
#[derive(Clone, Copy, Debug)]
pub struct Log<T> {
    pub gps: Option<Correction<T>>,
    pub baro: Option<Correction<T>>,
    pub mag: Option<Correction<T>>,
    pub lidar: Option<Correction<T>>,
    pub uwb: Option<Correction<T>>,
    pub flow: Option<Correction<T>>,
    pub gps_vel: Option<Correction<T>>,
    pub dvl: Option<Correction<T>>,
    pub att: Option<Correction<T>>,
}

/// The record in `after`, if the sensor fired.
pub open spec fn record_left<T, Z>(fired: Option<Z>, after: FilterState<T>) -> Option<Correction<T>> {
    match fired {
        Some(_) => after.last_update,
        None => None,
    }
}

/// The log of a tick.
#[verifier::opaque]
pub open spec fn logged<T: Real>(s: FilterState<T>, tick: Tick<T>, cfg: SimConfig<T>) -> Log<T> {
    let s0 = predicted(s, tick.accel, tick.gyro, tick.dt);
    let s1 = after_gps(s0, tick, cfg);
    let s2 = after_baro(s1, tick, cfg);
    let s3 = after_mag(s2, tick, cfg);
    let s4 = after_lidar(s3, tick, cfg);
    let s5 = after_uwb(s4, tick, cfg);
    let s6 = after_flow(s5, tick, cfg);
    let s7 = after_gps_vel(s6, tick, cfg);
    let s8 = after_dvl(s7, tick, cfg);
    let s9 = after_att(s8, tick, cfg);
    Log {
        gps: record_left(tick.gps, s1),
        baro: record_left(tick.baro, s2),
        mag: record_left(tick.mag, s3),
        lidar: record_left(tick.lidar, s4),
        uwb: record_left(tick.uwb, s5),
        flow: record_left(tick.flow, s6),
        gps_vel: record_left(tick.gps_vel, s7),
        dvl: record_left(tick.dvl, s8),
        att: record_left(tick.att, s9),
    }
}

/// The filter after a tick of a flight with settings `cfg`.
pub open spec fn driven<T: Real>(s: FilterState<T>, tick: Tick<T>, cfg: SimConfig<T>) -> FilterState<
    T,
> {
    fused(s, tick, guarded(cfg))
}

/// Takes in a sweep of ranges, one per beacon.
pub fn take_ranges<T: Real>(f: &mut Eskf<T>, ranges: [T; 4], sigma: T)
    requires
        symmetric(old(f)@.p, N as nat),
    ensures
        final(f).noise == old(f).noise,
        symmetric(final(f)@.p, N as nat),
        functional::<T>() ==> final(f)@ == ranged(old(f)@, ranges, sigma, 4),
{
    let b = beacons::<T>();
    for i in 0..4usize
        invariant
            functional::<T>() ==> b == anchors::<T>(),
            f.noise == old(f).noise,
            symmetric(f@.p, N as nat),
            functional::<T>() ==> f@ == ranged(old(f)@, ranges, sigma, i as nat),
    {
        f.update_range(b[i], ranges[i], sigma);
    }
}

/// Propagates on the IMU and applies whichever aiding measurements fired on this tick, with the
/// sigmas of `cfg`. Says what each of them did.
pub fn fuse<T: Real>(f: &mut Eskf<T>, tick: &Tick<T>, cfg: &SimConfig<T>) -> (log: Log<T>)
    ensures
        final(f).noise == old(f).noise,
        symmetric(final(f)@.p, N as nat),
        functional::<T>() ==> final(f)@ == fused(old(f)@, *tick, *cfg),
        functional::<T>() ==> log == logged(old(f)@, *tick, *cfg),
{
    proof {
        reveal(fused);
        reveal(logged);
    }
    let mut log = Log {
        gps: None,
        baro: None,
        mag: None,
        lidar: None,
        uwb: None,
        flow: None,
        gps_vel: None,
        dvl: None,
        att: None,
    };
    f.predict(tick.accel, tick.gyro, tick.dt);
    if let Some(z) = tick.gps {
        f.update_gps(z, cfg.gps_noise);
        log.gps = f.last_update;
    }
    if let Some(z) = tick.baro {
        f.update_baro(z, cfg.baro_noise);
        log.baro = f.last_update;
    }
    if let Some(z) = tick.mag {
        f.update_mag(z, mag_reference(), cfg.mag_noise);
        log.mag = f.last_update;
    }
    if let Some(z) = tick.lidar {
        f.update_lidar_altimeter(z, cfg.lidar_noise);
        log.lidar = f.last_update;
    }
    if let Some(ranges) = tick.uwb {
        take_ranges(f, ranges, cfg.uwb_noise);
        log.uwb = f.last_update;
    }
    if let Some(z) = tick.flow {
        f.update_optical_flow(z, cfg.flow_noise);
        log.flow = f.last_update;
    }
    if let Some(z) = tick.gps_vel {
        f.update_gps_velocity(z, cfg.gps_vel_noise);
        log.gps_vel = f.last_update;
    }
    if let Some(z) = tick.dvl {
        f.update_body_velocity(z, cfg.dvl_noise);
        log.dvl = f.last_update;
    }
    if let Some(z) = tick.att {
        f.update_attitude(z, cfg.att_noise);
        log.att = f.last_update;
    }
    log
}

/// Drives the filter through one tick of a flight. The single place where it is driven, so that
/// every reported result comes from the same sequence of updates.
pub fn drive<T: Real>(f: &mut Eskf<T>, tick: &Tick<T>, cfg: &SimConfig<T>)
    ensures
        final(f).noise == old(f).noise,
        symmetric(final(f)@.p, N as nat),
        functional::<T>() ==> final(f)@ == driven(old(f)@, *tick, *cfg),
{
    let sigmas = guard(cfg);
    fuse(f, tick, &sigmas);
}

/// A simulator and the filter that follows it.
#[verifier::ext_equal]
pub struct FlightState<T> {
    pub sim: Simulator<T>,
    pub filter: FilterState<T>,
}

/// The filter at the start of a flight: at `nom`, with the default uncertainty.
pub open spec fn fresh_filter<T: Real>(nom: Nominal<T>, noise: Noise<T>) -> FilterState<T> {
    FilterState { nom, p: initial_covariance(standard_sigma()), noise, last_update: None }
}

/// A simulator and a filter at the start of a flight: the filter starts from an error drawn with the
/// default uncertainty, and assumes `noise`.
pub open spec fn boarded<T: Real>(sim: Simulator<T>, noise: Noise<T>) -> FlightState<T> {
    let (nom, sim) = sampled_start(sim, standard_sigma());
    FlightState { sim, filter: fresh_filter(nom, noise) }
}

/// The start of a flight.
pub open spec fn grounded<T: Real>(cfg: SimConfig<T>, seed: u64) -> FlightState<T> {
    boarded(launched(cfg, seed), assumed_noise(cfg))
}

/// A filter for the flight that `sim` is about to fly, with a real initial error to converge from.
pub fn seed_filter<T: Real>(sim: &mut Simulator<T>, noise: Noise<T>) -> (f: Eskf<T>)
    ensures
        final(sim).cfg == old(sim).cfg,
        final(sim).t == old(sim).t,
        symmetric(f@.p, N as nat),
        f.noise == noise,
        functional::<T>() ==> (FlightState { sim: *final(sim), filter: f@ }) == boarded(
            *old(sim),
            noise,
        ),
{
    let sigma = InitialSigma::default();
    let nom = sim.sample_initial_nominal(sigma);
    Eskf::new(nom, sigma, noise)
}

/// A simulator and its filter `k` ticks after `start`, with the sensor sigmas of `cfg`.
pub open spec fn followed<T: Real>(start: FlightState<T>, cfg: SimConfig<T>, k: nat) -> FlightState<T>
    decreases k,
{
    if k == 0 {
        start
    } else {
        let before = followed(start, cfg, (k - 1) as nat);
        let (tick, sim) = stepped(before.sim);
        FlightState { sim, filter: driven(before.filter, tick, cfg) }
    }
}

/// The flight after `k` ticks.
pub open spec fn airborne<T: Real>(cfg: SimConfig<T>, seed: u64, k: nat) -> FlightState<T> {
    followed(grounded(cfg, seed), cfg, k)
}

/// The true state at tick `k`.
pub open spec fn truth_of<T: Real>(cfg: SimConfig<T>, seed: u64, k: nat) -> TrueState<T> {
    stepped(airborne(cfg, seed, k).sim).0.truth
}

/// The filter when tick `k` has been taken in.
pub open spec fn filter_of<T: Real>(cfg: SimConfig<T>, seed: u64, k: nat) -> FilterState<T> {
    airborne(cfg, seed, k + 1).filter
}

/// The position NEES at tick `k`.
pub open spec fn position_nees_of<T: Real>(cfg: SimConfig<T>, seed: u64, k: nat) -> Option<T> {
    let f = filter_of(cfg, seed, k);
    weighed(
        column(v3::subtracted(truth_of(cfg, seed, k).p, f.nom.p)),
        table(3, 3, |i: int, j: int| f.p[i][j]),
        3,
    )
}

/// The full-state NEES at tick `k`.
pub open spec fn full_nees_of<T: Real>(cfg: SimConfig<T>, seed: u64, k: nat) -> Option<T> {
    let f = filter_of(cfg, seed, k);
    weighed(error_column(f.nom, truth_of(cfg, seed, k)), f.p, N as nat)
}

/// A simulator and a filter, ready to fly.
pub struct Flight<T> {
    pub sim: Simulator<T>,
    pub filter: Eskf<T>,
}

impl<T> View for Flight<T> {
    type V = FlightState<T>;

    open spec fn view(&self) -> FlightState<T> {
        FlightState { sim: self.sim, filter: self.filter@ }
    }
}

impl<T: Real> Flight<T> {
    /// A flight at its start.
    pub fn new(cfg: SimConfig<T>, seed: u64) -> (out: Self)
        ensures
            out.sim.cfg == cfg,
            symmetric(out@.filter.p, N as nat),
            functional::<T>() ==> out@ == grounded(cfg, seed),
    {
        let mut sim = Simulator::new(cfg, seed);
        let filter = seed_filter(&mut sim, filter_noise(&cfg));
        Flight { sim, filter }
    }

    /// One tick: the simulator emits it and the filter takes it in.
    pub fn tick(&mut self) -> (tick: Tick<T>)
        ensures
            final(self).sim.cfg == old(self).sim.cfg,
            symmetric(final(self)@.filter.p, N as nat),
            functional::<T>() ==> tick == stepped(old(self)@.sim).0,
            functional::<T>() ==> final(self)@ == (FlightState {
                sim: stepped(old(self)@.sim).1,
                filter: driven(old(self)@.filter, tick, old(self)@.sim.cfg),
            }),
    {
        let cfg = self.sim.cfg;
        let tick = self.sim.step();
        drive(&mut self.filter, &tick, &cfg);
        tick
    }
}

/// The simulator of a flight keeps its settings.
pub proof fn lemma_settings_kept<T: Real>(cfg: SimConfig<T>, seed: u64, k: nat)
    ensures
        airborne(cfg, seed, k).sim.cfg == cfg,
    decreases k,
{
    reveal(stepped);
    if k > 0 {
        lemma_settings_kept(cfg, seed, (k - 1) as nat);
    }
}

/// The filter does not disturb the flight: once its start has been drawn, the simulator runs as it
/// would alone.
pub proof fn flight_is_the_simulation<T: Real>(start: FlightState<T>, cfg: SimConfig<T>, k: nat)
    ensures
        followed(start, cfg, k).sim == simulated_from(start.sim, k),
    decreases k,
{
    if k > 0 {
        flight_is_the_simulation(start, cfg, (k - 1) as nat);
    }
}

/// On a tick on which no aiding sensor fires, the filter only propagates.
pub proof fn coasting_only_predicts<T: Real>(s: FilterState<T>, tick: Tick<T>, cfg: SimConfig<T>)
    requires
        tick.gps is None && tick.baro is None && tick.mag is None && tick.lidar is None,
        tick.uwb is None && tick.flow is None && tick.gps_vel is None,
        tick.dvl is None && tick.att is None,
    ensures
        driven(s, tick, cfg) == predicted(s, tick.accel, tick.gyro, tick.dt),
{
    reveal(fused);
}

/// With every aiding sensor switched off, a whole flight is dead reckoning.
pub proof fn imu_only_is_dead_reckoning<T: Real>(cfg: SimConfig<T>, seed: u64, k: nat)
    requires
        !cfg.gps_enabled && !cfg.baro_enabled && !cfg.mag_enabled && !cfg.lidar_enabled,
        !cfg.uwb_enabled && !cfg.flow_enabled && !cfg.gps_vel_enabled,
        !cfg.dvl_enabled && !cfg.att_enabled,
    ensures
        ({
            let tick = stepped(airborne(cfg, seed, k).sim).0;
            airborne(cfg, seed, k + 1).filter == predicted(
                airborne(cfg, seed, k).filter,
                tick.accel,
                tick.gyro,
                tick.dt,
            )
        }),
{
    let before = airborne(cfg, seed, k);
    lemma_settings_kept(cfg, seed, k);
    tick_respects_switches(before.sim);
    coasting_only_predicts(before.filter, stepped(before.sim).0, cfg);
}

/// What a scored flight yields: NEES samples taken after the filter has settled, and RMSE figures.
pub struct RunResult<T> {
    pub pos_nees: Vec<T>,
    pub full_nees: Vec<T>,
    /// Position-NEES samples with their times.
    pub pos_nees_time: Vec<(T, T)>,
    pub rmse_pos: T,
    pub rmse_vel: T,
    pub rmse_att_deg: T,
}

/// Whether a NEES sample is taken at tick `k` of a scored flight.
pub open spec fn sampled<T: Real>(k: nat) -> bool {
    k >= settling::<T>() && k % SAMPLE_EVERY as nat == 0
}

/// The timed position-NEES samples of the first `n` ticks.
pub open spec fn position_samples<T: Real>(cfg: SimConfig<T>, seed: u64, n: nat) -> Seq<(T, T)>
    decreases n,
{
    if n == 0 {
        Seq::empty()
    } else {
        let k = (n - 1) as nat;
        let before = position_samples(cfg, seed, k);
        match position_nees_of(cfg, seed, k) {
            Some(v) if sampled::<T>(k) => before.push((time_of(k), v)),
            _ => before,
        }
    }
}

/// The full-state NEES samples of the first `n` ticks.
pub open spec fn full_samples<T: Real>(cfg: SimConfig<T>, seed: u64, n: nat) -> Seq<T>
    decreases n,
{
    if n == 0 {
        Seq::empty()
    } else {
        let k = (n - 1) as nat;
        let before = full_samples(cfg, seed, k);
        match full_nees_of(cfg, seed, k) {
            Some(v) if sampled::<T>(k) => before.push(v),
            _ => before,
        }
    }
}

/// Sums of squared errors, and how many ticks went into them.
#[derive(Clone, Copy, Debug)]
pub struct Errors<T> {
    pub pos: T,
    pub vel: T,
    pub att: T,
    pub count: T,
}

/// No ticks yet.
pub open spec fn no_errors<T: Real>() -> Errors<T> {
    Errors { pos: lit::<T>(0, 1), vel: lit::<T>(0, 1), att: lit::<T>(0, 1), count: lit::<T>(0, 1) }
}

/// `v · v`.
pub open spec fn squared<T: Real>(v: V3<T>) -> T {
    v3::inner(v, v)
}

/// The sums with one more tick.
pub open spec fn with_errors<T: Real>(
    e: Errors<T>,
    f: FilterState<T>,
    truth: TrueState<T>,
) -> Errors<T> {
    Errors {
        pos: sum(e.pos, squared(v3::subtracted(f.nom.p, truth.p))),
        vel: sum(e.vel, squared(v3::subtracted(f.nom.v, truth.v))),
        att: sum(e.att, squared(angular_error(truth.q, f.nom.q))),
        count: sum(e.count, lit::<T>(1, 1)),
    }
}

/// The root mean squares: position, velocity, and attitude in degrees.
pub open spec fn rmse<T: Real>(e: Errors<T>) -> (T, T, T) {
    (
        root(quot(e.pos, e.count)),
        root(quot(e.vel, e.count)),
        degrees(root(quot(e.att, e.count))),
    )
}

impl<T: Real> Errors<T> {
    /// No ticks yet.
    pub fn none() -> (r: Self)
        ensures
            functional::<T>() ==> r == no_errors::<T>(),
    {
        let zero = T::ratio(0, 1);
        Errors { pos: zero, vel: zero, att: zero, count: zero }
    }

    /// Takes in the error of `f` against `truth`.
    pub fn take(&mut self, f: &Eskf<T>, truth: &TrueState<T>)
        ensures
            functional::<T>() ==> *final(self) == with_errors(*old(self), f@, *truth),
    {
        let dp = v3::sub(f.nom.p, truth.p);
        let dv = v3::sub(f.nom.v, truth.v);
        let dth = boxminus(truth.q, f.nom.q);
        self.pos = self.pos.plus(v3::dot(dp, dp));
        self.vel = self.vel.plus(v3::dot(dv, dv));
        self.att = self.att.plus(v3::dot(dth, dth));
        self.count = self.count.plus(T::ratio(1, 1));
    }

    /// The root mean squares: position, velocity, and attitude in degrees.
    pub fn root_mean_squares(&self) -> (r: (T, T, T))
        ensures
            functional::<T>() ==> r == rmse(*self),
    {
        (
            self.pos.over(self.count).sqrt(),
            self.vel.over(self.count).sqrt(),
            self.att.over(self.count).sqrt().to_degrees(),
        )
    }
}

/// The sums over the settled ticks among the first `n`.
pub open spec fn errors_of<T: Real>(cfg: SimConfig<T>, seed: u64, n: nat) -> Errors<T>
    decreases n,
{
    if n == 0 {
        no_errors()
    } else {
        let k = (n - 1) as nat;
        let before = errors_of(cfg, seed, k);
        if k >= settling::<T>() {
            with_errors(before, filter_of(cfg, seed, k), truth_of(cfg, seed, k))
        } else {
            before
        }
    }
}

/// The NEES values of timed samples.
pub open spec fn values<T>(samples: Seq<(T, T)>) -> Seq<T> {
    samples.map_values(|s: (T, T)| s.1)
}

/// A result is that of the flight with these settings, seed and length.
pub open spec fn is_score_of<T: Real>(
    r: RunResult<T>,
    cfg: SimConfig<T>,
    seed: u64,
    seconds: T,
) -> bool {
    let n = ticks_in(seconds) as nat;
    &&& r.pos_nees_time@ == position_samples(cfg, seed, n)
    &&& r.pos_nees@ == values(position_samples(cfg, seed, n))
    &&& r.full_nees@ == full_samples(cfg, seed, n)
    &&& (r.rmse_pos, r.rmse_vel, r.rmse_att_deg) == rmse(errors_of(cfg, seed, n))
}

/// Runs one flight, feeding every sensor, and scores it.
pub fn run_flight<T: Real>(cfg: SimConfig<T>, seed: u64, seconds: T) -> (out: RunResult<T>)
    ensures
        out.pos_nees@ == values(out.pos_nees_time@),
        functional::<T>() ==> is_score_of(out, cfg, seed, seconds),
{
    let steps: usize = step_count(seconds);
    let settle: usize = step_count(T::ratio(5, 1));
    let mut flight = Flight::new(cfg, seed);
    let mut pos_nees: Vec<T> = Vec::new();
    let mut full_nees: Vec<T> = Vec::new();
    let mut pos_nees_time: Vec<(T, T)> = Vec::new();
    let mut errors = Errors::<T>::none();
    assert(pos_nees@ =~= values(pos_nees_time@));
    for k in 0..steps
        invariant
            functional::<T>() ==> settle == settling::<T>(),
            functional::<T>() ==> flight@ == airborne(cfg, seed, k as nat),
            functional::<T>() ==> errors == errors_of(cfg, seed, k as nat),
            pos_nees@ == values(pos_nees_time@),
            functional::<T>() ==> pos_nees_time@ == position_samples(cfg, seed, k as nat),
            functional::<T>() ==> full_nees@ == full_samples(cfg, seed, k as nat),
    {
        proof {
            lemma_settings_kept(cfg, seed, k as nat);
        }
        let tick = flight.tick();
        assert(functional::<T>() ==> flight@ == airborne(cfg, seed, (k + 1) as nat));
        assert(functional::<T>() ==> flight@.filter == filter_of(cfg, seed, k as nat));
        assert(functional::<T>() ==> tick.truth == truth_of(cfg, seed, k as nat));
        if k >= settle {
            errors.take(&flight.filter, &tick.truth);
            if k % SAMPLE_EVERY == 0 {
                let position = position_nees(
                    &flight.filter.nom,
                    &tick.truth,
                    flight.filter.covariance(),
                );
                if let Some(v) = position {
                    pos_nees.push(v);
                    pos_nees_time.push((tick_time(k), v));
                    assert(pos_nees@ =~= values(pos_nees_time@));
                }
                let full = nees(&flight.filter.nom, &tick.truth, flight.filter.covariance());
                if let Some(v) = full {
                    full_nees.push(v);
                }
            }
        }
    }
    let (rmse_pos, rmse_vel, rmse_att_deg) = errors.root_mean_squares();
    RunResult { pos_nees, full_nees, pos_nees_time, rmse_pos, rmse_vel, rmse_att_deg }
}

} // verus!
