//! Campaigns of flights.
//!
//! Across many independent flights, the filter's error weighed by its own covariance, the NEES,
//! must match the state dimension: in the pooled mean, against χ² bounds, and in every window of
//! the flight.

use vstd::prelude::*;

use crate::flight::{
    errors_of, every_sensor, full_config, full_samples, position_samples, rmse, run_flight,
    ticks_in, values,
};
use crate::scalar::{
    at_most, diff, functional, group_real_ops, less, lit, prod, quot, root, sum, truncated, whole,
    Real,
};
use crate::sim::{standard_config, SimConfig};

verus! {

broadcast use group_real_ops;

/// Flights in a campaign.
pub const CAMPAIGN_RUNS: u64 = 40;

/// Seconds in each flight of a campaign and of a scenario.
pub const FLIGHT_SECONDS: i64 = 30;

/// What separates the seeds of successive flights.
pub const SEED_STRIDE: u64 = 2_654_435_761;

/// Windows of five seconds that a flight's samples are sorted into.
pub const WINDOWS: usize = 5;

/// Flights averaged for each scenario.
pub const SCENARIO_RUNS: u64 = 12;

/// The Wilson–Hilferty approximation of the χ² quantile with `k` degrees of freedom at the normal
/// quantile `z`: `k·(1 − a + z·√a)³` with `a = 2/(9k)`.
pub open spec fn chi2_quantile<T: Real>(k: T, z: T) -> T {
    let a = quot(lit::<T>(2, 1), prod(lit::<T>(9, 1), k));
    let base = sum(diff(lit::<T>(1, 1), a), prod(z, root(a)));
    prod(prod(prod(k, base), base), base)
}

/// The χ² quantile with `k` degrees of freedom at the normal quantile `z`.
pub fn wilson_hilferty<T: Real>(k: T, z: T) -> (r: T)
    ensures
        functional::<T>() ==> r == chi2_quantile(k, z),
{
    let a = T::ratio(2, 1).over(T::ratio(9, 1).times(k));
    let base = T::ratio(1, 1).minus(a).plus(z.times(a.sqrt()));
    k.times(base).times(base).times(base)
}

/// The 2.5% quantile.
pub fn chi2_quantile_lower<T: Real>(k: T) -> (r: T)
    ensures
        functional::<T>() ==> r == chi2_quantile(k, lit::<T>((-1_959_964) as i64, 1_000_000)),
{
    wilson_hilferty(k, T::ratio(-1_959_964, 1_000_000))
}

/// The 97.5% quantile.
pub fn chi2_quantile_upper<T: Real>(k: T) -> (r: T)
    ensures
        functional::<T>() ==> r == chi2_quantile(k, lit::<T>(1_959_964, 1_000_000)),
{
    wilson_hilferty(k, T::ratio(1_959_964, 1_000_000))
}

/// The sum of `s`, from the front.
pub open spec fn total<T: Real>(s: Seq<T>) -> T
    decreases s.len(),
{
    if s.len() == 0 {
        lit::<T>(0, 1)
    } else {
        sum(total(s.drop_last()), s.last())
    }
}

/// The sum of `s`, from the front.
pub fn add_up<T: Real>(s: &Vec<T>) -> (r: T)
    ensures
        functional::<T>() ==> r == total(s@),
{
    let mut acc = T::ratio(0, 1);
    for i in 0..s.len()
        invariant
            functional::<T>() ==> acc == total(s@.take(i as int)),
    {
        assert(s@.take(i as int + 1).drop_last() =~= s@.take(i as int));
        acc = acc.plus(s[i]);
    }
    assert(s@.take(s@.len() as int) =~= s@);
    acc
}

/// A pooled NEES mean against its two-sided 95% χ² bounds.
#[derive(Clone, Copy, Debug)]
pub struct NeesBand<T> {
    pub mean: T,
    pub lo: T,
    pub hi: T,
    pub ok: bool,
}

/// The band for `samples` of `dof` degrees of freedom out of `runs` flights.
///
/// The independent unit is the flight, not the sample: within one flight the values are correlated
/// in time, so the number of flights sets the band.
pub open spec fn band<T: Real>(samples: Seq<T>, dof: u64, runs: u64) -> Option<NeesBand<T>> {
    if samples.len() == 0 {
        None
    } else {
        let mean = quot(total(samples), whole::<T>(samples.len() as u64));
        let k = whole::<T>((runs * dof) as u64);
        let n = whole::<T>(runs);
        let lo = quot(chi2_quantile(k, lit::<T>((-1_959_964) as i64, 1_000_000)), n);
        let hi = quot(chi2_quantile(k, lit::<T>(1_959_964, 1_000_000)), n);
        Some(NeesBand { mean, lo, hi, ok: at_most(lo, mean) && at_most(mean, hi) })
    }
}

/// Tests the average NEES against its bounds. There is no band where there is no sample.
pub fn report_nees<T: Real>(samples: &Vec<T>, dof: u64, runs: u64) -> (out: Option<NeesBand<T>>)
    requires
        runs * dof <= u64::MAX,
    ensures
        out is None <==> samples@.len() == 0,
        functional::<T>() ==> out == band(samples@, dof, runs),
{
    if samples.len() == 0 {
        return None;
    }
    let mean = add_up(samples).over(T::from_u64(samples.len() as u64));
    let k = T::from_u64(runs * dof);
    let n = T::from_u64(runs);
    let lo = chi2_quantile_lower(k).over(n);
    let hi = chi2_quantile_upper(k).over(n);
    let ok = lo.le(mean) && mean.le(hi);
    Some(NeesBand { mean, lo, hi, ok })
}

/// The seed of flight `i` of a batch.
pub open spec fn batch_seed(base: u64, stride: u64, i: nat) -> u64 {
    (base + i * stride) as u64
}

/// The timed position samples of the first `n` flights of a batch, pooled.
pub open spec fn pooled_positions<T: Real>(
    cfg: SimConfig<T>,
    base: u64,
    stride: u64,
    seconds: T,
    n: nat,
) -> Seq<(T, T)>
    decreases n,
{
    if n == 0 {
        Seq::empty()
    } else {
        let i = (n - 1) as nat;
        pooled_positions(cfg, base, stride, seconds, i) + position_samples(
            cfg,
            batch_seed(base, stride, i),
            ticks_in(seconds) as nat,
        )
    }
}

/// The full-state samples of the first `n` flights of a batch, pooled.
pub open spec fn pooled_full<T: Real>(
    cfg: SimConfig<T>,
    base: u64,
    stride: u64,
    seconds: T,
    n: nat,
) -> Seq<T>
    decreases n,
{
    if n == 0 {
        Seq::empty()
    } else {
        let i = (n - 1) as nat;
        pooled_full(cfg, base, stride, seconds, i) + full_samples(
            cfg,
            batch_seed(base, stride, i),
            ticks_in(seconds) as nat,
        )
    }
}

/// The RMSE figures of the first `n` flights of a batch, summed.
pub open spec fn summed_rmse<T: Real>(
    cfg: SimConfig<T>,
    base: u64,
    stride: u64,
    seconds: T,
    n: nat,
) -> (T, T, T)
    decreases n,
{
    if n == 0 {
        (lit::<T>(0, 1), lit::<T>(0, 1), lit::<T>(0, 1))
    } else {
        let i = (n - 1) as nat;
        let before = summed_rmse(cfg, base, stride, seconds, i);
        let one = rmse(
            errors_of(cfg, batch_seed(base, stride, i), ticks_in(seconds) as nat),
        );
        (sum(before.0, one.0), sum(before.1, one.1), sum(before.2, one.2))
    }
}

/// What a batch of flights yields.
pub struct Batch<T> {
    pub pos_nees: Vec<T>,
    pub full_nees: Vec<T>,
    pub pos_nees_time: Vec<(T, T)>,
    /// RMSE of position, velocity and attitude, averaged over the flights.
    pub rmse: (T, T, T),
}

/// The averages of `runs` figures.
pub open spec fn averaged<T: Real>(sums: (T, T, T), runs: u64) -> (T, T, T) {
    let n = whole::<T>(runs);
    (quot(sums.0, n), quot(sums.1, n), quot(sums.2, n))
}

/// A result is that of the batch with these settings.
pub open spec fn is_batch_of<T: Real>(
    b: Batch<T>,
    cfg: SimConfig<T>,
    base: u64,
    stride: u64,
    runs: u64,
    seconds: T,
) -> bool {
    &&& b.pos_nees_time@ == pooled_positions(cfg, base, stride, seconds, runs as nat)
    &&& b.full_nees@ == pooled_full(cfg, base, stride, seconds, runs as nat)
    &&& b.rmse == averaged(summed_rmse(cfg, base, stride, seconds, runs as nat), runs)
}

fn pour<A: Copy>(out: &mut Vec<A>, more: &Vec<A>)
    ensures
        final(out)@ == old(out)@ + more@,
{
    let ghost before = out@;
    assert(more@.take(0) =~= Seq::empty());
    assert(before + more@.take(0) =~= before);
    for i in 0..more.len()
        invariant
            out@ == before + more@.take(i as int),
    {
        out.push(more[i]);
        assert(before + more@.take(i as int + 1) =~= (before + more@.take(i as int)).push(
            more@[i as int],
        ));
    }
    assert(more@.take(more@.len() as int) =~= more@);
}

/// Flies `runs` flights, one seed after another, and pools what they yield.
pub fn run_batch<T: Real>(cfg: SimConfig<T>, base: u64, stride: u64, runs: u64, seconds: T) -> (out:
    Batch<T>)
    requires
        base + runs * stride <= u64::MAX,
    ensures
        out.pos_nees@ == values(out.pos_nees_time@),
        functional::<T>() ==> is_batch_of(out, cfg, base, stride, runs, seconds),
{
    let mut pos_nees: Vec<T> = Vec::new();
    let mut full_nees: Vec<T> = Vec::new();
    let mut pos_nees_time: Vec<(T, T)> = Vec::new();
    let zero = T::ratio(0, 1);
    let mut rp = zero;
    let mut rv = zero;
    let mut ra = zero;
    let mut seed: u64 = base;
    assert(pos_nees@ =~= values(pos_nees_time@));
    for i in 0..runs
        invariant
            base + runs * stride <= u64::MAX,
            seed == base + i * stride,
            pos_nees@ == values(pos_nees_time@),
            functional::<T>() ==> pos_nees_time@ == pooled_positions(
                cfg,
                base,
                stride,
                seconds,
                i as nat,
            ),
            functional::<T>() ==> full_nees@ == pooled_full(cfg, base, stride, seconds, i as nat),
            functional::<T>() ==> (rp, rv, ra) == summed_rmse(cfg, base, stride, seconds, i as nat),
    {
        assert(seed == batch_seed(base, stride, i as nat));
        let r = run_flight(cfg, seed, seconds);
        rp = rp.plus(r.rmse_pos);
        rv = rv.plus(r.rmse_vel);
        ra = ra.plus(r.rmse_att_deg);
        let ghost timed = pos_nees_time@;
        pour(&mut pos_nees, &r.pos_nees);
        pour(&mut full_nees, &r.full_nees);
        pour(&mut pos_nees_time, &r.pos_nees_time);
        assert(pos_nees@ =~= values(pos_nees_time@));
        assert((i + 1) * stride == i * stride + stride && (i + 1) * stride <= runs * stride)
            by (nonlinear_arith)
            requires
                i < runs,
        ;
        seed = seed + stride;
    }
    let n = T::from_u64(runs);
    let rmse = (rp.over(n), rv.over(n), ra.over(n));
    Batch { pos_nees, full_nees, pos_nees_time, rmse }
}

/// The window that a sample taken at time `t` falls in: five seconds each, from five seconds on,
/// the last one open.
pub open spec fn window_of<T: Real>(t: T) -> int {
    let b = truncated(quot(diff(t, lit::<T>(5, 1)), lit::<T>(5, 1)));
    if b < WINDOWS - 1 {
        b as int
    } else {
        WINDOWS - 1
    }
}

/// The samples that fall in window `b`, in order.
pub open spec fn in_window<T: Real>(samples: Seq<(T, T)>, b: int) -> Seq<T>
    decreases samples.len(),
{
    if samples.len() == 0 {
        Seq::empty()
    } else {
        let before = in_window(samples.drop_last(), b);
        if window_of(samples.last().0) == b {
            before.push(samples.last().1)
        } else {
            before
        }
    }
}

/// How many samples fall in the first `n` windows.
pub open spec fn windowed_count<T: Real>(samples: Seq<(T, T)>, n: nat) -> nat
    decreases n,
{
    if n == 0 {
        0
    } else {
        windowed_count(samples, (n - 1) as nat) + in_window(samples, n - 1).len()
    }
}

/// One sample more counts once, in its own window.
proof fn lemma_one_more<T: Real>(samples: Seq<(T, T)>, n: nat)
    requires
        samples.len() > 0,
        n <= WINDOWS,
    ensures
        windowed_count(samples, n) == windowed_count(samples.drop_last(), n) + (if window_of(
            samples.last().0,
        ) < n {
            1nat
        } else {
            0
        }),
    decreases n,
{
    if n > 0 {
        lemma_one_more(samples, (n - 1) as nat);
    }
}

/// Every sample falls in one window, and in one only.
pub proof fn windows_share_out_the_samples<T: Real>(samples: Seq<(T, T)>)
    ensures
        windowed_count(samples, WINDOWS as nat) == samples.len(),
    decreases samples.len(),
{
    if samples.len() == 0 {
        reveal_with_fuel(windowed_count, 6);
    } else {
        windows_share_out_the_samples(samples.drop_last());
        lemma_one_more(samples, WINDOWS as nat);
    }
}

/// The mean of a window and whether it lies in the sanity band.
#[derive(Clone, Copy, Debug)]
pub struct Window<T> {
    pub mean: T,
    pub ok: bool,
}

/// The verdict on window `b`: its mean must lie in `[2, 4.2)`. An empty window has mean zero.
pub open spec fn window_verdict<T: Real>(samples: Seq<(T, T)>, b: int) -> Window<T> {
    let inside = in_window(samples, b);
    let mean = if inside.len() == 0 {
        lit::<T>(0, 1)
    } else {
        quot(total(inside), whole::<T>(inside.len() as u64))
    };
    Window { mean, ok: at_most(lit::<T>(2, 1), mean) && less(mean, lit::<T>(42, 10)) }
}

fn window_index<T: Real>(t: T) -> (b: usize)
    ensures
        b < WINDOWS,
        functional::<T>() ==> b == window_of(t),
{
    let b: usize = t.minus(T::ratio(5, 1)).over(T::ratio(5, 1)).trunc_usize();
    if b < WINDOWS - 1 {
        b
    } else {
        WINDOWS - 1
    }
}

/// The verdict on one window of the flight.
pub fn judge_window<T: Real>(samples: &Vec<(T, T)>, b: usize) -> (out: Window<T>)
    ensures
        functional::<T>() ==> out == window_verdict(samples@, b as int),
{
    let mut inside: Vec<T> = Vec::new();
    for i in 0..samples.len()
        invariant
            functional::<T>() ==> inside@ == in_window(samples@.take(i as int), b as int),
    {
        assert(samples@.take(i as int + 1).drop_last() =~= samples@.take(i as int));
        if window_index(samples[i].0) == b {
            inside.push(samples[i].1);
        }
    }
    assert(samples@.take(samples@.len() as int) =~= samples@);
    let mean = if inside.len() == 0 {
        T::ratio(0, 1)
    } else {
        add_up(&inside).over(T::from_u64(inside.len() as u64))
    };
    let ok = T::ratio(2, 1).le(mean) && mean.lt(T::ratio(42, 10));
    Window { mean, ok }
}

/// The outcome of a campaign.
pub struct Consistency<T> {
    pub rmse: (T, T, T),
    pub position: Option<NeesBand<T>>,
    pub full: Option<NeesBand<T>>,
    pub windows: [Window<T>; WINDOWS],
    pub ok: bool,
}

/// A band that is there and is met.
pub open spec fn passes<T>(b: Option<NeesBand<T>>) -> bool {
    b is Some && b->0.ok
}

/// The filter is consistent: both bands are met, and every window is.
pub open spec fn consistent<T>(
    position: Option<NeesBand<T>>,
    full: Option<NeesBand<T>>,
    windows: [Window<T>; WINDOWS],
) -> bool {
    &&& passes(position)
    &&& passes(full)
    &&& forall|b: int| 0 <= b < WINDOWS ==> (#[trigger] windows[b]).ok
}

/// Judges a batch: the pooled means against their bands, and each window of the flight.
pub fn judge<T: Real>(batch: &Batch<T>, runs: u64) -> (out: Consistency<T>)
    requires
        runs * 15 <= u64::MAX,
    ensures
        out.rmse == batch.rmse,
        out.ok == consistent(out.position, out.full, out.windows),
        functional::<T>() ==> out.position == band(batch.pos_nees@, 3, runs),
        functional::<T>() ==> out.full == band(batch.full_nees@, 15, runs),
        functional::<T>() ==> forall|b: int|
            0 <= b < WINDOWS ==> #[trigger] out.windows[b] == window_verdict(
                batch.pos_nees_time@,
                b,
            ),
{
    let position = report_nees(&batch.pos_nees, 3, runs);
    let full = report_nees(&batch.full_nees, 15, runs);
    let windows: [Window<T>; WINDOWS] = [
        judge_window(&batch.pos_nees_time, 0),
        judge_window(&batch.pos_nees_time, 1),
        judge_window(&batch.pos_nees_time, 2),
        judge_window(&batch.pos_nees_time, 3),
        judge_window(&batch.pos_nees_time, 4),
    ];
    let mut ok = match position {
        Some(b) => b.ok,
        None => false,
    };
    ok = ok && match full {
        Some(b) => b.ok,
        None => false,
    };
    for b in 0..WINDOWS
        invariant
            ok == (passes(position) && passes(full) && forall|a: int|
                0 <= a < b ==> (#[trigger] windows[a]).ok),
    {
        ok = ok && windows[b].ok;
    }
    Consistency { rmse: batch.rmse, position, full, windows, ok }
}

/// Runs a campaign: forty flights of thirty seconds with every sensor on.
pub fn consistency_check<T: Real>() -> (out: Consistency<T>)
    ensures
        out.ok == consistent(out.position, out.full, out.windows),
        functional::<T>() ==> ({
            let seconds = lit::<T>(FLIGHT_SECONDS, 1);
            let cfg = every_sensor::<T>();
            let timed = pooled_positions(cfg, 0, SEED_STRIDE, seconds, CAMPAIGN_RUNS as nat);
            let full = pooled_full(cfg, 0, SEED_STRIDE, seconds, CAMPAIGN_RUNS as nat);
            &&& out.rmse == averaged(
                summed_rmse(cfg, 0, SEED_STRIDE, seconds, CAMPAIGN_RUNS as nat),
                CAMPAIGN_RUNS,
            )
            &&& out.position == band(values(timed), 3, CAMPAIGN_RUNS)
            &&& out.full == band(full, 15, CAMPAIGN_RUNS)
            &&& forall|b: int|
                0 <= b < WINDOWS ==> #[trigger] out.windows[b] == window_verdict(timed, b)
        }),
{
    let batch = run_batch(full_config(), 0, SEED_STRIDE, CAMPAIGN_RUNS, T::ratio(FLIGHT_SECONDS, 1));
    judge(&batch, CAMPAIGN_RUNS)
}

/// The sensor and failure scenarios.
#[derive(Clone, Copy, Debug, PartialEq, Eq, Structural)]
pub enum Scenario {
    Nominal,
    ImuOnly,
    GpsDropout,
    GpsDeniedUwb,
    Indoor,
    VisionAided,
    FullFusion,
    NoisyImu,
    BiasDrift,
}

impl Scenario {
    /// The settings of the scenario, from `cfg`.
    pub open spec fn settings<T: Real>(self, cfg: SimConfig<T>) -> SimConfig<T> {
        match self {
            Scenario::Nominal => cfg,
            Scenario::ImuOnly => SimConfig {
                gps_enabled: false,
                baro_enabled: false,
                mag_enabled: false,
                lidar_enabled: false,
                ..cfg
            },
            Scenario::GpsDropout => SimConfig { gps_enabled: false, ..cfg },
            Scenario::GpsDeniedUwb => SimConfig { gps_enabled: false, uwb_enabled: true, ..cfg },
            Scenario::Indoor => SimConfig {
                gps_enabled: false,
                uwb_enabled: true,
                lidar_enabled: true,
                flow_enabled: true,
                ..cfg
            },
            Scenario::VisionAided => SimConfig { att_enabled: true, dvl_enabled: true, ..cfg },
            Scenario::FullFusion => SimConfig {
                lidar_enabled: true,
                uwb_enabled: true,
                flow_enabled: true,
                gps_vel_enabled: true,
                dvl_enabled: true,
                att_enabled: true,
                ..cfg
            },
            Scenario::NoisyImu => SimConfig {
                accel_noise: prod(cfg.accel_noise, lit::<T>(5, 1)),
                gyro_noise: prod(cfg.gyro_noise, lit::<T>(5, 1)),
                ..cfg
            },
            Scenario::BiasDrift => SimConfig {
                accel_bias_walk: prod(cfg.accel_bias_walk, lit::<T>(10, 1)),
                gyro_bias_walk: prod(cfg.gyro_bias_walk, lit::<T>(10, 1)),
                ..cfg
            },
        }
    }

    /// Turns the settings into those of the scenario.
    pub fn apply<T: Real>(self, cfg: &mut SimConfig<T>)
        ensures
            functional::<T>() ==> *final(cfg) == self.settings(*old(cfg)),
    {
        match self {
            Scenario::Nominal => {},
            Scenario::ImuOnly => {
                cfg.gps_enabled = false;
                cfg.baro_enabled = false;
                cfg.mag_enabled = false;
                cfg.lidar_enabled = false;
            },
            Scenario::GpsDropout => {
                cfg.gps_enabled = false;
            },
            Scenario::GpsDeniedUwb => {
                cfg.gps_enabled = false;
                cfg.uwb_enabled = true;
            },
            Scenario::Indoor => {
                cfg.gps_enabled = false;
                cfg.uwb_enabled = true;
                cfg.lidar_enabled = true;
                cfg.flow_enabled = true;
            },
            Scenario::VisionAided => {
                cfg.att_enabled = true;
                cfg.dvl_enabled = true;
            },
            Scenario::FullFusion => {
                cfg.lidar_enabled = true;
                cfg.uwb_enabled = true;
                cfg.flow_enabled = true;
                cfg.gps_vel_enabled = true;
                cfg.dvl_enabled = true;
                cfg.att_enabled = true;
            },
            Scenario::NoisyImu => {
                cfg.accel_noise = cfg.accel_noise.times(T::ratio(5, 1));
                cfg.gyro_noise = cfg.gyro_noise.times(T::ratio(5, 1));
            },
            Scenario::BiasDrift => {
                cfg.accel_bias_walk = cfg.accel_bias_walk.times(T::ratio(10, 1));
                cfg.gyro_bias_walk = cfg.gyro_bias_walk.times(T::ratio(10, 1));
            },
        }
    }

    /// The scenarios in the order in which they are reported.
    pub fn all() -> (r: [Scenario; 9])
        ensures
            r@ == seq![
                Scenario::Nominal,
                Scenario::ImuOnly,
                Scenario::GpsDropout,
                Scenario::GpsDeniedUwb,
                Scenario::Indoor,
                Scenario::VisionAided,
                Scenario::FullFusion,
                Scenario::NoisyImu,
                Scenario::BiasDrift,
            ],
    {
        [
            Scenario::Nominal,
            Scenario::ImuOnly,
            Scenario::GpsDropout,
            Scenario::GpsDeniedUwb,
            Scenario::Indoor,
            Scenario::VisionAided,
            Scenario::FullFusion,
            Scenario::NoisyImu,
            Scenario::BiasDrift,
        ]
    }

    /// The mean RMSE of position, velocity and attitude over twelve flights of `seconds`.
    pub fn mean_rmse<T: Real>(self, seconds: T) -> (out: (T, T, T))
        ensures
            functional::<T>() ==> out == averaged(
                summed_rmse(
                    self.settings(standard_config::<T>()),
                    1000,
                    1,
                    seconds,
                    SCENARIO_RUNS as nat,
                ),
                SCENARIO_RUNS,
            ),
    {
        let mut cfg = SimConfig::<T>::default();
        self.apply(&mut cfg);
        run_batch(cfg, 1000, 1, SCENARIO_RUNS, seconds).rmse
    }
}

} // verus!
