//! The plotted series as comma-separated text.

use vstd::prelude::*;
use vstd::string::StringSliceAdditionalSpecFns;

use crate::campaign::{CAMPAIGN_RUNS, FLIGHT_SECONDS, SEED_STRIDE};
use crate::dataset::text::{extend, joined, page, push_row, texts, NEWLINE};
use crate::decimal::{group_decimal_ops, textual, written, Decimal};
use crate::filter::predicted;
use crate::flight::{
    airborne, every_sensor, filter_of, full_config, imu_only_is_dead_reckoning, ticks_in,
    SAMPLE_EVERY,
};
use crate::scalar::{functional, group_real_ops, lit, Real};
use crate::series::{
    drift_of, drift_series, ensemble, envelope_of, envelope_series, mean_nees_series, means,
    sample_count, DriftSample, EnvelopeSample, NeesSample,
};
use crate::sim::{standard_config, stepped, SimConfig};

verus! {

broadcast use {group_real_ops, group_decimal_ops};

/// The names of the columns of a NEES series.
pub const NEES_HEADER: &'static str = "t,pos,full";

/// The names of the columns of an envelope.
pub const ENVELOPE_HEADER: &'static str = "t,ex,s3x,ez,s3z";

/// The names of the columns of a drift comparison.
pub const DRIFT_HEADER: &'static str = "t,aided,imu_only";

/// The row of a NEES sample.
pub open spec fn nees_row<T: Decimal>(s: NeesSample<T>) -> Seq<u8> {
    joined(seq![written(s.t, 2), written(s.pos, 4), written(s.full, 4)])
}

/// The row of an envelope sample.
pub open spec fn envelope_row<T: Decimal>(s: EnvelopeSample<T>) -> Seq<u8> {
    joined(
        seq![
            written(s.t, 3),
            written(s.ex, 4),
            written(s.s3x, 4),
            written(s.ez, 4),
            written(s.s3z, 4),
        ],
    )
}

/// The row of two drift samples, aided and inertial, at the time of the first.
pub open spec fn drift_row<T: Decimal>(a: DriftSample<T>, b: DriftSample<T>) -> Seq<u8> {
    joined(seq![written(a.t, 3), written(a.err, 5), written(b.err, 5)])
}

/// A page that so far holds its header.
fn headed(header: &str) -> (out: Vec<u8>)
    ensures
        out@ == page(seq![header.spec_bytes()]),
{
    let mut out: Vec<u8> = Vec::new();
    extend(&mut out, header.as_bytes());
    out.push(NEWLINE);
    let ghost rows = seq![header.spec_bytes()];
    assert(rows.drop_last() =~= Seq::empty());
    assert(page(rows.drop_last()) + header.spec_bytes() =~= header.spec_bytes());
    out
}

/// The text of a NEES series: times to two digits, values to four.
pub fn nees_csv<T: Decimal>(series: &Vec<NeesSample<T>>) -> (out: Vec<u8>)
    ensures
        textual::<T>() ==> out@ == page(
            seq![NEES_HEADER.spec_bytes()] + series@.map_values(|s: NeesSample<T>| nees_row(s)),
        ),
{
    let mut out = headed(NEES_HEADER);
    let ghost head = seq![NEES_HEADER.spec_bytes()];
    let ghost rows = series@.map_values(|s: NeesSample<T>| nees_row(s));
    assert(head + rows.take(0) =~= head);
    for i in 0..series.len()
        invariant
            rows == series@.map_values(|s: NeesSample<T>| nees_row(s)),
            textual::<T>() ==> out@ == page(head + rows.take(i as int)),
    {
        let s = series[i];
        let fields = vec![s.t.to_fixed(2), s.pos.to_fixed(4), s.full.to_fixed(4)];
        push_row(&mut out, &fields);
        proof {
            assert(textual::<T>() ==> texts(fields@) =~= seq![
                written(s.t, 2),
                written(s.pos, 4),
                written(s.full, 4),
            ]);
            assert((head + rows.take(i as int + 1)).drop_last() =~= head + rows.take(i as int));
        }
    }
    assert(rows.take(rows.len() as int) =~= rows);
    out
}

/// The text of an envelope: times to three digits, values to four.
pub fn envelope_csv<T: Decimal>(series: &Vec<EnvelopeSample<T>>) -> (out: Vec<u8>)
    ensures
        textual::<T>() ==> out@ == page(
            seq![ENVELOPE_HEADER.spec_bytes()] + series@.map_values(
                |s: EnvelopeSample<T>| envelope_row(s),
            ),
        ),
{
    let mut out = headed(ENVELOPE_HEADER);
    let ghost head = seq![ENVELOPE_HEADER.spec_bytes()];
    let ghost rows = series@.map_values(|s: EnvelopeSample<T>| envelope_row(s));
    assert(head + rows.take(0) =~= head);
    for i in 0..series.len()
        invariant
            rows == series@.map_values(|s: EnvelopeSample<T>| envelope_row(s)),
            textual::<T>() ==> out@ == page(head + rows.take(i as int)),
    {
        let s = series[i];
        let fields = vec![
            s.t.to_fixed(3),
            s.ex.to_fixed(4),
            s.s3x.to_fixed(4),
            s.ez.to_fixed(4),
            s.s3z.to_fixed(4),
        ];
        push_row(&mut out, &fields);
        proof {
            assert(textual::<T>() ==> texts(fields@) =~= seq![
                written(s.t, 3),
                written(s.ex, 4),
                written(s.s3x, 4),
                written(s.ez, 4),
                written(s.s3z, 4),
            ]);
            assert((head + rows.take(i as int + 1)).drop_last() =~= head + rows.take(i as int));
        }
    }
    assert(rows.take(rows.len() as int) =~= rows);
    out
}

/// The rows of two drift series side by side, as far as both go.
pub open spec fn drift_rows<T: Decimal>(
    aided: Seq<DriftSample<T>>,
    imu: Seq<DriftSample<T>>,
) -> Seq<Seq<u8>> {
    Seq::new(
        if aided.len() < imu.len() {
            aided.len()
        } else {
            imu.len()
        },
        |i: int| drift_row(aided[i], imu[i]),
    )
}

/// The text of two drift series side by side: times to three digits, errors to five.
pub fn drift_csv<T: Decimal>(aided: &Vec<DriftSample<T>>, imu: &Vec<DriftSample<T>>) -> (out: Vec<u8>)
    ensures
        textual::<T>() ==> out@ == page(
            seq![DRIFT_HEADER.spec_bytes()] + drift_rows(aided@, imu@),
        ),
{
    let mut out = headed(DRIFT_HEADER);
    let ghost head = seq![DRIFT_HEADER.spec_bytes()];
    let ghost rows = drift_rows(aided@, imu@);
    assert(head + rows.take(0) =~= head);
    let n: usize = if aided.len() < imu.len() {
        aided.len()
    } else {
        imu.len()
    };
    for i in 0..n
        invariant
            n <= aided@.len() && n <= imu@.len(),
            n == rows.len(),
            rows == drift_rows(aided@, imu@),
            textual::<T>() ==> out@ == page(head + rows.take(i as int)),
    {
        let a = aided[i];
        let b = imu[i];
        let fields = vec![a.t.to_fixed(3), a.err.to_fixed(5), b.err.to_fixed(5)];
        push_row(&mut out, &fields);
        proof {
            assert(textual::<T>() ==> texts(fields@) =~= seq![
                written(a.t, 3),
                written(a.err, 5),
                written(b.err, 5),
            ]);
            assert((head + rows.take(i as int + 1)).drop_last() =~= head + rows.take(i as int));
        }
    }
    assert(rows.take(rows.len() as int) =~= rows);
    out
}

/// The texts of the three plots.
pub struct Plots {
    /// Position and full-state NEES versus time, averaged over the flights of a campaign.
    pub nees: Vec<u8>,
    /// One flight's position error against its own three-sigma envelope.
    pub envelope: Vec<u8>,
    /// Aided versus inertial position error versus time.
    pub drift: Vec<u8>,
}

/// Seed of the flight whose envelope is plotted.
pub const ENVELOPE_SEED: u64 = 7;

/// Seed of the two flights whose drift is compared.
pub const DRIFT_SEED: u64 = 3;

/// The default settings with every aiding sensor off.
pub open spec fn inertial_settings<T: Real>() -> SimConfig<T> {
    SimConfig {
        gps_enabled: false,
        baro_enabled: false,
        mag_enabled: false,
        lidar_enabled: false,
        ..standard_config()
    }
}

/// The settings of a flight on the IMU alone.
pub fn inertial_config<T: Real>() -> (r: SimConfig<T>)
    ensures
        functional::<T>() ==> r == inertial_settings::<T>(),
        !r.gps_enabled && !r.baro_enabled && !r.mag_enabled,
        !r.lidar_enabled && !r.uwb_enabled && !r.flow_enabled,
        !r.gps_vel_enabled && !r.dvl_enabled && !r.att_enabled,
{
    let mut cfg = SimConfig::<T>::default();
    cfg.gps_enabled = false;
    cfg.baro_enabled = false;
    cfg.mag_enabled = false;
    cfg.lidar_enabled = false;
    cfg
}

/// The inertial run of the drift plot is dead reckoning: from its first tick on, the filter takes in
/// no measurement and only propagates on the IMU.
pub proof fn inertial_run_is_dead_reckoning<T: Real>(k: nat)
    ensures
        ({
            let cfg = inertial_settings::<T>();
            let tick = stepped(airborne(cfg, DRIFT_SEED, k).sim).0;
            filter_of(cfg, DRIFT_SEED, k) == predicted(
                airborne(cfg, DRIFT_SEED, k).filter,
                tick.accel,
                tick.gyro,
                tick.dt,
            )
        }),
{
    imu_only_is_dead_reckoning(inertial_settings::<T>(), DRIFT_SEED, k);
}

/// Flies what the plots show and writes their texts.
pub fn plot_data<T: Decimal>() -> (out: Plots)
    ensures
        functional::<T>() && textual::<T>() ==> ({
            let seconds = lit::<T>(FLIGHT_SECONDS, 1);
            let n = sample_count(ticks_in(seconds) as nat);
            let full = every_sensor::<T>();
            let sums = ensemble(full, 0, SEED_STRIDE, seconds, CAMPAIGN_RUNS as nat);
            let envelope = Seq::new(
                n,
                |i: int| envelope_of(full, ENVELOPE_SEED, (i * SAMPLE_EVERY) as nat),
            );
            let aided = Seq::new(
                n,
                |i: int| drift_of(full, DRIFT_SEED, (i * SAMPLE_EVERY) as nat),
            );
            let inertial = Seq::new(
                n,
                |i: int|
                    drift_of(inertial_settings::<T>(), DRIFT_SEED, (i * SAMPLE_EVERY) as nat),
            );
            &&& out.nees@ == page(
                seq![NEES_HEADER.spec_bytes()] + means(sums).map_values(
                    |s: NeesSample<T>| nees_row(s),
                ),
            )
            &&& out.envelope@ == page(
                seq![ENVELOPE_HEADER.spec_bytes()] + envelope.map_values(
                    |s: EnvelopeSample<T>| envelope_row(s),
                ),
            )
            &&& out.drift@ == page(seq![DRIFT_HEADER.spec_bytes()] + drift_rows(aided, inertial))
        }),
{
    let seconds = T::ratio(FLIGHT_SECONDS, 1);
    let cfg = full_config::<T>();
    let nees = mean_nees_series(cfg, 0, SEED_STRIDE, CAMPAIGN_RUNS, seconds);
    let envelope = envelope_series(cfg, ENVELOPE_SEED, seconds);
    let aided = drift_series(cfg, DRIFT_SEED, seconds);
    let coasting = drift_series(inertial_config(), DRIFT_SEED, seconds);
    Plots {
        nees: nees_csv(&nees),
        envelope: envelope_csv(&envelope),
        drift: drift_csv(&aided, &coasting),
    }
}

} // verus!
