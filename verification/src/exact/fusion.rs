//! How a filter takes in what a tick holds.

use vstd::prelude::*;

use crate::dataset::plots::inertial_settings;
use crate::exact::{exact, lemma_constants};
use crate::exact::quaternions::triple;
use crate::filter::{
    attitude_corrected, baro_corrected, body_velocity_corrected, flow_corrected, gps_corrected,
    gps_velocity_corrected, initial_covariance, lidar_corrected, mag_corrected, predicted,
    range_corrected, standard_sigma, Correction, FilterState,
};
use crate::flight::{
    airborne, assumed_noise, driven, every_sensor, filter_of, fused, grounded, guarded, logged,
    ranged, told_noise, truth_of,
};
use crate::scalar::{lit, Real};
use crate::sim::{
    anchors, launched, magnetic_north, sampled_start, standard_config, standard_gravity, stepped,
    SimConfig, Tick,
};

verus! {

/// A sigma as a filter is told it: never below `floor`.
pub open spec fn floored(told: real, sigma: real, floor: real) -> bool {
    told == (if sigma < floor {
        floor
    } else {
        sigma
    })
}

/// The sigmas that a filter is told are those of the settings, but never below a thousandth, or a ten
/// thousandth for the magnetometer and the attitude. Nothing else in the settings changes.
pub proof fn guard_floors_the_sigmas<T: Real>(val: spec_fn(T) -> real, cfg: SimConfig<T>)
    requires
        exact(val),
    ensures
        ({
            let g = guarded(cfg);
            let milli = 1real / 1000real;
            let tenth = 1real / 10_000real;
            &&& floored(val(g.gps_noise), val(cfg.gps_noise), milli)
            &&& floored(val(g.baro_noise), val(cfg.baro_noise), milli)
            &&& floored(val(g.mag_noise), val(cfg.mag_noise), tenth)
            &&& floored(val(g.lidar_noise), val(cfg.lidar_noise), milli)
            &&& floored(val(g.uwb_noise), val(cfg.uwb_noise), milli)
            &&& floored(val(g.flow_noise), val(cfg.flow_noise), milli)
            &&& floored(val(g.gps_vel_noise), val(cfg.gps_vel_noise), milli)
            &&& floored(val(g.dvl_noise), val(cfg.dvl_noise), milli)
            &&& floored(val(g.att_noise), val(cfg.att_noise), tenth)
            &&& cfg == (SimConfig {
                gps_noise: cfg.gps_noise,
                baro_noise: cfg.baro_noise,
                mag_noise: cfg.mag_noise,
                lidar_noise: cfg.lidar_noise,
                uwb_noise: cfg.uwb_noise,
                flow_noise: cfg.flow_noise,
                gps_vel_noise: cfg.gps_vel_noise,
                dvl_noise: cfg.dvl_noise,
                att_noise: cfg.att_noise,
                ..g
            })
        }),
{
    assert(val(lit::<T>(1, 1000)) == 1real / 1000real);
    assert(val(lit::<T>(1, 10_000)) == 1real / 10_000real);
}

/// A filter is driven with the guarded settings.
pub proof fn drive_is_guarded<T: Real>(s: FilterState<T>, tick: Tick<T>, cfg: SimConfig<T>)
    ensures
        driven(s, tick, cfg) == fused(s, tick, guarded(cfg)),
{
}

/// A tick with no reading but those of the IMU moves the filter by those; every reading is one correction
/// more, and the readings are taken in one after another: GPS, barometer, magnetometer, altimeter, ranging,
/// flow, GPS velocity, body velocity, attitude. The last reading of a tick corrects what the tick without
/// it would have left.
pub proof fn readings_are_taken_in_turn<T: Real>(
    s: FilterState<T>,
    tick: Tick<T>,
    cfg: SimConfig<T>,
)
    ensures
        tick.att matches Some(z) ==> fused(s, tick, cfg) == attitude_corrected(
            fused(s, (Tick { att: None, ..tick }), cfg),
            z,
            cfg.att_noise,
        ),
        tick.att is None ==> (tick.dvl matches Some(z) ==> fused(s, tick, cfg) == body_velocity_corrected(
            fused(s, (Tick { dvl: None, ..tick }), cfg),
            z,
            cfg.dvl_noise,
        )),
        tick.att is None && tick.dvl is None ==> (tick.gps_vel matches Some(z) ==> fused(s, tick, cfg)
            == gps_velocity_corrected(
            fused(s, (Tick { gps_vel: None, ..tick }), cfg),
            z,
            cfg.gps_vel_noise,
        )),
        tick.att is None && tick.dvl is None && tick.gps_vel is None ==> (tick.flow matches Some(z)
            ==> fused(s, tick, cfg) == flow_corrected(
            fused(s, (Tick { flow: None, ..tick }), cfg),
            z,
            cfg.flow_noise,
        )),
        tick.att is None && tick.dvl is None && tick.gps_vel is None && tick.flow is None ==> (
        tick.uwb matches Some(z) ==> {
            let s0 = fused(s, (Tick { uwb: None, ..tick }), cfg);
            let s1 = range_corrected(s0, anchors::<T>()[0], z[0], cfg.uwb_noise);
            let s2 = range_corrected(s1, anchors::<T>()[1], z[1], cfg.uwb_noise);
            let s3 = range_corrected(s2, anchors::<T>()[2], z[2], cfg.uwb_noise);
            fused(s, tick, cfg) == range_corrected(s3, anchors::<T>()[3], z[3], cfg.uwb_noise)
        }),
{
    reveal(fused);
    reveal_with_fuel(ranged, 5);
}

/// The same of the readings that come before those.
pub proof fn early_readings_are_taken_in_turn<T: Real>(
    s: FilterState<T>,
    tick: Tick<T>,
    cfg: SimConfig<T>,
)
    requires
        tick.att is None && tick.dvl is None && tick.gps_vel is None,
        tick.flow is None && tick.uwb is None,
    ensures
        tick.lidar matches Some(z) ==> fused(s, tick, cfg) == lidar_corrected(
            fused(s, (Tick { lidar: None, ..tick }), cfg),
            z,
            cfg.lidar_noise,
        ),
        tick.lidar is None ==> (tick.mag matches Some(z) ==> fused(s, tick, cfg) == mag_corrected(
            fused(s, (Tick { mag: None, ..tick }), cfg),
            z,
            magnetic_north(),
            cfg.mag_noise,
        )),
        tick.lidar is None && tick.mag is None ==> (tick.baro matches Some(z) ==> fused(s, tick, cfg)
            == baro_corrected(fused(s, (Tick { baro: None, ..tick }), cfg), z, cfg.baro_noise)),
        tick.lidar is None && tick.mag is None && tick.baro is None ==> (tick.gps matches Some(z) ==> fused(
            s,
            tick,
            cfg,
        ) == gps_corrected(fused(s, (Tick { gps: None, ..tick }), cfg), z, cfg.gps_noise)),
        tick.lidar is None && tick.mag is None && tick.baro is None && tick.gps is None ==> fused(
            s,
            tick,
            cfg,
        ) == predicted(s, tick.accel, tick.gyro, tick.dt),
{
    reveal(fused);
}

/// The log of a tick holds for every reading the record of its own correction, which is what the filter
/// would hold had the tick ended with that reading, and nothing for a sensor that did not fire.
pub proof fn log_holds_each_correction<T: Real>(s: FilterState<T>, tick: Tick<T>, cfg: SimConfig<T>)
    ensures
        ({
            let log = logged(s, tick, cfg);
            let t8 = Tick { att: None, ..tick };
            let t7 = Tick { dvl: None, ..t8 };
            let t6 = Tick { gps_vel: None, ..t7 };
            let t5 = Tick { flow: None, ..t6 };
            let t4 = Tick { uwb: None, ..t5 };
            let t3 = Tick { lidar: None, ..t4 };
            let t2 = Tick { mag: None, ..t3 };
            let t1 = Tick { baro: None, ..t2 };
            &&& log.att == if_read(tick.att, fused(s, tick, cfg))
            &&& log.dvl == if_read(tick.dvl, fused(s, t8, cfg))
            &&& log.gps_vel == if_read(tick.gps_vel, fused(s, t7, cfg))
            &&& log.flow == if_read(tick.flow, fused(s, t6, cfg))
            &&& log.uwb == if_read(tick.uwb, fused(s, t5, cfg))
            &&& log.lidar == if_read(tick.lidar, fused(s, t4, cfg))
            &&& log.mag == if_read(tick.mag, fused(s, t3, cfg))
            &&& log.baro == if_read(tick.baro, fused(s, t2, cfg))
            &&& log.gps == if_read(tick.gps, fused(s, t1, cfg))
        }),
{
    reveal(fused);
    reveal(logged);
}

/// The record that a filter holds after a reading, if there was one.
pub open spec fn if_read<T, Z>(reading: Option<Z>, after: FilterState<T>) -> Option<Correction<T>> {
    if reading is Some {
        after.last_update
    } else {
        None
    }
}

/// What a filter assumes of the noise in a scored flight is a twentieth above the settings; what it is told
/// in a session or a replay is the settings. Gravity is 9.80665 downwards in both.
pub proof fn assumed_noise_is_a_twentieth_above<T: Real>(val: spec_fn(T) -> real, cfg: SimConfig<T>)
    requires
        exact(val),
    ensures
        ({
            let (n, m) = (assumed_noise(cfg), told_noise(cfg));
            &&& 100real * val(n.accel) == 105real * val(cfg.accel_noise)
            &&& 100real * val(n.gyro) == 105real * val(cfg.gyro_noise)
            &&& 100real * val(n.accel_bias) == 105real * val(cfg.accel_bias_walk)
            &&& 100real * val(n.gyro_bias) == 105real * val(cfg.gyro_bias_walk)
            &&& val(m.accel) == val(cfg.accel_noise) && val(m.gyro) == val(cfg.gyro_noise)
            &&& val(m.accel_bias) == val(cfg.accel_bias_walk)
            &&& val(m.gyro_bias) == val(cfg.gyro_bias_walk)
            &&& triple(val, n.gravity) == (0real, 0real, -980_665real / 100_000real)
            &&& triple(val, m.gravity) == (0real, 0real, -980_665real / 100_000real)
        }),
{
    lemma_constants(val);
    assert(val(lit::<T>(105, 100)) == 105real / 100real);
    assert(val(lit::<T>((-980_665) as i64, 100_000)) == -980_665real / 100_000real);
}

/// The world: the field of the magnetometer, and where the four beacons stand.
pub proof fn world_is_fixed<T: Real>(val: spec_fn(T) -> real)
    requires
        exact(val),
    ensures
        triple(val, standard_gravity::<T>()) == (0real, 0real, -980_665real / 100_000real),
        triple(val, magnetic_north::<T>()) == (
            422_618real / 1_000_000real,
            0real,
            -906_308real / 1_000_000real,
        ),
        triple(val, anchors::<T>()[0]) == (-55real, -55real, 0real),
        triple(val, anchors::<T>()[1]) == (58real, -50real, 6real),
        triple(val, anchors::<T>()[2]) == (52real, 56real, 34real),
        triple(val, anchors::<T>()[3]) == (-50real, 54real, 18real),
{
    lemma_constants(val);
    assert(val(lit::<T>((-980_665) as i64, 100_000)) == -980_665real / 100_000real);
    assert(val(lit::<T>(422_618, 1_000_000)) == 422_618real / 1_000_000real);
    assert(val(lit::<T>((-906_308) as i64, 1_000_000)) == -906_308real / 1_000_000real);
    assert(val(lit::<T>((-55) as i64, 1)) == -55real);
    assert(val(lit::<T>((-50) as i64, 1)) == -50real);
    assert(val(lit::<T>(58, 1)) == 58real && val(lit::<T>(6, 1)) == 6real);
    assert(val(lit::<T>(52, 1)) == 52real && val(lit::<T>(56, 1)) == 56real);
    assert(val(lit::<T>(34, 1)) == 34real && val(lit::<T>(54, 1)) == 54real);
    assert(val(lit::<T>(18, 1)) == 18real);
}

/// The settings with every sensor on, and those with none, differ from the default ones in the switches
/// alone; the default ones have the four common sensors on.
pub proof fn settings_differ_in_switches<T: Real>()
    ensures
        ({
            let (c, all, none) = (
                standard_config::<T>(),
                every_sensor::<T>(),
                inertial_settings::<T>(),
            );
            &&& c.gps_enabled && c.baro_enabled && c.mag_enabled && c.lidar_enabled
            &&& !c.uwb_enabled && !c.flow_enabled
            &&& !c.gps_vel_enabled && !c.dvl_enabled && !c.att_enabled
            &&& all.gps_enabled && all.baro_enabled && all.mag_enabled && all.lidar_enabled
            &&& all.uwb_enabled && all.flow_enabled
            &&& all.gps_vel_enabled && all.dvl_enabled && all.att_enabled
            &&& c == (SimConfig {
                uwb_enabled: false,
                flow_enabled: false,
                gps_vel_enabled: false,
                dvl_enabled: false,
                att_enabled: false,
                ..all
            })
            &&& !none.gps_enabled && !none.baro_enabled && !none.mag_enabled && !none.lidar_enabled
            &&& c == (SimConfig {
                gps_enabled: true,
                baro_enabled: true,
                mag_enabled: true,
                lidar_enabled: true,
                ..none
            })
        }),
{
}

/// A flight starts at a drawn state with the standard uncertainty: 3 metres, 0.3 metres a second, a tenth
/// of a radian, and biases within 0.1 and 0.01. From there every tick of the simulator drives the filter,
/// and a score compares the filter after the tick with the truth of the tick.
pub proof fn flight_drives_the_filter<T: Real>(
    val: spec_fn(T) -> real,
    cfg: SimConfig<T>,
    seed: u64,
    k: nat,
)
    requires
        exact(val),
    ensures
        ({
            let sigma = standard_sigma::<T>();
            let start = airborne(cfg, seed, 0);
            let (nom, sim) = sampled_start(launched(cfg, seed), sigma);
            &&& val(sigma.position) == 3real
            &&& val(sigma.velocity) == 3real / 10real
            &&& val(sigma.orientation) == 1real / 10real
            &&& val(sigma.accel_bias) == 1real / 10real
            &&& val(sigma.gyro_bias) == 1real / 100real
            &&& start.sim == sim
            &&& start.filter.nom == nom
            &&& start.filter.p == initial_covariance(sigma)
            &&& start.filter.noise == assumed_noise(cfg)
            &&& start.filter.last_update is None
        }),
        ({
            let (now, next) = (airborne(cfg, seed, k), airborne(cfg, seed, k + 1));
            let (tick, sim) = stepped(now.sim);
            &&& next.sim == sim
            &&& next.filter == driven(now.filter, tick, cfg)
            &&& filter_of(cfg, seed, k) == next.filter
            &&& truth_of(cfg, seed, k) == tick.truth
        }),
{
    lemma_constants(val);
    assert(val(lit::<T>(3, 1)) == 3real);
    assert(val(lit::<T>(3, 10)) == 3real / 10real);
    assert(val(lit::<T>(1, 10)) == 1real / 10real);
    assert(val(lit::<T>(1, 100)) == 1real / 100real);
    assert(airborne(cfg, seed, 0) == grounded(cfg, seed));
}

} // verus!
