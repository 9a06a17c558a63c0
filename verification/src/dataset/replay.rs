//! Replaying a recording through the filter and scoring it against the recorded truth.

use vstd::prelude::*;

use crate::dataset::record::{
    four, never_written, numbers, one, optional, parts, recorded_rows, recording_reads_back,
    row_fields, row_has_every_column, row_layout, three, turn, two, COLUMNS, DIGITS, RECORD_SEED,
};
use crate::dataset::text::{lines, page, pieces, split, split_lines, texts, COMMA, NEWLINE, RETURN};
use crate::exact::{exact, lemma_constants};
use crate::decimal::{group_decimal_ops, spelled, textual, written, Decimal};
use crate::filter::{initial_covariance, standard_sigma, Eskf, FilterState, InitialSigma, Nominal};
use crate::flight::{
    drive, driven, every_sensor, flight_rate, imu_noise, no_errors, rmse, told_noise, with_errors,
    Errors, SAMPLE_EVERY,
};
use crate::campaign::{add_up, total};
use crate::linalg::{column, table, v3, V3};
use crate::metrics::{position_nees, weighed};
use crate::quat::Quat;
use crate::scalar::{
    at_most, diff, functional, group_real_ops, larger, less, lit, quot, same, whole, Real,
};
use crate::sim::{emitted, standard_config, SimConfig, Tick};
use crate::trajectory::TrueState;

verus! {

broadcast use {group_real_ops, group_decimal_ops};

/// The number in a field, zero where it spells none.
pub open spec fn number<T: Decimal>(c: Seq<Seq<u8>>, i: int) -> T {
    match spelled::<T>(c[i]) {
        Some(x) => x,
        None => lit::<T>(0, 1),
    }
}

/// A reading of three numbers, there if its first field is not empty.
pub open spec fn reading3<T: Decimal>(c: Seq<Seq<u8>>, i: int) -> Option<V3<T>> {
    if c[i].len() == 0 {
        None
    } else {
        Some([number(c, i), number(c, i + 1), number(c, i + 2)])
    }
}

/// A reading of one number, there if its field spells one.
pub open spec fn reading1<T: Decimal>(c: Seq<Seq<u8>>, i: int) -> Option<T> {
    if c[i].len() == 0 {
        None
    } else {
        spelled::<T>(c[i])
    }
}

/// The quaternion in four fields.
pub open spec fn quat_at<T: Decimal>(c: Seq<Seq<u8>>, i: int) -> Quat<T> {
    Quat { w: number(c, i), x: number(c, i + 1), y: number(c, i + 2), z: number(c, i + 3) }
}

/// The tick in a row, `dt` after the one before it. The true biases are not recorded.
pub open spec fn row_tick<T: Decimal>(c: Seq<Seq<u8>>, dt: T) -> Tick<T> {
    Tick {
        t: number(c, 0),
        dt,
        truth: TrueState {
            p: [number(c, 31), number(c, 32), number(c, 33)],
            v: [number(c, 34), number(c, 35), number(c, 36)],
            q: quat_at(c, 37),
            accel_bias: v3::origin(),
            gyro_bias: v3::origin(),
        },
        accel: [number(c, 1), number(c, 2), number(c, 3)],
        gyro: [number(c, 4), number(c, 5), number(c, 6)],
        gps: reading3(c, 7),
        baro: reading1(c, 10),
        mag: reading3(c, 11),
        lidar: reading1(c, 14),
        uwb: if c[15].len() == 0 {
            None
        } else {
            Some([number(c, 15), number(c, 16), number(c, 17), number(c, 18)])
        },
        flow: if c[19].len() == 0 {
            None
        } else {
            Some([number(c, 19), number(c, 20)])
        },
        gps_vel: reading3(c, 21),
        dvl: reading3(c, 24),
        att: if c[27].len() == 0 {
            None
        } else {
            Some(quat_at(c, 27))
        },
    }
}

fn number_at<T: Decimal>(c: &Vec<Vec<u8>>, i: usize) -> (x: T)
    requires
        i < c.len(),
    ensures
        functional::<T>() && textual::<T>() ==> x == number::<T>(texts(c@), i as int),
{
    match T::parse(c[i].as_slice()) {
        Some(x) => x,
        None => T::ratio(0, 1),
    }
}

fn vector_at<T: Decimal>(c: &Vec<Vec<u8>>, i: usize) -> (v: V3<T>)
    requires
        i + 3 <= c.len(),
    ensures
        functional::<T>() && textual::<T>() ==> v == [
            number::<T>(texts(c@), i as int),
            number::<T>(texts(c@), i + 1),
            number::<T>(texts(c@), i + 2),
        ],
{
    [number_at(c, i), number_at(c, i + 1), number_at(c, i + 2)]
}

fn reading3_at<T: Decimal>(c: &Vec<Vec<u8>>, i: usize) -> (v: Option<V3<T>>)
    requires
        i + 3 <= c.len(),
    ensures
        v is Some <==> c@[i as int]@.len() > 0,
        functional::<T>() && textual::<T>() ==> v == reading3::<T>(texts(c@), i as int),
{
    if c[i].len() == 0 {
        None
    } else {
        Some(vector_at(c, i))
    }
}

fn reading1_at<T: Decimal>(c: &Vec<Vec<u8>>, i: usize) -> (v: Option<T>)
    requires
        i < c.len(),
    ensures
        functional::<T>() && textual::<T>() ==> v == reading1::<T>(texts(c@), i as int),
{
    if c[i].len() == 0 {
        None
    } else {
        T::parse(c[i].as_slice())
    }
}

fn quaternion_at<T: Decimal>(c: &Vec<Vec<u8>>, i: usize) -> (q: Quat<T>)
    requires
        i + 4 <= c.len(),
    ensures
        functional::<T>() && textual::<T>() ==> q == quat_at::<T>(texts(c@), i as int),
{
    Quat::new(number_at(c, i), number_at(c, i + 1), number_at(c, i + 2), number_at(c, i + 3))
}

/// Reads the tick in a row, `dt` after the one before it.
pub fn read_tick<T: Decimal>(c: &Vec<Vec<u8>>, dt: T) -> (tick: Tick<T>)
    requires
        c@.len() >= COLUMNS,
    ensures
        tick.dt == dt,
        functional::<T>() && textual::<T>() ==> tick == row_tick(texts(c@), dt),
{
    Tick {
        t: number_at(c, 0),
        dt,
        truth: TrueState {
            p: vector_at(c, 31),
            v: vector_at(c, 34),
            q: quaternion_at(c, 37),
            accel_bias: v3::zero(),
            gyro_bias: v3::zero(),
        },
        accel: vector_at(c, 1),
        gyro: vector_at(c, 4),
        gps: reading3_at(c, 7),
        baro: reading1_at(c, 10),
        mag: reading3_at(c, 11),
        lidar: reading1_at(c, 14),
        uwb: if c[15].len() == 0 {
            None
        } else {
            Some([number_at(c, 15), number_at(c, 16), number_at(c, 17), number_at(c, 18)])
        },
        flow: if c[19].len() == 0 {
            None
        } else {
            Some([number_at(c, 19), number_at(c, 20)])
        },
        gps_vel: reading3_at(c, 21),
        dvl: reading3_at(c, 24),
        att: if c[27].len() == 0 {
            None
        } else {
            Some(quaternion_at(c, 27))
        },
    }
}

/// The time between two rows: a period of the IMU before the second row, and never zero.
pub open spec fn interval<T: Real>(prev: T, t: T) -> T {
    if less(lit::<T>(0, 1), prev) {
        larger(diff(t, prev), lit::<T>(1, 10_000))
    } else {
        quot(lit::<T>(1, 1), flight_rate())
    }
}

fn interval_between<T: Real>(prev: T, t: T) -> (dt: T)
    ensures
        functional::<T>() ==> dt == interval(prev, t),
{
    if T::ratio(0, 1).lt(prev) {
        t.minus(prev).max(T::ratio(1, 10_000))
    } else {
        T::ratio(1, 1).over(T::ratio(200, 1))
    }
}

/// A number written to a recording and read back.
pub open spec fn reread<T: Decimal>(x: T) -> T {
    match spelled::<T>(written(x, DIGITS)) {
        Some(y) => y,
        None => lit::<T>(0, 1),
    }
}

/// The text of every number spells one.
pub open spec fn always_spelled<T: Decimal>() -> bool {
    forall|x: T|
        (#[trigger] written(x, DIGITS)).len() > 0 && spelled::<T>(written(x, DIGITS)) is Some
}

/// A vector as it reads back from a recording.
pub open spec fn reread3<T: Decimal>(v: V3<T>) -> V3<T> {
    [reread(v[0]), reread(v[1]), reread(v[2])]
}

/// A quaternion as it reads back from a recording.
pub open spec fn reread4<T: Decimal>(q: Quat<T>) -> Quat<T> {
    Quat { w: reread(q.w), x: reread(q.x), y: reread(q.y), z: reread(q.z) }
}

/// A tick as a recording hands it back: every reading that was there, and no other, its numbers
/// rounded by the text; the true biases gone.
pub open spec fn replayed_tick<T: Decimal>(tk: Tick<T>, dt: T) -> Tick<T> {
    Tick {
        t: reread(tk.t),
        dt,
        truth: TrueState {
            p: reread3(tk.truth.p),
            v: reread3(tk.truth.v),
            q: reread4(tk.truth.q),
            accel_bias: v3::origin(),
            gyro_bias: v3::origin(),
        },
        accel: reread3(tk.accel),
        gyro: reread3(tk.gyro),
        gps: match tk.gps {
            Some(v) => Some(reread3(v)),
            None => None,
        },
        baro: match tk.baro {
            Some(x) => Some(reread(x)),
            None => None,
        },
        mag: match tk.mag {
            Some(v) => Some(reread3(v)),
            None => None,
        },
        lidar: match tk.lidar {
            Some(x) => Some(reread(x)),
            None => None,
        },
        uwb: match tk.uwb {
            Some(r) => Some([reread(r[0]), reread(r[1]), reread(r[2]), reread(r[3])]),
            None => None,
        },
        flow: match tk.flow {
            Some(r) => Some([reread(r[0]), reread(r[1])]),
            None => None,
        },
        gps_vel: match tk.gps_vel {
            Some(v) => Some(reread3(v)),
            None => None,
        },
        dvl: match tk.dvl {
            Some(v) => Some(reread3(v)),
            None => None,
        },
        att: match tk.att {
            Some(q) => Some(reread4(q)),
            None => None,
        },
    }
}

/// A replay sees the ticks that were recorded: the row of a tick, read back, is that tick with its
/// numbers rounded by the text, a sensor present exactly where it fired.
pub proof fn replay_sees_the_recorded_tick<T: Decimal>(tk: Tick<T>, dt: T)
    requires
        always_spelled::<T>(),
    ensures
        row_tick(row_fields(tk), dt) == replayed_tick(tk, dt),
{
    let c = row_fields(tk);
    row_has_every_column(tk);
    row_layout(tk);
    let a = row_tick(c, dt);
    let b = replayed_tick(tk, dt);
    lemma_always(tk, c, dt);
    lemma_positioning(tk, c);
    lemma_relative(tk, c);
    lemma_velocities(tk, c);
    assert(a.gps == b.gps && a.baro == b.baro && a.mag == b.mag && a.lidar == b.lidar);
    assert(a.uwb == b.uwb && a.flow == b.flow);
    assert(a.gps_vel == b.gps_vel && a.dvl == b.dvl && a.att == b.att);
}

/// The fields that every row has.
proof fn lemma_always<T: Decimal>(tk: Tick<T>, c: Seq<Seq<u8>>, dt: T)
    requires
        always_spelled::<T>(),
        c.len() == COLUMNS,
        c.subrange(0, 7) == numbers(seq![tk.t]) + numbers(tk.accel@) + numbers(tk.gyro@),
        c.subrange(31, 41) == numbers(tk.truth.p@) + numbers(tk.truth.v@) + numbers(
            parts(tk.truth.q),
        ),
    ensures
        ({
            let a = row_tick(c, dt);
            let b = replayed_tick(tk, dt);
            a.t == b.t && a.truth == b.truth && a.accel == b.accel && a.gyro == b.gyro
        }),
{
    let head = c.subrange(0, 7);
    let tail = c.subrange(31, 41);
    assert(c[0] == head[0] && c[1] == head[1] && c[2] == head[2] && c[3] == head[3]);
    assert(c[4] == head[4] && c[5] == head[5] && c[6] == head[6]);
    assert(c[31] == tail[0] && c[32] == tail[1] && c[33] == tail[2] && c[34] == tail[3]);
    assert(c[35] == tail[4] && c[36] == tail[5] && c[37] == tail[6] && c[38] == tail[7]);
    assert(c[39] == tail[8] && c[40] == tail[9]);
    let a = row_tick(c, dt);
    let b = replayed_tick(tk, dt);
    assert(a.accel =~= b.accel);
    assert(a.gyro =~= b.gyro);
    assert(a.truth.p =~= b.truth.p);
    assert(a.truth.v =~= b.truth.v);
    assert(a.truth.q == b.truth.q);
}

/// A reading of three, read back.
proof fn lemma_three<T: Decimal>(v: Option<V3<T>>, c: Seq<Seq<u8>>, i: int)
    requires
        always_spelled::<T>(),
        0 <= i,
        i + 3 <= c.len(),
        c.subrange(i, i + 3) == optional(three(v), 3),
    ensures
        reading3::<T>(c, i) == (match v {
            Some(v) => Some(reread3(v)),
            None => None,
        }),
{
    let part = c.subrange(i, i + 3);
    assert(c[i] == part[0] && c[i + 1] == part[1] && c[i + 2] == part[2]);
    if let Some(v) = v {
        assert(part[0] == written(v[0], DIGITS));
        assert(part[1] == written(v[1], DIGITS));
        assert(part[2] == written(v[2], DIGITS));
        assert(reading3::<T>(c, i)->0 =~= reread3(v));
    }
}

/// A reading of one, read back.
proof fn lemma_one<T: Decimal>(x: Option<T>, c: Seq<Seq<u8>>, i: int)
    requires
        always_spelled::<T>(),
        0 <= i < c.len(),
        c.subrange(i, i + 1) == optional(one(x), 1),
    ensures
        reading1::<T>(c, i) == (match x {
            Some(x) => Some(reread(x)),
            None => None,
        }),
{
    let part = c.subrange(i, i + 1);
    assert(c[i] == part[0]);
    if let Some(x) = x {
        assert(part[0] == written(x, DIGITS));
    }
}

proof fn lemma_positioning<T: Decimal>(tk: Tick<T>, c: Seq<Seq<u8>>)
    requires
        always_spelled::<T>(),
        c.len() == COLUMNS,
        c.subrange(7, 10) == optional(three(tk.gps), 3),
        c.subrange(10, 11) == optional(one(tk.baro), 1),
        c.subrange(11, 14) == optional(three(tk.mag), 3),
        c.subrange(14, 15) == optional(one(tk.lidar), 1),
    ensures
        forall|dt: T|
            #![trigger row_tick(c, dt)]
            {
                let a = row_tick(c, dt);
                let b = replayed_tick(tk, dt);
                a.gps == b.gps && a.baro == b.baro && a.mag == b.mag && a.lidar == b.lidar
            },
{
    lemma_three(tk.gps, c, 7);
    lemma_one(tk.baro, c, 10);
    lemma_three(tk.mag, c, 11);
    lemma_one(tk.lidar, c, 14);
}

proof fn lemma_relative<T: Decimal>(tk: Tick<T>, c: Seq<Seq<u8>>)
    requires
        always_spelled::<T>(),
        c.len() == COLUMNS,
        c.subrange(15, 19) == optional(four(tk.uwb), 4),
        c.subrange(19, 21) == optional(two(tk.flow), 2),
    ensures
        forall|dt: T|
            #![trigger row_tick(c, dt)]
            {
                let a = row_tick(c, dt);
                let b = replayed_tick(tk, dt);
                a.uwb == b.uwb && a.flow == b.flow
            },
{
    let sweep = c.subrange(15, 19);
    let flow = c.subrange(19, 21);
    assert(c[15] == sweep[0] && c[16] == sweep[1] && c[17] == sweep[2] && c[18] == sweep[3]);
    assert(c[19] == flow[0] && c[20] == flow[1]);
    if let Some(v) = tk.uwb {
        assert(sweep[0] == written(v[0], DIGITS) && sweep[1] == written(v[1], DIGITS));
        assert(sweep[2] == written(v[2], DIGITS) && sweep[3] == written(v[3], DIGITS));
    }
    if let Some(v) = tk.flow {
        assert(flow[0] == written(v[0], DIGITS) && flow[1] == written(v[1], DIGITS));
    }
}

proof fn lemma_velocities<T: Decimal>(tk: Tick<T>, c: Seq<Seq<u8>>)
    requires
        always_spelled::<T>(),
        c.len() == COLUMNS,
        c.subrange(21, 24) == optional(three(tk.gps_vel), 3),
        c.subrange(24, 27) == optional(three(tk.dvl), 3),
        c.subrange(27, 31) == optional(turn(tk.att), 4),
    ensures
        forall|dt: T|
            #![trigger row_tick(c, dt)]
            {
                let a = row_tick(c, dt);
                let b = replayed_tick(tk, dt);
                a.gps_vel == b.gps_vel && a.dvl == b.dvl && a.att == b.att
            },
{
    lemma_three(tk.gps_vel, c, 21);
    lemma_three(tk.dvl, c, 24);
    let fix = c.subrange(27, 31);
    assert(c[27] == fix[0] && c[28] == fix[1] && c[29] == fix[2] && c[30] == fix[3]);
    if let Some(q) = tk.att {
        assert(fix[0] == written(q.w, DIGITS) && fix[1] == written(q.x, DIGITS));
        assert(fix[2] == written(q.y, DIGITS) && fix[3] == written(q.z, DIGITS));
    }
}

/// How far a replay has come.
#[verifier::ext_equal]
pub struct ReplayState<T> {
    pub filter: Option<FilterState<T>>,
    pub prev_t: T,
    pub errors: Errors<T>,
    pub pos_nees: Seq<T>,
    pub rows: nat,
}

/// A replay before its first row.
pub open spec fn replay_start<T: Real>() -> ReplayState<T> {
    ReplayState {
        filter: None,
        prev_t: lit::<T>(0, 1),
        errors: no_errors(),
        pos_nees: Seq::empty(),
        rows: 0,
    }
}

/// The filter at the first row: at the recorded truth, with the default uncertainty.
pub open spec fn replay_filter<T: Real>(truth: TrueState<T>) -> FilterState<T> {
    FilterState {
        nom: Nominal {
            p: truth.p,
            v: truth.v,
            q: truth.q,
            accel_bias: v3::origin(),
            gyro_bias: v3::origin(),
        },
        p: initial_covariance(standard_sigma()),
        noise: told_noise(standard_config()),
        last_update: None,
    }
}

/// The replay after a tick: the filter takes it in with the default sigmas, kept from vanishing, and
/// from five seconds on its error goes into the score, with a NEES sample at every twentieth tick.
pub open spec fn with_tick<T: Real>(s: ReplayState<T>, tick: Tick<T>) -> ReplayState<T> {
    let start = match s.filter {
        Some(f) => f,
        None => replay_filter(tick.truth),
    };
    let f = driven(start, tick, standard_config());
    let rows = s.rows + 1;
    let scored = at_most(lit::<T>(5, 1), tick.t);
    ReplayState {
        filter: Some(f),
        prev_t: tick.t,
        errors: if scored {
            with_errors(s.errors, f, tick.truth)
        } else {
            s.errors
        },
        pos_nees: match weighed(
            column(v3::subtracted(tick.truth.p, f.nom.p)),
            table(3, 3, |i: int, j: int| f.p[i][j]),
            3,
        ) {
            Some(v) if scored && rows % SAMPLE_EVERY as nat == 0 => s.pos_nees.push(v),
            _ => s.pos_nees,
        },
        rows,
    }
}

/// The replay after a row.
pub open spec fn with_row<T: Decimal>(s: ReplayState<T>, c: Seq<Seq<u8>>) -> ReplayState<T> {
    with_tick(s, row_tick::<T>(c, interval(s.prev_t, number(c, 0))))
}

/// The replay of `rows`, one after another. A row with too few fields is passed over.
pub open spec fn replayed<T: Decimal>(rows: Seq<Seq<u8>>) -> ReplayState<T>
    decreases rows.len(),
{
    if rows.len() == 0 {
        replay_start()
    } else {
        let before = replayed(rows.drop_last());
        let c = pieces(rows.last(), COMMA);
        if c.len() < COLUMNS {
            before
        } else {
            with_row(before, c)
        }
    }
}

/// A replay under way.
pub struct Replay<T> {
    pub filter: Option<Eskf<T>>,
    pub prev_t: T,
    pub errors: Errors<T>,
    pub pos_nees: Vec<T>,
    pub rows: usize,
}

impl<T> View for Replay<T> {
    type V = ReplayState<T>;

    open spec fn view(&self) -> ReplayState<T> {
        ReplayState {
            filter: match self.filter {
                Some(f) => Some(f@),
                None => None,
            },
            prev_t: self.prev_t,
            errors: self.errors,
            pos_nees: self.pos_nees@,
            rows: self.rows as nat,
        }
    }
}

impl<T: Decimal> Replay<T> {
    /// A replay before its first row.
    pub fn new() -> (out: Self)
        ensures
            out.rows == 0,
            functional::<T>() ==> out@ == replay_start::<T>(),
    {
        let out = Replay {
            filter: None,
            prev_t: T::ratio(0, 1),
            errors: Errors::none(),
            pos_nees: Vec::new(),
            rows: 0,
        };
        assert(functional::<T>() ==> out@ =~= replay_start::<T>());
        out
    }

    /// Takes in a row.
    pub fn take(&mut self, c: &Vec<Vec<u8>>)
        requires
            c@.len() >= COLUMNS,
            old(self).rows < usize::MAX,
        ensures
            final(self).rows == old(self).rows + 1,
            functional::<T>() && textual::<T>() ==> final(self)@ == with_row(old(self)@, texts(c@)),
    {
        let ghost before = self@;
        self.rows = self.rows + 1;
        let t: T = number_at(c, 0);
        let tick = read_tick(c, interval_between(self.prev_t, t));
        let cfg = SimConfig::<T>::default();
        let held = self.filter.take();
        let mut f = match held {
            Some(f) => f,
            None => {
                let nom = Nominal {
                    p: tick.truth.p,
                    v: tick.truth.v,
                    q: tick.truth.q,
                    accel_bias: v3::zero(),
                    gyro_bias: v3::zero(),
                };
                Eskf::new(nom, InitialSigma::default(), imu_noise(&cfg))
            },
        };
        self.prev_t = tick.t;
        drive(&mut f, &tick, &cfg);
        if T::ratio(5, 1).le(tick.t) {
            self.errors.take(&f, &tick.truth);
            if self.rows % SAMPLE_EVERY == 0 {
                if let Some(v) = position_nees(&f.nom, &tick.truth, f.covariance()) {
                    self.pos_nees.push(v);
                }
            }
        }
        self.filter = Some(f);
        assert(functional::<T>() && textual::<T>() ==> self@ =~= with_row(before, texts(c@)));
    }
}

/// The replay of the first `n` ticks of the recorded flight.
pub open spec fn replayed_flight<T: Decimal>(n: nat) -> ReplayState<T>
    decreases n,
{
    if n == 0 {
        replay_start()
    } else {
        let before = replayed_flight::<T>((n - 1) as nat);
        let tick = emitted(every_sensor::<T>(), RECORD_SEED, (n - 1) as nat);
        with_tick(before, replayed_tick(tick, interval(before.prev_t, reread(tick.t))))
    }
}

/// The first rows of a longer recording are those of a shorter one.
proof fn lemma_replay_rows<T: Decimal>(n: nat, k: nat)
    requires
        k <= n,
        always_spelled::<T>(),
        never_written::<T>(COMMA),
        never_written::<T>(NEWLINE),
        never_written::<T>(RETURN),
    ensures
        replayed::<T>(recorded_rows::<T>(n).skip(1).take(k as int)) == replayed_flight::<T>(k),
    decreases k,
{
    let rows = recorded_rows::<T>(n).skip(1);
    if k > 0 {
        let i = (k - 1) as nat;
        lemma_replay_rows::<T>(n, i);
        assert(rows.take(k as int).drop_last() =~= rows.take(i as int));
        let tick = emitted(every_sensor::<T>(), RECORD_SEED, i);
        recording_reads_back::<T>(n);
        assert(rows.take(k as int).last() == recorded_rows::<T>(n)[i as int + 1]);
        let c = row_fields(tick);
        assert(pieces(recorded_rows::<T>(n)[i as int + 1], COMMA) == c);
        row_has_every_column(tick);
        row_layout(tick);
        let before = replayed_flight::<T>(i);
        assert(number::<T>(c, 0) == reread(tick.t)) by {
            let head = c.subrange(0, 7);
            assert(c[0] == head[0]);
        }
        replay_sees_the_recorded_tick(tick, interval(before.prev_t, reread(tick.t)));
    }
}

/// Replaying a recording is replaying the flight: what the replay of the recorded text comes to is
/// what the filter makes of the recorded ticks themselves, their numbers rounded by the text. It
/// holds of every scalar whose numbers are written without commas and line ends and can be read
/// back.
pub proof fn replaying_a_recording_replays_the_flight<T: Decimal>(n: nat)
    requires
        always_spelled::<T>(),
        never_written::<T>(COMMA),
        never_written::<T>(NEWLINE),
        never_written::<T>(RETURN),
    ensures
        replayed::<T>(after_header(lines(page(recorded_rows::<T>(n))))) == replayed_flight::<T>(n),
{
    recording_reads_back::<T>(n);
    let rows = recorded_rows::<T>(n).skip(1);
    lemma_replay_rows::<T>(n, n);
    assert(rows.take(n as int) =~= rows);
}

/// The score of a replay.
#[derive(Debug)]
pub struct ReplayReport<T> {
    pub rows: usize,
    /// RMSE of position, velocity, and attitude in degrees.
    pub rmse: (T, T, T),
    pub mean_nees: T,
    /// Whether the mean position NEES is near its expectation.
    pub consistent: bool,
}

/// The mean of the NEES samples, zero where there is none.
pub open spec fn mean_of<T: Real>(samples: Seq<T>) -> T {
    quot(total(samples), whole::<T>(if samples.len() < 1 { 1 } else { samples.len() as u64 }))
}

/// The score of a replay, if any row went into it.
pub open spec fn report_of<T: Real>(s: ReplayState<T>) -> Option<ReplayReport<T>> {
    if same(s.errors.count, lit::<T>(0, 1)) {
        None
    } else {
        let mean_nees = mean_of(s.pos_nees);
        Some(
            ReplayReport {
                rows: s.rows as usize,
                rmse: rmse(s.errors),
                mean_nees,
                consistent: at_most(lit::<T>(15, 10), mean_nees) && less(
                    mean_nees,
                    lit::<T>(45, 10),
                ),
            },
        )
    }
}

/// The lines behind the header.
pub open spec fn after_header(all: Seq<Seq<u8>>) -> Seq<Seq<u8>> {
    if all.len() == 0 {
        Seq::empty()
    } else {
        all.skip(1)
    }
}

/// Replays a recording through the filter. Gives the score, or nothing where no row of the recording
/// could be scored.
pub fn replay<T: Decimal>(data: &[u8]) -> (out: Option<ReplayReport<T>>)
    ensures
        functional::<T>() && textual::<T>() ==> out == report_of(
            replayed::<T>(after_header(lines(data@))),
        ),
{
    let all = split_lines(data);
    let ghost rows = after_header(lines(data@));
    let mut state = Replay::<T>::new();
    assert(rows.take(0) =~= Seq::empty());
    let mut i: usize = 1;
    while i < all.len()
        invariant
            1 <= i,
            i <= all@.len() || i == 1,
            texts(all@) == lines(data@),
            rows == after_header(lines(data@)),
            state.rows < i,
            functional::<T>() && textual::<T>() ==> state@ == replayed::<T>(rows.take(i - 1)),
        decreases all@.len() - i,
    {
        assert(texts(all@).len() == all@.len());
        assert(rows.take(i as int).drop_last() =~= rows.take(i - 1));
        assert(texts(all@)[i as int] == all@[i as int]@);
        assert(rows.take(i as int).last() == all@[i as int]@);
        let c = split(all[i].as_slice(), COMMA);
        assert(texts(c@).len() == c@.len());
        if c.len() >= COLUMNS {
            state.take(&c);
        }
        i = i + 1;
    }
    assert(texts(all@).len() == all@.len());
    assert(functional::<T>() && textual::<T>() ==> state@ == replayed::<T>(rows)) by {
        if all@.len() > 0 {
            assert(rows.take(all@.len() - 1) =~= rows);
        } else {
            assert(rows.take(0) =~= rows);
        }
    }
    if state.errors.count.equals(T::ratio(0, 1)) {
        return None;
    }
    let n: u64 = if state.pos_nees.len() < 1 {
        1
    } else {
        state.pos_nees.len() as u64
    };
    let mean_nees = add_up(&state.pos_nees).over(T::from_u64(n));
    let consistent = T::ratio(15, 10).le(mean_nees) && mean_nees.lt(T::ratio(45, 10));
    Some(
        ReplayReport {
            rows: state.rows,
            rmse: state.errors.root_mean_squares(),
            mean_nees,
            consistent,
        },
    )
}

/// A row that goes into the score: one with every field, from five seconds on.
pub open spec fn counts<T: Decimal>(row: Seq<u8>) -> bool {
    let c = pieces(row, COMMA);
    c.len() >= COLUMNS && at_most(lit::<T>(5, 1), number::<T>(c, 0))
}

/// The ticks that go into the score of `rows`.
pub open spec fn counted<T: Decimal>(rows: Seq<Seq<u8>>) -> nat
    decreases rows.len(),
{
    if rows.len() == 0 {
        0
    } else {
        counted::<T>(rows.drop_last()) + (if counts::<T>(rows.last()) {
            1nat
        } else {
            0
        })
    }
}

proof fn lemma_count<T: Decimal>(val: spec_fn(T) -> real, rows: Seq<Seq<u8>>)
    requires
        exact(val),
    ensures
        val(replayed::<T>(rows).errors.count) == counted::<T>(rows) as real,
    decreases rows.len(),
{
    lemma_constants(val);
    if rows.len() > 0 {
        lemma_count::<T>(val, rows.drop_last());
    }
}

proof fn lemma_counted<T: Decimal>(rows: Seq<Seq<u8>>)
    ensures
        counted::<T>(rows) == 0 <==> (forall|i: int|
            0 <= i < rows.len() ==> !counts::<T>(#[trigger] rows[i])),
    decreases rows.len(),
{
    if rows.len() > 0 {
        let before = rows.drop_last();
        lemma_counted::<T>(before);
        assert(forall|i: int| 0 <= i < before.len() ==> #[trigger] before[i] == rows[i]);
        assert(rows.last() == rows[rows.len() - 1]);
        if counted::<T>(rows) == 0 {
            assert forall|i: int| 0 <= i < rows.len() implies !counts::<T>(#[trigger] rows[i]) by {
                if i < before.len() {
                    assert(!counts::<T>(before[i]));
                }
            }
        }
    }
}

/// A replay comes to nothing exactly where no row behind the header can be scored: none has every
/// field and a time from five seconds on.
pub proof fn replay_fails_where_no_row_counts<T: Decimal>(val: spec_fn(T) -> real, data: Seq<u8>)
    requires
        exact(val),
    ensures
        ({
            let rows = after_header(lines(data));
            report_of(replayed::<T>(rows)) is None <==> (forall|i: int|
                0 <= i < rows.len() ==> !counts::<T>(#[trigger] rows[i]))
        }),
{
    lemma_constants(val);
    let rows = after_header(lines(data));
    lemma_count::<T>(val, rows);
    lemma_counted::<T>(rows);
}

/// A row with too few fields leaves a replay as it is, wherever it stands.
pub proof fn short_rows_are_passed_over<T: Decimal>(before: Seq<Seq<u8>>, row: Seq<u8>, rest: Seq<Seq<u8>>)
    requires
        pieces(row, COMMA).len() < COLUMNS,
    ensures
        replayed::<T>(before.push(row) + rest) == replayed::<T>(before + rest),
    decreases rest.len(),
{
    if rest.len() == 0 {
        assert((before.push(row) + rest).drop_last() =~= before);
        assert((before.push(row) + rest).last() == row);
        assert(before + rest =~= before);
    } else {
        short_rows_are_passed_over::<T>(before, row, rest.drop_last());
        assert((before.push(row) + rest).drop_last() =~= before.push(row) + rest.drop_last());
        assert((before + rest).drop_last() =~= before + rest.drop_last());
    }
}

} // verus!
