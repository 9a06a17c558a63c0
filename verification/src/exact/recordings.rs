//! What a replay does with the rows of a recording.

use vstd::prelude::*;

use crate::dataset::record::{row_fields, COLUMNS};
use crate::dataset::replay::{
    interval, number, replay_filter, replay_start, replayed, report_of, row_tick, with_tick,
    ReplayState,
};
use crate::dataset::text::{pieces, COMMA};
use crate::decimal::{spelled, written, Decimal};
use crate::exact::{exact, lemma_constants};
use crate::exact::algebra::comm;
use crate::exact::jacobians::dot3;
use crate::exact::matrices::numbers;
use crate::exact::quaternions::triple;
use crate::exact::readings::entries;
use crate::exact::residuals::apart;
use crate::exact::scores::{is_weight, minus3, nees_weighs_the_error, scoring_adds_squared_errors};
use crate::exact::small::lemma_times_quotient;
use crate::exact::sums::rsum;
use crate::exact::windows::{total_is_the_sum, value_sum};
use crate::filter::{initial_covariance, standard_sigma, FilterState};
use crate::flight::{driven, rmse};
use crate::linalg::{shaped, V3};
use crate::quat::{angular_error, Quat};
use crate::scalar::{lit, whole, Real};
use crate::session::position_score;
use crate::sim::{standard_config, Tick};
use crate::trajectory::TrueState;

verus! {

/// The step between two rows is the time between their stamps, whenever that is at least a tenth of a
/// millisecond, which it never falls below; the step into a first row is one period of two hundred hertz.
pub proof fn step_is_the_time_between<T: Real>(val: spec_fn(T) -> real, prev: T, t: T)
    requires
        exact(val),
    ensures
        ({
            let d = val(t) - val(prev);
            let step = val(interval(prev, t));
            &&& val(prev) > 0real && d >= 1real / 10_000real ==> step == d
            &&& val(prev) > 0real && d < 1real / 10_000real ==> step == 1real / 10_000real
            &&& val(prev) <= 0real ==> step == 1real / 200real
        }),
{
    lemma_constants(val);
    assert(val(lit::<T>(1, 10_000)) == 1real / 10_000real);
    assert(val(lit::<T>(200, 1)) == 200real);
}

/// The stamp of a row.
pub open spec fn stamp<T: Decimal>(row: Seq<u8>) -> T {
    number::<T>(pieces(row, COMMA), 0)
}

/// The step with which a replay takes in row `i`.
pub open spec fn step_into<T: Decimal>(rows: Seq<Seq<u8>>, i: int) -> T {
    interval(replayed::<T>(rows.take(i)).prev_t, stamp::<T>(rows[i]))
}

/// Every row has every field, and the stamps increase by at least a tenth of a millisecond, from a
/// positive one on.
pub open spec fn well_stamped<T: Decimal>(val: spec_fn(T) -> real, rows: Seq<Seq<u8>>) -> bool {
    &&& forall|i: int|
        0 <= i < rows.len() ==> pieces(#[trigger] rows[i], COMMA).len() >= 41
    &&& forall|i: int, j: int|
        0 <= i < j < rows.len() ==> val(#[trigger] stamp::<T>(rows[j])) - val(
            #[trigger] stamp::<T>(rows[i]),
        ) >= 1real / 10_000real
    &&& rows.len() > 0 ==> val(stamp::<T>(rows[0])) > 0real
}

/// A replay takes in a row that has every field with the step into that row, and remembers its stamp.
proof fn lemma_row_taken<T: Decimal>(rows: Seq<Seq<u8>>, i: int)
    requires
        0 <= i < rows.len(),
        pieces(rows[i], COMMA).len() >= 41,
    ensures
        replayed::<T>(rows.take(i + 1)) == with_tick(
            replayed::<T>(rows.take(i)),
            row_tick::<T>(pieces(rows[i], COMMA), step_into::<T>(rows, i)),
        ),
        replayed::<T>(rows.take(i + 1)).prev_t == stamp::<T>(rows[i]),
{
    let some = rows.take(i + 1);
    assert(some.drop_last() =~= rows.take(i));
    assert(some.last() == rows[i]);
    assert(COLUMNS == 41);
}

/// The steps of a replay add up to the time that the recording spans: each row after the first drives
/// the filter for the time since the row before.
pub proof fn steps_add_up_to_the_span<T: Decimal>(
    val: spec_fn(T) -> real,
    rows: Seq<Seq<u8>>,
    n: nat,
)
    requires
        exact(val),
        well_stamped::<T>(val, rows),
        n < rows.len(),
    ensures
        rsum(n, |i: int| val(step_into::<T>(rows, i + 1))) == val(stamp::<T>(rows[n as int])) - val(
            stamp::<T>(rows[0]),
        ),
        replayed::<T>(rows.take(n as int + 1)) == with_tick(
            replayed::<T>(rows.take(n as int)),
            row_tick::<T>(pieces(rows[n as int], COMMA), step_into::<T>(rows, n as int)),
        ),
        val(step_into::<T>(rows, 0)) == 1real / 200real,
        n > 0 ==> val(step_into::<T>(rows, n as int)) == val(stamp::<T>(rows[n as int])) - val(
            stamp::<T>(rows[n - 1]),
        ),
    decreases n,
{
    lemma_row_taken::<T>(rows, n as int);
    assert(rows.take(0) =~= Seq::empty());
    assert(val(replay_start::<T>().prev_t) == 0real) by {
        lemma_constants(val);
    }
    step_is_the_time_between(val, replay_start::<T>().prev_t, stamp::<T>(rows[0]));
    if n > 0 {
        let m = (n - 1) as nat;
        steps_add_up_to_the_span(val, rows, m);
        lemma_row_taken::<T>(rows, m as int);
        let (a, b) = (stamp::<T>(rows[m as int]), stamp::<T>(rows[n as int]));
        assert(val(b) - val(a) >= 1real / 10_000real);
        assert(val(a) > 0real) by {
            if m > 0 {
                assert(val(a) - val(stamp::<T>(rows[0])) >= 1real / 10_000real);
            }
        }
        step_is_the_time_between(val, a, b);
    }
}

/// The filter that takes in a tick of a replay: the one at hand, or else one that starts from the truth
/// of the tick, without biases, with the standard uncertainty, and with the noise of the default settings
/// as it is.
pub open spec fn takes_in<T: Real>(
    val: spec_fn(T) -> real,
    s: ReplayState<T>,
    f: FilterState<T>,
    x: TrueState<T>,
) -> bool {
    match s.filter {
        Some(g) => f == g,
        None => {
            &&& f.nom.p == x.p && f.nom.v == x.v && f.nom.q == x.q
            &&& triple(val, f.nom.accel_bias) == (0real, 0real, 0real)
            &&& triple(val, f.nom.gyro_bias) == (0real, 0real, 0real)
            &&& f.p == initial_covariance(standard_sigma::<T>())
            &&& f.noise.accel == standard_config::<T>().accel_noise
            &&& f.noise.gyro == standard_config::<T>().gyro_noise
            &&& f.noise.accel_bias == standard_config::<T>().accel_bias_walk
            &&& f.noise.gyro_bias == standard_config::<T>().gyro_bias_walk
            &&& triple(val, f.noise.gravity) == (0real, 0real, -980_665real / 100_000real)
            &&& f.last_update is None
        },
    }
}

/// A tick of a replay drives the filter, counts a row, and is scored from the fifth second on: the
/// squared errors are added, and the position NEES of every twentieth row is kept, where there is one.
pub proof fn replay_scores_from_the_fifth_second<T: Real>(
    val: spec_fn(T) -> real,
    s: ReplayState<T>,
    tick: Tick<T>,
)
    requires
        exact(val),
    ensures
        ({
            let next = with_tick(s, tick);
            let scored = val(tick.t) >= 5real;
            let x = tick.truth;
            let (e0, e1) = (s.errors, next.errors);
            &&& next.prev_t == tick.t
            &&& next.rows == s.rows + 1
            &&& next.filter matches Some(f) && {
                &&& exists|g: FilterState<T>|
                    f == #[trigger] driven(g, tick, standard_config::<T>()) && takes_in(val, s, g, x)
                &&& scored ==> {
                    let angle = triple(val, angular_error(x.q, f.nom.q));
                    &&& val(e1.pos) == val(e0.pos) + apart(triple(val, f.nom.p), triple(val, x.p))
                    &&& val(e1.vel) == val(e0.vel) + apart(triple(val, f.nom.v), triple(val, x.v))
                    &&& val(e1.att) == val(e0.att) + dot3(angle, angle)
                    &&& val(e1.count) == val(e0.count) + 1real
                }
                &&& !scored ==> e1 == e0
                &&& next.pos_nees == s.pos_nees || {
                    &&& scored && next.rows % 20 == 0
                    &&& next.pos_nees.len() == s.pos_nees.len() + 1
                    &&& next.pos_nees.drop_last() == s.pos_nees
                    &&& shaped(f.p, 15, 15) ==> is_weight(
                        val(next.pos_nees.last()),
                        numbers(val, f.p),
                        entries(minus3(triple(val, x.p), triple(val, f.nom.p))),
                        3,
                    )
                }
                &&& scored && next.rows % 20 == 0 && position_score(f, x) is Some
                    ==> next.pos_nees.len() == s.pos_nees.len() + 1
            }
        }),
{
    lemma_constants(val);
    assert(val(lit::<T>(5, 1)) == 5real);
    assert(val(lit::<T>((-980_665) as i64, 100_000)) == -980_665real / 100_000real);
    let next = with_tick(s, tick);
    let f = next.filter->0;
    let g = match s.filter {
        Some(f) => f,
        None => replay_filter(tick.truth),
    };
    assert(f == driven(g, tick, standard_config::<T>()));
    assert(takes_in(val, s, g, tick.truth));
    scoring_adds_squared_errors(val, s.errors, f, tick.truth);
    if shaped(f.p, 15, 15) {
        nees_weighs_the_error(val, f, tick.truth);
    }
    if next.pos_nees.len() == s.pos_nees.len() + 1 {
        assert(next.pos_nees.drop_last() =~= s.pos_nees);
    }
}

/// The report of a replay: there is one where a row was scored; it tells the rows, the figures and the
/// arithmetic mean of the NEES, and the filter is consistent when that is at least 1.5 and below 4.5.
pub proof fn report_tells_the_mean<T: Real>(val: spec_fn(T) -> real, s: ReplayState<T>)
    requires
        exact(val),
        s.pos_nees.len() <= u64::MAX,
        s.rows <= usize::MAX,
    ensures
        report_of(s) is Some <==> val(s.errors.count) != 0real,
        report_of(s) matches Some(r) ==> {
            let n = s.pos_nees.len() as real;
            let total = value_sum(val, s.pos_nees);
            &&& r.rows == s.rows
            &&& r.rmse == rmse(s.errors)
            &&& n > 0real ==> val(r.mean_nees) * n == total
            &&& n <= 0real ==> val(r.mean_nees) == 0real
            &&& r.consistent <==> n > 0real && 15real / 10real <= total / n < 45real / 10real
        },
{
    lemma_constants(val);
    total_is_the_sum(val, s.pos_nees);
    assert(val(lit::<T>(15, 10)) == 15real / 10real);
    assert(val(lit::<T>(45, 10)) == 45real / 10real);
    let k = s.pos_nees.len();
    if k > 0 {
        let n = k as real;
        assert(val(whole::<T>(k as u64)) == n);
        assert(n > 0real);
        let total = value_sum(val, s.pos_nees);
        lemma_times_quotient(n, total);
        comm(n, total / n);
    } else {
        assert(val(whole::<T>(1)) == 1real);
    }
}

/// Three fields in a row, each a number with five decimals.
pub open spec fn written3<T: Decimal>(c: Seq<Seq<u8>>, i: int, v: V3<T>) -> bool {
    &&& c[i] == written(v[0], 5)
    &&& c[i + 1] == written(v[1], 5)
    &&& c[i + 2] == written(v[2], 5)
}

/// Four fields in a row: an orientation, scalar part first.
pub open spec fn written4<T: Decimal>(c: Seq<Seq<u8>>, i: int, q: Quat<T>) -> bool {
    &&& c[i] == written(q.w, 5)
    &&& c[i + 1] == written(q.x, 5)
    &&& c[i + 2] == written(q.y, 5)
    &&& c[i + 3] == written(q.z, 5)
}

/// The fields from `i` to `j` are empty.
pub open spec fn blank(c: Seq<Seq<u8>>, i: int, j: int) -> bool {
    forall|k: int| i <= k < j ==> (#[trigger] c[k]).len() == 0
}

/// The columns of a recording, each with its own number: what a sensor read, or nothing where it did not
/// fire.
pub proof fn columns_hold_the_numbers<T: Decimal>(tk: Tick<T>)
    ensures
        ({
            let c = row_fields(tk);
            let x = tk.truth;
            &&& c.len() == 41
            &&& c[0] == written(tk.t, 5)
            &&& written3(c, 1, tk.accel) && written3(c, 4, tk.gyro)
            &&& tk.gps matches Some(v) ==> written3(c, 7, v)
            &&& tk.gps is None ==> blank(c, 7, 10)
            &&& tk.baro matches Some(v) ==> c[10] == written(v, 5)
            &&& tk.baro is None ==> blank(c, 10, 11)
            &&& tk.mag matches Some(v) ==> written3(c, 11, v)
            &&& tk.mag is None ==> blank(c, 11, 14)
            &&& tk.lidar matches Some(v) ==> c[14] == written(v, 5)
            &&& tk.lidar is None ==> blank(c, 14, 15)
            &&& tk.uwb matches Some(v) ==> {
                &&& c[15] == written(v[0], 5) && c[16] == written(v[1], 5)
                &&& c[17] == written(v[2], 5) && c[18] == written(v[3], 5)
            }
            &&& tk.uwb is None ==> blank(c, 15, 19)
            &&& tk.flow matches Some(v) ==> c[19] == written(v[0], 5) && c[20] == written(v[1], 5)
            &&& tk.flow is None ==> blank(c, 19, 21)
            &&& tk.gps_vel matches Some(v) ==> written3(c, 21, v)
            &&& tk.gps_vel is None ==> blank(c, 21, 24)
            &&& tk.dvl matches Some(v) ==> written3(c, 24, v)
            &&& tk.dvl is None ==> blank(c, 24, 27)
            &&& tk.att matches Some(q) ==> written4(c, 27, q)
            &&& tk.att is None ==> blank(c, 27, 31)
            &&& written3(c, 31, x.p) && written3(c, 34, x.v) && written4(c, 37, x.q)
        }),
{
}

/// A number read from a field: what the field spells, or zero where it spells nothing.
pub open spec fn reads<T: Decimal>(val: spec_fn(T) -> real, x: T, field: Seq<u8>) -> bool {
    match spelled::<T>(field) {
        Some(y) => x == y,
        None => val(x) == 0real,
    }
}

/// Three numbers read from fields in a row.
pub open spec fn reads3<T: Decimal>(
    val: spec_fn(T) -> real,
    v: V3<T>,
    c: Seq<Seq<u8>>,
    i: int,
) -> bool {
    reads(val, v[0], c[i]) && reads(val, v[1], c[i + 1]) && reads(val, v[2], c[i + 2])
}

/// An orientation read from fields in a row, scalar part first.
pub open spec fn reads4<T: Decimal>(
    val: spec_fn(T) -> real,
    q: Quat<T>,
    c: Seq<Seq<u8>>,
    i: int,
) -> bool {
    &&& reads(val, q.w, c[i]) && reads(val, q.x, c[i + 1])
    &&& reads(val, q.y, c[i + 2]) && reads(val, q.z, c[i + 3])
}

/// Three numbers of a sensor, which fired where the first field is not empty.
pub open spec fn senses3<T: Decimal>(
    val: spec_fn(T) -> real,
    v: Option<V3<T>>,
    c: Seq<Seq<u8>>,
    i: int,
) -> bool {
    match v {
        Some(v) => c[i].len() > 0 && reads3(val, v, c, i),
        None => c[i].len() == 0,
    }
}

/// Every number of a row is read from its own column. A vector sensor fired where its first field is not
/// empty; the barometer and the altimeter where their field spells a number.
pub proof fn columns_are_read<T: Decimal>(val: spec_fn(T) -> real, c: Seq<Seq<u8>>, dt: T)
    requires
        exact(val),
        spelled::<T>(Seq::empty()) is None,
    ensures
        ({
            let k = row_tick::<T>(c, dt);
            let x = k.truth;
            &&& k.dt == dt
            &&& reads(val, k.t, c[0])
            &&& reads3(val, k.accel, c, 1) && reads3(val, k.gyro, c, 4)
            &&& senses3(val, k.gps, c, 7)
            &&& k.baro == spelled::<T>(c[10])
            &&& senses3(val, k.mag, c, 11)
            &&& k.lidar == spelled::<T>(c[14])
            &&& k.uwb is Some <==> c[15].len() > 0
            &&& k.uwb matches Some(v) ==> {
                &&& reads(val, v[0], c[15]) && reads(val, v[1], c[16])
                &&& reads(val, v[2], c[17]) && reads(val, v[3], c[18])
            }
            &&& k.flow is Some <==> c[19].len() > 0
            &&& k.flow matches Some(v) ==> reads(val, v[0], c[19]) && reads(val, v[1], c[20])
            &&& senses3(val, k.gps_vel, c, 21)
            &&& senses3(val, k.dvl, c, 24)
            &&& k.att is Some <==> c[27].len() > 0
            &&& k.att matches Some(q) ==> reads4(val, q, c, 27)
            &&& reads3(val, x.p, c, 31) && reads3(val, x.v, c, 34) && reads4(val, x.q, c, 37)
            &&& triple(val, x.accel_bias) == (0real, 0real, 0real)
            &&& triple(val, x.gyro_bias) == (0real, 0real, 0real)
        }),
{
    lemma_constants(val);
    if c[10].len() == 0 {
        assert(c[10] =~= Seq::empty());
    }
    if c[14].len() == 0 {
        assert(c[14] =~= Seq::empty());
    }
}

/// A replay starts with nothing.
pub proof fn replay_starts_empty<T: Real>(val: spec_fn(T) -> real)
    requires
        exact(val),
    ensures
        ({
            let s = replay_start::<T>();
            &&& s.filter is None && s.rows == 0 && s.pos_nees.len() == 0
            &&& val(s.prev_t) == 0real
            &&& val(s.errors.pos) == 0real && val(s.errors.vel) == 0real
            &&& val(s.errors.att) == 0real && val(s.errors.count) == 0real
        }),
{
    lemma_constants(val);
}

} // verus!
