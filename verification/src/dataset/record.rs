//! Writing a recording.

use vstd::prelude::*;
use vstd::string::StringSliceAdditionalSpecFns;

use crate::dataset::text::{
    extend, joined, lacks, lines, lines_undo_paging, page, pieces, push_row,
    splitting_undoes_joining, texts, COMMA, NEWLINE, RETURN,
};
use crate::decimal::{group_decimal_ops, textual, written, Decimal};
use crate::flight::{every_sensor, full_config, step_count, ticks_in};
use crate::linalg::V3;
use crate::quat::Quat;
use crate::scalar::{functional, group_real_ops};
use crate::sim::{emitted, simulated, Simulator, Tick};

verus! {

broadcast use {group_real_ops, group_decimal_ops};

/// Fields in a row.
pub const COLUMNS: usize = 41;

/// Digits after the point of every number in a recording.
pub const DIGITS: u8 = 5;

/// Seed of the recorded flight.
pub const RECORD_SEED: u64 = 0xE5F1_2024;

/// The names of the columns.
pub const CSV_HEADER: &'static str =
    "t,ax,ay,az,gx,gy,gz,gps_x,gps_y,gps_z,baro,mag_x,mag_y,mag_z,lidar,uwb0,uwb1,uwb2,uwb3,flow_x,flow_y,gpsv_x,gpsv_y,gpsv_z,dvl_x,dvl_y,dvl_z,att_w,att_x,att_y,att_z,tp_x,tp_y,tp_z,tv_x,tv_y,tv_z,tq_w,tq_x,tq_y,tq_z";

/// The fields of `values`.
pub open spec fn numbers<T: Decimal>(values: Seq<T>) -> Seq<Seq<u8>> {
    values.map_values(|x: T| written(x, DIGITS))
}

/// The fields of a reading: its numbers, or as many empty fields.
pub open spec fn optional<T: Decimal>(values: Option<Seq<T>>, count: nat) -> Seq<Seq<u8>> {
    match values {
        Some(v) => numbers(v),
        None => Seq::new(count, |i: int| Seq::empty()),
    }
}

/// The components of a quaternion, scalar first.
pub open spec fn parts<T>(q: Quat<T>) -> Seq<T> {
    seq![q.w, q.x, q.y, q.z]
}

/// The components of a reading of three.
pub open spec fn three<T>(v: Option<V3<T>>) -> Option<Seq<T>> {
    match v {
        Some(v) => Some(v@),
        None => None,
    }
}

/// The components of a reading of four.
pub open spec fn four<T>(v: Option<[T; 4]>) -> Option<Seq<T>> {
    match v {
        Some(v) => Some(v@),
        None => None,
    }
}

/// The components of a reading of two.
pub open spec fn two<T>(v: Option<[T; 2]>) -> Option<Seq<T>> {
    match v {
        Some(v) => Some(v@),
        None => None,
    }
}

/// The components of an attitude fix.
pub open spec fn turn<T>(q: Option<Quat<T>>) -> Option<Seq<T>> {
    match q {
        Some(q) => Some(parts(q)),
        None => None,
    }
}

/// The component of a reading of one.
pub open spec fn one<T>(v: Option<T>) -> Option<Seq<T>> {
    match v {
        Some(x) => Some(seq![x]),
        None => None,
    }
}

/// The fields of a tick.
pub open spec fn row_fields<T: Decimal>(tk: Tick<T>) -> Seq<Seq<u8>> {
    numbers(seq![tk.t]) + numbers(tk.accel@) + numbers(tk.gyro@) + optional(three(tk.gps), 3)
        + optional(one(tk.baro), 1) + optional(three(tk.mag), 3) + optional(one(tk.lidar), 1)
        + optional(four(tk.uwb), 4) + optional(two(tk.flow), 2) + optional(three(tk.gps_vel), 3)
        + optional(three(tk.dvl), 3) + optional(turn(tk.att), 4) + numbers(tk.truth.p@) + numbers(
        tk.truth.v@,
    ) + numbers(parts(tk.truth.q))
}

/// A row has a field for every column.
pub proof fn row_has_every_column<T: Decimal>(tk: Tick<T>)
    ensures
        row_fields(tk).len() == COLUMNS,
{
}

/// The readings of a row and their columns.
pub proof fn row_layout<T: Decimal>(tk: Tick<T>)
    ensures
        ({
            let c = row_fields(tk);
            &&& c.subrange(0, 7) == numbers(seq![tk.t]) + numbers(tk.accel@) + numbers(tk.gyro@)
            &&& c.subrange(7, 10) == optional(three(tk.gps), 3)
            &&& c.subrange(10, 11) == optional(one(tk.baro), 1)
            &&& c.subrange(11, 14) == optional(three(tk.mag), 3)
            &&& c.subrange(14, 15) == optional(one(tk.lidar), 1)
            &&& c.subrange(15, 19) == optional(four(tk.uwb), 4)
            &&& c.subrange(19, 21) == optional(two(tk.flow), 2)
            &&& c.subrange(21, 24) == optional(three(tk.gps_vel), 3)
            &&& c.subrange(24, 27) == optional(three(tk.dvl), 3)
            &&& c.subrange(27, 31) == optional(turn(tk.att), 4)
            &&& c.subrange(31, 41) == numbers(tk.truth.p@) + numbers(tk.truth.v@) + numbers(
                parts(tk.truth.q),
            )
        }),
{
    let c = row_fields(tk);
    assert(c.subrange(0, 7) =~= numbers(seq![tk.t]) + numbers(tk.accel@) + numbers(tk.gyro@));
    assert(c.subrange(7, 10) =~= optional(three(tk.gps), 3));
    assert(c.subrange(10, 11) =~= optional(one(tk.baro), 1));
    assert(c.subrange(11, 14) =~= optional(three(tk.mag), 3));
    assert(c.subrange(14, 15) =~= optional(one(tk.lidar), 1));
    assert(c.subrange(15, 19) =~= optional(four(tk.uwb), 4));
    assert(c.subrange(19, 21) =~= optional(two(tk.flow), 2));
    assert(c.subrange(21, 24) =~= optional(three(tk.gps_vel), 3));
    assert(c.subrange(24, 27) =~= optional(three(tk.dvl), 3));
    assert(c.subrange(27, 31) =~= optional(turn(tk.att), 4));
    assert(c.subrange(31, 41) =~= numbers(tk.truth.p@) + numbers(tk.truth.v@) + numbers(
        parts(tk.truth.q),
    ));
}

/// Appends the fields of `values`.
pub fn push_numbers<T: Decimal>(f: &mut Vec<Vec<u8>>, values: &[T])
    ensures
        final(f)@.len() == old(f)@.len() + values@.len(),
        textual::<T>() ==> texts(final(f)@) == texts(old(f)@) + numbers(values@),
{
    let ghost before = f@;
    assert(texts(before) + numbers(values@.take(0)) =~= texts(before));
    for i in 0..values.len()
        invariant
            f@.len() == before.len() + i,
            textual::<T>() ==> texts(f@) == texts(before) + numbers(values@.take(i as int)),
    {
        let ghost so_far = f@;
        f.push(values[i].to_fixed(DIGITS));
        assert(texts(f@) =~= texts(so_far).push(f@.last()@));
        assert(numbers(values@.take(i as int + 1)) =~= numbers(values@.take(i as int)).push(
            written(values@[i as int], DIGITS),
        ));
        assert(textual::<T>() ==> texts(f@) =~= texts(before) + numbers(values@.take(i as int + 1)));
    }
    assert(values@.take(values@.len() as int) =~= values@);
}

/// Appends `count` empty fields.
pub fn push_empty(f: &mut Vec<Vec<u8>>, count: usize)
    ensures
        texts(final(f)@) == texts(old(f)@) + Seq::new(count as nat, |i: int| Seq::<u8>::empty()),
{
    let ghost before = f@;
    for i in 0..count
        invariant
            texts(f@) == texts(before) + Seq::new(i as nat, |j: int| Seq::<u8>::empty()),
    {
        let ghost so_far = f@;
        f.push(Vec::new());
        assert(texts(f@) =~= texts(so_far).push(Seq::empty()));
        assert(texts(f@) =~= texts(before) + Seq::new(
            (i + 1) as nat,
            |j: int| Seq::<u8>::empty(),
        ));
    }
}

/// Appends the fields of a reading: its numbers, or `count` empty fields.
pub fn push_vec<T: Decimal>(f: &mut Vec<Vec<u8>>, v: Option<&[T]>, count: usize)
    ensures
        final(f)@.len() == old(f)@.len() + (match v {
            Some(values) => values@.len(),
            None => count as nat,
        }),
        v is None ==> texts(final(f)@) == texts(old(f)@) + Seq::new(
            count as nat,
            |i: int| Seq::<u8>::empty(),
        ),
        textual::<T>() ==> texts(final(f)@) == texts(old(f)@) + optional(
            match v {
                Some(values) => Some(values@),
                None => None,
            },
            count as nat,
        ),
{
    match v {
        Some(values) => {
            push_numbers(f, values);
        },
        None => {
            push_empty(f, count);
            assert(f@.len() == texts(f@).len());
            assert(old(f)@.len() == texts(old(f)@).len());
        },
    }
}

fn push3<T: Decimal>(f: &mut Vec<Vec<u8>>, v: Option<V3<T>>)
    ensures
        final(f)@.len() == old(f)@.len() + 3,
        textual::<T>() ==> texts(final(f)@) == texts(old(f)@) + optional(three(v), 3),
{
    match v {
        Some(v) => push_vec(f, Some(v.as_slice()), 3),
        None => push_vec::<T>(f, None, 3),
    }
}

fn push1<T: Decimal>(f: &mut Vec<Vec<u8>>, v: Option<T>)
    ensures
        final(f)@.len() == old(f)@.len() + 1,
        textual::<T>() ==> texts(final(f)@) == texts(old(f)@) + optional(one(v), 1),
{
    match v {
        Some(x) => {
            let a = [x];
            assert(a@ =~= seq![x]);
            push_vec(f, Some(a.as_slice()), 1)
        },
        None => push_vec::<T>(f, None, 1),
    }
}

fn push_quat<T: Decimal>(f: &mut Vec<Vec<u8>>, q: Quat<T>)
    ensures
        final(f)@.len() == old(f)@.len() + 4,
        textual::<T>() ==> texts(final(f)@) == texts(old(f)@) + numbers(parts(q)),
{
    let a = [q.w, q.x, q.y, q.z];
    assert(a@ =~= parts(q));
    push_numbers(f, a.as_slice());
}

/// The fields of a tick.
pub fn fields_of<T: Decimal>(tk: &Tick<T>) -> (f: Vec<Vec<u8>>)
    ensures
        f@.len() == COLUMNS,
        textual::<T>() ==> texts(f@) == row_fields(*tk),
{
    let mut f: Vec<Vec<u8>> = Vec::new();
    let t = [tk.t];
    assert(t@ =~= seq![tk.t]);
    assert(texts(f@) =~= Seq::empty());
    push_numbers(&mut f, t.as_slice());
    assert(textual::<T>() ==> texts(f@) =~= numbers(seq![tk.t]));
    push_numbers(&mut f, tk.accel.as_slice());
    push_numbers(&mut f, tk.gyro.as_slice());
    push3(&mut f, tk.gps);
    push1(&mut f, tk.baro);
    push3(&mut f, tk.mag);
    push1(&mut f, tk.lidar);
    match tk.uwb {
        Some(v) => push_vec(&mut f, Some(v.as_slice()), 4),
        None => push_vec::<T>(&mut f, None, 4),
    }
    match tk.flow {
        Some(v) => push_vec(&mut f, Some(v.as_slice()), 2),
        None => push_vec::<T>(&mut f, None, 2),
    }
    push3(&mut f, tk.gps_vel);
    push3(&mut f, tk.dvl);
    match tk.att {
        Some(q) => push_quat(&mut f, q),
        None => push_vec::<T>(&mut f, None, 4),
    }
    push_numbers(&mut f, tk.truth.p.as_slice());
    push_numbers(&mut f, tk.truth.v.as_slice());
    push_quat(&mut f, tk.truth.q);
    f
}

/// The rows of a recording of `n` ticks, the header first.
pub open spec fn recorded_rows<T: Decimal>(n: nat) -> Seq<Seq<u8>> {
    seq![CSV_HEADER.spec_bytes()] + Seq::new(
        n,
        |k: int| joined(row_fields(emitted(every_sensor::<T>(), RECORD_SEED, k as nat))),
    )
}

/// Records a flight with every sensor on. Gives the text and the number of ticks in it.
pub fn record<T: Decimal>(seconds: T) -> (out: (Vec<u8>, usize))
    ensures
        functional::<T>() ==> out.1 == ticks_in(seconds),
        functional::<T>() && textual::<T>() ==> (out.0)@ == page(recorded_rows::<T>(out.1 as nat)),
{
    let mut sim = Simulator::new(full_config::<T>(), RECORD_SEED);
    let steps: usize = step_count(seconds);
    let mut out: Vec<u8> = Vec::new();
    extend(&mut out, CSV_HEADER.as_bytes());
    out.push(NEWLINE);
    let ghost header = CSV_HEADER.spec_bytes();
    proof {
        let rows = recorded_rows::<T>(0);
        assert(rows =~= seq![header]);
        assert(rows.drop_last() =~= Seq::empty());
        assert(page(rows.drop_last()) + header =~= header);
        assert(out@ =~= page(rows));
    }
    for k in 0..steps
        invariant
            functional::<T>() ==> sim == simulated(every_sensor::<T>(), RECORD_SEED, k as nat),
            functional::<T>() && textual::<T>() ==> out@ == page(recorded_rows::<T>(k as nat)),
    {
        let tick = sim.step();
        assert(functional::<T>() ==> tick == emitted(every_sensor::<T>(), RECORD_SEED, k as nat));
        assert(functional::<T>() ==> sim == simulated(
            every_sensor::<T>(),
            RECORD_SEED,
            (k + 1) as nat,
        ));
        let f = fields_of(&tick);
        push_row(&mut out, &f);
        proof {
            let rows = recorded_rows::<T>((k + 1) as nat);
            assert(rows.drop_last() =~= recorded_rows::<T>(k as nat));
        }
    }
    (out, steps)
}

/// The text of every number is free of `c`.
pub open spec fn never_written<T: Decimal>(c: u8) -> bool {
    forall|x: T, digits: u8| lacks(#[trigger] written(x, digits), c)
}

/// A joined row is free of what its fields are free of.
proof fn lemma_joined_lacks(fields: Seq<Seq<u8>>, c: u8)
    requires
        c != COMMA,
        forall|i: int| 0 <= i < fields.len() ==> lacks(#[trigger] fields[i], c),
    ensures
        lacks(joined(fields), c),
    decreases fields.len(),
{
    if fields.len() > 1 {
        let init = fields.drop_last();
        assert forall|i: int| 0 <= i < init.len() implies lacks(#[trigger] init[i], c) by {
            assert(init[i] == fields[i]);
        }
        lemma_joined_lacks(init, c);
    } else if fields.len() == 1 {
        assert(lacks(fields[0], c));
    }
}

/// Every field of a row is a number's text, or empty.
proof fn lemma_fields_lack<T: Decimal>(tk: Tick<T>, c: u8)
    requires
        never_written::<T>(c),
    ensures
        forall|i: int| 0 <= i < row_fields(tk).len() ==> lacks(#[trigger] row_fields(tk)[i], c),
{
}

/// Reading a recording back line by line and field by field gives the header and then, row for row,
/// the fields that were written: the numbers of each tick and the gaps of the sensors that did not
/// fire. It holds of every scalar whose numbers are written without commas and line ends.
pub proof fn recording_reads_back<T: Decimal>(n: nat)
    requires
        never_written::<T>(COMMA),
        never_written::<T>(NEWLINE),
        never_written::<T>(RETURN),
    ensures
        lines(page(recorded_rows::<T>(n))) == recorded_rows::<T>(n),
        forall|k: int|
            0 <= k < n ==> #[trigger] pieces(recorded_rows::<T>(n)[k + 1], COMMA) == row_fields(
                emitted(every_sensor::<T>(), RECORD_SEED, k as nat),
            ),
{
    let rows = recorded_rows::<T>(n);
    assert(lacks(rows[0], NEWLINE) && lacks(rows[0], RETURN)) by {
        lemma_header_plain();
    }
    assert forall|i: int| 0 <= i < rows.len() implies lacks(#[trigger] rows[i], NEWLINE) && lacks(
        rows[i],
        RETURN,
    ) by {
        if i > 0 {
            let tk = emitted(every_sensor::<T>(), RECORD_SEED, (i - 1) as nat);
            lemma_fields_lack(tk, NEWLINE);
            lemma_fields_lack(tk, RETURN);
            lemma_joined_lacks(row_fields(tk), NEWLINE);
            lemma_joined_lacks(row_fields(tk), RETURN);
        }
    }
    lines_undo_paging(rows);
    assert forall|k: int| 0 <= k < n implies #[trigger] pieces(rows[k + 1], COMMA) == row_fields(
        emitted(every_sensor::<T>(), RECORD_SEED, k as nat),
    ) by {
        let tk = emitted(every_sensor::<T>(), RECORD_SEED, k as nat);
        lemma_fields_lack(tk, COMMA);
        row_has_every_column(tk);
        splitting_undoes_joining(row_fields(tk));
    }
}

/// The header is one line of plain text.
proof fn lemma_header_plain()
    ensures
        lacks(CSV_HEADER.spec_bytes(), NEWLINE),
        lacks(CSV_HEADER.spec_bytes(), RETURN),
{
    reveal_strlit(
        "t,ax,ay,az,gx,gy,gz,gps_x,gps_y,gps_z,baro,mag_x,mag_y,mag_z,lidar,uwb0,uwb1,uwb2,uwb3,flow_x,flow_y,gpsv_x,gpsv_y,gpsv_z,dvl_x,dvl_y,dvl_z,att_w,att_x,att_y,att_z,tp_x,tp_y,tp_z,tv_x,tv_y,tv_z,tq_w,tq_x,tq_y,tq_z",
    );
    assert(CSV_HEADER.is_ascii());
    vstd::string::is_ascii_spec_bytes(CSV_HEADER);
}

} // verus!
