//! The series behind the plots, taken from flights tick by tick.

use vstd::prelude::*;

use crate::filter::Eskf;
use crate::flight::{
    airborne, filter_of, full_nees_of, lemma_settings_kept, position_nees_of, sampled, settling,
    squared, step_count, tick_time, ticks_in, time_of, truth_of, Flight, SAMPLE_EVERY,
};
use crate::campaign::batch_seed;
use crate::linalg::v3;
use crate::metrics::{nees, position_nees};
use crate::scalar::{diff, functional, group_real_ops, larger, lit, prod, quot, root, sum, Real};
use crate::sim::{SimConfig, Tick};

verus! {

broadcast use group_real_ops;

/// Position and full-state NEES at a time.
#[derive(Clone, Copy, Debug)]
pub struct NeesSample<T> {
    pub t: T,
    pub pos: T,
    pub full: T,
}

/// Position error in x and z, and three sigmas of each.
#[derive(Clone, Copy, Debug)]
pub struct EnvelopeSample<T> {
    pub t: T,
    pub ex: T,
    pub s3x: T,
    pub ez: T,
    pub s3z: T,
}

/// Position error at a time.
#[derive(Clone, Copy, Debug)]
pub struct DriftSample<T> {
    pub t: T,
    pub err: T,
}

/// The NEES samples of the first `n` ticks: where both values exist, after the filter settles.
pub open spec fn nees_samples<T: Real>(cfg: SimConfig<T>, seed: u64, n: nat) -> Seq<NeesSample<T>>
    decreases n,
{
    if n == 0 {
        Seq::empty()
    } else {
        let k = (n - 1) as nat;
        let before = nees_samples(cfg, seed, k);
        match (position_nees_of(cfg, seed, k), full_nees_of(cfg, seed, k)) {
            (Some(pos), Some(full)) if sampled::<T>(k) => before.push(
                NeesSample { t: time_of(k), pos, full },
            ),
            _ => before,
        }
    }
}

/// Three standard deviations for a variance, which rounding may have left below zero.
pub open spec fn three_sigma<T: Real>(var: T) -> T {
    prod(lit::<T>(3, 1), root(larger(var, lit::<T>(0, 1))))
}

/// The envelope sample at tick `k`.
pub open spec fn envelope_of<T: Real>(cfg: SimConfig<T>, seed: u64, k: nat) -> EnvelopeSample<T> {
    let f = filter_of(cfg, seed, k);
    let truth = truth_of(cfg, seed, k);
    EnvelopeSample {
        t: time_of(k),
        ex: diff(f.nom.p[0], truth.p[0]),
        s3x: three_sigma(f.p[0][0]),
        ez: diff(f.nom.p[2], truth.p[2]),
        s3z: three_sigma(f.p[2][2]),
    }
}

/// The drift sample at tick `k`.
pub open spec fn drift_of<T: Real>(cfg: SimConfig<T>, seed: u64, k: nat) -> DriftSample<T> {
    let dp = v3::subtracted(filter_of(cfg, seed, k).nom.p, truth_of(cfg, seed, k).p);
    DriftSample { t: time_of(k), err: root(squared(dp)) }
}

/// How many of the first `n` ticks are sampled, from the start on.
pub open spec fn sample_count(n: nat) -> nat {
    (n + SAMPLE_EVERY as nat - 1) as nat / SAMPLE_EVERY as nat
}

/// Per-sample position and full-state NEES after the filter settles.
#[verifier::rlimit(60)]
pub fn nees_series<T: Real>(cfg: SimConfig<T>, seed: u64, seconds: T) -> (out: Vec<NeesSample<T>>)
    ensures
        functional::<T>() ==> out@ == nees_samples(cfg, seed, ticks_in(seconds) as nat),
{
    let mut flight = Flight::new(cfg, seed);
    let steps: usize = step_count(seconds);
    let settle: usize = step_count(T::ratio(5, 1));
    let mut out: Vec<NeesSample<T>> = Vec::new();
    for k in 0..steps
        invariant
            functional::<T>() ==> settle == settling::<T>(),
            functional::<T>() ==> flight@ == airborne(cfg, seed, k as nat),
            functional::<T>() ==> out@ == nees_samples(cfg, seed, k as nat),
    {
        proof {
            lemma_settings_kept(cfg, seed, k as nat);
        }
        let tick = flight.tick();
        assert(functional::<T>() ==> flight@ == airborne(cfg, seed, (k + 1) as nat));
        assert(functional::<T>() ==> flight@.filter == filter_of(cfg, seed, k as nat));
        assert(functional::<T>() ==> tick.truth == truth_of(cfg, seed, k as nat));
        if k >= settle && k % SAMPLE_EVERY == 0 {
            let f = &flight.filter;
            let pos = position_nees(&f.nom, &tick.truth, f.covariance());
            let full = nees(&f.nom, &tick.truth, f.covariance());
            if let (Some(pos), Some(full)) = (pos, full) {
                out.push(NeesSample { t: tick_time(k), pos, full });
            }
        }
    }
    out
}

/// Sample `k / 20` is taken at tick `k`, for each `k` that is a multiple of 20.
proof fn lemma_sample_count(k: nat)
    ensures
        sample_count(0) == 0,
        k % SAMPLE_EVERY as nat == 0 ==> sample_count(k) * SAMPLE_EVERY == k && sample_count(k + 1)
            == sample_count(k) + 1,
        k % SAMPLE_EVERY as nat != 0 ==> sample_count(k + 1) == sample_count(k),
{
}

fn envelope_sample<T: Real>(k: usize, f: &Eskf<T>, tick: &Tick<T>) -> (r: EnvelopeSample<T>)
    ensures
        functional::<T>() ==> r == (EnvelopeSample {
            t: time_of(k as nat),
            ex: diff(f.nom.p[0], tick.truth.p[0]),
            s3x: three_sigma(f@.p[0][0]),
            ez: diff(f.nom.p[2], tick.truth.p[2]),
            s3z: three_sigma(f@.p[2][2]),
        }),
{
    let p = f.covariance();
    let zero = T::ratio(0, 1);
    let three = T::ratio(3, 1);
    assert(p.m[0][0] == f@.p[0][0] && p.m[2][2] == f@.p[2][2]);
    EnvelopeSample {
        t: tick_time(k),
        ex: f.nom.p[0].minus(tick.truth.p[0]),
        s3x: three.times(p.m[0][0].max(zero).sqrt()),
        ez: f.nom.p[2].minus(tick.truth.p[2]),
        s3z: three.times(p.m[2][2].max(zero).sqrt()),
    }
}

/// Per-sample position error against the filter's own three-sigma envelope, from the start,
/// convergence included.
#[verifier::rlimit(60)]
pub fn envelope_series<T: Real>(cfg: SimConfig<T>, seed: u64, seconds: T) -> (out: Vec<
    EnvelopeSample<T>,
>)
    ensures
        functional::<T>() ==> out@ == Seq::new(
            sample_count(ticks_in(seconds) as nat),
            |i: int| envelope_of(cfg, seed, (i * SAMPLE_EVERY) as nat),
        ),
{
    let mut flight = Flight::new(cfg, seed);
    let steps: usize = step_count(seconds);
    let mut out: Vec<EnvelopeSample<T>> = Vec::new();
    for k in 0..steps
        invariant
            functional::<T>() ==> flight@ == airborne(cfg, seed, k as nat),
            out@.len() == sample_count(k as nat),
            functional::<T>() ==> forall|i: int|
                0 <= i < out@.len() ==> #[trigger] out@[i] == envelope_of(
                    cfg,
                    seed,
                    (i * SAMPLE_EVERY) as nat,
                ),
    {
        proof {
            lemma_settings_kept(cfg, seed, k as nat);
            lemma_sample_count(k as nat);
        }
        let tick = flight.tick();
        assert(functional::<T>() ==> flight@ == airborne(cfg, seed, (k + 1) as nat));
        assert(functional::<T>() ==> flight@.filter == filter_of(cfg, seed, k as nat));
        assert(functional::<T>() ==> tick.truth == truth_of(cfg, seed, k as nat));
        if k % SAMPLE_EVERY == 0 {
            let sample = envelope_sample(k, &flight.filter, &tick);
            assert(functional::<T>() ==> sample == envelope_of(cfg, seed, k as nat));
            out.push(sample);
        }
    }
    out
}

/// Per-sample position-error norm, from the start.
#[verifier::rlimit(60)]
pub fn drift_series<T: Real>(cfg: SimConfig<T>, seed: u64, seconds: T) -> (out: Vec<DriftSample<T>>)
    ensures
        functional::<T>() ==> out@ == Seq::new(
            sample_count(ticks_in(seconds) as nat),
            |i: int| drift_of(cfg, seed, (i * SAMPLE_EVERY) as nat),
        ),
{
    let mut flight = Flight::new(cfg, seed);
    let steps: usize = step_count(seconds);
    let mut out: Vec<DriftSample<T>> = Vec::new();
    for k in 0..steps
        invariant
            functional::<T>() ==> flight@ == airborne(cfg, seed, k as nat),
            out@.len() == sample_count(k as nat),
            functional::<T>() ==> forall|i: int|
                0 <= i < out@.len() ==> #[trigger] out@[i] == drift_of(
                    cfg,
                    seed,
                    (i * SAMPLE_EVERY) as nat,
                ),
    {
        proof {
            lemma_settings_kept(cfg, seed, k as nat);
            lemma_sample_count(k as nat);
        }
        let tick = flight.tick();
        assert(functional::<T>() ==> flight@ == airborne(cfg, seed, (k + 1) as nat));
        assert(functional::<T>() ==> flight@.filter == filter_of(cfg, seed, k as nat));
        assert(functional::<T>() ==> tick.truth == truth_of(cfg, seed, k as nat));
        if k % SAMPLE_EVERY == 0 {
            let dp = v3::sub(flight.filter.nom.p, tick.truth.p);
            let sample = DriftSample { t: tick_time(k), err: v3::dot(dp, dp).sqrt() };
            assert(functional::<T>() ==> sample == drift_of(cfg, seed, k as nat));
            out.push(sample);
        }
    }
    out
}

/// Sums of NEES samples over flights, and how many flights went into them.
#[derive(Clone, Copy, Debug)]
pub struct NeesSum<T> {
    pub t: T,
    pub pos: T,
    pub full: T,
    pub count: T,
}

/// The sums with one more flight. The first flight that has samples sets the times; a later one
/// adds as many samples as it has.
pub open spec fn accumulated<T: Real>(acc: Seq<NeesSum<T>>, more: Seq<NeesSample<T>>) -> Seq<
    NeesSum<T>,
> {
    if acc.len() == 0 {
        more.map_values(
            |s: NeesSample<T>| NeesSum { t: s.t, pos: s.pos, full: s.full, count: lit::<T>(1, 1) },
        )
    } else {
        Seq::new(
            acc.len(),
            |i: int|
                if i < more.len() {
                    NeesSum {
                        t: acc[i].t,
                        pos: sum(acc[i].pos, more[i].pos),
                        full: sum(acc[i].full, more[i].full),
                        count: sum(acc[i].count, lit::<T>(1, 1)),
                    }
                } else {
                    acc[i]
                },
        )
    }
}

/// Adds a flight's samples to the sums.
pub fn accumulate<T: Real>(acc: &mut Vec<NeesSum<T>>, more: &Vec<NeesSample<T>>)
    ensures
        old(acc)@.len() == 0 ==> final(acc)@.len() == more@.len(),
        old(acc)@.len() != 0 ==> final(acc)@.len() == old(acc)@.len(),
        functional::<T>() ==> final(acc)@ == accumulated(old(acc)@, more@),
{
    let one = T::ratio(1, 1);
    let ghost before = acc@;
    if acc.len() == 0 {
        for i in 0..more.len()
            invariant
                functional::<T>() ==> one == lit::<T>(1, 1),
                acc@.len() == i,
                forall|a: int|
                    0 <= a < i ==> #[trigger] acc@[a] == (NeesSum {
                        t: more@[a].t,
                        pos: more@[a].pos,
                        full: more@[a].full,
                        count: one,
                    }),
        {
            let s = more[i];
            acc.push(NeesSum { t: s.t, pos: s.pos, full: s.full, count: one });
        }
    } else {
        let n: usize = acc.len();
        for i in 0..n
            invariant
                before == old(acc)@,
                n == before.len(),
                functional::<T>() ==> one == lit::<T>(1, 1),
                acc@.len() == before.len(),
                forall|a: int| i <= a < acc@.len() ==> #[trigger] acc@[a] == before[a],
                functional::<T>() ==> forall|a: int|
                    0 <= a < i ==> #[trigger] acc@[a] == (if a < more@.len() {
                        NeesSum {
                            t: before[a].t,
                            pos: sum(before[a].pos, more@[a].pos),
                            full: sum(before[a].full, more@[a].full),
                            count: sum(before[a].count, lit::<T>(1, 1)),
                        }
                    } else {
                        before[a]
                    }),
        {
            if i < more.len() {
                let a = acc[i];
                let s = more[i];
                acc.set(
                    i,
                    NeesSum {
                        t: a.t,
                        pos: a.pos.plus(s.pos),
                        full: a.full.plus(s.full),
                        count: a.count.plus(one),
                    },
                );
            }
        }
    }
    assert(functional::<T>() ==> acc@ =~= accumulated(before, more@));
}

/// The sums over the first `n` flights of a batch.
pub open spec fn ensemble<T: Real>(
    cfg: SimConfig<T>,
    base: u64,
    stride: u64,
    seconds: T,
    n: nat,
) -> Seq<NeesSum<T>>
    decreases n,
{
    if n == 0 {
        Seq::empty()
    } else {
        let i = (n - 1) as nat;
        accumulated(
            ensemble(cfg, base, stride, seconds, i),
            nees_samples(cfg, batch_seed(base, stride, i), ticks_in(seconds) as nat),
        )
    }
}

/// The means of the sums.
pub open spec fn means<T: Real>(acc: Seq<NeesSum<T>>) -> Seq<NeesSample<T>> {
    acc.map_values(
        |a: NeesSum<T>| NeesSample { t: a.t, pos: quot(a.pos, a.count), full: quot(a.full, a.count) },
    )
}

/// NEES versus time, averaged over a batch of flights.
#[verifier::rlimit(60)]
pub fn mean_nees_series<T: Real>(
    cfg: SimConfig<T>,
    base: u64,
    stride: u64,
    runs: u64,
    seconds: T,
) -> (out: Vec<NeesSample<T>>)
    requires
        base + runs * stride <= u64::MAX,
    ensures
        functional::<T>() ==> out@ == means(ensemble(cfg, base, stride, seconds, runs as nat)),
{
    let mut acc: Vec<NeesSum<T>> = Vec::new();
    let mut seed: u64 = base;
    assert(0 * stride == 0) by (nonlinear_arith);
    for i in 0..runs
        invariant
            base + runs * stride <= u64::MAX,
            seed == base + i * stride,
            functional::<T>() ==> acc@ == ensemble(cfg, base, stride, seconds, i as nat),
    {
        assert(seed == batch_seed(base, stride, i as nat));
        let series = nees_series(cfg, seed, seconds);
        accumulate(&mut acc, &series);
        assert((i + 1) * stride == i * stride + stride && (i + 1) * stride <= runs * stride)
            by (nonlinear_arith)
            requires
                i < runs,
        ;
        seed = seed + stride;
    }
    let mut out: Vec<NeesSample<T>> = Vec::new();
    for i in 0..acc.len()
        invariant
            out@.len() == i,
            functional::<T>() ==> forall|a: int| 0 <= a < i ==> #[trigger] out@[a] == means(acc@)[a],
    {
        let a = acc[i];
        out.push(NeesSample { t: a.t, pos: a.pos.over(a.count), full: a.full.over(a.count) });
    }
    assert(functional::<T>() ==> out@ =~= means(acc@));
    out
}

} // verus!
