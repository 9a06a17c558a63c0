//! What the verdicts of a campaign say of its samples.

use vstd::prelude::*;

use crate::campaign::{
    averaged, band, chi2_quantile, consistent, in_window, pooled_full, pooled_positions,
    summed_rmse, total, window_of, window_verdict, Window, CAMPAIGN_RUNS, FLIGHT_SECONDS,
    SCENARIO_RUNS, WINDOWS,
};
use crate::exact::{exact, lemma_constants};
use crate::exact::algebra::{cancel, comm, same_square, times_one, times_zero};
use crate::exact::small::{lemma_scaled_bound, lemma_times_quotient};
use crate::exact::sums::{lemma_scale, lemma_terms, lemma_zero, rsum};
use crate::flight::{errors_of, full_samples, position_samples, rmse, ticks_in, values};
use crate::scalar::{diff, lit, prod, quot, root, rounded, truncated, whole, Real};
use crate::sim::SimConfig;

verus! {

/// Numbers become counts as they should: cut off towards zero, or taken to the nearest, half a unit
/// upwards, with nothing below zero.
pub open spec fn exact_counts<T: Real>(val: spec_fn(T) -> real) -> bool {
    &&& forall|a: T|
        #![trigger truncated(a)]
        0real <= val(a) < 4_294_967_295real ==> truncated(a) as real <= val(a) < truncated(a) as real
            + 1real
    &&& forall|a: T|
        #![trigger rounded(a)]
        0real <= val(a) < 4_294_967_294real ==> rounded(a) as real - 1real / 2real <= val(a) < rounded(
            a,
        ) as real + 1real / 2real
    &&& forall|a: T| #![trigger truncated(a)] val(a) < 0real ==> truncated(a) == 0
    &&& forall|a: T| #![trigger rounded(a)] val(a) < 0real ==> rounded(a) == 0
}

/// The sum of what the numbers stand for.
pub open spec fn value_sum<T>(val: spec_fn(T) -> real, s: Seq<T>) -> real {
    rsum(s.len(), |i: int| val(s[i]))
}

/// Adding up gives the sum.
pub proof fn total_is_the_sum<T: Real>(val: spec_fn(T) -> real, s: Seq<T>)
    requires
        exact(val),
    ensures
        val(total(s)) == value_sum(val, s),
    decreases s.len(),
{
    lemma_constants(val);
    if s.len() > 0 {
        let t = s.drop_last();
        total_is_the_sum(val, t);
        lemma_terms(t.len(), |i: int| val(t[i]), |i: int| val(s[i]));
    }
}

/// A sum whose terms are nowhere above those of another is not above it, and is below it where some term
/// is below.
pub proof fn lemma_below(n: nat, f: spec_fn(int) -> real, g: spec_fn(int) -> real)
    requires
        forall|i: int| 0 <= i < n ==> #[trigger] f(i) <= g(i),
    ensures
        rsum(n, f) <= rsum(n, g),
        (exists|i: int| 0 <= i < n && #[trigger] f(i) < g(i)) ==> rsum(n, f) < rsum(n, g),
    decreases n,
{
    if n > 0 {
        lemma_below((n - 1) as nat, f, g);
        assert(f(n - 1) <= g(n - 1));
    }
}

/// A mean against a bound is the sum against as many times the bound.
pub proof fn lemma_mean_against(s: real, n: real, k: real)
    requires
        n > 0real,
    ensures
        k <= s / n <==> k * n <= s,
        s / n < k <==> s < k * n,
{
    let m = s / n;
    lemma_times_quotient(n, s);
    comm(n, k);
    if k <= m {
        lemma_scaled_bound(n, k, m);
    } else {
        assert(n * m < n * k) by (nonlinear_arith)
            requires
                n > 0real,
                m < k,
        ;
    }
}

/// The time `t` lies in window `b` of a flight: five seconds each, from the fifth second on; what is
/// later than the last lies in the last, and what is earlier in the first.
pub open spec fn lies_in(t: real, b: int) -> bool {
    &&& b == 0 || 5real + 5real * (b as real) <= t
    &&& b == 4 || t < 10real + 5real * (b as real)
}

/// Which window a sample belongs to is told by its time.
pub proof fn windows_are_five_seconds<T: Real>(val: spec_fn(T) -> real, t: T, b: int)
    requires
        exact(val),
        exact_counts(val),
        val(t) < 4_294_967_295real,
        0 <= b < 5,
    ensures
        window_of(t) == b <==> lies_in(val(t), b),
{
    assert(val(lit::<T>(5, 1)) == 5real);
    let a = quot(diff(t, lit::<T>(5, 1)), lit::<T>(5, 1));
    let x = (val(t) - 5real) / 5real;
    assert(val(a) == x);
    let n = truncated(a);
    assert(WINDOWS == 5);
    if x >= 0real {
        assert(n as real <= x < n as real + 1real);
        if n >= 4 {
            assert(n as real >= 4real);
        } else {
            assert(n == 0 || n == 1 || n == 2 || n == 3);
        }
    }
    assert(b == 0 || b == 1 || b == 2 || b == 3 || b == 4);
}

/// The sum of the samples whose times lie in window `b`.
pub open spec fn sum_inside<T>(val: spec_fn(T) -> real, samples: Seq<(T, T)>, b: int) -> real {
    rsum(
        samples.len(),
        |i: int|
            if lies_in(val(samples[i].0), b) {
                val(samples[i].1)
            } else {
                0real
            },
    )
}

/// How many samples have their times in window `b`.
pub open spec fn count_inside<T>(val: spec_fn(T) -> real, samples: Seq<(T, T)>, b: int) -> real {
    rsum(
        samples.len(),
        |i: int|
            if lies_in(val(samples[i].0), b) {
                1real
            } else {
                0real
            },
    )
}

/// The times are within what a count can hold.
pub open spec fn timely<T>(val: spec_fn(T) -> real, samples: Seq<(T, T)>) -> bool {
    forall|i: int| 0 <= i < samples.len() ==> val((#[trigger] samples[i]).0) < 4_294_967_295real
}

/// What a window holds.
proof fn lemma_window<T: Real>(val: spec_fn(T) -> real, samples: Seq<(T, T)>, b: int)
    requires
        exact(val),
        exact_counts(val),
        timely(val, samples),
        0 <= b < 5,
    ensures
        value_sum(val, in_window(samples, b)) == sum_inside(val, samples, b),
        in_window(samples, b).len() as real == count_inside(val, samples, b),
        in_window(samples, b).len() <= samples.len(),
    decreases samples.len(),
{
    let n = samples.len();
    if n > 0 {
        let front = samples.drop_last();
        lemma_window(val, front, b);
        let last = samples[n - 1];
        windows_are_five_seconds(val, last.0, b);
        let f = |i: int| if lies_in(val(front[i].0), b) { val(front[i].1) } else { 0real };
        let f2 = |i: int| if lies_in(val(samples[i].0), b) { val(samples[i].1) } else { 0real };
        lemma_terms(front.len(), f, f2);
        let c = |i: int| if lies_in(val(front[i].0), b) { 1real } else { 0real };
        let c2 = |i: int| if lies_in(val(samples[i].0), b) { 1real } else { 0real };
        lemma_terms(front.len(), c, c2);
        let before = in_window(front, b);
        let s = before.push(last.1);
        lemma_terms(before.len(), |i: int| val(before[i]), |i: int| val(s[i]));
        if lies_in(val(last.0), b) {
            assert(in_window(samples, b) == s);
            assert(s.len() as real == before.len() as real + 1real);
        } else {
            assert(in_window(samples, b) == before);
        }
    }
}

/// The verdict on a window is ok exactly when it holds a sample and the arithmetic mean of the samples
/// in it is at least 2 and below 4.2. The mean that it tells is that mean, or zero where the window is
/// empty.
pub proof fn window_is_ok_near_three<T: Real>(val: spec_fn(T) -> real, samples: Seq<(T, T)>, b: int)
    requires
        exact(val),
        exact_counts(val),
        timely(val, samples),
        samples.len() <= u64::MAX,
        0 <= b < 5,
    ensures
        ({
            let v = window_verdict(samples, b);
            let (s, n) = (sum_inside(val, samples, b), count_inside(val, samples, b));
            &&& n > 0real ==> val(v.mean) == s / n
            &&& n <= 0real ==> val(v.mean) == 0real
            &&& v.ok <==> n > 0real && 2real <= s / n < 42real / 10real
        }),
{
    lemma_constants(val);
    lemma_window(val, samples, b);
    let inside = in_window(samples, b);
    total_is_the_sum(val, inside);
    assert(val(lit::<T>(42, 10)) == 42real / 10real);
    if inside.len() > 0 {
        let m = whole::<T>(inside.len() as u64);
        assert(val(m) == inside.len() as real);
        assert(inside.len() as real > 0real);
    }
}

/// A window whose samples are all below 2 is never ok, nor one whose samples are all 4.2 or more.
pub proof fn window_of_low_or_high_samples_fails<T: Real>(
    val: spec_fn(T) -> real,
    samples: Seq<(T, T)>,
    b: int,
)
    requires
        exact(val),
        exact_counts(val),
        timely(val, samples),
        samples.len() <= u64::MAX,
        0 <= b < 5,
    ensures
        (forall|i: int|
            0 <= i < samples.len() && lies_in(val((#[trigger] samples[i]).0), b) ==> val(samples[i].1)
                < 2real) ==> !window_verdict(samples, b).ok,
        (forall|i: int|
            0 <= i < samples.len() && lies_in(val((#[trigger] samples[i]).0), b) ==> val(samples[i].1)
                >= 42real / 10real) ==> !window_verdict(samples, b).ok,
{
    window_is_ok_near_three(val, samples, b);
    let n = samples.len();
    let f = |i: int| if lies_in(val(samples[i].0), b) { val(samples[i].1) } else { 0real };
    let c = |i: int| if lies_in(val(samples[i].0), b) { 1real } else { 0real };
    let s = sum_inside(val, samples, b);
    let m = count_inside(val, samples, b);
    assert(s == rsum(n, f) && m == rsum(n, c));
    if m > 0real {
        lemma_mean_against(s, m, 2real);
        lemma_mean_against(s, m, 42real / 10real);
        if forall|i: int|
            0 <= i < samples.len() && lies_in(val((#[trigger] samples[i]).0), b) ==> val(samples[i].1)
                < 2real {
            let g = |i: int| 2real * c(i);
            lemma_scale(n, 2real, c);
            if !exists|i: int| 0 <= i < n && #[trigger] f(i) < g(i) {
                assert forall|i: int| 0 <= i < n implies #[trigger] c(i) == 0real by {
                    assert(!(f(i) < g(i)));
                    let x = samples[i];
                }
                lemma_zero(n, c);
            }
            assert forall|i: int| 0 <= i < n implies #[trigger] f(i) <= g(i) by {
                let x = samples[i];
            }
            lemma_below(n, f, g);
        }
        if forall|i: int|
            0 <= i < samples.len() && lies_in(val((#[trigger] samples[i]).0), b) ==> val(samples[i].1)
                >= 42real / 10real {
            let k = 42real / 10real;
            let g = |i: int| k * c(i);
            lemma_scale(n, k, c);
            assert forall|i: int| 0 <= i < n implies #[trigger] g(i) <= f(i) by {
                let x = samples[i];
                times_one(k, 1real);
                times_zero(k, 0real);
            }
            lemma_below(n, g, f);
        }
    }
}

/// `r` is the relative spread of a χ² variable with `k` degrees of freedom: `9 k r² = 2`.
pub open spec fn is_spread(k: real, r: real) -> bool {
    r >= 0real && (9real * k) * (r * r) == 2real
}

/// `k` times the cube of `1 − r² + z r`.
pub open spec fn cubed_quantile(k: real, z: real, r: real) -> real {
    let base = (1real - r * r) + z * r;
    ((k * base) * base) * base
}

/// The χ² quantile is the number of degrees of freedom times the cube of a normal quantile.
pub proof fn quantile_is_a_cubed_normal<T: Real>(val: spec_fn(T) -> real, k: T, z: T)
    requires
        exact(val),
        val(k) > 0real,
    ensures
        exists|r: real|
            #[trigger] is_spread(val(k), r) && val(chi2_quantile(k, z)) == cubed_quantile(
                val(k),
                val(z),
                r,
            ),
{
    lemma_constants(val);
    let a = quot(lit::<T>(2, 1), prod(lit::<T>(9, 1), k));
    let d = 9real * val(k);
    assert(val(lit::<T>(9, 1)) == 9real);
    lemma_times_quotient(d, 2real);
    assert(2real / d >= 0real) by (nonlinear_arith)
        requires
            d > 0real,
    ;
    let r = val(root(a));
    assert(val(a) == 2real / d);
    assert(is_spread(val(k), r));
}

/// Two spreads of one number of degrees of freedom are the same.
proof fn lemma_one_spread(k: real, r: real, s: real)
    requires
        k > 0real,
        is_spread(k, r),
        is_spread(k, s),
    ensures
        r == s,
{
    let d = 9real * k;
    cancel(d, r * r);
    cancel(d, s * s);
    same_square(r, s);
}

/// The pooled mean against its bounds: the bounds are the 2.5% and 97.5% quantiles of as many degrees of
/// freedom as all the flights have, over the number of flights, and the band is met when the arithmetic
/// mean lies between them.
pub open spec fn meets(v: real, dof: u64, runs: u64) -> bool {
    let k = runs as real * dof as real;
    let z = 1_959_964real / 1_000_000real;
    exists|r: real|
        #[trigger] is_spread(k, r) && cubed_quantile(k, -z, r) / (runs as real) <= v <= cubed_quantile(
            k,
            z,
            r,
        ) / (runs as real)
}

/// The band of a pool of samples: none where there is no sample, and otherwise their arithmetic mean,
/// with its bounds.
pub proof fn band_is_met_between_its_quantiles<T: Real>(
    val: spec_fn(T) -> real,
    samples: Seq<T>,
    dof: u64,
    runs: u64,
)
    requires
        exact(val),
        samples.len() <= u64::MAX,
        runs > 0,
        dof > 0,
        runs * dof <= u64::MAX,
    ensures
        band(samples, dof, runs) is Some <==> samples.len() > 0,
        band(samples, dof, runs) matches Some(b) ==> {
            let mean = value_sum(val, samples) / (samples.len() as real);
            let k = runs as real * dof as real;
            let z = 1_959_964real / 1_000_000real;
            &&& val(b.mean) == mean
            &&& exists|r: real|
                {
                    &&& #[trigger] is_spread(k, r)
                    &&& val(b.lo) == cubed_quantile(k, -z, r) / (runs as real)
                    &&& val(b.hi) == cubed_quantile(k, z, r) / (runs as real)
                }
            &&& b.ok <==> val(b.lo) <= mean <= val(b.hi)
            &&& b.ok <==> meets(mean, dof, runs)
        },
{
    if samples.len() > 0 {
        total_is_the_sum(val, samples);
        let n = whole::<T>(samples.len() as u64);
        assert(val(n) == samples.len() as real && samples.len() as real > 0real);
        let k = whole::<T>((runs * dof) as u64);
        let kr = runs as real * dof as real;
        let product = (runs * dof) as int;
        assert(product >= 1) by (nonlinear_arith)
            requires
                runs >= 1,
                dof >= 1,
                product == runs * dof,
        ;
        assert(val(k) == (runs * dof) as real);
        assert((runs * dof) as real == runs as real * dof as real) by (nonlinear_arith);
        let z = lit::<T>(1_959_964, 1_000_000);
        let zn = lit::<T>((-1_959_964) as i64, 1_000_000);
        assert(val(z) == 1_959_964real / 1_000_000real);
        assert(val(zn) == -(1_959_964real / 1_000_000real));
        quantile_is_a_cubed_normal(val, k, z);
        quantile_is_a_cubed_normal(val, k, zn);
        let r = choose|r: real|
            #[trigger] is_spread(kr, r) && val(chi2_quantile(k, z)) == cubed_quantile(kr, val(z), r);
        let s = choose|s: real|
            #[trigger] is_spread(kr, s) && val(chi2_quantile(k, zn)) == cubed_quantile(kr, val(zn), s);
        lemma_one_spread(kr, r, s);
        let b = band(samples, dof, runs)->0;
        let mean = value_sum(val, samples) / (samples.len() as real);
        assert(is_spread(kr, r) && val(b.lo) == cubed_quantile(kr, val(zn), r) / (runs as real) && val(
            b.hi,
        ) == cubed_quantile(kr, val(z), r) / (runs as real));
        if meets(mean, dof, runs) {
            let q = choose|q: real|
                #[trigger] is_spread(kr, q) && cubed_quantile(kr, val(zn), q) / (runs as real) <= mean
                    <= cubed_quantile(kr, val(z), q) / (runs as real);
            lemma_one_spread(kr, r, q);
        }
    }
}

/// A campaign is consistent exactly when the pooled mean of the position NEES meets the band of 3 degrees
/// of freedom, that of the full-state NEES the band of 15, and every one of the five windows holds
/// samples with a mean of at least 2 and below 4.2.
pub proof fn campaign_needs_every_part<T: Real>(
    val: spec_fn(T) -> real,
    timed: Seq<(T, T)>,
    full: Seq<T>,
    runs: u64,
    windows: [Window<T>; WINDOWS],
)
    requires
        exact(val),
        exact_counts(val),
        timely(val, timed),
        timed.len() <= u64::MAX,
        full.len() <= u64::MAX,
        runs > 0,
        runs * 15 <= u64::MAX,
        forall|b: int| 0 <= b < 5 ==> #[trigger] windows[b] == window_verdict(timed, b),
    ensures
        consistent(band(values(timed), 3, runs), band(full, 15, runs), windows) <==> {
            &&& timed.len() > 0
            &&& full.len() > 0
            &&& meets(
                rsum(timed.len(), |i: int| val(timed[i].1)) / (timed.len() as real),
                3,
                runs,
            )
            &&& meets(value_sum(val, full) / (full.len() as real), 15, runs)
            &&& forall|b: int|
                0 <= b < 5 ==> {
                    let (s, n) = (sum_inside(val, timed, b), #[trigger] count_inside(val, timed, b));
                    n > 0real && 2real <= s / n < 42real / 10real
                }
        },
{
    band_is_met_between_its_quantiles(val, values(timed), 3, runs);
    let v = values(timed);
    lemma_terms(v.len(), |i: int| val(v[i]), |i: int| val(timed[i].1));
    band_is_met_between_its_quantiles(val, full, 15, runs);
    assert forall|b: int| 0 <= b < 5 implies ((#[trigger] windows[b]).ok <==> ({
        let (s, n) = (sum_inside(val, timed, b), count_inside(val, timed, b));
        n > 0real && 2real <= s / n < 42real / 10real
    })) by {
        window_is_ok_near_three(val, timed, b);
    }
    if consistent(band(values(timed), 3, runs), band(full, 15, runs), windows) {
        assert forall|b: int| 0 <= b < 5 implies ({
            let (s, n) = (sum_inside(val, timed, b), #[trigger] count_inside(val, timed, b));
            n > 0real && 2real <= s / n < 42real / 10real
        }) by {
            assert(windows[b].ok);
        }
    } else if forall|b: int|
        0 <= b < 5 ==> {
            let (s, n) = (sum_inside(val, timed, b), #[trigger] count_inside(val, timed, b));
            n > 0real && 2real <= s / n < 42real / 10real
        } {
        assert forall|b: int| 0 <= b < 5 implies (#[trigger] windows[b]).ok by {
            assert(count_inside(val, timed, b) > 0real);
        }
    }
}

/// The figures of a batch are the means of those of its flights, whose seeds start at `base` and are
/// `stride` apart.
pub proof fn batch_figures_are_means<T: Real>(
    val: spec_fn(T) -> real,
    cfg: SimConfig<T>,
    base: u64,
    stride: u64,
    seconds: T,
    runs: u64,
)
    requires
        exact(val),
        runs > 0,
    ensures
        ({
            let out = averaged(summed_rmse(cfg, base, stride, seconds, runs as nat), runs);
            let of = |i: int| rmse(errors_of(cfg, (base + i * stride) as u64, ticks_in(seconds) as nat));
            &&& val(out.0) * (runs as real) == rsum(runs as nat, |i: int| val(of(i).0))
            &&& val(out.1) * (runs as real) == rsum(runs as nat, |i: int| val(of(i).1))
            &&& val(out.2) * (runs as real) == rsum(runs as nat, |i: int| val(of(i).2))
        }),
{
    lemma_summed(val, cfg, base, stride, seconds, runs as nat);
    let sums = summed_rmse(cfg, base, stride, seconds, runs as nat);
    let n = runs as real;
    lemma_times_quotient(n, val(sums.0));
    lemma_times_quotient(n, val(sums.1));
    lemma_times_quotient(n, val(sums.2));
    comm(n, val(sums.0) / n);
    comm(n, val(sums.1) / n);
    comm(n, val(sums.2) / n);
}

proof fn lemma_summed<T: Real>(
    val: spec_fn(T) -> real,
    cfg: SimConfig<T>,
    base: u64,
    stride: u64,
    seconds: T,
    n: nat,
)
    requires
        exact(val),
    ensures
        ({
            let out = summed_rmse(cfg, base, stride, seconds, n);
            let of = |i: int| rmse(errors_of(cfg, (base + i * stride) as u64, ticks_in(seconds) as nat));
            &&& val(out.0) == rsum(n, |i: int| val(of(i).0))
            &&& val(out.1) == rsum(n, |i: int| val(of(i).1))
            &&& val(out.2) == rsum(n, |i: int| val(of(i).2))
        }),
    decreases n,
{
    lemma_constants(val);
    if n > 0 {
        lemma_summed(val, cfg, base, stride, seconds, (n - 1) as nat);
    }
}

/// `one` stands in `all` from place `from` on.
#[verifier::opaque]
pub open spec fn stands_at<A>(one: Seq<A>, all: Seq<A>, from: nat) -> bool {
    &&& from + one.len() <= all.len()
    &&& forall|j: int| 0 <= j < one.len() ==> #[trigger] one[j] == all[from + j]
}

proof fn lemma_stands<A>(one: Seq<A>, before: Seq<A>, last: Seq<A>, from: nat)
    ensures
        stands_at(one, before, from) ==> stands_at(one, before + last, from),
        stands_at(last, before + last, before.len()),
{
    reveal(stands_at);
}

/// What is put together part by part holds every part.
proof fn lemma_pool<A>(pool: spec_fn(nat) -> Seq<A>, part: spec_fn(nat) -> Seq<A>, i: nat, n: nat)
    requires
        i < n,
        forall|k: nat| #[trigger] pool(k + 1) == pool(k) + part(k),
    ensures
        stands_at(part(i), pool(n), pool(i).len()),
        i + 1 == n ==> pool(i).len() + part(i).len() == pool(n).len(),
    decreases n,
{
    let m = (n - 1) as nat;
    assert(pool(m + 1) == pool(m) + part(m));
    lemma_stands(part(i), pool(m), part(m), pool(i).len());
    if i < m {
        lemma_pool(pool, part, i, m);
    }
}

proof fn lemma_positions_added<T: Real>(
    cfg: SimConfig<T>,
    base: u64,
    stride: u64,
    seconds: T,
    k: nat,
)
    ensures
        pooled_positions(cfg, base, stride, seconds, k + 1) == pooled_positions(
            cfg,
            base,
            stride,
            seconds,
            k,
        ) + position_samples(cfg, (base + k * stride) as u64, ticks_in(seconds) as nat),
{
}

proof fn lemma_full_added<T: Real>(cfg: SimConfig<T>, base: u64, stride: u64, seconds: T, k: nat)
    ensures
        pooled_full(cfg, base, stride, seconds, k + 1) == pooled_full(cfg, base, stride, seconds, k)
            + full_samples(cfg, (base + k * stride) as u64, ticks_in(seconds) as nat),
{
}

/// The pool of the first `n` flights of a batch holds what each of them gives: that of flight `i`, whose
/// seed is `i` strides from the first, stands where the pool of the flights before it ends.
#[verifier::rlimit(40)]
pub proof fn pool_holds_every_flight<T: Real>(
    cfg: SimConfig<T>,
    base: u64,
    stride: u64,
    seconds: T,
    i: nat,
    n: nat,
)
    requires
        i < n,
    ensures
        stands_at(
            position_samples(cfg, (base + i * stride) as u64, ticks_in(seconds) as nat),
            pooled_positions(cfg, base, stride, seconds, n),
            pooled_positions(cfg, base, stride, seconds, i).len(),
        ),
        stands_at(
            full_samples(cfg, (base + i * stride) as u64, ticks_in(seconds) as nat),
            pooled_full(cfg, base, stride, seconds, n),
            pooled_full(cfg, base, stride, seconds, i).len(),
        ),
        pooled_positions(cfg, base, stride, seconds, i + 1).len() == pooled_positions(
            cfg,
            base,
            stride,
            seconds,
            i,
        ).len() + position_samples(cfg, (base + i * stride) as u64, ticks_in(seconds) as nat).len(),
        pooled_full(cfg, base, stride, seconds, i + 1).len() == pooled_full(
            cfg,
            base,
            stride,
            seconds,
            i,
        ).len() + full_samples(cfg, (base + i * stride) as u64, ticks_in(seconds) as nat).len(),
{
    let pool = |k: nat| pooled_positions(cfg, base, stride, seconds, k);
    let part = |k: nat| position_samples(cfg, (base + k * stride) as u64, ticks_in(seconds) as nat);
    assert forall|k: nat| #[trigger] pool(k + 1) == pool(k) + part(k) by {
        lemma_positions_added(cfg, base, stride, seconds, k);
    }
    lemma_pool(pool, part, i, n);
    lemma_pool(pool, part, i, i + 1);
    let pool2 = |k: nat| pooled_full(cfg, base, stride, seconds, k);
    let part2 = |k: nat| full_samples(cfg, (base + k * stride) as u64, ticks_in(seconds) as nat);
    assert forall|k: nat| #[trigger] pool2(k + 1) == pool2(k) + part2(k) by {
        lemma_full_added(cfg, base, stride, seconds, k);
    }
    lemma_pool(pool2, part2, i, n);
    lemma_pool(pool2, part2, i, i + 1);
}

/// A campaign is forty flights of thirty seconds, six thousand ticks each, and a scenario twelve flights.
pub proof fn campaign_flies_forty_times<T: Real>(val: spec_fn(T) -> real)
    requires
        exact(val),
        exact_counts(val),
    ensures
        CAMPAIGN_RUNS == 40,
        SCENARIO_RUNS == 12,
        ticks_in(lit::<T>(FLIGHT_SECONDS, 1)) == 6000,
{
    assert(val(lit::<T>(FLIGHT_SECONDS, 1)) == 30real);
    assert(val(lit::<T>(200, 1)) == 200real);
    let n = ticks_in(lit::<T>(FLIGHT_SECONDS, 1));
    assert(n as real <= 6000real < n as real + 1real);
}

} // verus!
