//! A small deterministic generator, SplitMix64 with a Box–Muller Gaussian: a seed fixes the whole
//! stream, so that a Monte-Carlo run can be replayed exactly.

use vstd::arithmetic::div_mod::{
    lemma_add_mod_noop, lemma_mod_add_multiples_vanish, lemma_small_mod,
};
use vstd::arithmetic::mul::lemma_mul_is_distributive_add_other_way;
use vstd::prelude::*;

use crate::linalg::V3;
use crate::scalar::{
    cosine, functional, group_real_ops, lit, log, prod, quot, root, sine, sum, turn, whole, Real,
};

verus! {

broadcast use group_real_ops;

/// The increment of the state, and the mask of the seed: the golden ratio in 64 bits.
pub const GOLDEN: u64 = 0x9e37_79b9_7f4a_7c15;

/// Two to the power 53: the number of steps in the uniform distribution.
pub const STEPS: u64 = 9_007_199_254_740_992;

/// The state after one more draw.
pub open spec fn advanced(state: u64) -> u64 {
    state.wrapping_add(GOLDEN)
}

/// The output for the advanced state `s`.
pub open spec fn mixed(s: u64) -> u64 {
    let a = (s ^ (s >> 30)).wrapping_mul(0xbf58_476d_1ce4_e5b9);
    let b = (a ^ (a >> 27)).wrapping_mul(0x94d0_49bb_1331_11eb);
    b ^ (b >> 31)
}

/// The step that the output `n` stands for: its top 53 bits. The last step stands for the one before
/// it, so that half a step more does not round up to the end of the interval where the scalar holds
/// 53 bits.
pub open spec fn step_of(n: u64) -> u64 {
    let top = n >> 11;
    if top >= STEPS - 1 {
        (STEPS - 2) as u64
    } else {
        top
    }
}

/// A step and half a step more lie below the end of the interval by more than one whole step.
pub proof fn steps_keep_clear_of_the_end(n: u64)
    ensures
        step_of(n) <= STEPS - 2,
{
}

/// The uniform variate that the output `n` stands for: its step, half a step off zero.
pub open spec fn unit_interval<T: Real>(n: u64) -> T {
    prod(
        sum(whole::<T>(step_of(n)), lit::<T>(1, 2)),
        quot(lit::<T>(1, 1), whole::<T>(STEPS)),
    )
}

/// The radius and the angle of a Box–Muller pair, from two uniform variates.
pub open spec fn polar<T: Real>(u1: T, u2: T) -> (T, T) {
    (root(prod(lit::<T>((-2) as i64, 1), log(u1))), prod(turn::<T>(), u2))
}

/// A SplitMix64 generator with a Box–Muller Gaussian: the same seed gives the same stream.
pub struct Rng<T> {
    pub state: u64,
    pub spare: Option<T>,
}

/// One Gaussian variate, and the generator after it: the spare one if there is one, otherwise the
/// cosine half of a new pair, whose sine half becomes the spare.
pub open spec fn gaussian_draw<T: Real>(r: Rng<T>) -> (T, Rng<T>) {
    match r.spare {
        Some(v) => (v, Rng { state: r.state, spare: None }),
        None => {
            let s1 = advanced(r.state);
            let s2 = advanced(s1);
            let (mag, angle) = polar::<T>(unit_interval(mixed(s1)), unit_interval(mixed(s2)));
            (prod(mag, cosine(angle)), Rng { state: s2, spare: Some(prod(mag, sine(angle))) })
        },
    }
}

/// `base` with Gaussian noise of standard deviation `sigma`, and the generator after it.
pub open spec fn noisy_draw<T: Real>(r: Rng<T>, base: T, sigma: T) -> (T, Rng<T>) {
    let (g, next) = gaussian_draw(r);
    (sum(base, prod(g, sigma)), next)
}

/// The vector `base` with independent noise on each component, and the generator after it.
pub open spec fn noisy3_draw<T: Real>(r: Rng<T>, base: V3<T>, sigma: T) -> (V3<T>, Rng<T>) {
    let (x, r1) = noisy_draw(r, base[0], sigma);
    let (y, r2) = noisy_draw(r1, base[1], sigma);
    let (z, r3) = noisy_draw(r2, base[2], sigma);
    ([x, y, z], r3)
}

/// The state that a seed starts from.
pub open spec fn seeded(seed: u64) -> u64 {
    seed ^ GOLDEN
}

/// The state `n` draws after `state`.
pub open spec fn state_after(state: u64, n: nat) -> u64
    decreases n,
{
    if n == 0 {
        state
    } else {
        advanced(state_after(state, (n - 1) as nat))
    }
}

/// The states of the generator run through an arithmetic progression modulo `2⁶⁴`.
pub proof fn stream_is_arithmetic(state: u64, n: nat)
    ensures
        state_after(state, n) == (state + n * GOLDEN) % 0x1_0000_0000_0000_0000,
    decreases n,
{
    if n > 0 {
        stream_is_arithmetic(state, (n - 1) as nat);
        let modulus = 0x1_0000_0000_0000_0000int;
        let before = state + (n - 1) * GOLDEN;
        lemma_mul_is_distributive_add_other_way(GOLDEN as int, n - 1, 1);
        lemma_small_mod(GOLDEN as nat, modulus as nat);
        lemma_add_mod_noop(before, GOLDEN as int, modulus);
        let here = before % modulus;
        if here + GOLDEN >= modulus {
            lemma_mod_add_multiples_vanish(here + GOLDEN - modulus, modulus);
            lemma_small_mod((here + GOLDEN - modulus) as nat, modulus as nat);
        } else {
            lemma_small_mod((here + GOLDEN) as nat, modulus as nat);
        }
    }
}

/// Two Gaussian variates in a row, from a generator without a spare, take two draws of the stream
/// and leave no spare.
pub proof fn gaussians_come_in_pairs<T: Real>(r: Rng<T>)
    requires
        r.spare is None,
    ensures
        ({
            let r2 = gaussian_draw(gaussian_draw(r).1).1;
            r2 == (Rng::<T> { state: state_after(r.state, 2), spare: None })
        }),
{
    reveal_with_fuel(state_after, 3);
}

impl<T: Real> Rng<T> {
    /// The generator of a seed.
    pub fn new(seed: u64) -> (r: Self)
        ensures
            r.state == seeded(seed),
            r.spare is None,
    {
        Rng { state: seed ^ GOLDEN, spare: None }
    }

    /// The next 64 bits of the stream.
    pub fn next_u64(&mut self) -> (r: u64)
        ensures
            final(self).state == advanced(old(self).state),
            final(self).spare == old(self).spare,
            r == mixed(advanced(old(self).state)),
    {
        self.state = self.state.wrapping_add(GOLDEN);
        let mut z: u64 = self.state;
        z = (z ^ (z >> 30)).wrapping_mul(0xbf58_476d_1ce4_e5b9);
        z = (z ^ (z >> 27)).wrapping_mul(0x94d0_49bb_1331_11eb);
        z ^ (z >> 31)
    }

    /// Uniform in (0, 1).
    pub fn uniform(&mut self) -> (r: T)
        ensures
            final(self).state == advanced(old(self).state),
            final(self).spare == old(self).spare,
            functional::<T>() ==> r == unit_interval::<T>(mixed(advanced(old(self).state))),
    {
        let top: u64 = self.next_u64() >> 11;
        let step: u64 = if top >= STEPS - 1 {
            STEPS - 2
        } else {
            top
        };
        T::from_u64(step).plus(T::ratio(1, 2)).times(T::ratio(1, 1).over(T::from_u64(STEPS)))
    }

    /// Standard normal.
    pub fn gaussian(&mut self) -> (r: T)
        ensures
            old(self).spare is Some ==> final(self).state == old(self).state,
            old(self).spare is None ==> final(self).state == advanced(advanced(old(self).state)),
            final(self).spare is Some == old(self).spare is None,
            functional::<T>() ==> (r, *final(self)) == gaussian_draw(*old(self)),
    {
        if let Some(v) = self.spare {
            self.spare = None;
            return v;
        }
        let u1 = self.uniform();
        let u2 = self.uniform();
        let mag = T::ratio(-2, 1).times(u1.ln()).sqrt();
        let angle = T::tau().times(u2);
        self.spare = Some(mag.times(angle.sin()));
        mag.times(angle.cos())
    }

    /// `base` with Gaussian noise of standard deviation `sigma`.
    pub fn noisy(&mut self, base: T, sigma: T) -> (r: T)
        ensures
            functional::<T>() ==> (r, *final(self)) == noisy_draw(*old(self), base, sigma),
    {
        let g = self.gaussian();
        base.plus(g.times(sigma))
    }

    /// A vector with independent Gaussian noise on each component.
    pub fn noisy3(&mut self, base: V3<T>, sigma: T) -> (r: V3<T>)
        ensures
            functional::<T>() ==> (r, *final(self)) == noisy3_draw(*old(self), base, sigma),
    {
        let x = self.noisy(base[0], sigma);
        let y = self.noisy(base[1], sigma);
        let z = self.noisy(base[2], sigma);
        [x, y, z]
    }
}

} // verus!
