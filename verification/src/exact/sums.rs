//! Finite sums of real numbers.

use vstd::prelude::*;

verus! {

/// `f(0) + … + f(n - 1)`.
pub open spec fn rsum(n: nat, f: spec_fn(int) -> real) -> real
    decreases n,
{
    if n == 0 {
        0real
    } else {
        rsum((n - 1) as nat, f) + f(n - 1)
    }
}

/// Equal terms make equal sums.
pub proof fn lemma_terms(n: nat, f: spec_fn(int) -> real, g: spec_fn(int) -> real)
    requires
        forall|i: int| 0 <= i < n ==> #[trigger] f(i) == g(i),
    ensures
        rsum(n, f) == rsum(n, g),
    decreases n,
{
    if n > 0 {
        lemma_terms((n - 1) as nat, f, g);
    }
}

/// A sum of sums.
pub proof fn lemma_add(n: nat, f: spec_fn(int) -> real, g: spec_fn(int) -> real)
    ensures
        rsum(n, |i: int| f(i) + g(i)) == rsum(n, f) + rsum(n, g),
    decreases n,
{
    if n > 0 {
        lemma_add((n - 1) as nat, f, g);
        let h = |i: int| f(i) + g(i);
        assert(h(n - 1) == f(n - 1) + g(n - 1));
    }
}

/// A factor taken out of a sum.
pub proof fn lemma_scale(n: nat, c: real, f: spec_fn(int) -> real)
    ensures
        rsum(n, |i: int| c * f(i)) == c * rsum(n, f),
    decreases n,
{
    let h = |i: int| c * f(i);
    if n > 0 {
        lemma_scale((n - 1) as nat, c, f);
        let s = rsum((n - 1) as nat, f);
        let t = f(n - 1);
        assert(h(n - 1) == c * t);
        assert(c * (s + t) == c * s + c * t) by (nonlinear_arith);
    } else {
        assert(c * 0real == 0real) by (nonlinear_arith);
    }
}

/// A factor taken out of a sum on the right.
pub proof fn lemma_scale_right(n: nat, f: spec_fn(int) -> real, c: real)
    ensures
        rsum(n, |i: int| f(i) * c) == rsum(n, f) * c,
{
    lemma_scale(n, c, f);
    let right = |i: int| f(i) * c;
    let left = |i: int| c * f(i);
    assert forall|i: int| 0 <= i < n implies #[trigger] right(i) == left(i) by {
        let x = f(i);
        assert(x * c == c * x) by (nonlinear_arith);
    }
    lemma_terms(n, right, left);
    let s = rsum(n, f);
    assert(s * c == c * s) by (nonlinear_arith);
}

/// A sum of zeros.
pub proof fn lemma_zero(n: nat, f: spec_fn(int) -> real)
    requires
        forall|i: int| 0 <= i < n ==> #[trigger] f(i) == 0real,
    ensures
        rsum(n, f) == 0real,
    decreases n,
{
    if n > 0 {
        lemma_zero((n - 1) as nat, f);
    }
}

/// A sum with one term that is not zero.
pub proof fn lemma_single(n: nat, k: int, f: spec_fn(int) -> real)
    requires
        0 <= k < n,
        forall|i: int| 0 <= i < n && i != k ==> #[trigger] f(i) == 0real,
    ensures
        rsum(n, f) == f(k),
    decreases n,
{
    if k == n - 1 {
        lemma_zero((n - 1) as nat, f);
    } else {
        lemma_single((n - 1) as nat, k, f);
    }
}

/// A sum with two terms that are not zero.
pub proof fn lemma_two(n: nat, k: int, l: int, f: spec_fn(int) -> real)
    requires
        0 <= k < l < n,
        forall|i: int| 0 <= i < n && i != k && i != l ==> #[trigger] f(i) == 0real,
    ensures
        rsum(n, f) == f(k) + f(l),
    decreases n,
{
    if l == n - 1 {
        lemma_single((n - 1) as nat, k, f);
    } else {
        lemma_two((n - 1) as nat, k, l, f);
    }
}

/// A sum with three terms in a row that are not zero.
pub proof fn lemma_block(n: nat, c: int, f: spec_fn(int) -> real)
    requires
        0 <= c <= n - 3,
        forall|i: int| 0 <= i < n && !(c <= i < c + 3) ==> #[trigger] f(i) == 0real,
    ensures
        rsum(n, f) == f(c) + f(c + 1) + f(c + 2),
    decreases n,
{
    if c + 2 == n - 1 {
        lemma_two((n - 1) as nat, c, c + 1, f);
    } else {
        lemma_block((n - 1) as nat, c, f);
    }
}

/// A sum of terms that are not negative, one of them positive, is positive.
pub proof fn lemma_some_positive(n: nat, k: int, f: spec_fn(int) -> real)
    requires
        0 <= k < n,
        f(k) > 0real,
        forall|i: int| 0 <= i < n ==> #[trigger] f(i) >= 0real,
    ensures
        rsum(n, f) > 0real,
    decreases n,
{
    if k == n - 1 {
        lemma_not_negative((n - 1) as nat, f);
    } else {
        lemma_some_positive((n - 1) as nat, k, f);
    }
}

/// The order of two sums can be exchanged.
pub proof fn lemma_swap(n: nat, m: nat, f: spec_fn(int, int) -> real)
    ensures
        rsum(n, |i: int| rsum(m, |j: int| f(i, j))) == rsum(m, |j: int| rsum(n, |i: int| f(i, j))),
    decreases n,
{
    let by_row = |i: int| rsum(m, |j: int| f(i, j));
    let by_col = |j: int| rsum(n, |i: int| f(i, j));
    if n == 0 {
        lemma_zero(m, by_col);
    } else {
        let k = (n - 1) as nat;
        lemma_swap(k, m, f);
        let short = |j: int| rsum(k, |i: int| f(i, j));
        let last = |j: int| f(n - 1, j);
        lemma_add(m, short, last);
        let both = |j: int| short(j) + last(j);
        assert forall|j: int| 0 <= j < m implies #[trigger] by_col(j) == both(j) by {
            let terms = |i: int| f(i, j);
            assert(terms(n - 1) == f(n - 1, j));
        }
        lemma_terms(m, by_col, both);
        assert(by_row(n - 1) == rsum(m, |j: int| f(n - 1, j)));
        lemma_terms(m, last, |j: int| f(n - 1, j));
    }
}

/// A sum of terms that are not negative is not negative.
pub proof fn lemma_not_negative(n: nat, f: spec_fn(int) -> real)
    requires
        forall|i: int| 0 <= i < n ==> #[trigger] f(i) >= 0real,
    ensures
        rsum(n, f) >= 0real,
    decreases n,
{
    if n > 0 {
        lemma_not_negative((n - 1) as nat, f);
    }
}

} // verus!
