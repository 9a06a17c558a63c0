//! The Gauss–Jordan inverse with partial pivoting.

use vstd::prelude::*;

use crate::linalg::{identity_grid, Grid, Mat};
use crate::scalar::{
    diff, functional, group_real_ops, larger, less, lit, magnitude, prod, quot, same, Real,
};

verus! {

broadcast use group_real_ops;

/// The row among `col..end` whose entry in column `col` has the largest magnitude, the first such
/// row where there are several.
pub open spec fn pivot_row<T: Real>(a: Grid<T>, col: int, end: int) -> int
    decreases end - col,
{
    if end <= col + 1 {
        col
    } else {
        let p = pivot_row(a, col, end - 1);
        if less(magnitude(a[p][col]), magnitude(a[end - 1][col])) {
            end - 1
        } else {
            p
        }
    }
}

/// `m` with rows `i` and `j` exchanged.
pub open spec fn rows_swapped<T>(m: Grid<T>, i: int, j: int) -> Grid<T> {
    m.update(i, m[j]).update(j, m[i])
}

/// `m` with row `row` divided by `d`.
pub open spec fn row_divided<T: Real>(m: Grid<T>, row: int, d: T) -> Grid<T> {
    m.update(row, Seq::new(m[row].len(), |c: int| quot(m[row][c], d)))
}

/// `m` with `f` times row `src` taken off row `row`.
pub open spec fn row_reduced<T: Real>(m: Grid<T>, row: int, f: T, src: int) -> Grid<T> {
    m.update(row, Seq::new(m[row].len(), |c: int| diff(m[row][c], prod(f, m[src][c]))))
}

/// `m` with the multiple of row `col` that clears column `col` of `a` taken off every other row
/// below `end`; a row of `a` that is clear already is left alone.
pub open spec fn rows_cleared<T: Real>(m: Grid<T>, a: Grid<T>, col: int, end: int) -> Grid<T> {
    Seq::new(
        m.len(),
        |r: int|
            if r >= end || r == col || same(a[r][col], lit::<T>(0, 1)) {
                m[r]
            } else {
                row_reduced(m, r, a[r][col], col)[r]
            },
    )
}

/// The magnitudes of the entries.
pub open spec fn magnitudes<T: Real>(m: Grid<T>) -> Grid<T> {
    Seq::new(m.len(), |i: int| Seq::new(m[i].len(), |j: int| magnitude(m[i][j])))
}

/// The scales `s` when row `row` is divided by `d`.
pub open spec fn scale_divided<T: Real>(s: Grid<T>, row: int, d: T) -> Grid<T> {
    s.update(row, Seq::new(s[row].len(), |c: int| magnitude(quot(s[row][c], d))))
}

/// The scales `s` when `f` times row `src` is taken off row `row`.
pub open spec fn scale_raised<T: Real>(s: Grid<T>, row: int, f: T, src: int) -> Grid<T> {
    s.update(
        row,
        Seq::new(s[row].len(), |c: int| larger(s[row][c], magnitude(prod(f, s[src][c])))),
    )
}

/// The scales `s` when column `col` of `a` is cleared in every row below `end` but row `col`.
pub open spec fn scales_raised<T: Real>(s: Grid<T>, a: Grid<T>, col: int, end: int) -> Grid<T> {
    Seq::new(
        s.len(),
        |r: int|
            if r >= end || r == col || same(a[r][col], lit::<T>(0, 1)) {
                s[r]
            } else {
                scale_raised(s, r, a[r][col], col)[r]
            },
    )
}

/// What an entry of the given scale must reach to be told from zero: `1e-18`, and `1e-15` of its
/// scale, below which it is nothing but what rounding has left of numbers that cancelled.
pub open spec fn least_pivot<T: Real>(scale: T) -> T {
    larger(lit::<T>(1, 1_000_000_000_000_000_000), prod(scale, lit::<T>(1, 1_000_000_000_000_000)))
}

/// The entry `x` of the given scale can be told from zero.
pub open spec fn stands_out<T: Real>(x: T, scale: T) -> bool {
    !less(magnitude(x), least_pivot(scale))
}

/// Column `col` holds, among the rows `col..end`, an entry that can be told from zero.
pub open spec fn has_pivot<T: Real>(a: Grid<T>, scale: Grid<T>, col: int, end: int) -> bool {
    exists|r: int| col <= r < end && #[trigger] stands_out(a[r][col], scale[r][col])
}

/// One column of the elimination, done to `a` and to its companion `inv` alike; nothing where the
/// column holds no pivot. The scale of an entry is the largest magnitude that has gone into it.
pub open spec fn column_step<T: Real>(
    a: Grid<T>,
    inv: Grid<T>,
    scale: Grid<T>,
    col: int,
    n: nat,
) -> Option<(Grid<T>, Grid<T>, Grid<T>)> {
    let p = pivot_row(a, col, n as int);
    if !has_pivot(a, scale, col, n as int) {
        None
    } else {
        let a1 = rows_swapped(a, col, p);
        let inv1 = rows_swapped(inv, col, p);
        let scale1 = rows_swapped(scale, col, p);
        let d = a1[col][col];
        let a2 = row_divided(a1, col, d);
        let inv2 = row_divided(inv1, col, d);
        let scale2 = scale_divided(scale1, col, d);
        Some(
            (
                rows_cleared(a2, a2, col, n as int),
                rows_cleared(inv2, a2, col, n as int),
                scales_raised(scale2, a2, col, n as int),
            ),
        )
    }
}

/// The elimination from column `col` on: what `inv` has become when the last column is done.
pub open spec fn eliminated<T: Real>(
    a: Grid<T>,
    inv: Grid<T>,
    scale: Grid<T>,
    col: nat,
    n: nat,
) -> Option<Grid<T>>
    decreases n - col,
{
    if col >= n {
        Some(inv)
    } else {
        match column_step(a, inv, scale, col as int, n) {
            None => None,
            Some(next) => eliminated(next.0, next.1, next.2, col + 1, n),
        }
    }
}

/// The inverse of the `n`×`n` grid `a`, if the elimination finds a pivot in every column.
#[verifier::opaque]
pub open spec fn inverse_grid<T: Real>(a: Grid<T>, n: nat) -> Option<Grid<T>> {
    eliminated(a, identity_grid::<T>(n), magnitudes(a), 0, n)
}

/// The pivot is found at or below the diagonal.
pub proof fn lemma_pivot_row_bounds<T: Real>(a: Grid<T>, col: int, end: int)
    requires
        col < end,
    ensures
        col <= pivot_row(a, col, end) < end,
    decreases end - col,
{
    if end > col + 1 {
        lemma_pivot_row_bounds(a, col, end - 1);
    }
}

/// Whether the entry `x` of the given scale can be told from zero.
fn told_from_zero<T: Real>(x: T, scale: T) -> (out: bool)
    ensures
        functional::<T>() ==> out == stands_out(x, scale),
{
    let least = T::ratio(1, 1_000_000_000_000_000_000).max(
        scale.times(T::ratio(1, 1_000_000_000_000_000)),
    );
    !x.abs().lt(least)
}

impl<T: Real, const N: usize> Mat<T, N, N> {
    /// The row of the best pivot for column `col`, and whether the column holds a pivot.
    fn best_pivot(&self, scale: &Self, col: usize) -> (out: (usize, bool))
        requires
            col < N,
        ensures
            col <= out.0 < N,
            functional::<T>() ==> out.0 == pivot_row(self@, col as int, N as int),
            functional::<T>() ==> out.1 == has_pivot(self@, scale@, col as int, N as int),
    {
        let mut pivot: usize = col;
        let mut best = self.m[col][col].abs();
        let mut found = told_from_zero(self.m[col][col], scale.m[col][col]);
        assert(functional::<T>() ==> found == has_pivot(self@, scale@, col as int, col + 1)) by {
            let (x, y) = (self@[col as int][col as int], scale@[col as int][col as int]);
            assert(functional::<T>() ==> found == stands_out(x, y));
        }
        for r in col + 1..N
            invariant
                col < N,
                col <= pivot < r,
                functional::<T>() ==> pivot == pivot_row(self@, col as int, r as int),
                functional::<T>() ==> best == magnitude(self@[pivot as int][col as int]),
                functional::<T>() ==> found == has_pivot(self@, scale@, col as int, r as int),
        {
            let v = self.m[r][col].abs();
            if best.lt(v) {
                best = v;
                pivot = r;
            }
            let ghost before = found;
            let here = told_from_zero(self.m[r][col], scale.m[r][col]);
            found = found || here;
            assert(functional::<T>() ==> found == has_pivot(self@, scale@, col as int, r + 1)) by {
                let (a, s, c) = (self@, scale@, col as int);
                if functional::<T>() {
                    assert(here == stands_out(a[r as int][c], s[r as int][c]));
                    if before {
                        let k = choose|k: int| c <= k < r && #[trigger] stands_out(a[k][c], s[k][c]);
                        assert(c <= k < r + 1 && stands_out(a[k][c], s[k][c]));
                    }
                }
            }
        }
        (pivot, found)
    }

    /// The magnitudes of the entries.
    fn sizes(&self) -> (out: Self)
        ensures
            functional::<T>() ==> out@ == magnitudes(self@),
    {
        let mut out = *self;
        for r in 0..N
            invariant
                forall|i: int| r <= i < N ==> out.m[i] == self.m[i],
                functional::<T>() ==> forall|i: int, j: int|
                    0 <= i < r && 0 <= j < N ==> #[trigger] out.m[i][j] == magnitude(self.m[i][j]),
        {
            for c in 0..N
                invariant
                    r < N,
                    forall|i: int| r < i < N ==> out.m[i] == self.m[i],
                    forall|j: int| c <= j < N ==> out.m[r as int][j] == self.m[r as int][j],
                    functional::<T>() ==> forall|i: int, j: int|
                        0 <= i < r && 0 <= j < N ==> #[trigger] out.m[i][j] == magnitude(
                            self.m[i][j],
                        ),
                    functional::<T>() ==> forall|j: int|
                        0 <= j < c ==> #[trigger] out.m[r as int][j] == magnitude(
                            self.m[r as int][j],
                        ),
            {
                out.m[r][c] = out.m[r][c].abs();
            }
        }
        assert(functional::<T>() ==> out@ =~~= magnitudes(self@)) by {
            assert(forall|i: int| 0 <= i < N ==> #[trigger] out@[i] == out.m[i]@);
        }
        out
    }

    /// The scales of row `row` when it is divided by `d`.
    fn divide_scale(&mut self, row: usize, d: T)
        requires
            row < N,
        ensures
            functional::<T>() ==> final(self)@ == scale_divided(old(self)@, row as int, d),
    {
        let ghost before = *self;
        for c in 0..N
            invariant
                row < N,
                functional::<T>() ==> forall|j: int|
                    0 <= j < c ==> self.m[row as int][j] == magnitude(
                        quot(before.m[row as int][j], d),
                    ),
                forall|j: int| c <= j < N ==> self.m[row as int][j] == before.m[row as int][j],
                forall|i: int| 0 <= i < N && i != row ==> self.m[i] == before.m[i],
        {
            self.m[row][c] = self.m[row][c].over(d).abs();
        }
        assert(functional::<T>() ==> self@ =~~= scale_divided(before@, row as int, d));
    }

    /// The scales of row `row` when `f` times row `src` is taken off it.
    fn raise_scale(&mut self, row: usize, f: T, src: usize)
        requires
            row < N,
            src < N,
            row != src,
        ensures
            functional::<T>() ==> final(self)@ == scale_raised(old(self)@, row as int, f, src as int),
            forall|i: int| 0 <= i < N && i != row ==> final(self)@[i] == old(self)@[i],
    {
        let ghost before = *self;
        for c in 0..N
            invariant
                row < N,
                src < N,
                row != src,
                functional::<T>() ==> forall|j: int|
                    0 <= j < c ==> self.m[row as int][j] == larger(
                        before.m[row as int][j],
                        magnitude(prod(f, before.m[src as int][j])),
                    ),
                forall|j: int| c <= j < N ==> self.m[row as int][j] == before.m[row as int][j],
                forall|i: int| 0 <= i < N && i != row ==> self.m[i] == before.m[i],
        {
            self.m[row][c] = self.m[row][c].max(f.times(self.m[src][c]).abs());
        }
        assert(functional::<T>() ==> self@ =~~= scale_raised(before@, row as int, f, src as int));
    }

    fn swap_rows(&mut self, i: usize, j: usize)
        requires
            i < N,
            j < N,
        ensures
            final(self)@ == rows_swapped(old(self)@, i as int, j as int),
    {
        let ghost before = self@;
        let row = self.m[i];
        self.m[i] = self.m[j];
        self.m[j] = row;
        assert(self@ =~= rows_swapped(before, i as int, j as int));
    }

    fn divide_row(&mut self, row: usize, d: T)
        requires
            row < N,
        ensures
            functional::<T>() ==> final(self)@ == row_divided(old(self)@, row as int, d),
    {
        let ghost before = *self;
        for c in 0..N
            invariant
                row < N,
                functional::<T>() ==> forall|j: int|
                    0 <= j < c ==> self.m[row as int][j] == quot(before.m[row as int][j], d),
                forall|j: int| c <= j < N ==> self.m[row as int][j] == before.m[row as int][j],
                forall|i: int| 0 <= i < N && i != row ==> self.m[i] == before.m[i],
        {
            self.m[row][c] = self.m[row][c].over(d);
        }
        assert(functional::<T>() ==> self@ =~~= row_divided(before@, row as int, d));
    }

    fn reduce_row(&mut self, row: usize, f: T, src: usize)
        requires
            row < N,
            src < N,
            row != src,
        ensures
            functional::<T>() ==> final(self)@ == row_reduced(old(self)@, row as int, f, src as int),
            forall|i: int| 0 <= i < N && i != row ==> final(self)@[i] == old(self)@[i],
    {
        let ghost before = *self;
        for c in 0..N
            invariant
                row < N,
                src < N,
                row != src,
                functional::<T>() ==> forall|j: int|
                    0 <= j < c ==> self.m[row as int][j] == diff(
                        before.m[row as int][j],
                        prod(f, before.m[src as int][j]),
                    ),
                forall|j: int| c <= j < N ==> self.m[row as int][j] == before.m[row as int][j],
                forall|i: int| 0 <= i < N && i != row ==> self.m[i] == before.m[i],
        {
            self.m[row][c] = self.m[row][c].minus(f.times(self.m[src][c]));
        }
        assert(functional::<T>() ==> self@ =~~= row_reduced(before@, row as int, f, src as int));
    }

    /// The inverse, `None` where the matrix is singular: where what is left of a column is smaller
    /// than `1e-18`, or is the rounding of numbers that cancelled. How the rows and columns are scaled
    /// against each other makes no difference to the latter.
    pub fn inverse(&self) -> (out: Option<Self>)
        ensures
            functional::<T>() ==> match inverse_grid(self@, N as nat) {
                Some(inv) => out is Some && out->0@ == inv,
                None => out is None,
            },
    {
        proof {
            reveal(inverse_grid);
        }
        let mut a = *self;
        let mut inv = Self::identity();
        let mut scale = self.sizes();
        for col in 0..N
            invariant
                functional::<T>() ==> inverse_grid(self@, N as nat) == eliminated(
                    a@,
                    inv@,
                    scale@,
                    col as nat,
                    N as nat,
                ),
        {
            let ghost a0 = a@;
            let ghost inv0 = inv@;
            let ghost scale0 = scale@;
            let (pivot, found) = a.best_pivot(&scale, col);
            if !found {
                return None;
            }
            if pivot != col {
                a.swap_rows(col, pivot);
                inv.swap_rows(col, pivot);
                scale.swap_rows(col, pivot);
            }
            assert(a@ =~= rows_swapped(a0, col as int, pivot as int));
            assert(inv@ =~= rows_swapped(inv0, col as int, pivot as int));
            assert(scale@ =~= rows_swapped(scale0, col as int, pivot as int));
            let d = a.m[col][col];
            a.divide_row(col, d);
            inv.divide_row(col, d);
            scale.divide_scale(col, d);
            let ghost a2 = a@;
            let ghost inv2 = inv@;
            let ghost scale2 = scale@;
            for r in 0..N
                invariant
                    col < N,
                    a2.len() == N,
                    inv2.len() == N,
                    scale2.len() == N,
                    a@[col as int] == a2[col as int],
                    inv@[col as int] == inv2[col as int],
                    scale@[col as int] == scale2[col as int],
                    functional::<T>() ==> a@ == rows_cleared(a2, a2, col as int, r as int),
                    functional::<T>() ==> inv@ == rows_cleared(inv2, a2, col as int, r as int),
                    functional::<T>() ==> scale@ == scales_raised(scale2, a2, col as int, r as int),
            {
                if r != col {
                    let f = a.m[r][col];
                    assert(f == a@[r as int][col as int]);
                    if !f.equals(T::ratio(0, 1)) {
                        a.reduce_row(r, f, col);
                        inv.reduce_row(r, f, col);
                        scale.raise_scale(r, f, col);
                    }
                }
                assert(functional::<T>() ==> a@ =~= rows_cleared(a2, a2, col as int, r + 1));
                assert(functional::<T>() ==> inv@ =~= rows_cleared(inv2, a2, col as int, r + 1));
                assert(functional::<T>() ==> scale@ =~= scales_raised(
                    scale2,
                    a2,
                    col as int,
                    r + 1,
                ));
            }
        }
        Some(inv)
    }
}

} // verus!
