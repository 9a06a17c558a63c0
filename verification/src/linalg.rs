//! A small linear-algebra kit, sized for an error-state Kalman filter.
//!
//! Matrices are fixed-size arrays with const-generic dimensions, so a 15×15 covariance is never
//! multiplied by a 3×15 Jacobian the wrong way round. There is only what the filter needs: products,
//! sums, transposes, a block copy, the skew-symmetric operator, and a Gauss–Jordan inverse.
//!
//! The model of a matrix is its rows, a [`Grid`]; the functions on grids below say what each
//! operation computes, entry by entry.

use vstd::prelude::*;

use crate::scalar::{diff, functional, group_real_ops, lit, negation, prod, sum, Real};

pub mod gauss;
pub mod v3;

verus! {

broadcast use group_real_ops;

/// A plain 3-vector.
pub type V3<T> = [T; 3];

/// The rows of a matrix.
pub type Grid<T> = Seq<Seq<T>>;

/// The `r`×`c` grid whose entry at `(i, j)` is `f(i, j)`.
pub open spec fn table<T>(r: nat, c: nat, f: spec_fn(int, int) -> T) -> Grid<T> {
    Seq::new(r, |i: int| Seq::new(c, |j: int| f(i, j)))
}

/// `m` has `r` rows of `c` entries.
pub open spec fn shaped<T>(m: Grid<T>, r: nat, c: nat) -> bool {
    m.len() == r && forall|i: int| 0 <= i < r ==> (#[trigger] m[i]).len() == c
}

/// The `r`×`c` grid of zeros.
pub open spec fn zeros_grid<T: Real>(r: nat, c: nat) -> Grid<T> {
    table(r, c, |i: int, j: int| lit::<T>(0, 1))
}

/// The `n`×`n` identity.
pub open spec fn identity_grid<T: Real>(n: nat) -> Grid<T> {
    table(
        n,
        n,
        |i: int, j: int|
            if i == j {
                lit::<T>(1, 1)
            } else {
                lit::<T>(0, 1)
            },
    )
}

/// The transpose of the `r`×`c` grid `m`.
pub open spec fn transposed<T>(m: Grid<T>, r: nat, c: nat) -> Grid<T> {
    table(c, r, |i: int, j: int| m[j][i])
}

/// Row `i` of `a` times column `k` of `b`, summed over the first `n` terms from zero on.
pub open spec fn row_by_col<T: Real>(a: Grid<T>, b: Grid<T>, i: int, k: int, n: nat) -> T
    decreases n,
{
    if n == 0 {
        lit::<T>(0, 1)
    } else {
        sum(row_by_col(a, b, i, k, (n - 1) as nat), prod(a[i][n - 1], b[n - 1][k]))
    }
}

/// The product of the `r`×`n` grid `a` and the `n`×`k` grid `b`.
pub open spec fn product<T: Real>(a: Grid<T>, b: Grid<T>, r: nat, n: nat, k: nat) -> Grid<T> {
    table(r, k, |i: int, j: int| row_by_col(a, b, i, j, n))
}

/// `a + b`, entry by entry.
pub open spec fn grid_sum<T: Real>(a: Grid<T>, b: Grid<T>, r: nat, c: nat) -> Grid<T> {
    table(r, c, |i: int, j: int| sum(a[i][j], b[i][j]))
}

/// `a - b`, entry by entry.
pub open spec fn grid_diff<T: Real>(a: Grid<T>, b: Grid<T>, r: nat, c: nat) -> Grid<T> {
    table(r, c, |i: int, j: int| diff(a[i][j], b[i][j]))
}

/// `a` times the scalar `s`, entry by entry.
pub open spec fn grid_scaled<T: Real>(a: Grid<T>, s: T, r: nat, c: nat) -> Grid<T> {
    table(r, c, |i: int, j: int| prod(a[i][j], s))
}

/// `m` with the `br`×`bc` grid `b` written over it, the top-left corner at `(r0, c0)`.
pub open spec fn with_block<T>(m: Grid<T>, r0: int, c0: int, b: Grid<T>, br: nat, bc: nat) -> Grid<
    T,
> {
    Seq::new(
        m.len(),
        |i: int|
            Seq::new(
                m[i].len(),
                |j: int|
                    if r0 <= i < r0 + br && c0 <= j < c0 + bc {
                        b[i - r0][j - c0]
                    } else {
                        m[i][j]
                    },
            ),
    )
}

/// `m + s·I`.
pub open spec fn diag_added<T: Real>(m: Grid<T>, s: T, n: nat) -> Grid<T> {
    table(
        n,
        n,
        |i: int, j: int|
            if i == j {
                sum(m[i][j], s)
            } else {
                m[i][j]
            },
    )
}

/// The rows of the skew-symmetric matrix `[v]×`.
pub open spec fn skew_grid<T: Real>(v: V3<T>) -> Grid<T> {
    let z = lit::<T>(0, 1);
    seq![
        seq![z, negation(v[2]), v[1]],
        seq![v[2], z, negation(v[0])],
        seq![negation(v[1]), v[0], z],
    ]
}

/// A 3-vector as a column.
pub open spec fn column<T>(v: V3<T>) -> Grid<T> {
    seq![seq![v[0]], seq![v[1]], seq![v[2]]]
}

/// A dense `R×C` matrix in row-major order.
#[derive(Clone, Copy, Debug)]
pub struct Mat<T, const R: usize, const C: usize> {
    pub m: [[T; C]; R],
}

impl<T, const R: usize, const C: usize> View for Mat<T, R, C> {
    type V = Grid<T>;

    open spec fn view(&self) -> Grid<T> {
        Seq::new(R as nat, |i: int| self.m[i]@)
    }
}

impl<T: Real, const R: usize, const C: usize> Mat<T, R, C> {
    /// The matrix of zeros.
    pub fn zeros() -> (out: Self)
        ensures
            forall|i: int, j: int, k: int, l: int|
                0 <= i < R && 0 <= j < C && 0 <= k < R && 0 <= l < C ==> #[trigger] out.m[i][j]
                    == #[trigger] out.m[k][l],
            functional::<T>() ==> out@ == zeros_grid::<T>(R as nat, C as nat),
    {
        let out = Mat { m: [[T::ratio(0, 1); C]; R] };
        assert(functional::<T>() ==> out@ =~~= zeros_grid::<T>(R as nat, C as nat));
        out
    }

    /// The matrix with the given rows.
    pub fn from_rows(m: [[T; C]; R]) -> (out: Self)
        ensures
            out.m == m,
    {
        Mat { m }
    }

    /// The transpose.
    pub fn transpose(&self) -> (out: Mat<T, C, R>)
        ensures
            out@ == transposed(self@, R as nat, C as nat),
    {
        let mut out = Mat::<T, C, R>::zeros();
        for r in 0..R
            invariant
                forall|i: int, j: int| 0 <= i < r && 0 <= j < C ==> out.m[j][i] == self.m[i][j],
        {
            for c in 0..C
                invariant
                    r < R,
                    forall|i: int, j: int| 0 <= i < r && 0 <= j < C ==> out.m[j][i] == self.m[i][j],
                    forall|j: int| 0 <= j < c ==> out.m[j][r as int] == self.m[r as int][j],
            {
                out.m[c][r] = self.m[r][c];
            }
        }
        assert(out@ =~~= transposed(self@, R as nat, C as nat));
        out
    }

    /// The matrix product `self · rhs`.
    pub fn mul<const K: usize>(&self, rhs: &Mat<T, C, K>) -> (out: Mat<T, R, K>)
        ensures
            functional::<T>() ==> out@ == product(self@, rhs@, R as nat, C as nat, K as nat),
    {
        let mut out = Mat::<T, R, K>::zeros();
        for r in 0..R
            invariant
                functional::<T>() ==> forall|i: int, j: int|
                    0 <= i < r && 0 <= j < K ==> out.m[i][j] == row_by_col(
                        self@,
                        rhs@,
                        i,
                        j,
                        C as nat,
                    ),
        {
            for k in 0..K
                invariant
                    r < R,
                    functional::<T>() ==> forall|i: int, j: int|
                        0 <= i < r && 0 <= j < K ==> out.m[i][j] == row_by_col(
                            self@,
                            rhs@,
                            i,
                            j,
                            C as nat,
                        ),
                    functional::<T>() ==> forall|j: int|
                        0 <= j < k ==> out.m[r as int][j] == row_by_col(
                            self@,
                            rhs@,
                            r as int,
                            j,
                            C as nat,
                        ),
            {
                let mut s = T::ratio(0, 1);
                for c in 0..C
                    invariant
                        r < R,
                        k < K,
                        functional::<T>() ==> s == row_by_col(
                            self@,
                            rhs@,
                            r as int,
                            k as int,
                            c as nat,
                        ),
                {
                    s = s.plus(self.m[r][c].times(rhs.m[c][k]));
                }
                out.m[r][k] = s;
            }
        }
        assert(functional::<T>() ==> out@ =~~= product(
            self@,
            rhs@,
            R as nat,
            C as nat,
            K as nat,
        ));
        out
    }

    /// `self + rhs`.
    pub fn add(&self, rhs: &Self) -> (out: Self)
        ensures
            functional::<T>() ==> out@ == grid_sum(self@, rhs@, R as nat, C as nat),
    {
        let mut out = *self;
        for r in 0..R
            invariant
                functional::<T>() ==> forall|i: int, j: int|
                    0 <= i < r && 0 <= j < C ==> out.m[i][j] == sum(self.m[i][j], rhs.m[i][j]),
                forall|i: int| r <= i < R ==> out.m[i] == self.m[i],
        {
            for c in 0..C
                invariant
                    r < R,
                    functional::<T>() ==> forall|i: int, j: int|
                        0 <= i < r && 0 <= j < C ==> out.m[i][j] == sum(self.m[i][j], rhs.m[i][j]),
                    functional::<T>() ==> forall|j: int|
                        0 <= j < c ==> out.m[r as int][j] == sum(
                            self.m[r as int][j],
                            rhs.m[r as int][j],
                        ),
                    forall|j: int| c <= j < C ==> out.m[r as int][j] == self.m[r as int][j],
                    forall|i: int| r < i < R ==> out.m[i] == self.m[i],
            {
                out.m[r][c] = out.m[r][c].plus(rhs.m[r][c]);
            }
        }
        assert(functional::<T>() ==> out@ =~~= grid_sum(self@, rhs@, R as nat, C as nat));
        out
    }

    /// `self - rhs`.
    pub fn sub(&self, rhs: &Self) -> (out: Self)
        ensures
            functional::<T>() ==> out@ == grid_diff(self@, rhs@, R as nat, C as nat),
    {
        let mut out = *self;
        for r in 0..R
            invariant
                functional::<T>() ==> forall|i: int, j: int|
                    0 <= i < r && 0 <= j < C ==> out.m[i][j] == diff(self.m[i][j], rhs.m[i][j]),
                forall|i: int| r <= i < R ==> out.m[i] == self.m[i],
        {
            for c in 0..C
                invariant
                    r < R,
                    functional::<T>() ==> forall|i: int, j: int|
                        0 <= i < r && 0 <= j < C ==> out.m[i][j] == diff(self.m[i][j], rhs.m[i][j]),
                    functional::<T>() ==> forall|j: int|
                        0 <= j < c ==> out.m[r as int][j] == diff(
                            self.m[r as int][j],
                            rhs.m[r as int][j],
                        ),
                    forall|j: int| c <= j < C ==> out.m[r as int][j] == self.m[r as int][j],
                    forall|i: int| r < i < R ==> out.m[i] == self.m[i],
            {
                out.m[r][c] = out.m[r][c].minus(rhs.m[r][c]);
            }
        }
        assert(functional::<T>() ==> out@ =~~= grid_diff(self@, rhs@, R as nat, C as nat));
        out
    }

    /// `self` times the scalar `s`.
    pub fn scale(&self, s: T) -> (out: Self)
        ensures
            functional::<T>() ==> out@ == grid_scaled(self@, s, R as nat, C as nat),
    {
        let mut out = *self;
        for r in 0..R
            invariant
                functional::<T>() ==> forall|i: int, j: int|
                    0 <= i < r && 0 <= j < C ==> out.m[i][j] == prod(self.m[i][j], s),
                forall|i: int| r <= i < R ==> out.m[i] == self.m[i],
        {
            for c in 0..C
                invariant
                    r < R,
                    functional::<T>() ==> forall|i: int, j: int|
                        0 <= i < r && 0 <= j < C ==> out.m[i][j] == prod(self.m[i][j], s),
                    functional::<T>() ==> forall|j: int|
                        0 <= j < c ==> out.m[r as int][j] == prod(self.m[r as int][j], s),
                    forall|j: int| c <= j < C ==> out.m[r as int][j] == self.m[r as int][j],
                    forall|i: int| r < i < R ==> out.m[i] == self.m[i],
            {
                out.m[r][c] = out.m[r][c].times(s);
            }
        }
        assert(functional::<T>() ==> out@ =~~= grid_scaled(self@, s, R as nat, C as nat));
        out
    }

    /// Copies a smaller matrix into this one, its top-left corner at `(r0, c0)`; the rest stays.
    pub fn set_block<const BR: usize, const BC: usize>(
        &mut self,
        r0: usize,
        c0: usize,
        b: &Mat<T, BR, BC>,
    )
        requires
            BR > 0 && BC > 0 ==> r0 + BR <= R && c0 + BC <= C,
        ensures
            final(self)@ == with_block(
                old(self)@,
                r0 as int,
                c0 as int,
                b@,
                BR as nat,
                BC as nat,
            ),
    {
        let ghost before = *self;
        for r in 0..BR
            invariant
                BR > 0 && BC > 0 ==> r0 + BR <= R && c0 + BC <= C,
                forall|i: int, j: int|
                    #![trigger self.m[i][j]]
                    0 <= i < R && 0 <= j < C ==> self.m[i][j] == (if r0 <= i < r0 + r && c0 <= j
                        < c0 + BC {
                        b.m[i - r0][j - c0]
                    } else {
                        before.m[i][j]
                    }),
        {
            for c in 0..BC
                invariant
                    r < BR,
                    BR > 0 && BC > 0 ==> r0 + BR <= R && c0 + BC <= C,
                    forall|i: int, j: int|
                        #![trigger self.m[i][j]]
                        0 <= i < R && 0 <= j < C ==> self.m[i][j] == (if (r0 <= i < r0 + r && c0
                            <= j < c0 + BC) || (i == r0 + r && c0 <= j < c0 + c) {
                            b.m[i - r0][j - c0]
                        } else {
                            before.m[i][j]
                        }),
            {
                self.m[r0 + r][c0 + c] = b.m[r][c];
            }
        }
        assert(self@ =~~= with_block(before@, r0 as int, c0 as int, b@, BR as nat, BC as nat));
    }
}

impl<T: Real, const N: usize> Mat<T, N, N> {
    /// The identity.
    pub fn identity() -> (out: Self)
        ensures
            functional::<T>() ==> out@ == identity_grid::<T>(N as nat),
    {
        let mut out = Self::zeros();
        let one = T::ratio(1, 1);
        assert forall|a: int, b: int|
            functional::<T>() && 0 <= a < N && 0 <= b < N implies #[trigger] out.m[a][b] == lit::<T>(
            0,
            1,
        ) by {
            assert(out@[a][b] == lit::<T>(0, 1));
        }
        for i in 0..N
            invariant
                functional::<T>() ==> one == lit::<T>(1, 1),
                functional::<T>() ==> forall|a: int, b: int|
                    #![trigger out.m[a][b]]
                    0 <= a < N && 0 <= b < N ==> out.m[a][b] == (if a == b && a < i {
                        lit::<T>(1, 1)
                    } else {
                        lit::<T>(0, 1)
                    }),
        {
            out.m[i][i] = one;
        }
        assert(functional::<T>() ==> out@ =~~= identity_grid::<T>(N as nat));
        out
    }

    /// `self + s·I`.
    pub fn add_diag(&self, s: T) -> (out: Self)
        ensures
            functional::<T>() ==> out@ == diag_added(self@, s, N as nat),
    {
        let mut out = *self;
        for i in 0..N
            invariant
                forall|a: int, b: int|
                    #![trigger out.m[a][b]]
                    0 <= a < N && 0 <= b < N && !(a == b && a < i) ==> out.m[a][b] == self.m[a][b],
                functional::<T>() ==> forall|a: int|
                    0 <= a < i ==> out.m[a][a] == sum(self.m[a][a], s),
        {
            out.m[i][i] = out.m[i][i].plus(s);
        }
        assert(functional::<T>() ==> out@ =~~= diag_added(self@, s, N as nat));
        out
    }
}

/// Packs a 3-vector into a column.
pub fn col3<T: Real>(v: V3<T>) -> (out: Mat<T, 3, 1>)
    ensures
        out@ == column(v),
{
    let out = Mat::from_rows([[v[0]], [v[1]], [v[2]]]);
    assert(out@ =~~= column(v));
    out
}

/// The skew-symmetric matrix `[v]×`, for which `[v]× w` is `v × w`.
pub fn skew<T: Real>(v: V3<T>) -> (out: Mat<T, 3, 3>)
    ensures
        functional::<T>() ==> out@ == skew_grid(v),
{
    let z = T::ratio(0, 1);
    let out = Mat::from_rows(
        [
            [z, v[2].negate(), v[1]],
            [v[2], z, v[0].negate()],
            [v[1].negate(), v[0], z],
        ],
    );
    assert(functional::<T>() ==> out@ =~~= skew_grid(v));
    out
}

} // verus!
