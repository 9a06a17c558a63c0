//! Consistency metrics: how the estimation error compares with the covariance that the filter
//! reports.

use vstd::prelude::*;

use crate::filter::{top_left, Nominal, N};
use crate::linalg::gauss::inverse_grid;
use crate::linalg::{col3, column, product, table, transposed, v3, Grid, Mat, V3};
use crate::quat::{angular_error, boxminus};
use crate::scalar::{functional, group_real_ops, Real};
use crate::trajectory::TrueState;

verus! {

broadcast use group_real_ops;

/// Block `b` of the estimation error, truth minus nominal: position, velocity, orientation (by the
/// body-frame log map), accelerometer bias, gyroscope bias.
pub open spec fn error_part<T: Real>(nom: Nominal<T>, truth: TrueState<T>, b: int) -> V3<T> {
    if b == 0 {
        v3::subtracted(truth.p, nom.p)
    } else if b == 1 {
        v3::subtracted(truth.v, nom.v)
    } else if b == 2 {
        angular_error(truth.q, nom.q)
    } else if b == 3 {
        v3::subtracted(truth.accel_bias, nom.accel_bias)
    } else {
        v3::subtracted(truth.gyro_bias, nom.gyro_bias)
    }
}

/// The estimation error as a column.
pub open spec fn error_column<T: Real>(nom: Nominal<T>, truth: TrueState<T>) -> Grid<T> {
    table(N as nat, 1, |i: int, j: int| error_part(nom, truth, i / 3)[i % 3])
}

/// `eᵀ p⁻¹ e` for a column of `n`, if `p` can be inverted.
pub open spec fn weighed<T: Real>(e: Grid<T>, p: Grid<T>, n: nat) -> Option<T> {
    match inverse_grid(p, n) {
        None => None,
        Some(inv) => Some(product(product(transposed(e, n, 1), inv, 1, n, n), e, 1, n, 1)[0][0]),
    }
}

/// The estimation error in the filter's own 15-dimensional tangent space,
/// `[δp, δv, δθ, δa_b, δω_b]`, each component truth minus nominal. This is the vector that the
/// covariance describes.
pub fn error_state<T: Real>(nom: &Nominal<T>, truth: &TrueState<T>) -> (e: Mat<T, N, 1>)
    ensures
        functional::<T>() ==> e@ == error_column(*nom, *truth),
{
    let mut e = Mat::<T, N, 1>::zeros();
    let blocks = [
        v3::sub(truth.p, nom.p),
        v3::sub(truth.v, nom.v),
        boxminus(truth.q, nom.q),
        v3::sub(truth.accel_bias, nom.accel_bias),
        v3::sub(truth.gyro_bias, nom.gyro_bias),
    ];
    for b in 0..5usize
        invariant
            forall|i: int| 0 <= i < b * 3 ==> #[trigger] e.m[i][0] == blocks[i / 3][i % 3],
    {
        for k in 0..3usize
            invariant
                b < 5,
                forall|i: int| 0 <= i < b * 3 + k ==> #[trigger] e.m[i][0] == blocks[i / 3][i % 3],
        {
            e.m[b * 3 + k][0] = blocks[b][k];
        }
    }
    assert(functional::<T>() ==> e@ =~~= error_column(*nom, *truth)) by {
        if functional::<T>() {
            assert forall|i: int| 0 <= i < N implies #[trigger] e.m[i][0] == error_part(
                *nom,
                *truth,
                i / 3,
            )[i % 3] by {
                assert(0 <= i / 3 < 5);
            }
        }
    }
    e
}

/// Full-state NEES, `eᵀ P⁻¹ e`: for a consistent filter its expectation is the state dimension, 15.
pub fn nees<T: Real>(nom: &Nominal<T>, truth: &TrueState<T>, p: &Mat<T, N, N>) -> (out: Option<T>)
    ensures
        functional::<T>() ==> out == weighed(error_column(*nom, *truth), p@, N as nat),
{
    let e = error_state(nom, truth);
    match p.inverse() {
        None => None,
        Some(pinv) => {
            let w = e.transpose().mul(&pinv).mul(&e);
            assert(w.m[0]@ == w@[0]);
            Some(w.m[0][0])
        },
    }
}

/// Position-only NEES (3 degrees of freedom, expectation 3).
pub fn position_nees<T: Real>(nom: &Nominal<T>, truth: &TrueState<T>, p: &Mat<T, N, N>) -> (out:
    Option<T>)
    ensures
        functional::<T>() ==> out == weighed(
            column(v3::subtracted(truth.p, nom.p)),
            table(3, 3, |i: int, j: int| p@[i][j]),
            3,
        ),
{
    let e = col3(v3::sub(truth.p, nom.p));
    let pp = top_left(p);
    match pp.inverse() {
        None => None,
        Some(pinv) => {
            let w = e.transpose().mul(&pinv).mul(&e);
            assert(w.m[0]@ == w@[0]);
            Some(w.m[0][0])
        },
    }
}

} // verus!
