//! Vectors and matrices, entry by entry.

use vstd::prelude::*;

use crate::exact::{exact, lemma_constants, lemma_reciprocal};
use crate::exact::algebra::{assoc, comm, times_one};
use crate::exact::jacobians::{cross3, dot3, plus3, times3};
use crate::exact::quaternions::triple;
use crate::exact::scores::{lemma_length, minus3};
use crate::linalg::{
    diag_added, grid_diff, grid_scaled, grid_sum, identity_grid, transposed, v3, with_block,
    zeros_grid, Grid, V3,
};
use crate::scalar::Real;

verus! {

/// Vectors add, scale and multiply as vectors do; the length of a vector is the root of its product with
/// itself, and its direction times the length is the vector.
pub proof fn vectors_are_vectors<T: Real>(val: spec_fn(T) -> real, a: V3<T>, b: V3<T>, s: T)
    requires
        exact(val),
    ensures
        triple(val, v3::added(a, b)) == plus3(triple(val, a), triple(val, b)),
        triple(val, v3::subtracted(a, b)) == minus3(triple(val, a), triple(val, b)),
        triple(val, v3::scaled(a, s)) == times3(val(s), triple(val, a)),
        val(v3::inner(a, b)) == dot3(triple(val, a), triple(val, b)),
        triple(val, v3::crossed(a, b)) == cross3(triple(val, a), triple(val, b)),
        val(v3::length(a)) >= 0real,
        val(v3::length(a)) * val(v3::length(a)) == dot3(triple(val, a), triple(val, a)),
        val(v3::length(a)) > 0real ==> times3(val(v3::length(a)), triple(val, v3::direction(a)))
            == triple(val, a),
        val(v3::length(a)) == 0real ==> v3::direction(a) == a,
        triple(val, v3::origin::<T>()) == (0real, 0real, 0real),
{
    lemma_constants(val);
    lemma_length(val, a);
    comm(val(a[0]), val(s));
    comm(val(a[1]), val(s));
    comm(val(a[2]), val(s));
    let n = val(v3::length(a));
    if n > 0real {
        let r = 1real / n;
        lemma_reciprocal(1real, n);
        lemma_scaled_away(n, r, val(a[0]));
        lemma_scaled_away(n, r, val(a[1]));
        lemma_scaled_away(n, r, val(a[2]));
    }
}

proof fn lemma_scaled_away(n: real, r: real, x: real)
    requires
        n * r == 1real,
    ensures
        n * (x * r) == x,
{
    comm(x, r);
    assoc(n, r, x);
    times_one(x, 1real);
    comm(x, 1real);
}

/// Matrices add, scale and transpose entry by entry; the identity has ones on its diagonal; adding to the
/// diagonal changes that alone; and a block put into a matrix changes the entries under it alone.
pub proof fn matrices_are_matrices<T: Real>(
    val: spec_fn(T) -> real,
    a: Grid<T>,
    b: Grid<T>,
    s: T,
    r: nat,
    c: nat,
    i: int,
    j: int,
)
    requires
        exact(val),
        0 <= i < r,
        0 <= j < c,
    ensures
        val(grid_sum(a, b, r, c)[i][j]) == val(a[i][j]) + val(b[i][j]),
        val(grid_diff(a, b, r, c)[i][j]) == val(a[i][j]) - val(b[i][j]),
        val(grid_scaled(a, s, r, c)[i][j]) == val(s) * val(a[i][j]),
        val(transposed(a, r, c)[j][i]) == val(a[i][j]),
        val(zeros_grid::<T>(r, c)[i][j]) == 0real,
        r == c ==> val(identity_grid::<T>(r)[i][j]) == (if i == j {
            1real
        } else {
            0real
        }),
        r == c ==> val(diag_added(a, s, r)[i][j]) == val(a[i][j]) + (if i == j {
            val(s)
        } else {
            0real
        }),
{
    lemma_constants(val);
    comm(val(a[i][j]), val(s));
}

/// A block stands where it was put, and nothing else of the matrix changes.
pub proof fn block_stands_where_it_was_put<T>(
    m: Grid<T>,
    b: Grid<T>,
    r0: int,
    c0: int,
    br: nat,
    bc: nat,
    i: int,
    j: int,
)
    requires
        0 <= r0 && 0 <= c0,
        r0 + br <= m.len(),
        forall|k: int| 0 <= k < m.len() ==> c0 + bc <= (#[trigger] m[k]).len(),
        0 <= i < m.len(),
        0 <= j < m[i].len(),
    ensures
        ({
            let out = with_block(m, r0, c0, b, br, bc);
            &&& out.len() == m.len() && out[i].len() == m[i].len()
            &&& r0 <= i < r0 + br && c0 <= j < c0 + bc ==> out[i][j] == b[i - r0][j - c0]
            &&& !(r0 <= i < r0 + br && c0 <= j < c0 + bc) ==> out[i][j] == m[i][j]
        }),
{
}

} // verus!
