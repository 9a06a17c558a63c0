//! When elimination takes an entry for zero.

use vstd::prelude::*;

use crate::exact::{absolute, exact};
use crate::exact::algebra::comm;
use crate::linalg::Grid;
use crate::linalg::gauss::{
    eliminated, has_pivot, inverse_grid, magnitudes, pivot_row, scale_divided, scale_raised,
    stands_out,
};
use crate::scalar::{lit, Real};

verus! {

/// An entry is told from zero when it reaches `10⁻¹⁸` and `10⁻¹⁵` of the magnitudes that went into it.
pub proof fn entries_are_told_from_zero<T: Real>(val: spec_fn(T) -> real, x: T, scale: T)
    requires
        exact(val),
    ensures
        stands_out(x, scale) <==> {
            &&& absolute(val(x)) >= 1real / 1_000_000_000_000_000_000real
            &&& absolute(val(x)) >= val(scale) / 1_000_000_000_000_000real
        },
{
    assert(val(lit::<T>(1, 1_000_000_000_000_000_000)) == 1real / 1_000_000_000_000_000_000real);
    let k = lit::<T>(1, 1_000_000_000_000_000);
    assert(val(k) == 1real / 1_000_000_000_000_000real);
    comm(val(scale), val(k));
}

/// The magnitudes that go into an entry: at first its own; then, when its row is divided, theirs divided;
/// and when a multiple of another row is taken off, that of what is taken off, where it is larger.
pub proof fn magnitudes_are_followed<T: Real>(
    val: spec_fn(T) -> real,
    a: Grid<T>,
    s: Grid<T>,
    row: int,
    src: int,
    d: T,
    f: T,
    c: int,
)
    requires
        exact(val),
        0 <= row < s.len() && 0 <= row < a.len(),
        0 <= src < s.len(),
        0 <= c < s[row].len() && 0 <= c < a[row].len(),
        val(d) != 0real,
    ensures
        val(magnitudes(a)[row][c]) == absolute(val(a[row][c])),
        val(scale_divided(s, row, d)[row][c]) == absolute(val(s[row][c]) / val(d)),
        ({
            let off = absolute(val(f) * val(s[src][c]));
            val(scale_raised(s, row, f, src)[row][c]) == (if val(s[row][c]) < off {
                off
            } else {
                val(s[row][c])
            })
        }),
        forall|r: int|
            0 <= r < s.len() && r != row ==> #[trigger] scale_divided(s, row, d)[r] == s[r],
        forall|r: int|
            0 <= r < s.len() && r != row ==> #[trigger] scale_raised(s, row, f, src)[r] == s[r],
{
}

/// The pivot is the largest entry on or below the diagonal, and the first of those that are as large.
pub proof fn pivot_is_the_first_of_the_largest<T: Real>(
    val: spec_fn(T) -> real,
    a: Grid<T>,
    col: int,
    end: int,
)
    requires
        exact(val),
        0 <= col < end,
    ensures
        ({
            let p = pivot_row(a, col, end);
            &&& col <= p < end
            &&& forall|r: int|
                col <= r < end ==> absolute(val(#[trigger] a[r][col])) <= absolute(val(a[p][col]))
            &&& forall|r: int|
                col <= r < p ==> absolute(val(#[trigger] a[r][col])) < absolute(val(a[p][col]))
        }),
    decreases end - col,
{
    if end > col + 1 {
        pivot_is_the_first_of_the_largest(val, a, col, end - 1);
    }
}

/// A number alone has an inverse exactly when it reaches `10⁻¹⁸`.
pub proof fn small_number_has_no_inverse<T: Real>(val: spec_fn(T) -> real, x: T)
    requires
        exact(val),
    ensures
        inverse_grid(seq![seq![x]], 1) is Some <==> absolute(val(x)) >= 1real
            / 1_000_000_000_000_000_000real,
{
    reveal(inverse_grid);
    reveal_with_fuel(eliminated, 2);
    let a = seq![seq![x]];
    let scale = magnitudes(a);
    entries_are_told_from_zero(val, a[0][0], scale[0][0]);
    assert(val(scale[0][0]) == absolute(val(x)));
    if has_pivot(a, scale, 0, 1) {
        let r = choose|r: int| 0 <= r < 1 && #[trigger] stands_out(a[r][0], scale[r][0]);
        assert(r == 0);
    }
}

} // verus!
