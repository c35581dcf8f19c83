//! Reference row-elimination algorithms over GF(256).

use vstd::prelude::*;

use crate::algebra::determinants::{
    block_from, determinant, determinant_congruent, determinant_peels, determinant_row_added,
    determinant_row_scaled, determinant_rows_swapped, determinant_zero_column, transposed,
    unit_columns, with_swapped,
};
use crate::algebra::field::{
    left_identities, plus_times, times_undoes, times_zero, FieldElement,
};
use crate::algebra::gf256::GfElem;
use crate::algebra::sums::{sum, sum_congruent, sum_plus, sum_scale};
use crate::matrices::view::{
    cell, column_eliminated, column_is_zero, eliminated_cell, row_replaced, rows_swapped,
    scaled_row, swapped_row, MatrixView, MatrixViewMut,
};

verus! {

/// `dst + s * src`, entry by entry.
pub open spec fn scaled_sum<F: FieldElement>(dst: Seq<F>, s: F, src: Seq<F>) -> Seq<F> {
    Seq::new(dst.len(), |c: int| dst[c].plus(s.times(src[c])))
}

/// Adding zero times a row changes nothing.
pub proof fn zero_multiple_changes_nothing<F: FieldElement>(dst: Seq<F>, src: Seq<F>)
    ensures
        scaled_sum(dst, F::zero_elem(), src) == dst,
{
    assert forall|c: int| 0 <= c < dst.len() implies #[trigger] scaled_sum(
        dst,
        F::zero_elem(),
        src,
    )[c] == dst[c] by {
        left_identities(src[c]);
        F::plus_identity(dst[c]);
    }
    assert(scaled_sum(dst, F::zero_elem(), src) =~= dst);
}

/// Adding a row itself is the exclusive or of the two rows.
pub proof fn unit_multiple_is_exclusive_or(dst: Seq<GfElem>, src: Seq<GfElem>, c: int)
    requires
        0 <= c < dst.len(),
    ensures
        scaled_sum(dst, GfElem::one_elem(), src)[c] == GfElem(dst[c].0 ^ src[c].0),
{
    left_identities(src[c]);
}

/// `dst <- dst + s * src`, elementwise over GF(256).
///
/// This is the inner loop of Gaussian elimination: it zeros a column in a
/// target row by folding in a scaled pivot row.
pub fn axpy_row(dst: &mut [GfElem], s: GfElem, src: &[GfElem])
    requires
        old(dst)@.len() == src@.len(),
    ensures
        final(dst)@ == scaled_sum(old(dst)@, s, src@),
        final(dst)@.len() == old(dst)@.len(),
        forall|c: int|
            0 <= c < old(dst)@.len() ==> #[trigger] final(dst)@[c] == old(dst)@[c].plus(
                s.times(src@[c]),
            ),
{
    let len: usize = dst.len();
    if s == GfElem(0) {
        proof {
            assert forall|c: int| 0 <= c < len implies (#[trigger] dst@[c]).plus(
                s.times(src@[c]),
            ) == dst@[c] by {
                left_identities(src@[c]);
                GfElem::plus_identity(dst@[c]);
            }
            assert(dst@ =~= scaled_sum(old(dst)@, s, src@));
        }
        return;
    }
    if s == GfElem(1) {
        let mut i: usize = 0;
        while i < len
            invariant
                i <= len,
                len == dst@.len() == src@.len() == old(dst)@.len(),
                s == GfElem(1),
                forall|c: int|
                    0 <= c < len ==> #[trigger] dst@[c] == if c < i {
                        old(dst)@[c].plus(s.times(src@[c]))
                    } else {
                        old(dst)@[c]
                    },
            decreases len - i,
        {
            proof {
                left_identities(src@[i as int]);
            }
            dst[i] = dst[i].add(src[i]);
            i += 1;
        }
        proof {
            assert(dst@ =~= scaled_sum(old(dst)@, s, src@));
        }
        return;
    }
    let mut i: usize = 0;
    while i < len
        invariant
            i <= len,
            len == dst@.len() == src@.len() == old(dst)@.len(),
            forall|c: int|
                0 <= c < len ==> #[trigger] dst@[c] == if c < i {
                    old(dst)@[c].plus(s.times(src@[c]))
                } else {
                    old(dst)@[c]
                },
        decreases len - i,
    {
        dst[i] = dst[i].add(s.mul(src[i]));
        i += 1;
    }
    proof {
        assert(dst@ =~= scaled_sum(old(dst)@, s, src@));
    }
}

/// Row `r` of a matrix times the vector `x`.
pub open spec fn row_times<F: FieldElement>(
    cells: Seq<F>,
    cols: int,
    r: int,
    x: spec_fn(int) -> F,
) -> F {
    sum(|c: int| cell(cells, cols, r, c).times(x(c)), cols)
}

/// The matrix sends `x` to zero.
pub open spec fn kills<F: FieldElement>(
    cells: Seq<F>,
    rows: int,
    cols: int,
    x: spec_fn(int) -> F,
) -> bool {
    forall|r: int| 0 <= r < rows ==> #[trigger] row_times(cells, cols, r, x) == F::zero_elem()
}

/// Both matrices send the same vectors to zero, so their rows span the same
/// space.
pub open spec fn same_kernel<F: FieldElement>(
    first: Seq<F>,
    second: Seq<F>,
    rows: int,
    cols: int,
) -> bool {
    forall|x: spec_fn(int) -> F| #[trigger]
        kills(first, rows, cols, x) == kills(second, rows, cols, x)
}

/// Reduction keeps the solutions of the homogeneous system: a vector makes every
/// row of one matrix sum to zero exactly if it does so for the other. The sum of
/// row `r` is that of its cells, each times the entry of its column.
pub proof fn reduction_keeps_solutions<F: FieldElement>(
    first: Seq<F>,
    second: Seq<F>,
    rows: int,
    cols: int,
    x: spec_fn(int) -> F,
    r: int,
)
    requires
        same_kernel(first, second, rows, cols),
    ensures
        (forall|r: int|
            0 <= r < rows ==> #[trigger] row_times(first, cols, r, x) == F::zero_elem()) <==> (
        forall|r: int|
            0 <= r < rows ==> #[trigger] row_times(second, cols, r, x) == F::zero_elem()),
        row_times(first, cols, r, x) == sum(|c: int| first[r * cols + c].times(x(c)), cols),
{
    assert(kills(first, rows, cols, x) == kills(second, rows, cols, x));
    let left = |c: int| cell(first, cols, r, c).times(x(c));
    let right = |c: int| first[r * cols + c].times(x(c));
    sum_congruent(left, right, cols);
}

/// Swapping rows keeps the kernel.
proof fn swap_keeps_kernel<F: FieldElement>(
    before: Seq<F>,
    after: Seq<F>,
    rows: int,
    cols: int,
    a: int,
    b: int,
)
    requires
        0 <= a < rows,
        0 <= b < rows,
        rows_swapped(before, after, rows, cols, a, b),
    ensures
        same_kernel(before, after, rows, cols),
{
    assert forall|x: spec_fn(int) -> F| #[trigger]
        kills(before, rows, cols, x) == kills(after, rows, cols, x) by {
        assert forall|r: int| 0 <= r < rows implies #[trigger] row_times(after, cols, r, x)
            == row_times(before, cols, swapped_row(r, a, b), x) by {
            let source = swapped_row(r, a, b);
            let f = |c: int| cell(after, cols, r, c).times(x(c));
            let g = |c: int| cell(before, cols, source, c).times(x(c));
            assert forall|c: int| 0 <= c < cols implies #[trigger] f(c) == g(c) by {
                assert(cell(after, cols, r, c) == cell(before, cols, source, c));
            }
            sum_congruent(f, g, cols);
        }
        if kills(after, rows, cols, x) {
            assert forall|r: int| 0 <= r < rows implies #[trigger] row_times(before, cols, r, x)
                == F::zero_elem() by {
                let image = swapped_row(r, a, b);
                assert(swapped_row(image, a, b) == r);
                assert(row_times(after, cols, image, x) == row_times(before, cols, r, x));
            }
        }
        if kills(before, rows, cols, x) {
            assert forall|r: int| 0 <= r < rows implies #[trigger] row_times(after, cols, r, x)
                == F::zero_elem() by {
                assert(row_times(before, cols, swapped_row(r, a, b), x) == F::zero_elem());
            }
        }
    }
}

/// Scaling a row by a nonzero factor keeps the kernel.
proof fn scale_keeps_kernel<F: FieldElement>(
    before: Seq<F>,
    after: Seq<F>,
    rows: int,
    cols: int,
    row: int,
    s: F,
)
    requires
        0 <= row < rows,
        s != F::zero_elem(),
        row_replaced(before, after, rows, cols, row, scaled_row(before, cols, row, s)),
    ensures
        same_kernel(before, after, rows, cols),
{
    assert forall|x: spec_fn(int) -> F| #[trigger]
        kills(before, rows, cols, x) == kills(after, rows, cols, x) by {
        assert forall|r: int| 0 <= r < rows implies #[trigger] row_times(after, cols, r, x)
            == if r == row {
            s.times(row_times(before, cols, r, x))
        } else {
            row_times(before, cols, r, x)
        } by {
            let f = |c: int| cell(after, cols, r, c).times(x(c));
            let g = |c: int| cell(before, cols, r, c).times(x(c));
            let h = |c: int| s.times(g(c));
            if r == row {
                assert forall|c: int| 0 <= c < cols implies #[trigger] f(c) == h(c) by {
                    let v = cell(before, cols, r, c);
                    assert(cell(after, cols, r, c) == v.times(s));
                    F::times_commutes(v, s);
                    F::times_associates(s, v, x(c));
                }
                sum_congruent(f, h, cols);
                sum_scale(s, g, cols);
            } else {
                assert forall|c: int| 0 <= c < cols implies #[trigger] f(c) == g(c) by {
                    assert(cell(after, cols, r, c) == cell(before, cols, r, c));
                }
                sum_congruent(f, g, cols);
            }
        }
        if kills(after, rows, cols, x) {
            assert forall|r: int| 0 <= r < rows implies #[trigger] row_times(before, cols, r, x)
                == F::zero_elem() by {
                assert(row_times(after, cols, r, x) == F::zero_elem());
                if r == row {
                    times_undoes(s, row_times(before, cols, r, x));
                    times_zero(s.recip());
                }
            }
        }
        if kills(before, rows, cols, x) {
            assert forall|r: int| 0 <= r < rows implies #[trigger] row_times(after, cols, r, x)
                == F::zero_elem() by {
                assert(row_times(before, cols, r, x) == F::zero_elem());
                times_zero(s);
            }
        }
    }
}

/// Folding the pivot row into the others keeps the kernel.
proof fn elimination_keeps_kernel<F: FieldElement>(
    before: Seq<F>,
    after: Seq<F>,
    rows: int,
    cols: int,
    pivot_row: int,
    pivot_col: int,
)
    requires
        0 <= pivot_row < rows,
        column_eliminated(before, after, rows, cols, pivot_row, pivot_col),
    ensures
        same_kernel(before, after, rows, cols),
{
    assert forall|x: spec_fn(int) -> F| #[trigger]
        kills(before, rows, cols, x) == kills(after, rows, cols, x) by {
        let pivot = row_times(before, cols, pivot_row, x);
        assert forall|r: int| 0 <= r < rows implies #[trigger] row_times(after, cols, r, x)
            == if r == pivot_row {
            pivot
        } else {
            row_times(before, cols, r, x).plus(
                cell(before, cols, r, pivot_col).times(pivot),
            )
        } by {
            let f = |c: int| cell(after, cols, r, c).times(x(c));
            let g = |c: int| cell(before, cols, r, c).times(x(c));
            let p = |c: int| cell(before, cols, pivot_row, c).times(x(c));
            let factor = cell(before, cols, r, pivot_col);
            let q = |c: int| factor.times(p(c));
            let both = |c: int| g(c).plus(q(c));
            if r == pivot_row {
                assert forall|c: int| 0 <= c < cols implies #[trigger] f(c) == g(c) by {
                    assert(cell(after, cols, r, c) == eliminated_cell(
                        before,
                        cols,
                        pivot_row,
                        pivot_col,
                        r,
                        c,
                    ));
                }
                sum_congruent(f, g, cols);
            } else {
                assert forall|c: int| 0 <= c < cols implies #[trigger] f(c) == both(c) by {
                    assert(cell(after, cols, r, c) == eliminated_cell(
                        before,
                        cols,
                        pivot_row,
                        pivot_col,
                        r,
                        c,
                    ));
                    let v = cell(before, cols, r, c);
                    let w = cell(before, cols, pivot_row, c);
                    plus_times(v, factor.times(w), x(c));
                    F::times_associates(factor, w, x(c));
                }
                sum_congruent(f, both, cols);
                sum_plus(g, q, cols);
                sum_scale(factor, p, cols);
            }
        }
        if kills(after, rows, cols, x) {
            assert(row_times(after, cols, pivot_row, x) == F::zero_elem());
            assert forall|r: int| 0 <= r < rows implies #[trigger] row_times(before, cols, r, x)
                == F::zero_elem() by {
                assert(row_times(after, cols, r, x) == F::zero_elem());
                times_zero(cell(before, cols, r, pivot_col));
                F::plus_identity(row_times(before, cols, r, x));
            }
        }
        if kills(before, rows, cols, x) {
            assert(pivot == F::zero_elem());
            assert forall|r: int| 0 <= r < rows implies #[trigger] row_times(after, cols, r, x)
                == F::zero_elem() by {
                assert(row_times(before, cols, r, x) == F::zero_elem());
                times_zero(cell(before, cols, r, pivot_col));
                F::plus_identity(F::zero_elem());
            }
        }
    }
}

/// The first `width` columns are in reduced row-echelon form: row `t` has its
/// leading one in column `pivots[t]`, which is otherwise zero, and the rows
/// that follow are zero.
pub open spec fn has_pivots<F: FieldElement>(
    cells: Seq<F>,
    rows: int,
    cols: int,
    width: int,
    pivots: Seq<int>,
) -> bool {
    &&& pivots.len() <= rows
    &&& forall|t: int| 0 <= t < pivots.len() ==> 0 <= #[trigger] pivots[t] < width
    &&& forall|s: int, t: int|
        0 <= s < t < pivots.len() ==> #[trigger] pivots[s] < #[trigger] pivots[t]
    &&& forall|r: int, t: int|
        0 <= r < rows && 0 <= t < pivots.len() ==> #[trigger] cell(cells, cols, r, pivots[t])
            == if r == t {
            F::one_elem()
        } else {
            F::zero_elem()
        }
    &&& forall|t: int, c: int|
        0 <= t < pivots.len() && 0 <= c < pivots[t] ==> #[trigger] cell(cells, cols, t, c)
            == F::zero_elem()
    &&& forall|r: int, c: int|
        pivots.len() <= r < rows && 0 <= c < width ==> #[trigger] cell(cells, cols, r, c)
            == F::zero_elem()
}

/// The matrix is in reduced row-echelon form with `rank` nonzero rows.
pub open spec fn reduced_echelon<F: FieldElement>(
    cells: Seq<F>,
    rows: int,
    cols: int,
    rank: int,
) -> bool {
    exists|pivots: Seq<int>| #[trigger]
        has_pivots(cells, rows, cols, cols, pivots) && pivots.len() == rank
}

/// A matrix in reduced form of full rank is the identity, so it sends no vector
/// but zero to zero; one of smaller rank has a zero row.
pub proof fn full_rank_is_identity<F: FieldElement>(cells: Seq<F>, n: int, rank: int)
    requires
        n >= 1,
        reduced_echelon(cells, n, n, rank),
    ensures
        0 <= rank <= n,
        rank == n ==> forall|r: int, c: int|
            0 <= r < n && 0 <= c < n ==> #[trigger] cell(cells, n, r, c) == if r == c {
                F::one_elem()
            } else {
                F::zero_elem()
            },
        rank < n ==> forall|r: int, c: int|
            rank <= r < n && 0 <= c < n ==> #[trigger] cell(cells, n, r, c) == F::zero_elem(),
{
    let pivots = choose|pivots: Seq<int>| #[trigger]
        has_pivots(cells, n, n, n, pivots) && pivots.len() == rank;
    if rank == n {
        assert forall|r: int, c: int| 0 <= r < n && 0 <= c < n implies #[trigger] cell(
            cells,
            n,
            r,
            c,
        ) == if r == c {
            F::one_elem()
        } else {
            F::zero_elem()
        } by {
            ascending_fills(pivots, n, c);
            assert(cell(cells, n, r, pivots[c]) == if r == c {
                F::one_elem()
            } else {
                F::zero_elem()
            });
        }
    }
}

/// An ascending list of `n` positions below `n` lists each at its own place.
proof fn ascending_fills(pivots: Seq<int>, n: int, t: int)
    requires
        pivots.len() == n,
        0 <= t < n,
        forall|t: int| 0 <= t < n ==> 0 <= #[trigger] pivots[t] < n,
        forall|s: int, t: int| 0 <= s < t < n ==> #[trigger] pivots[s] < #[trigger] pivots[t],
    ensures
        pivots[t] == t,
{
    ascending_at_least(pivots, n, t);
    ascending_at_most(pivots, n, t);
}

proof fn ascending_at_least(pivots: Seq<int>, n: int, t: int)
    requires
        pivots.len() == n,
        0 <= t < n,
        forall|t: int| 0 <= t < n ==> 0 <= #[trigger] pivots[t] < n,
        forall|s: int, t: int| 0 <= s < t < n ==> #[trigger] pivots[s] < #[trigger] pivots[t],
    ensures
        pivots[t] >= t,
    decreases t,
{
    if t > 0 {
        ascending_at_least(pivots, n, t - 1);
        assert(pivots[t - 1] < pivots[t]);
    }
}

proof fn ascending_at_most(pivots: Seq<int>, n: int, t: int)
    requires
        pivots.len() == n,
        0 <= t < n,
        forall|t: int| 0 <= t < n ==> 0 <= #[trigger] pivots[t] < n,
        forall|s: int, t: int| 0 <= s < t < n ==> #[trigger] pivots[s] < #[trigger] pivots[t],
    ensures
        pivots[t] <= t,
    decreases n - t,
{
    if t < n - 1 {
        ascending_at_most(pivots, n, t + 1);
        assert(pivots[t] < pivots[t + 1]);
    }
}

/// Row `r` of `after` when row `row` of `c0` has been swapped into `rank`,
/// normalized and folded into the others.
proof fn pivot_installed<F: FieldElement>(
    c0: Seq<F>,
    c1: Seq<F>,
    c2: Seq<F>,
    c3: Seq<F>,
    rows: int,
    cols: int,
    rank: int,
    p: int,
    c: int,
    s: F,
    pivots: Seq<int>,
)
    requires
        0 <= c < cols,
        0 <= rank <= p < rows,
        pivots.len() == rank,
        has_pivots(c0, rows, cols, c, pivots),
        cell(c0, cols, p, c) != F::zero_elem(),
        rows_swapped(c0, c1, rows, cols, rank, p),
        s == cell(c1, cols, rank, c).recip(),
        row_replaced(c1, c2, rows, cols, rank, scaled_row(c1, cols, rank, s)),
        column_eliminated(c2, c3, rows, cols, rank, c),
    ensures
        has_pivots(c3, rows, cols, c + 1, pivots.push(c)),
        same_kernel(c0, c3, rows, cols),
{
    let zero = F::zero_elem();
    let one = F::one_elem();
    let lead = cell(c0, cols, p, c);
    assert(cell(c1, cols, rank, c) == lead);
    F::times_recip(lead);
    times_undoes(lead, one);
    if s == zero {
        times_zero(lead);
        F::one_is_not_zero();
    }
    swap_keeps_kernel(c0, c1, rows, cols, rank, p);
    scale_keeps_kernel(c1, c2, rows, cols, rank, s);
    elimination_keeps_kernel(c2, c3, rows, cols, rank, c);
    assert forall|x: spec_fn(int) -> F| #[trigger]
        kills(c0, rows, cols, x) == kills(c3, rows, cols, x) by {
        assert(kills(c0, rows, cols, x) == kills(c1, rows, cols, x));
        assert(kills(c1, rows, cols, x) == kills(c2, rows, cols, x));
        assert(kills(c2, rows, cols, x) == kills(c3, rows, cols, x));
    }
    // Left of column `c` the new pivot row is zero, and nothing changes.
    assert forall|r: int, j: int| 0 <= r < rows && 0 <= j < c implies #[trigger] cell(
        c3,
        cols,
        r,
        j,
    ) == cell(c0, cols, r, j) by {
        assert(cell(c0, cols, rank, j) == zero);
        assert(cell(c0, cols, p, j) == zero);
        assert(cell(c1, cols, rank, j) == zero);
        assert(cell(c1, cols, r, j) == cell(c0, cols, r, j));
        left_identities(s);
        assert(cell(c2, cols, rank, j) == cell(c1, cols, rank, j).times(s));
        assert(cell(c2, cols, r, j) == cell(c0, cols, r, j));
        times_zero(cell(c2, cols, r, c));
        F::plus_identity(cell(c2, cols, r, j));
        assert(cell(c3, cols, r, j) == eliminated_cell(c2, cols, rank, c, r, j));
    }
    assert(cell(c2, cols, rank, c) == one) by {
        assert(cell(c2, cols, rank, c) == lead.times(s));
    }
    assert forall|r: int| 0 <= r < rows implies #[trigger] cell(c3, cols, r, c) == if r == rank {
        one
    } else {
        zero
    } by {
        assert(cell(c3, cols, r, c) == eliminated_cell(c2, cols, rank, c, r, c));
        let v = cell(c2, cols, r, c);
        F::times_identity(v);
        F::plus_cancels(v);
    }
    let wider = pivots.push(c);
    assert forall|r: int, t: int| 0 <= r < rows && 0 <= t < wider.len() implies #[trigger] cell(
        c3,
        cols,
        r,
        wider[t],
    ) == if r == t {
        one
    } else {
        zero
    } by {
        if t < rank {
            assert(wider[t] == pivots[t]);
            assert(cell(c3, cols, r, pivots[t]) == cell(c0, cols, r, pivots[t]));
        }
    }
    assert forall|t: int, j: int| 0 <= t < wider.len() && 0 <= j < wider[t] implies #[trigger] cell(
        c3,
        cols,
        t,
        j,
    ) == zero by {
        if t < rank {
            assert(wider[t] == pivots[t]);
        }
        assert(cell(c3, cols, t, j) == cell(c0, cols, t, j));
    }
    assert forall|r: int, j: int| wider.len() <= r < rows && 0 <= j < c + 1 implies #[trigger] cell(
        c3,
        cols,
        r,
        j,
    ) == zero by {
        if j < c {
            assert(cell(c3, cols, r, j) == cell(c0, cols, r, j));
        }
    }
}

/// Reduces a matrix to reduced row-echelon form via row-only pivoting, using
/// first-nonzero-column pivot selection. Returns the rank.
///
/// The pivot for column `c` is placed in row `rank` (the first available row at
/// or below `rank` with a nonzero entry in `c`), normalized to a leading one,
/// and its column is zeroed in every other row.
pub fn rref(view: &mut MatrixViewMut<'_>) -> (rank: usize)
    requires
        old(view).valid(),
    ensures
        final(view).valid(),
        final(view).rows == old(view).rows,
        final(view).cols == old(view).cols,
        reduced_echelon(
            final(view).cells(),
            old(view).rows as int,
            old(view).cols as int,
            rank as int,
        ),
        same_kernel(
            old(view).cells(),
            final(view).cells(),
            old(view).rows as int,
            old(view).cols as int,
        ),
        final(final(view).buf)@ == final(old(view).buf)@,
{
    let rows: usize = view.rows();
    let cols: usize = view.cols();
    let mut rank: usize = 0;
    let mut c: usize = 0;
    let ghost mut pivots: Seq<int> = Seq::empty();
    while c < cols && rank < rows
        invariant
            c <= cols,
            rank <= rows,
            rows == view.rows == old(view).rows,
            cols == view.cols == old(view).cols,
            view.valid(),
            pivots.len() == rank,
            has_pivots(view.cells(), rows as int, cols as int, c as int, pivots),
            same_kernel(old(view).cells(), view.cells(), rows as int, cols as int),
            final(view.buf)@ == final(old(view).buf)@,
        decreases cols - c,
    {
        let ghost c0 = view.cells();
        match view.first_nonzero_in_col(c, rank) {
            None => {
                proof {
                    assert forall|r: int, j: int|
                        pivots.len() <= r < rows && 0 <= j < c + 1 implies #[trigger] cell(
                        c0,
                        cols as int,
                        r,
                        j,
                    ) == GfElem(0) by {
                        if j == c {
                            assert(cell(c0, cols as int, r, c as int) == GfElem(0));
                        }
                    }
                    assert(has_pivots(c0, rows as int, cols as int, c + 1, pivots));
                }
            },
            Some(pivot) => {
                view.swap_rows(rank, pivot);
                let ghost c1 = view.cells();
                let lead = view.get(rank, c);
                let s = lead.inv();
                view.scale_row(rank, s);
                let ghost c2 = view.cells();
                proof {
                    assert(cell(c1, cols as int, rank as int, c as int) == cell(
                        c0,
                        cols as int,
                        pivot as int,
                        c as int,
                    ));
                    assert(cell(c2, cols as int, rank as int, c as int) == lead.times(s));
                }
                view.eliminate_col(rank, c);
                proof {
                    let c3 = view.cells();
                    pivot_installed(
                        c0,
                        c1,
                        c2,
                        c3,
                        rows as int,
                        cols as int,
                        rank as int,
                        pivot as int,
                        c as int,
                        s,
                        pivots,
                    );
                    assert forall|x: spec_fn(int) -> GfElem| #[trigger]
                        kills(old(view).cells(), rows as int, cols as int, x) == kills(
                            c3,
                            rows as int,
                            cols as int,
                            x,
                        ) by {
                        assert(kills(old(view).cells(), rows as int, cols as int, x) == kills(
                            c0,
                            rows as int,
                            cols as int,
                            x,
                        ));
                        assert(kills(c0, rows as int, cols as int, x) == kills(
                            c3,
                            rows as int,
                            cols as int,
                            x,
                        ));
                    }
                    pivots = pivots.push(c as int);
                }
                rank += 1;
            },
        }
        c += 1;
    }
    proof {
        assert(has_pivots(view.cells(), rows as int, cols as int, cols as int, pivots));
    }
    rank
}

/// The cells as a function of row and column.
pub open spec fn entries<F>(cells: Seq<F>, cols: int) -> spec_fn(int, int) -> F {
    |r: int, c: int| cell(cells, cols, r, c)
}

/// Folding a row into the first `count` other rows keeps the determinant.
proof fn elimination_keeps_determinant<F: FieldElement>(
    before: spec_fn(int, int) -> F,
    after: spec_fn(int, int) -> F,
    n: int,
    pivot: int,
    count: int,
)
    requires
        0 <= pivot < n,
        0 <= count <= n,
        forall|r: int, c: int|
            0 <= r < n && 0 <= c < n ==> #[trigger] after(r, c) == if r < count && r != pivot {
                before(r, c).plus(before(r, pivot).times(before(pivot, c)))
            } else {
                before(r, c)
            },
    ensures
        determinant(after, n) == determinant(before, n),
    decreases count,
{
    if count == 0 {
        determinant_congruent(after, before, n);
    } else {
        let row = count - 1;
        let middle = |r: int, c: int|
            if r == row {
                before(r, c)
            } else {
                after(r, c)
            };
        elimination_keeps_determinant(before, middle, n, pivot, count - 1);
        if row == pivot {
            determinant_congruent(after, middle, n);
        } else {
            assert forall|j: int| 0 <= j < n implies #[trigger] after(row, j) == middle(
                row,
                j,
            ).plus(before(row, pivot).times(middle(pivot, j))) by {
                assert(after(pivot, j) == before(pivot, j));
            }
            determinant_row_added(middle, after, n, row, pivot, before(row, pivot));
        }
    }
}

/// One step of Gauss-Jordan elimination divides the determinant of the leading
/// columns by the pivot and makes one more column a unit vector.
pub proof fn jordan_step<F: FieldElement>(
    c0: Seq<F>,
    c1: Seq<F>,
    c2: Seq<F>,
    c3: Seq<F>,
    n: int,
    cols: int,
    col: int,
    p: int,
    s: F,
)
    requires
        0 <= col <= p < n,
        n <= cols,
        unit_columns(entries(c0, cols), n, col),
        cell(c0, cols, p, col) != F::zero_elem(),
        rows_swapped(c0, c1, n, cols, col, p),
        s == cell(c1, cols, col, col).recip(),
        row_replaced(c1, c2, n, cols, col, scaled_row(c1, cols, col, s)),
        column_eliminated(c2, c3, n, cols, col, col),
    ensures
        cell(c0, cols, p, col).times(determinant(entries(c3, cols), n)) == determinant(
            entries(c0, cols),
            n,
        ),
        unit_columns(entries(c3, cols), n, col + 1),
{
    let zero = F::zero_elem();
    let one = F::one_elem();
    let e0 = entries(c0, cols);
    let e1 = entries(c1, cols);
    let e2 = entries(c2, cols);
    let e3 = entries(c3, cols);
    let lead = cell(c0, cols, p, col);
    assert(cell(c1, cols, col, col) == lead);
    F::times_recip(lead);
    times_undoes(lead, determinant(e1, n));
    assert(determinant(e1, n) == determinant(e0, n)) by {
        if col == p {
            assert forall|r: int, c: int| 0 <= r < n && 0 <= c < n implies #[trigger] e1(r, c)
                == e0(r, c) by {
                assert(cell(c1, cols, r, c) == cell(c0, cols, swapped_row(r, col, p), c));
            }
            determinant_congruent(e1, e0, n);
        } else {
            let sw = with_swapped(e0, col, p);
            assert forall|r: int, c: int| 0 <= r < n && 0 <= c < n implies #[trigger] e1(r, c)
                == sw(r, c) by {
                assert(cell(c1, cols, r, c) == cell(c0, cols, swapped_row(r, col, p), c));
                assert(transposed(r, col, p) == swapped_row(r, col, p));
            }
            determinant_congruent(e1, sw, n);
            determinant_rows_swapped(e0, n, col, p);
        }
    }
    assert(determinant(e2, n) == s.times(determinant(e1, n))) by {
        assert forall|r: int, c: int| 0 <= r < n && 0 <= c < n && r != col implies #[trigger] e1(
            r,
            c,
        ) == e2(r, c) by {
            assert(cell(c2, cols, r, c) == cell(c1, cols, r, c));
        }
        assert forall|j: int| 0 <= j < n implies #[trigger] e2(col, j) == s.times(e1(col, j)) by {
            assert(cell(c2, cols, col, j) == cell(c1, cols, col, j).times(s));
            F::times_commutes(cell(c1, cols, col, j), s);
        }
        determinant_row_scaled(e1, e2, n, col, s);
    }
    assert forall|r: int, c: int| 0 <= r < n && 0 <= c < n implies #[trigger] e3(r, c) == if r < n
        && r != col {
        e2(r, c).plus(e2(r, col).times(e2(col, c)))
    } else {
        e2(r, c)
    } by {
        assert(cell(c3, cols, r, c) == eliminated_cell(c2, cols, col, col, r, c));
    }
    elimination_keeps_determinant(e2, e3, n, col, n);
    assert(cell(c2, cols, col, col) == one) by {
        assert(cell(c2, cols, col, col) == cell(c1, cols, col, col).times(s));
    }
    assert forall|r: int, c: int| 0 <= r < n && 0 <= c < col + 1 implies #[trigger] e3(r, c)
        == if r == c {
        one
    } else {
        zero
    } by {
        assert(cell(c3, cols, r, c) == eliminated_cell(c2, cols, col, col, r, c));
        if c == col {
            let v = cell(c2, cols, r, c);
            F::times_identity(v);
            F::plus_cancels(v);
        } else {
            assert(e0(col, c) == zero);
            assert(e0(p, c) == zero);
            assert(e0(r, c) == if r == c {
                one
            } else {
                zero
            });
            assert(cell(c1, cols, r, c) == cell(c0, cols, swapped_row(r, col, p), c));
            assert(cell(c1, cols, col, c) == cell(c0, cols, p, c));
            left_identities(s);
            assert(cell(c2, cols, col, c) == cell(c1, cols, col, c).times(s));
            times_zero(cell(c2, cols, r, col));
            F::plus_identity(cell(c2, cols, r, c));
            if r != col {
                assert(cell(c2, cols, r, c) == cell(c1, cols, r, c));
            }
        }
    }
}

/// Without a pivot the determinant is zero.
pub proof fn missing_pivot_is_singular<F: FieldElement>(
    cells: Seq<F>,
    n: int,
    cols: int,
    col: int,
)
    requires
        0 <= col < n,
        n <= cols,
        unit_columns(entries(cells, cols), n, col),
        column_is_zero(cells, cols, col, col, n),
    ensures
        determinant(entries(cells, cols), n) == F::zero_elem(),
{
    let e = entries(cells, cols);
    determinant_peels(e, n, col);
    let b = block_from(e, col);
    assert forall|r: int| 0 <= r < n - col implies #[trigger] b(r, 0) == F::zero_elem() by {
        assert(cell(cells, cols, r + col, col) == F::zero_elem());
    }
    determinant_zero_column(b, n - col);
}

/// Computes the determinant of an `n` by `n` GF(256) matrix via Gaussian
/// elimination. Returns zero for singular matrices.
///
/// It works on a copy, so it can be used on immutable input.
pub fn det(matrix: MatrixView<'_>) -> (r: GfElem)
    requires
        matrix.valid(),
        matrix.height() == matrix.width(),
    ensures
        r == determinant(entries(matrix.cells(), matrix.width()), matrix.height()),
{
    let n: usize = matrix.rows();
    let mut buf: Vec<GfElem> = Vec::new();
    let mut row: usize = 0;
    proof {
        assert(matrix.cells().subrange(0, 0) =~= Seq::<GfElem>::empty());
        assert(0 * n == 0) by (nonlinear_arith);
    }
    while row < n
        invariant
            row <= n,
            matrix.valid(),
            n == matrix.height() == matrix.width(),
            row * n <= matrix.cells().len(),
            buf@ == matrix.cells().subrange(0, row * n),
        decreases n - row,
    {
        let ghost before = buf@;
        let line = matrix.row(row);
        buf.extend_from_slice(line);
        proof {
            crate::symbols::row_bounds(row as int, n as int, n as int);
            assert(buf@ =~= matrix.cells().subrange(0, (row + 1) * n));
        }
        row += 1;
    }
    proof {
        assert(buf@ =~= matrix.cells());
    }
    match MatrixViewMut::new(buf.as_mut_slice(), n, n) {
        None => GfElem(0),
        Some(mut view) => determinant_in_place(&mut view),
    }
}

/// Gauss-Jordan elimination that multiplies up the pivots.
fn determinant_in_place(view: &mut MatrixViewMut<'_>) -> (r: GfElem)
    requires
        old(view).valid(),
        old(view).rows == old(view).cols,
    ensures
        r == determinant(entries(old(view).cells(), old(view).cols as int), old(view).rows as int),
{
    let n: usize = view.rows();
    let mut product = GfElem(1);
    let mut col: usize = 0;
    let ghost whole = determinant(entries(view.cells(), n as int), n as int);
    proof {
        left_identities(whole);
    }
    while col < n
        invariant
            col <= n,
            n == view.rows == view.cols,
            view.valid(),
            whole == determinant(
                entries(old(view).cells(), old(view).cols as int),
                old(view).rows as int,
            ),
            unit_columns(entries(view.cells(), n as int), n as int, col as int),
            product.times(determinant(entries(view.cells(), n as int), n as int)) == whole,
        decreases n - col,
    {
        let ghost c0 = view.cells();
        match view.first_nonzero_in_col(col, col) {
            None => {
                proof {
                    missing_pivot_is_singular(c0, n as int, n as int, col as int);
                    times_zero(product);
                }
                return GfElem(0);
            },
            Some(pivot) => {
                view.swap_rows(col, pivot);
                let ghost c1 = view.cells();
                let lead = view.get(col, col);
                let s = lead.inv();
                view.scale_row(col, s);
                let ghost c2 = view.cells();
                proof {
                    assert(cell(c1, n as int, col as int, col as int) == cell(
                        c0,
                        n as int,
                        pivot as int,
                        col as int,
                    ));
                    assert(cell(c2, n as int, col as int, col as int) == lead.times(s));
                }
                view.eliminate_col(col, col);
                let ghost c3 = view.cells();
                proof {
                    jordan_step(
                        c0,
                        c1,
                        c2,
                        c3,
                        n as int,
                        n as int,
                        col as int,
                        pivot as int,
                        s,
                    );
                    GfElem::times_associates(
                        product,
                        lead,
                        determinant(entries(c3, n as int), n as int),
                    );
                }
                product = product.mul(lead);
            },
        }
        col += 1;
    }
    proof {
        determinant_peels(entries(view.cells(), n as int), n as int, n as int);
        GfElem::times_identity(product);
    }
    product
}

} // verus!
