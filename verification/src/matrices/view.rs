//! GF(256) matrix views and row operations.
//!
//! A matrix is one flat buffer stored row-major; these views give it shape
//! without copying. All operations are borrow-only: no owning container is
//! introduced. The primitives are deliberately small: scaling a row, swapping
//! two rows, selecting a pivot and reducing a column.

use vstd::prelude::*;

use crate::algebra::field::{left_identities, times_zero, FieldElement};
use crate::algebra::gf256::GfElem;
use crate::matrices::elimination::axpy_row;
use crate::symbols::row_bounds;

verus! {

/// Entry `(r, c)` of a row-major matrix with `cols` columns.
pub open spec fn cell<F>(cells: Seq<F>, cols: int, r: int, c: int) -> F {
    cells[r * cols + c]
}

/// The cells form a nonempty matrix of this shape.
pub open spec fn has_shape<F>(cells: Seq<F>, rows: int, cols: int) -> bool {
    rows > 0 && cols > 0 && cells.len() == rows * cols
}

/// Cells of row `r`.
pub open spec fn row_cells<F>(cells: Seq<F>, cols: int, r: int) -> Seq<F> {
    cells.subrange(r * cols, r * cols + cols)
}

/// Writing one cell leaves every other cell.
pub proof fn cell_update<F>(cells: Seq<F>, rows: int, cols: int, r: int, c: int, v: F)
    requires
        has_shape(cells, rows, cols),
        0 <= r < rows,
        0 <= c < cols,
    ensures
        has_shape(cells.update(r * cols + c, v), rows, cols),
        forall|i: int, j: int|
            0 <= i < rows && 0 <= j < cols ==> #[trigger] cell(
                cells.update(r * cols + c, v),
                cols,
                i,
                j,
            ) == if i == r && j == c {
                v
            } else {
                cell(cells, cols, i, j)
            },
{
    row_bounds(r, rows, cols);
    assert forall|i: int, j: int| 0 <= i < rows && 0 <= j < cols implies #[trigger] cell(
        cells.update(r * cols + c, v),
        cols,
        i,
        j,
    ) == if i == r && j == c {
        v
    } else {
        cell(cells, cols, i, j)
    } by {
        row_bounds(i, rows, cols);
        if i < r {
            row_bounds(i, r, cols);
        } else if r < i {
            row_bounds(r, i, cols);
        }
    }
}

/// Matrices with the same cells are equal.
proof fn same_cells<F>(first: Seq<F>, second: Seq<F>, rows: int, cols: int)
    requires
        has_shape(first, rows, cols),
        has_shape(second, rows, cols),
        forall|i: int, j: int|
            0 <= i < rows && 0 <= j < cols ==> #[trigger] cell(first, cols, i, j) == cell(
                second,
                cols,
                i,
                j,
            ),
    ensures
        first == second,
{
    assert forall|t: int| 0 <= t < first.len() implies first[t] == second[t] by {
        let i = t / cols;
        let j = t % cols;
        vstd::arithmetic::div_mod::lemma_fundamental_div_mod(t, cols);
        assert(0 <= i < rows && 0 <= j < cols && i * cols + j == t) by (nonlinear_arith)
            requires
                0 <= t < rows * cols,
                cols > 0,
                i == t / cols,
                j == t % cols,
        ;
        assert(cell(first, cols, i, j) == cell(second, cols, i, j));
    }
    assert(first =~= second);
}

/// `after` is `before` with row `r` replaced.
pub open spec fn row_replaced<F>(
    before: Seq<F>,
    after: Seq<F>,
    rows: int,
    cols: int,
    r: int,
    row: Seq<F>,
) -> bool {
    &&& after.len() == before.len()
    &&& forall|i: int, c: int|
        0 <= i < rows && 0 <= c < cols ==> #[trigger] cell(after, cols, i, c) == if i == r {
            row[c]
        } else {
            cell(before, cols, i, c)
        }
}

/// Putting a row between the rows above and below replaces that row.
proof fn row_spliced<F>(cells: Seq<F>, rows: int, cols: int, r: int)
    requires
        has_shape(cells, rows, cols),
        0 <= r < rows,
    ensures
        forall|row: Seq<F>|
            row.len() == cols ==> has_shape(
                cells.subrange(0, r * cols) + #[trigger] (row + cells.subrange(
                    r * cols + cols,
                    cells.len() as int,
                )),
                rows,
                cols,
            ) && row_replaced(
                cells,
                cells.subrange(0, r * cols) + (row + cells.subrange(
                    r * cols + cols,
                    cells.len() as int,
                )),
                rows,
                cols,
                r,
                row,
            ),
{
    row_bounds(r, rows, cols);
    let above = cells.subrange(0, r * cols);
    let below = cells.subrange(r * cols + cols, cells.len() as int);
    assert forall|row: Seq<F>| row.len() == cols implies has_shape(
        above + #[trigger] (row + below),
        rows,
        cols,
    ) && row_replaced(cells, above + (row + below), rows, cols, r, row) by {
        let after = above + (row + below);
        assert forall|i: int, c: int| 0 <= i < rows && 0 <= c < cols implies #[trigger] cell(
            after,
            cols,
            i,
            c,
        ) == if i == r {
            row[c]
        } else {
            cell(cells, cols, i, c)
        } by {
            row_bounds(i, rows, cols);
            if i < r {
                row_bounds(i, r, cols);
            } else if r < i {
                row_bounds(r, i, cols);
            }
        }
    }
}

/// Row `r` times `s`.
pub open spec fn scaled_row<F: FieldElement>(cells: Seq<F>, cols: int, r: int, s: F) -> Seq<F> {
    Seq::new(cols as nat, |c: int| cell(cells, cols, r, c).times(s))
}

/// Where row `i` comes from when rows `a` and `b` trade places.
pub open spec fn swapped_row(i: int, a: int, b: int) -> int {
    if i == a {
        b
    } else if i == b {
        a
    } else {
        i
    }
}

/// `after` is `before` with rows `a` and `b` swapped.
pub open spec fn rows_swapped<F>(
    before: Seq<F>,
    after: Seq<F>,
    rows: int,
    cols: int,
    a: int,
    b: int,
) -> bool {
    &&& after.len() == before.len()
    &&& forall|i: int, c: int|
        0 <= i < rows && 0 <= c < cols ==> #[trigger] cell(after, cols, i, c) == cell(
            before,
            cols,
            swapped_row(i, a, b),
            c,
        )
}

/// A written cell is the cell read back, and no other cell changes.
pub proof fn reading_gives_back_what_was_written<F>(
    cells: Seq<F>,
    rows: int,
    cols: int,
    r: int,
    c: int,
    v: F,
)
    requires
        has_shape(cells, rows, cols),
        0 <= r < rows,
        0 <= c < cols,
    ensures
        cell(cells.update(r * cols + c, v), cols, r, c) == v,
        forall|i: int, j: int|
            0 <= i < rows && 0 <= j < cols && (i != r || j != c) ==> #[trigger] cell(
                cells.update(r * cols + c, v),
                cols,
                i,
                j,
            ) == cell(cells, cols, i, j),
{
    cell_update(cells, rows, cols, r, c, v);
    assert(cell(cells.update(r * cols + c, v), cols, r, c) == v);
}

/// Scaling a row by zero clears it.
pub proof fn zero_scale_clears_the_row<F: FieldElement>(
    before: Seq<F>,
    after: Seq<F>,
    rows: int,
    cols: int,
    r: int,
)
    requires
        has_shape(before, rows, cols),
        0 <= r < rows,
        row_replaced(before, after, rows, cols, r, scaled_row(before, cols, r, F::zero_elem())),
    ensures
        forall|c: int| 0 <= c < cols ==> #[trigger] cell(after, cols, r, c) == F::zero_elem(),
{
    assert forall|c: int| 0 <= c < cols implies #[trigger] cell(after, cols, r, c)
        == F::zero_elem() by {
        left_identities(cell(before, cols, r, c));
    }
}

/// Scaling a row by one changes nothing.
pub proof fn unit_scale_changes_nothing<F: FieldElement>(
    before: Seq<F>,
    after: Seq<F>,
    rows: int,
    cols: int,
    r: int,
)
    requires
        has_shape(before, rows, cols),
        0 <= r < rows,
        row_replaced(before, after, rows, cols, r, scaled_row(before, cols, r, F::one_elem())),
    ensures
        after == before,
{
    assert forall|i: int, c: int| 0 <= i < rows && 0 <= c < cols implies #[trigger] cell(
        after,
        cols,
        i,
        c,
    ) == cell(before, cols, i, c) by {
        F::times_identity(cell(before, cols, r, c));
    }
    same_cells(after, before, rows, cols);
}

/// Swapping two rows twice changes nothing.
pub proof fn swapping_twice_changes_nothing<F>(
    before: Seq<F>,
    between: Seq<F>,
    after: Seq<F>,
    rows: int,
    cols: int,
    a: int,
    b: int,
)
    requires
        has_shape(before, rows, cols),
        0 <= a < rows,
        0 <= b < rows,
        rows_swapped(before, between, rows, cols, a, b),
        rows_swapped(between, after, rows, cols, a, b),
    ensures
        after == before,
{
    assert forall|i: int, c: int| 0 <= i < rows && 0 <= c < cols implies #[trigger] cell(
        after,
        cols,
        i,
        c,
    ) == cell(before, cols, i, c) by {
        let j = swapped_row(i, a, b);
        assert(cell(after, cols, i, c) == cell(between, cols, j, c));
        assert(cell(between, cols, j, c) == cell(before, cols, swapped_row(j, a, b), c));
    }
    same_cells(after, before, rows, cols);
}

/// Column `c` is zero in rows `from` up to `to`.
pub open spec fn column_is_zero<F: FieldElement>(
    cells: Seq<F>,
    cols: int,
    c: int,
    from: int,
    to: int,
) -> bool {
    forall|r: int| from <= r < to ==> #[trigger] cell(cells, cols, r, c) == F::zero_elem()
}

/// Cell `(i, c)` after the pivot row has been folded into row `i`.
pub open spec fn eliminated_cell<F: FieldElement>(
    cells: Seq<F>,
    cols: int,
    pivot_row: int,
    pivot_col: int,
    i: int,
    c: int,
) -> F {
    if i == pivot_row {
        cell(cells, cols, i, c)
    } else {
        cell(cells, cols, i, c).plus(
            cell(cells, cols, i, pivot_col).times(cell(cells, cols, pivot_row, c)),
        )
    }
}

/// `after` is `before` with the pivot row folded into every other row.
pub open spec fn column_eliminated<F: FieldElement>(
    before: Seq<F>,
    after: Seq<F>,
    rows: int,
    cols: int,
    pivot_row: int,
    pivot_col: int,
) -> bool {
    &&& after.len() == before.len()
    &&& forall|i: int, c: int|
        0 <= i < rows && 0 <= c < cols ==> #[trigger] cell(after, cols, i, c) == eliminated_cell(
            before,
            cols,
            pivot_row,
            pivot_col,
            i,
            c,
        )
}

/// What the row operations do to a cell: scaling multiplies the row's cells and no
/// other, swapping moves two rows into each other's place, folding adds the pivot
/// row times the cell in the pivot column to every other row, and a zero column
/// holds zeros.
pub proof fn row_operations_by_cell<F: FieldElement>(
    before: Seq<F>,
    after: Seq<F>,
    rows: int,
    cols: int,
    first: int,
    second: int,
    s: F,
    i: int,
    c: int,
)
    requires
        0 <= i < rows,
        0 <= c < cols,
    ensures
        row_replaced(before, after, rows, cols, first, scaled_row(before, cols, first, s))
            ==> after[i * cols + c] == if i == first {
            before[i * cols + c].times(s)
        } else {
            before[i * cols + c]
        },
        rows_swapped(before, after, rows, cols, first, second) ==> after[i * cols + c]
            == if i == first {
            before[second * cols + c]
        } else if i == second {
            before[first * cols + c]
        } else {
            before[i * cols + c]
        },
        column_eliminated(before, after, rows, cols, first, second) ==> after[i * cols + c]
            == if i == first {
            before[i * cols + c]
        } else {
            before[i * cols + c].plus(
                before[i * cols + second].times(before[first * cols + c]),
            )
        },
        column_is_zero(before, cols, c, first, second) && first <= i < second ==> before[i * cols
            + c] == F::zero_elem(),
{
    assert(cell(after, cols, i, c) == after[i * cols + c]);
    assert(cell(before, cols, i, c) == before[i * cols + c]);
}

/// A borrow-only view over a flat GF(256) matrix stored row-major.
///
/// The backing slice has length `rows * cols`; element `(r, c)` lives at index
/// `r * cols + c`.
#[derive(Clone, Copy)]
pub struct MatrixView<'a> {
    buf: &'a [GfElem],
    rows: usize,
    cols: usize,
}

/// A mutable borrow-only view, the write-capable counterpart of [`MatrixView`].
pub struct MatrixViewMut<'a> {
    /// Row-major cells.
    pub buf: &'a mut [GfElem],
    /// Number of rows.
    pub rows: usize,
    /// Number of columns.
    pub cols: usize,
}

impl<'a> MatrixView<'a> {
    /// Row-major cells.
    pub closed spec fn cells(&self) -> Seq<GfElem> {
        self.buf@
    }

    /// Number of rows.
    pub closed spec fn height(&self) -> int {
        self.rows as int
    }

    /// Number of columns.
    pub closed spec fn width(&self) -> int {
        self.cols as int
    }

    /// The cells fill the shape.
    pub open spec fn valid(&self) -> bool {
        has_shape(self.cells(), self.height(), self.width())
    }

    /// Constructs a view over `buf` interpreted as `rows` by `cols`, row-major.
    ///
    /// Returns `None` if `buf.len() != rows * cols` or if either dimension is
    /// zero.
    pub fn new(buf: &'a [GfElem], rows: usize, cols: usize) -> (r: Option<Self>)
        ensures
            r is Some <==> has_shape(buf@, rows as int, cols as int),
            r is Some <==> rows != 0 && cols != 0 && buf@.len() == rows * cols,
            r matches Some(view) ==> view.valid() && view.cells() == buf@ && view.height() == rows
                && view.width() == cols,
    {
        if rows == 0 || cols == 0 {
            return None;
        }
        let available: usize = buf.len();
        match rows.checked_mul(cols) {
            None => None,
            Some(len) => if available != len {
                None
            } else {
                Some(MatrixView { buf, rows, cols })
            },
        }
    }

    /// Number of rows.
    pub fn rows(&self) -> (r: usize)
        ensures
            r == self.height(),
    {
        self.rows
    }

    /// Number of columns.
    pub fn cols(&self) -> (r: usize)
        ensures
            r == self.width(),
    {
        self.cols
    }

    /// Reads element `(r, c)`.
    pub fn get(&self, r: usize, c: usize) -> (value: GfElem)
        requires
            self.valid(),
            r < self.height(),
            c < self.width(),
        ensures
            value == cell(self.cells(), self.width(), r as int, c as int),
            value == self.cells()[r * self.width() + c],
    {
        let _ = self.buf.len();
        proof {
            row_bounds(r as int, self.rows as int, self.cols as int);
        }
        self.buf[r * self.cols + c]
    }

    /// Reads a full row as a slice. No copy.
    pub fn row(&self, r: usize) -> (row: &'a [GfElem])
        requires
            self.valid(),
            r < self.height(),
        ensures
            row@ == row_cells(self.cells(), self.width(), r as int),
            row@ == self.cells().subrange(r * self.width(), r * self.width() + self.width()),
    {
        let _ = self.buf.len();
        proof {
            row_bounds(r as int, self.rows as int, self.cols as int);
        }
        let start: usize = r * self.cols;
        vstd::slice::slice_subrange(self.buf, start, start + self.cols)
    }

    /// Splits this view vertically into `[top | bottom]` at row `at`.
    ///
    /// Neither part may be empty: a view has at least one row.
    pub fn split_rows(&self, at: usize) -> (r: Option<(MatrixView<'a>, MatrixView<'a>)>)
        requires
            self.valid(),
        ensures
            r is Some <==> 0 < at < self.height(),
            r matches Some((top, bottom)) ==> {
                &&& top.valid()
                &&& bottom.valid()
                &&& top.width() == self.width()
                &&& bottom.width() == self.width()
                &&& top.height() == at
                &&& bottom.height() == self.height() - at
                &&& self.cells() == top.cells() + bottom.cells()
            },
    {
        if at > self.rows {
            return None;
        }
        let len: usize = self.buf.len();
        proof {
            let rows = self.rows as int;
            let cols = self.cols as int;
            let cut = at as int;
            assert(0 <= cut * cols <= rows * cols && rows * cols - cut * cols == (rows - cut)
                * cols) by (nonlinear_arith)
                requires
                    0 <= cut <= rows,
                    0 < cols,
            ;
        }
        let cut: usize = at * self.cols;
        let top = MatrixView::new(vstd::slice::slice_subrange(self.buf, 0, cut), at, self.cols);
        let bottom = MatrixView::new(
            vstd::slice::slice_subrange(self.buf, cut, len),
            self.rows - at,
            self.cols,
        );
        match (top, bottom) {
            (Some(t), Some(b)) => {
                proof {
                    assert(self.buf@ =~= t.cells() + b.cells());
                }
                Some((t, b))
            },
            _ => None,
        }
    }
}

impl<'a> MatrixViewMut<'a> {
    /// Row-major cells.
    pub open spec fn cells(&self) -> Seq<GfElem> {
        self.buf@
    }

    /// The cells fill the shape.
    pub open spec fn valid(&self) -> bool {
        has_shape(self.cells(), self.rows as int, self.cols as int)
    }

    /// Constructs a mutable view. Same shape rules as [`MatrixView::new`].
    pub fn new(buf: &'a mut [GfElem], rows: usize, cols: usize) -> (r: Option<Self>)
        ensures
            r is Some <==> has_shape(old(buf)@, rows as int, cols as int),
            r is Some <==> rows != 0 && cols != 0 && old(buf)@.len() == rows * cols,
            r matches Some(view) ==> view.valid() && view.cells() == old(buf)@ && view.rows == rows
                && view.cols == cols && final(view.buf)@ == final(buf)@,
    {
        if rows == 0 || cols == 0 {
            return None;
        }
        let available: usize = buf.len();
        match rows.checked_mul(cols) {
            None => None,
            Some(len) => if available != len {
                None
            } else {
                Some(MatrixViewMut { buf, rows, cols })
            },
        }
    }

    /// Number of rows.
    pub fn rows(&self) -> (r: usize)
        ensures
            r == self.rows,
    {
        self.rows
    }

    /// Number of columns.
    pub fn cols(&self) -> (r: usize)
        ensures
            r == self.cols,
    {
        self.cols
    }

    /// Reads element `(r, c)`.
    pub fn get(&self, r: usize, c: usize) -> (value: GfElem)
        requires
            self.valid(),
            r < self.rows,
            c < self.cols,
        ensures
            value == cell(self.cells(), self.cols as int, r as int, c as int),
            value == self.cells()[r * self.cols + c],
    {
        let _ = self.buf.len();
        proof {
            row_bounds(r as int, self.rows as int, self.cols as int);
        }
        self.buf[r * self.cols + c]
    }

    /// Writes element `(r, c)`.
    pub fn set(&mut self, r: usize, c: usize, v: GfElem)
        requires
            old(self).valid(),
            r < old(self).rows,
            c < old(self).cols,
        ensures
            final(self).valid(),
            final(self).rows == old(self).rows,
            final(self).cols == old(self).cols,
            final(self).cells() == old(self).cells().update(r * old(self).cols + c, v),
            final(final(self).buf)@ == final(old(self).buf)@,
    {
        let _ = self.buf.len();
        proof {
            row_bounds(r as int, self.rows as int, self.cols as int);
        }
        self.buf[r * self.cols + c] = v;
    }

    /// Read-only access to a full row.
    pub fn row(&self, r: usize) -> (row: &[GfElem])
        requires
            self.valid(),
            r < self.rows,
        ensures
            row@ == row_cells(self.cells(), self.cols as int, r as int),
            row@ == self.cells().subrange(r * self.cols, r * self.cols + self.cols),
    {
        let _ = self.buf.len();
        proof {
            row_bounds(r as int, self.rows as int, self.cols as int);
        }
        let start: usize = r * self.cols;
        vstd::slice::slice_subrange(self.buf, start, start + self.cols)
    }

    /// Mutable access to a full row.
    pub fn row_mut(&mut self, r: usize) -> (row: &mut [GfElem])
        requires
            old(self).valid(),
            r < old(self).rows,
        ensures
            row@ == row_cells(old(self).cells(), old(self).cols as int, r as int),
            final(self).rows == old(self).rows,
            final(self).cols == old(self).cols,
            final(row)@.len() == row@.len() ==> final(self).valid() && row_replaced(
                old(self).cells(),
                final(self).cells(),
                old(self).rows as int,
                old(self).cols as int,
                r as int,
                final(row)@,
            ),
            final(final(self).buf)@ == final(old(self).buf)@,
    {
        let _ = self.buf.len();
        proof {
            row_bounds(r as int, self.rows as int, self.cols as int);
        }
        let start: usize = r * self.cols;
        let cols: usize = self.cols;
        let ghost before = self.cells();
        proof {
            row_spliced(before, self.rows as int, cols as int, r as int);
        }
        let (_, tail) = self.buf.split_at_mut(start);
        let (row, below) = tail.split_at_mut(cols);
        proof {
            assert(below@ =~= before.subrange(start + cols, before.len() as int));
        }
        row
    }

    /// Reborrows as an immutable [`MatrixView`].
    pub fn as_view(&self) -> (r: MatrixView<'_>)
        requires
            self.valid(),
        ensures
            r.valid(),
            r.cells() == self.cells(),
            r.height() == self.rows,
            r.width() == self.cols,
    {
        MatrixView { buf: self.buf, rows: self.rows, cols: self.cols }
    }

    /// Scales row `r` in place by `s`.
    ///
    /// The eliminator uses it to normalize a pivot row so its pivot entry
    /// becomes one.
    pub fn scale_row(&mut self, r: usize, s: GfElem)
        requires
            old(self).valid(),
            r < old(self).rows,
        ensures
            final(self).valid(),
            final(self).rows == old(self).rows,
            final(self).cols == old(self).cols,
            row_replaced(
                old(self).cells(),
                final(self).cells(),
                old(self).rows as int,
                old(self).cols as int,
                r as int,
                scaled_row(old(self).cells(), old(self).cols as int, r as int, s),
            ),
            final(final(self).buf)@ == final(old(self).buf)@,
    {
        let ghost before = self.cells();
        let ghost cols = self.cols as int;
        if s == GfElem(1) {
            proof {
                assert forall|c: int| 0 <= c < cols implies #[trigger] scaled_row(
                    before,
                    cols,
                    r as int,
                    s,
                )[c] == cell(before, cols, r as int, c) by {
                    GfElem::times_identity(cell(before, cols, r as int, c));
                }
            }
            return;
        }
        let mut c: usize = 0;
        while c < self.cols
            invariant
                c <= self.cols,
                cols == self.cols == old(self).cols,
                self.rows == old(self).rows,
                self.valid(),
                r < self.rows,
                before == old(self).cells(),
                forall|i: int, j: int|
                    0 <= i < self.rows && 0 <= j < cols ==> #[trigger] cell(
                        self.cells(),
                        cols,
                        i,
                        j,
                    ) == if i == r && j < c {
                        cell(before, cols, i, j).times(s)
                    } else {
                        cell(before, cols, i, j)
                    },
                final(self.buf)@ == final(old(self).buf)@,
            decreases self.cols - c,
        {
            let value = if s == GfElem(0) {
                proof {
                    times_zero(cell(before, cols, r as int, c as int));
                }
                GfElem(0)
            } else {
                self.get(r, c).mul(s)
            };
            proof {
                cell_update(self.cells(), self.rows as int, cols, r as int, c as int, value);
            }
            self.set(r, c, value);
            c += 1;
        }
    }

    /// Swaps rows `a` and `b`. No field arithmetic.
    pub fn swap_rows(&mut self, a: usize, b: usize)
        requires
            old(self).valid(),
            a == b || (a < old(self).rows && b < old(self).rows),
        ensures
            final(self).valid(),
            final(self).rows == old(self).rows,
            final(self).cols == old(self).cols,
            rows_swapped(
                old(self).cells(),
                final(self).cells(),
                old(self).rows as int,
                old(self).cols as int,
                a as int,
                b as int,
            ),
            final(final(self).buf)@ == final(old(self).buf)@,
    {
        if a == b {
            return;
        }
        let ghost before = self.cells();
        let ghost cols = self.cols as int;
        let mut c: usize = 0;
        while c < self.cols
            invariant
                c <= self.cols,
                cols == self.cols == old(self).cols,
                self.rows == old(self).rows,
                self.valid(),
                a < self.rows,
                b < self.rows,
                a != b,
                before == old(self).cells(),
                forall|i: int, j: int|
                    0 <= i < self.rows && 0 <= j < cols ==> #[trigger] cell(
                        self.cells(),
                        cols,
                        i,
                        j,
                    ) == if j < c {
                        cell(before, cols, swapped_row(i, a as int, b as int), j)
                    } else {
                        cell(before, cols, i, j)
                    },
                final(self.buf)@ == final(old(self).buf)@,
            decreases self.cols - c,
        {
            let x = self.get(a, c);
            let y = self.get(b, c);
            proof {
                cell_update(self.cells(), self.rows as int, cols, a as int, c as int, y);
            }
            self.set(a, c, y);
            proof {
                cell_update(self.cells(), self.rows as int, cols, b as int, c as int, x);
            }
            self.set(b, c, x);
            c += 1;
        }
    }

    /// Finds the first row from `row_start` whose entry in column `c` is
    /// nonzero, for pivot selection. `None` if the column is exhausted in the
    /// remaining rows.
    pub fn first_nonzero_in_col(&self, c: usize, row_start: usize) -> (r: Option<usize>)
        requires
            self.valid(),
            c < self.cols,
        ensures
            match r {
                Some(pivot) => row_start <= pivot < self.rows && cell(
                    self.cells(),
                    self.cols as int,
                    pivot as int,
                    c as int,
                ) != GfElem(0) && column_is_zero(
                    self.cells(),
                    self.cols as int,
                    c as int,
                    row_start as int,
                    pivot as int,
                ),
                None => column_is_zero(
                    self.cells(),
                    self.cols as int,
                    c as int,
                    row_start as int,
                    self.rows as int,
                ),
            },
            r matches Some(pivot) ==> self.cells()[pivot * self.cols + c] != GfElem(0),
    {
        let mut r: usize = row_start;
        while r < self.rows
            invariant
                row_start <= r,
                self.valid(),
                c < self.cols,
                column_is_zero(
                    self.cells(),
                    self.cols as int,
                    c as int,
                    row_start as int,
                    r as int,
                ),
            decreases self.rows - r,
        {
            if self.get(r, c) != GfElem(0) {
                return Some(r);
            }
            r += 1;
        }
        None
    }

    /// Reduces column `pivot_col` to zero in every row except `pivot_row`, by
    /// adding a scaled copy of `pivot_row` into each. The pivot row must already
    /// be normalized so its entry at `(pivot_row, pivot_col)` is one.
    ///
    /// Rows whose entry in `pivot_col` is already zero are skipped.
    pub fn eliminate_col(&mut self, pivot_row: usize, pivot_col: usize)
        requires
            old(self).valid(),
            pivot_row < old(self).rows,
            pivot_col < old(self).cols,
            cell(
                old(self).cells(),
                old(self).cols as int,
                pivot_row as int,
                pivot_col as int,
            ) == GfElem(1),
        ensures
            final(self).valid(),
            final(self).rows == old(self).rows,
            final(self).cols == old(self).cols,
            column_eliminated(
                old(self).cells(),
                final(self).cells(),
                old(self).rows as int,
                old(self).cols as int,
                pivot_row as int,
                pivot_col as int,
            ),
            final(final(self).buf)@ == final(old(self).buf)@,
    {
        let ghost before = self.cells();
        let ghost cols = self.cols as int;
        let pivot: Vec<GfElem> = vstd::slice::slice_to_vec(self.row(pivot_row));
        proof {
            row_bounds(pivot_row as int, self.rows as int, cols);
            assert forall|j: int| 0 <= j < cols implies #[trigger] pivot@[j] == cell(
                before,
                cols,
                pivot_row as int,
                j,
            ) by {}
        }
        let mut r: usize = 0;
        while r < self.rows
            invariant
                r <= self.rows,
                cols == self.cols == old(self).cols,
                self.rows == old(self).rows,
                self.valid(),
                pivot_row < self.rows,
                pivot_col < self.cols,
                before == old(self).cells(),
                pivot@.len() == cols,
                forall|j: int|
                    0 <= j < cols ==> #[trigger] pivot@[j] == cell(
                        before,
                        cols,
                        pivot_row as int,
                        j,
                    ),
                forall|i: int, j: int|
                    0 <= i < self.rows && 0 <= j < cols ==> #[trigger] cell(
                        self.cells(),
                        cols,
                        i,
                        j,
                    ) == if i < r {
                        eliminated_cell(before, cols, pivot_row as int, pivot_col as int, i, j)
                    } else {
                        cell(before, cols, i, j)
                    },
                final(self.buf)@ == final(old(self).buf)@,
            decreases self.rows - r,
        {
            let ghost current = self.cells();
            let factor = self.get(r, pivot_col);
            if r != pivot_row && factor != GfElem(0) {
                proof {
                    row_bounds(r as int, self.rows as int, cols);
                }
                let row = self.row_mut(r);
                axpy_row(row, factor, pivot.as_slice());
                proof {
                    row_bounds(r as int, self.rows as int, cols);
                    assert forall|i: int, j: int|
                        0 <= i < self.rows && 0 <= j < cols implies #[trigger] cell(
                        self.cells(),
                        cols,
                        i,
                        j,
                    ) == if i < r + 1 {
                        eliminated_cell(before, cols, pivot_row as int, pivot_col as int, i, j)
                    } else {
                        cell(before, cols, i, j)
                    } by {
                        if i == r {
                            assert(row_cells(current, cols, r as int)[j] == cell(
                                current,
                                cols,
                                i,
                                j,
                            ));
                            assert(pivot@[j] == cell(before, cols, pivot_row as int, j));
                        } else {
                            assert(cell(self.cells(), cols, i, j) == cell(current, cols, i, j));
                        }
                    }
                }
            } else {
                proof {
                    assert forall|j: int| 0 <= j < cols implies #[trigger] eliminated_cell(
                        before,
                        cols,
                        pivot_row as int,
                        pivot_col as int,
                        r as int,
                        j,
                    ) == cell(before, cols, r as int, j) by {
                        left_identities(cell(before, cols, pivot_row as int, j));
                        GfElem::plus_identity(cell(before, cols, r as int, j));
                    }
                }
            }
            r += 1;
        }
    }
}

} // verus!
