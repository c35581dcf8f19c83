//! Closed-form Cauchy matrix inverse over GF(256), entry by entry, and the
//! elimination it can be held against.

use vstd::prelude::*;

use crate::afft::transform::{entry, table_product};
use crate::algebra::cauchy::{cauchy_variables, col_factor, inverse_entry, row_factor};
use crate::algebra::determinants::{determinant, determinant_peels, unit_columns};
use crate::algebra::field::{
    left_identities, plus_is_zero, plus_times, recip_of_product, times_swap_inner, times_zero,
    FieldElement,
};
use crate::algebra::gf256::GfElem;
use crate::algebra::interpolation::{others_product, others_product_complete, root_product};
use crate::algebra::linear_code::unit;
use crate::algebra::sums::{sum, sum_congruent, sum_plus, sum_scale, sum_single};
use crate::decoder::cauchy_inverse::{is_inverse_table, others_product_value, root_product_value};
use crate::matrices::elimination::{entries, jordan_step, missing_pivot_is_singular};
use crate::matrices::view::{
    cell, column_eliminated, eliminated_cell, has_shape, row_replaced, rows_swapped, scaled_row,
    swapped_row, MatrixViewMut,
};
use crate::symbols::row_bounds;

verus! {

/// The residue form of an inverse entry is the factorized one.
proof fn residue_is_inverse_entry<F: FieldElement>(rows: Seq<F>, cols: Seq<F>, j: int, i: int)
    requires
        cauchy_variables(rows, cols),
        0 <= j < cols.len(),
        0 <= i < rows.len(),
    ensures
        inverse_entry(rows, cols, j, i) == root_product(cols, rows[i]).times(
            others_product(rows, i, cols[j]),
        ).times(
            others_product(rows, i, rows[i]).times(others_product(cols, j, cols[j])).recip(),
        ),
{
    let p = root_product(cols, rows[i]);
    let w = others_product(rows, i, rows[i]);
    let o = others_product(rows, i, cols[j]);
    let v = others_product(cols, j, cols[j]);
    let d = cols[j].plus(rows[i]);
    others_product_complete(rows, i, cols[j]);
    assert(rows[i] != cols[j]);
    plus_is_zero(cols[j], rows[i]);
    recip_of_product(w, v);
    // C_j / d = o / v
    let c = col_factor(rows, cols, j);
    assert(c == o.times(d).times(v.recip()));
    F::times_associates(o, d, v.recip());
    F::times_commutes(d, v.recip());
    F::times_associates(o, v.recip(), d);
    let q = o.times(v.recip());
    assert(c == q.times(d));
    F::times_recip(d);
    F::times_associates(q, d, d.recip());
    F::times_identity(q);
    assert(c.times(d.recip()) == q);
    let r = row_factor(rows, cols, i);
    F::times_associates(r, c, d.recip());
    times_swap_inner(p, w.recip(), o, v.recip());
}

/// Closed-form inverse of a square Cauchy matrix.
///
/// `row_vars` and `col_vars` define the matrix
/// `C[i, j] = 1 / (row_vars[i] + col_vars[j])`. They must have equal length,
/// contain distinct elements within each set, and the two sets must be disjoint.
///
/// The returned inverse is row-major with rows corresponding to `col_vars` and
/// columns corresponding to `row_vars`, so that `inverse * C` is the identity.
pub fn cauchy_inverse_closed_form<F: FieldElement>(row_vars: &[F], col_vars: &[F]) -> (r: Vec<F>)
    requires
        cauchy_variables(row_vars@, col_vars@),
        row_vars@.len() * row_vars@.len() <= usize::MAX,
    ensures
        is_inverse_table(row_vars@, col_vars@, r@),
{
    let n: usize = row_vars.len();
    let mut inverse: Vec<F> = Vec::new();
    let mut j: usize = 0;
    proof {
        assert(0 * n == 0) by (nonlinear_arith);
    }
    while j < n
        invariant
            j <= n,
            n == row_vars@.len() == col_vars@.len(),
            cauchy_variables(row_vars@, col_vars@),
            inverse@.len() == j * n,
            forall|b: int, a: int|
                0 <= b < j && 0 <= a < n ==> inverse@[b * n + a] == #[trigger] inverse_entry(
                    row_vars@,
                    col_vars@,
                    b,
                    a,
                ),
        decreases n - j,
    {
        let mut i: usize = 0;
        while i < n
            invariant
                i <= n,
                j < n,
                n == row_vars@.len() == col_vars@.len(),
                cauchy_variables(row_vars@, col_vars@),
                inverse@.len() == j * n + i,
                forall|b: int, a: int|
                    0 <= b < j && 0 <= a < n ==> inverse@[b * n + a] == #[trigger] inverse_entry(
                        row_vars@,
                        col_vars@,
                        b,
                        a,
                    ),
                forall|a: int|
                    0 <= a < i ==> inverse@[j * n + a] == #[trigger] inverse_entry(
                        row_vars@,
                        col_vars@,
                        j as int,
                        a,
                    ),
            decreases n - i,
        {
            let ghost before = inverse@;
            let row_var = row_vars[i];
            let col_var = col_vars[j];
            let num = root_product_value(col_vars, row_var).mul_value(
                others_product_value(row_vars, i, col_var),
            );
            let den = others_product_value(row_vars, i, row_var).mul_value(
                others_product_value(col_vars, j, col_var),
            );
            inverse.push(num.mul_value(den.inv_value()));
            proof {
                residue_is_inverse_entry(row_vars@, col_vars@, j as int, i as int);
                assert forall|b: int, a: int| 0 <= b < j && 0 <= a < n implies inverse@[b * n + a]
                    == #[trigger] inverse_entry(row_vars@, col_vars@, b, a) by {
                    row_bounds(b, j as int, n as int);
                    assert(inverse@[b * n + a] == before[b * n + a]);
                }
            }
            i += 1;
        }
        proof {
            row_bounds(j as int, n as int, n as int);
            assert forall|b: int, a: int| 0 <= b < j + 1 && 0 <= a < n implies inverse@[b * n + a]
                == #[trigger] inverse_entry(row_vars@, col_vars@, b, a) by {
                if b < j {
                    row_bounds(b, j as int, n as int);
                }
            }
        }
        j += 1;
    }
    inverse
}

/// The left half of row `r` of an augmented matrix is its right half times the
/// matrix that elimination started from.
spec fn tied(aug: Seq<GfElem>, n: int, matrix: Seq<GfElem>, r: int) -> bool {
    forall|c: int|
        0 <= c < n ==> #[trigger] cell(aug, 2 * n, r, c) == right_times(aug, n, matrix, r, c)
}

/// Column `c` of the right half of row `r` times the matrix.
spec fn right_times(aug: Seq<GfElem>, n: int, matrix: Seq<GfElem>, r: int, c: int) -> GfElem {
    sum(|b: int| cell(aug, 2 * n, r, n + b).times(entry(matrix, n, b, c)), n)
}

/// Row operations keep every row tied.
proof fn step_keeps_rows_tied(
    c0: Seq<GfElem>,
    c1: Seq<GfElem>,
    c2: Seq<GfElem>,
    c3: Seq<GfElem>,
    n: int,
    matrix: Seq<GfElem>,
    col: int,
    p: int,
    s: GfElem,
)
    requires
        0 <= col < n,
        0 <= p < n,
        forall|r: int| 0 <= r < n ==> #[trigger] tied(c0, n, matrix, r),
        rows_swapped(c0, c1, n, 2 * n, col, p),
        row_replaced(c1, c2, n, 2 * n, col, scaled_row(c1, 2 * n, col, s)),
        column_eliminated(c2, c3, n, 2 * n, col, col),
    ensures
        forall|r: int| 0 <= r < n ==> #[trigger] tied(c3, n, matrix, r),
{
    let w = 2 * n;
    assert forall|r: int| 0 <= r < n implies #[trigger] tied(c1, n, matrix, r) by {
        let q = swapped_row(r, col, p);
        assert(tied(c0, n, matrix, q));
        assert forall|c: int| 0 <= c < n implies #[trigger] cell(c1, w, r, c) == right_times(
            c1,
            n,
            matrix,
            r,
            c,
        ) by {
            let f = |b: int| cell(c1, w, r, n + b).times(entry(matrix, n, b, c));
            let g = |b: int| cell(c0, w, q, n + b).times(entry(matrix, n, b, c));
            assert forall|b: int| 0 <= b < n implies #[trigger] f(b) == g(b) by {
                assert(cell(c1, w, r, n + b) == cell(c0, w, q, n + b));
            }
            sum_congruent(f, g, n);
            assert(cell(c0, w, q, c) == right_times(c0, n, matrix, q, c));
        }
    }
    assert forall|r: int| 0 <= r < n implies #[trigger] tied(c2, n, matrix, r) by {
        assert(tied(c1, n, matrix, r));
        assert forall|c: int| 0 <= c < n implies #[trigger] cell(c2, w, r, c) == right_times(
            c2,
            n,
            matrix,
            r,
            c,
        ) by {
            let f = |b: int| cell(c2, w, r, n + b).times(entry(matrix, n, b, c));
            let g = |b: int| cell(c1, w, r, n + b).times(entry(matrix, n, b, c));
            assert(cell(c1, w, r, c) == right_times(c1, n, matrix, r, c));
            if r == col {
                let h = |b: int| s.times(g(b));
                assert forall|b: int| 0 <= b < n implies #[trigger] f(b) == h(b) by {
                    let v = cell(c1, w, r, n + b);
                    assert(cell(c2, w, r, n + b) == v.times(s));
                    GfElem::times_commutes(v, s);
                    GfElem::times_associates(s, v, entry(matrix, n, b, c));
                }
                sum_congruent(f, h, n);
                sum_scale(s, g, n);
                GfElem::times_commutes(cell(c1, w, r, c), s);
            } else {
                assert forall|b: int| 0 <= b < n implies #[trigger] f(b) == g(b) by {
                    assert(cell(c2, w, r, n + b) == cell(c1, w, r, n + b));
                }
                sum_congruent(f, g, n);
            }
        }
    }
    assert forall|r: int| 0 <= r < n implies #[trigger] tied(c3, n, matrix, r) by {
        assert(tied(c2, n, matrix, r));
        assert(tied(c2, n, matrix, col));
        let factor = cell(c2, w, r, col);
        assert forall|c: int| 0 <= c < n implies #[trigger] cell(c3, w, r, c) == right_times(
            c3,
            n,
            matrix,
            r,
            c,
        ) by {
            let f = |b: int| cell(c3, w, r, n + b).times(entry(matrix, n, b, c));
            let g = |b: int| cell(c2, w, r, n + b).times(entry(matrix, n, b, c));
            let h = |b: int| cell(c2, w, col, n + b).times(entry(matrix, n, b, c));
            assert(cell(c2, w, r, c) == right_times(c2, n, matrix, r, c));
            assert(cell(c2, w, col, c) == right_times(c2, n, matrix, col, c));
            assert(cell(c3, w, r, c) == eliminated_cell(c2, w, col, col, r, c));
            if r == col {
                assert forall|b: int| 0 <= b < n implies #[trigger] f(b) == g(b) by {
                    assert(cell(c3, w, r, n + b) == eliminated_cell(c2, w, col, col, r, n + b));
                }
                sum_congruent(f, g, n);
            } else {
                let q = |b: int| factor.times(h(b));
                let both = |b: int| g(b).plus(q(b));
                assert forall|b: int| 0 <= b < n implies #[trigger] f(b) == both(b) by {
                    assert(cell(c3, w, r, n + b) == eliminated_cell(c2, w, col, col, r, n + b));
                    let u = cell(c2, w, r, n + b);
                    let v = cell(c2, w, col, n + b);
                    let m = entry(matrix, n, b, c);
                    plus_times(u, factor.times(v), m);
                    GfElem::times_associates(factor, v, m);
                }
                sum_congruent(f, both, n);
                sum_plus(g, q, n);
                sum_scale(factor, h, n);
            }
        }
    }
}

/// `[matrix | identity]`, row-major.
fn augmented(matrix: &[GfElem], n: usize) -> (r: Vec<GfElem>)
    requires
        n > 0,
        matrix@.len() == n * n,
        2 * (n * n) <= usize::MAX,
    ensures
        has_shape(r@, n as int, 2 * n),
        forall|i: int, c: int|
            0 <= i < n && 0 <= c < 2 * n ==> #[trigger] cell(r@, 2 * n, i, c) == if c < n {
                entry(matrix@, n as int, i, c)
            } else {
                unit::<GfElem>(i, c - n)
            },
{
    let mut aug: Vec<GfElem> = Vec::new();
    let mut i: usize = 0;
    proof {
        assert(0 * (2 * n) == 0) by (nonlinear_arith);
        assert(n * (2 * n) == 2 * (n * n)) by (nonlinear_arith);
        assert(2 * n <= 2 * (n * n)) by (nonlinear_arith)
            requires
                n > 0,
        ;
    }
    while i < n
        invariant
            i <= n,
            n > 0,
            matrix@.len() == n * n,
            n * (2 * n) == 2 * (n * n),
            2 * n <= 2 * (n * n) <= usize::MAX,
            aug@.len() == i * (2 * n),
            forall|a: int, c: int|
                0 <= a < i && 0 <= c < 2 * n ==> #[trigger] cell(aug@, 2 * n, a, c) == if c < n {
                    entry(matrix@, n as int, a, c)
                } else {
                    unit::<GfElem>(a, c - n)
                },
        decreases n - i,
    {
        proof {
            row_bounds(i as int, n as int, n as int);
            row_bounds(i as int, n as int, 2 * n);
        }
        let mut j: usize = 0;
        while j < 2 * n
            invariant
                j <= 2 * n,
                i < n,
                n > 0,
                matrix@.len() == n * n,
                0 <= i * n,
                i * n + n <= n * n,
                2 * n <= 2 * (n * n) <= usize::MAX,
                aug@.len() == i * (2 * n) + j,
                forall|a: int, c: int|
                    0 <= a < i && 0 <= c < 2 * n ==> #[trigger] cell(aug@, 2 * n, a, c) == if c
                        < n {
                        entry(matrix@, n as int, a, c)
                    } else {
                        unit::<GfElem>(a, c - n)
                    },
                forall|c: int|
                    0 <= c < j ==> #[trigger] cell(aug@, 2 * n, i as int, c) == if c < n {
                        entry(matrix@, n as int, i as int, c)
                    } else {
                        unit::<GfElem>(i as int, c - n)
                    },
            decreases 2 * n - j,
        {
            let ghost before = aug@;
            let value = if j < n {
                matrix[i * n + j]
            } else if j - n == i {
                GfElem(1)
            } else {
                GfElem(0)
            };
            aug.push(value);
            proof {
                assert forall|a: int, c: int| 0 <= a < i && 0 <= c < 2 * n implies #[trigger] cell(
                    aug@,
                    2 * n,
                    a,
                    c,
                ) == if c < n {
                    entry(matrix@, n as int, a, c)
                } else {
                    unit::<GfElem>(a, c - n)
                } by {
                    row_bounds(a, i as int, 2 * n);
                    assert(cell(before, 2 * n, a, c) == cell(aug@, 2 * n, a, c));
                }
                assert forall|c: int| 0 <= c < j + 1 implies #[trigger] cell(
                    aug@,
                    2 * n,
                    i as int,
                    c,
                ) == if c < n {
                    entry(matrix@, n as int, i as int, c)
                } else {
                    unit::<GfElem>(i as int, c - n)
                } by {
                    if c < j {
                        assert(cell(before, 2 * n, i as int, c) == cell(
                            aug@,
                            2 * n,
                            i as int,
                            c,
                        ));
                    }
                }
            }
            j += 1;
        }
        i += 1;
    }
    aug
}

/// In `[matrix | identity]` every row is tied.
proof fn augmented_is_tied(aug: Seq<GfElem>, n: int, matrix: Seq<GfElem>, r: int)
    requires
        0 <= r < n,
        forall|i: int, c: int|
            0 <= i < n && 0 <= c < 2 * n ==> #[trigger] cell(aug, 2 * n, i, c) == if c < n {
                entry(matrix, n, i, c)
            } else {
                unit::<GfElem>(i, c - n)
            },
    ensures
        tied(aug, n, matrix, r),
{
    assert forall|c: int| 0 <= c < n implies #[trigger] cell(aug, 2 * n, r, c) == right_times(
        aug,
        n,
        matrix,
        r,
        c,
    ) by {
        let f = |b: int| cell(aug, 2 * n, r, n + b).times(entry(matrix, n, b, c));
        assert forall|b: int| 0 <= b < n && b != r implies #[trigger] f(b)
            == GfElem::zero_elem() by {
            assert(cell(aug, 2 * n, r, n + b) == unit::<GfElem>(r, b));
            left_identities(entry(matrix, n, b, c));
        }
        sum_single(f, n, r);
        assert(cell(aug, 2 * n, r, n + r) == unit::<GfElem>(r, r));
        left_identities(entry(matrix, n, r, c));
    }
}

/// Inverts an `n` by `n` matrix over GF(256), returning a row-major inverse.
///
/// `None` indicates a singular matrix.
pub fn invert_square(matrix: &[GfElem], n: usize) -> (r: Option<Vec<GfElem>>)
    requires
        matrix@.len() == n * n,
        2 * (n * n) <= usize::MAX,
    ensures
        match r {
            Some(inverse) => determinant(entries(matrix@, n as int), n as int) != GfElem(0)
                && inverse@.len() == n * n && forall|a: int, c: int|
                0 <= a < n && 0 <= c < n ==> #[trigger] table_product(
                    inverse@,
                    matrix@,
                    n as int,
                    a,
                    c,
                ) == unit::<GfElem>(a, c),
            None => determinant(entries(matrix@, n as int), n as int) == GfElem(0),
        },
{
    if n == 0 {
        return Some(Vec::new());
    }
    proof {
        assert(2 * n <= 2 * (n * n)) by (nonlinear_arith)
            requires
                n > 0,
        ;
    }
    let mut aug = augmented(matrix, n);
    let width: usize = 2 * n;
    let ghost start = aug@;
    proof {
        assert forall|r: int| 0 <= r < n implies #[trigger] tied(start, n as int, matrix@, r) by {
            augmented_is_tied(start, n as int, matrix@, r);
        }
        let e = entries(start, width as int);
        let m = entries(matrix@, n as int);
        assert forall|r: int, c: int| 0 <= r < n && 0 <= c < n implies #[trigger] e(r, c) == m(
            r,
            c,
        ) by {
            assert(cell(start, 2 * n, r, c) == entry(matrix@, n as int, r, c));
        }
        crate::algebra::determinants::determinant_congruent(e, m, n as int);
    }
    match MatrixViewMut::new(aug.as_mut_slice(), n, width) {
        None => None,
        Some(mut view) => {
            if !reduce_left_half(&mut view, Ghost(matrix@)) {
                return None;
            }
            let mut inverse: Vec<GfElem> = Vec::new();
            let mut r: usize = 0;
            proof {
                assert(0 * n == 0) by (nonlinear_arith);
            }
            while r < n
                invariant
                    r <= n,
                    n > 0,
                    view.valid(),
                    view.rows == n,
                    view.cols == width == 2 * n,
                    inverse@.len() == r * n,
                    forall|a: int, c: int|
                        0 <= a < r && 0 <= c < n ==> #[trigger] entry(inverse@, n as int, a, c)
                            == cell(view.cells(), 2 * n, a, n + c),
                decreases n - r,
            {
                let mut c: usize = 0;
                while c < n
                    invariant
                        c <= n,
                        r < n,
                        view.valid(),
                        view.rows == n,
                        view.cols == width == 2 * n,
                        inverse@.len() == r * n + c,
                        forall|a: int, b: int|
                            0 <= a < r && 0 <= b < n ==> #[trigger] entry(inverse@, n as int, a, b)
                                == cell(view.cells(), 2 * n, a, n + b),
                        forall|b: int|
                            0 <= b < c ==> #[trigger] entry(inverse@, n as int, r as int, b)
                                == cell(view.cells(), 2 * n, r as int, n + b),
                    decreases n - c,
                {
                    let ghost before = inverse@;
                    inverse.push(view.get(r, n + c));
                    proof {
                        assert forall|a: int, b: int|
                            0 <= a < r && 0 <= b < n implies #[trigger] entry(
                            inverse@,
                            n as int,
                            a,
                            b,
                        ) == cell(view.cells(), 2 * n, a, n + b) by {
                            row_bounds(a, r as int, n as int);
                            assert(entry(before, n as int, a, b) == entry(
                                inverse@,
                                n as int,
                                a,
                                b,
                            ));
                        }
                        assert forall|b: int| 0 <= b < c + 1 implies #[trigger] entry(
                            inverse@,
                            n as int,
                            r as int,
                            b,
                        ) == cell(view.cells(), 2 * n, r as int, n + b) by {
                            if b < c {
                                assert(entry(before, n as int, r as int, b) == entry(
                                    inverse@,
                                    n as int,
                                    r as int,
                                    b,
                                ));
                            }
                        }
                    }
                    c += 1;
                }
                proof {
                    row_bounds(r as int, n as int, n as int);
                }
                r += 1;
            }
            proof {
                let cells = view.cells();
                let w = 2 * n;
                assert forall|a: int, c: int| 0 <= a < n && 0 <= c < n implies #[trigger]
                    table_product(inverse@, matrix@, n as int, a, c) == unit::<GfElem>(a, c) by {
                    let f = |b: int|
                        entry(inverse@, n as int, a, b).times(entry(matrix@, n as int, b, c));
                    let g = |b: int|
                        cell(cells, w, a, n + b).times(entry(matrix@, n as int, b, c));
                    sum_congruent(f, g, n as int);
                    assert(tied(cells, n as int, matrix@, a));
                    assert(cell(cells, w, a, c) == right_times(cells, n as int, matrix@, a, c));
                    assert(entries(cells, w)(a, c) == unit::<GfElem>(a, c));
                }
            }
            Some(inverse)
        },
    }
}

/// Gauss-Jordan elimination on the left half of an augmented matrix. Returns
/// whether every column had a pivot.
fn reduce_left_half(view: &mut MatrixViewMut<'_>, Ghost(matrix): Ghost<Seq<GfElem>>) -> (r: bool)
    requires
        old(view).valid(),
        old(view).cols == 2 * old(view).rows,
        forall|i: int|
            0 <= i < old(view).rows ==> #[trigger] tied(
                old(view).cells(),
                old(view).rows as int,
                matrix,
                i,
            ),
    ensures
        final(view).valid(),
        final(view).rows == old(view).rows,
        final(view).cols == old(view).cols,
        r == (determinant(entries(old(view).cells(), old(view).cols as int), old(view).rows as int)
            != GfElem(0)),
        r ==> unit_columns(
            entries(final(view).cells(), old(view).cols as int),
            old(view).rows as int,
            old(view).rows as int,
        ) && forall|i: int|
            0 <= i < old(view).rows ==> #[trigger] tied(
                final(view).cells(),
                old(view).rows as int,
                matrix,
                i,
            ),
{
    let n: usize = view.rows();
    let ghost w = view.cols as int;
    let ghost whole = determinant(entries(view.cells(), w), n as int);
    let ghost mut product = GfElem(1);
    let mut col: usize = 0;
    proof {
        left_identities(whole);
    }
    while col < n
        invariant
            col <= n,
            n == view.rows == old(view).rows,
            w == view.cols == old(view).cols,
            w == 2 * n,
            view.valid(),
            whole == determinant(
                entries(old(view).cells(), old(view).cols as int),
                old(view).rows as int,
            ),
            unit_columns(entries(view.cells(), w), n as int, col as int),
            product != GfElem(0),
            product.times(determinant(entries(view.cells(), w), n as int)) == whole,
            forall|i: int| 0 <= i < n ==> #[trigger] tied(view.cells(), n as int, matrix, i),
        decreases n - col,
    {
        let ghost c0 = view.cells();
        match view.first_nonzero_in_col(col, col) {
            None => {
                proof {
                    missing_pivot_is_singular(c0, n as int, w, col as int);
                    times_zero(product);
                }
                return false;
            },
            Some(pivot) => {
                view.swap_rows(col, pivot);
                let ghost c1 = view.cells();
                let lead = view.get(col, col);
                let s = lead.inv();
                view.scale_row(col, s);
                let ghost c2 = view.cells();
                proof {
                    assert(cell(c1, w, col as int, col as int) == cell(
                        c0,
                        w,
                        pivot as int,
                        col as int,
                    ));
                    assert(cell(c2, w, col as int, col as int) == lead.times(s));
                }
                view.eliminate_col(col, col);
                proof {
                    let c3 = view.cells();
                    jordan_step(c0, c1, c2, c3, n as int, w, col as int, pivot as int, s);
                    step_keeps_rows_tied(
                        c0,
                        c1,
                        c2,
                        c3,
                        n as int,
                        matrix,
                        col as int,
                        pivot as int,
                        s,
                    );
                    GfElem::times_associates(
                        product,
                        lead,
                        determinant(entries(c3, w), n as int),
                    );
                    crate::algebra::field::no_zero_divisors(product, lead);
                    product = product.times(lead);
                }
            },
        }
        col += 1;
    }
    proof {
        determinant_peels(entries(view.cells(), w), n as int, n as int);
        GfElem::times_identity(product);
    }
    true
}

} // verus!
