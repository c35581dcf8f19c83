//! Closed-form Cauchy matrix inverse in factorized form.
//!
//! For `A[i, j] = 1 / (row[i] + col[j])`, define
//!
//! ```text
//! R_i = prod_h (row_i + col_h) / prod_{l != i} (row_i + row_l)
//! C_j = prod_l (col_j + row_l) / prod_{h != j} (col_j + col_h)
//! ```
//!
//! Then `A^-1[j, i] = R_i C_j / (col_j + row_i)`, and for an additional column
//! `1 / (row_i + z)` the already-fused coefficient is
//!
//! ```text
//! F[z, j] = C_j prod_{h != j} (z + col_h) / prod_l (z + row_l)
//! ```
//!
//! The set products cost `O(r^2)` and each additional column `O(r)`.

use vstd::prelude::*;

use crate::algebra::cauchy::{
    avoids, cauchy_entry, cauchy_variables, col_factor, fused_entry, inverse_entry,
    matrix_times_inverse, root_product_nonzero, row_factor,
};
use crate::algebra::field::{left_identities, plus_is_zero, times_undoes, FieldElement};
use crate::algebra::interpolation::{
    others_product, others_product_all, others_product_first, others_product_nonzero, root_product,
};
use crate::algebra::sums::{sum, sum_congruent};
use crate::symbols::row_bounds;

verus! {

/// `rows` and `cols` are Cauchy variables and every entry of `present` avoids
/// the row variables.
pub open spec fn reduced_system<F: FieldElement>(
    rows: Seq<F>,
    cols: Seq<F>,
    present: Seq<F>,
) -> bool {
    &&& cauchy_variables(rows, cols)
    &&& forall|z: int| 0 <= z < present.len() ==> avoids(rows, #[trigger] present[z])
}

/// `inverse` holds the inverse row-major as `[col][row]`.
pub open spec fn is_inverse_table<F: FieldElement>(
    rows: Seq<F>,
    cols: Seq<F>,
    inverse: Seq<F>,
) -> bool {
    &&& inverse.len() == rows.len() * rows.len()
    &&& forall|j: int, i: int|
        0 <= j < rows.len() && 0 <= i < rows.len() ==> inverse[j * rows.len() + i]
            == #[trigger] inverse_entry(rows, cols, j, i)
}

/// An inverse table inverts the Cauchy matrix: row `i` of the matrix times column
/// `l` of the table is one for equal indices and zero for others.
pub proof fn inverse_tables_invert<F: FieldElement>(
    rows: Seq<F>,
    cols: Seq<F>,
    inverse: Seq<F>,
    i: int,
    l: int,
)
    requires
        cauchy_variables(rows, cols),
        is_inverse_table(rows, cols, inverse),
        0 <= i < rows.len(),
        0 <= l < rows.len(),
    ensures
        inverse.len() == rows.len() * rows.len(),
        sum(
            |j: int| rows[i].plus(cols[j]).recip().times(inverse[j * rows.len() + l]),
            cols.len() as int,
        ) == if i == l {
            F::one_elem()
        } else {
            F::zero_elem()
        },
{
    matrix_times_inverse(rows, cols, i, l);
    let left = |j: int| cauchy_entry(rows[i], cols[j]).times(inverse_entry(rows, cols, j, l));
    let right = |j: int| rows[i].plus(cols[j]).recip().times(inverse[j * rows.len() + l]);
    assert forall|j: int| 0 <= j < cols.len() implies #[trigger] left(j) == right(j) by {
        assert(inverse[j * rows.len() + l] == inverse_entry(rows, cols, j, l));
    }
    sum_congruent(left, right, cols.len() as int);
}

/// `table` holds the fused coefficients row-major as `[present][col]`.
pub open spec fn is_present_table<F: FieldElement>(
    rows: Seq<F>,
    cols: Seq<F>,
    present: Seq<F>,
    table: Seq<F>,
) -> bool {
    &&& table.len() == present.len() * rows.len()
    &&& forall|z: int, j: int|
        0 <= z < present.len() && 0 <= j < rows.len() ==> table[z * rows.len() + j]
            == #[trigger] fused_entry(rows, cols, j, present[z])
}

/// Factorized coefficients used by the reduced Cauchy decoder.
pub struct RationalLagrangeCoefficients<F> {
    /// `A^-1`, row-major as `[missing_col][repair_row]`.
    pub inverse: Vec<F>,
    /// Direct coefficients for additional Cauchy columns, row-major as
    /// `[present_col][missing_col]`.
    pub present: Vec<F>,
}

/// Leaving out factor `j` is the product of what stands before and after it.
proof fn others_product_around<F: FieldElement>(nodes: Seq<F>, j: int, x: F)
    requires
        0 <= j < nodes.len(),
    ensures
        others_product(nodes, j, x) == root_product(nodes.take(j), x).times(
            root_product(nodes.skip(j + 1), x),
        ),
    decreases nodes.len(),
{
    let front = nodes.drop_last();
    let before = root_product(nodes.take(j), x);
    if j == nodes.len() - 1 {
        others_product_all(front, j, x);
        assert(front =~= nodes.take(j));
        assert(nodes.skip(j + 1).len() == 0);
        F::times_identity(before);
    } else {
        others_product_around(front, j, x);
        assert(front.take(j) =~= nodes.take(j));
        assert(front.skip(j + 1) =~= nodes.skip(j + 1).drop_last());
        assert(nodes.skip(j + 1).last() == nodes.last());
        F::times_associates(before, root_product(front.skip(j + 1), x), x.plus(nodes.last()));
    }
}

/// The first factor can be split off.
proof fn root_product_first<F: FieldElement>(roots: Seq<F>, x: F)
    requires
        roots.len() > 0,
    ensures
        root_product(roots, x) == root_product(roots.skip(1), x).times(x.plus(roots[0])),
{
    others_product_all(roots, -1, x);
    others_product_first(roots, -1, x);
    assert(roots.drop_first() =~= roots.skip(1));
    others_product_all(roots.skip(1), -2, x);
}

/// The product of `x + roots[i]`.
pub fn root_product_value<F: FieldElement>(roots: &[F], x: F) -> (r: F)
    ensures
        r == root_product(roots@, x),
{
    let mut acc = F::one_value();
    let mut i: usize = 0;
    while i < roots.len()
        invariant
            i <= roots@.len(),
            acc == root_product(roots@.take(i as int), x),
        decreases roots@.len() - i,
    {
        acc = acc.mul_value(x.add_value(roots[i]));
        assert(roots@.take(i + 1).drop_last() =~= roots@.take(i as int));
        i += 1;
    }
    assert(roots@.take(i as int) =~= roots@);
    acc
}

/// The product of `x + nodes[l]` over all `l` but `skipped`.
pub fn others_product_value<F: FieldElement>(nodes: &[F], skipped: usize, x: F) -> (r: F)
    ensures
        r == others_product(nodes@, skipped as int, x),
{
    let mut acc = F::one_value();
    let mut i: usize = 0;
    while i < nodes.len()
        invariant
            i <= nodes@.len(),
            acc == others_product(nodes@.take(i as int), skipped as int, x),
        decreases nodes@.len() - i,
    {
        assert(nodes@.take(i + 1).drop_last() =~= nodes@.take(i as int));
        if i != skipped {
            acc = acc.mul_value(x.add_value(nodes[i]));
        }
        i += 1;
    }
    assert(nodes@.take(i as int) =~= nodes@);
    acc
}

/// `out[i] = prod_h (points[i] + roots[h])`.
fn fill_root_products<F: FieldElement>(points: &[F], roots: &[F], out: &mut [F])
    requires
        old(out)@.len() == points@.len(),
    ensures
        final(out)@.len() == points@.len(),
        forall|i: int|
            0 <= i < points@.len() ==> #[trigger] final(out)@[i] == root_product(roots@, points@[i]),
{
    let mut i: usize = 0;
    while i < points.len()
        invariant
            i <= points@.len(),
            out@.len() == points@.len(),
            forall|l: int|
                0 <= l < i ==> #[trigger] out@[l] == root_product(roots@, points@[l]),
        decreases points@.len() - i,
    {
        out[i] = root_product_value(roots, points[i]);
        i += 1;
    }
}

/// `out[i] = prod_{l != i} (nodes[i] + nodes[l])`.
fn fill_others_products<F: FieldElement>(nodes: &[F], out: &mut [F])
    requires
        old(out)@.len() == nodes@.len(),
    ensures
        final(out)@.len() == nodes@.len(),
        forall|i: int|
            0 <= i < nodes@.len() ==> #[trigger] final(out)@[i] == others_product(
                nodes@,
                i,
                nodes@[i],
            ),
{
    let mut i: usize = 0;
    while i < nodes.len()
        invariant
            i <= nodes@.len(),
            out@.len() == nodes@.len(),
            forall|l: int|
                0 <= l < i ==> #[trigger] out@[l] == others_product(nodes@, l, nodes@[l]),
        decreases nodes@.len() - i,
    {
        out[i] = others_product_value(nodes, i, nodes[i]);
        i += 1;
    }
}

/// `cols[t / n] + rows[t % n]`.
pub open spec fn cross_sum<F: FieldElement>(rows: Seq<F>, cols: Seq<F>, j: int, i: int) -> F {
    cols[j].plus(rows[i])
}

/// `out[j * n + i] = cols[j] + rows[i]`.
fn fill_cross_sums<F: FieldElement>(rows: &[F], cols: &[F], out: &mut [F])
    requires
        rows@.len() == cols@.len(),
        old(out)@.len() == rows@.len() * rows@.len(),
    ensures
        final(out)@.len() == old(out)@.len(),
        forall|j: int, i: int|
            0 <= j < rows@.len() && 0 <= i < rows@.len() ==> final(out)@[j * rows@.len() + i]
                == #[trigger] cross_sum(rows@, cols@, j, i),
{
    let n: usize = rows.len();
    let mut j: usize = 0;
    let mut at: usize = 0;
    while j < n
        invariant
            j <= n,
            n == rows@.len() == cols@.len(),
            out@.len() == n * n,
            at == j * n,
            forall|b: int, a: int|
                0 <= b < j && 0 <= a < n ==> out@[b * n + a] == #[trigger] cross_sum(
                    rows@,
                    cols@,
                    b,
                    a,
                ),
        decreases n - j,
    {
        let mut i: usize = 0;
        proof {
            row_bounds(j as int, n as int, n as int);
        }
        while i < n
            invariant
                i <= n,
                j < n,
                n == rows@.len() == cols@.len(),
                out@.len() == n * n,
                at == j * n + i,
                j * n + n <= n * n,
                forall|b: int, a: int|
                    0 <= b < j && 0 <= a < n ==> out@[b * n + a] == #[trigger] cross_sum(
                        rows@,
                        cols@,
                        b,
                        a,
                    ),
                forall|a: int|
                    0 <= a < i ==> out@[j * n + a] == #[trigger] cross_sum(
                        rows@,
                        cols@,
                        j as int,
                        a,
                    ),
            decreases n - i,
        {
            let ghost before = out@;
            out[at] = cols[j].add_value(rows[i]);
            proof {
                assert forall|b: int, a: int| 0 <= b < j && 0 <= a < n implies out@[b * n + a]
                    == #[trigger] cross_sum(rows@, cols@, b, a) by {
                    crate::symbols::rows_apart(b, j as int, n as int);
                    assert(before[b * n + a] == cross_sum(rows@, cols@, b, a));
                }
            }
            at += 1;
            i += 1;
        }
        proof {
            row_bounds(j as int, n as int, n as int);
        }
        j += 1;
    }
}

/// Inverts nonzero field elements in place.
pub fn batch_invert<F: FieldElement>(values: &mut [F])
    requires
        forall|i: int| 0 <= i < old(values)@.len() ==> #[trigger] old(values)@[i] != F::zero_elem(),
    ensures
        final(values)@.len() == old(values)@.len(),
        forall|i: int|
            0 <= i < old(values)@.len() ==> #[trigger] final(values)@[i] == old(values)@[i].recip(),
{
    let mut i: usize = 0;
    let ghost start = values@;
    while i < values.len()
        invariant
            i <= values@.len(),
            values@.len() == start.len(),
            forall|l: int| 0 <= l < i ==> #[trigger] values@[l] == start[l].recip(),
            forall|l: int| i <= l < start.len() ==> #[trigger] values@[l] == start[l],
        decreases values@.len() - i,
    {
        let value = values[i];
        values[i] = value.inv_value();
        i += 1;
    }
}

/// Temporary element count [`rational_lagrange_coefficients_into`] needs for an
/// `n`-row reduced system with `p` present columns.
pub fn lagrange_scratch_len(n: usize, p: usize) -> (r: usize)
    requires
        n * n + 8 * n + p + 2 <= usize::MAX,
    ensures
        r == n * n + 8 * n + p + 2,
{
    proof {
        assert(0 <= n * n) by (nonlinear_arith);
    }
    n * n + 8 * n + p + 2
}

/// `inverse[j * n + i] = row_factors[i] * col_factors[j] * reciprocals[j * n + i]`.
fn emit_inverse<F: FieldElement>(
    row_vars: &[F],
    col_vars: &[F],
    row_factors: &[F],
    col_factors: &[F],
    cross: &[F],
    inverse: &mut [F],
)
    requires
        row_vars@.len() == col_vars@.len(),
        row_factors@.len() == row_vars@.len(),
        col_factors@.len() == row_vars@.len(),
        cross@.len() == row_vars@.len() * row_vars@.len(),
        old(inverse)@.len() == row_vars@.len() * row_vars@.len(),
        forall|i: int|
            0 <= i < row_vars@.len() ==> #[trigger] row_factors@[i] == row_factor(
                row_vars@,
                col_vars@,
                i,
            ),
        forall|j: int|
            0 <= j < row_vars@.len() ==> #[trigger] col_factors@[j] == col_factor(
                row_vars@,
                col_vars@,
                j,
            ),
        forall|j: int, i: int|
            0 <= j < row_vars@.len() && 0 <= i < row_vars@.len() ==> cross@[j * row_vars@.len() + i]
                == (#[trigger] cross_sum(row_vars@, col_vars@, j, i)).recip(),
    ensures
        is_inverse_table(row_vars@, col_vars@, final(inverse)@),
{
    let n: usize = row_vars.len();
    let mut j: usize = 0;
    let mut at: usize = 0;
    while j < n
        invariant
            j <= n,
            n == row_vars@.len() == col_vars@.len(),
            row_factors@.len() == n,
            col_factors@.len() == n,
            cross@.len() == n * n,
            inverse@.len() == n * n,
            at == j * n,
            forall|i: int|
                0 <= i < n ==> #[trigger] row_factors@[i] == row_factor(row_vars@, col_vars@, i),
            forall|j: int|
                0 <= j < n ==> #[trigger] col_factors@[j] == col_factor(row_vars@, col_vars@, j),
            forall|j: int, i: int|
                0 <= j < n && 0 <= i < n ==> cross@[j * n + i] == (#[trigger] cross_sum(
                    row_vars@,
                    col_vars@,
                    j,
                    i,
                )).recip(),
            forall|b: int, a: int|
                0 <= b < j && 0 <= a < n ==> inverse@[b * n + a] == #[trigger] inverse_entry(
                    row_vars@,
                    col_vars@,
                    b,
                    a,
                ),
        decreases n - j,
    {
        let mut i: usize = 0;
        proof {
            row_bounds(j as int, n as int, n as int);
        }
        while i < n
            invariant
                i <= n,
                j < n,
                n == row_vars@.len() == col_vars@.len(),
                row_factors@.len() == n,
                col_factors@.len() == n,
                cross@.len() == n * n,
                inverse@.len() == n * n,
                at == j * n + i,
                j * n + n <= n * n,
                forall|i: int|
                    0 <= i < n ==> #[trigger] row_factors@[i] == row_factor(
                        row_vars@,
                        col_vars@,
                        i,
                    ),
                forall|j: int|
                    0 <= j < n ==> #[trigger] col_factors@[j] == col_factor(
                        row_vars@,
                        col_vars@,
                        j,
                    ),
                forall|j: int, i: int|
                    0 <= j < n && 0 <= i < n ==> cross@[j * n + i] == (#[trigger] cross_sum(
                        row_vars@,
                        col_vars@,
                        j,
                        i,
                    )).recip(),
                forall|b: int, a: int|
                    0 <= b < j && 0 <= a < n ==> inverse@[b * n + a] == #[trigger] inverse_entry(
                        row_vars@,
                        col_vars@,
                        b,
                        a,
                    ),
                forall|a: int|
                    0 <= a < i ==> inverse@[j * n + a] == #[trigger] inverse_entry(
                        row_vars@,
                        col_vars@,
                        j as int,
                        a,
                    ),
            decreases n - i,
        {
            let ghost before = inverse@;
            inverse[at] = row_factors[i].mul_value(col_factors[j]).mul_value(cross[at]);
            proof {
                assert(cross@[j * n + i] == cross_sum(
                    row_vars@,
                    col_vars@,
                    j as int,
                    i as int,
                ).recip());
                assert(inverse@[j * n + i] == inverse_entry(
                    row_vars@,
                    col_vars@,
                    j as int,
                    i as int,
                ));
                assert forall|b: int, a: int| 0 <= b < j && 0 <= a < n implies inverse@[b * n + a]
                    == #[trigger] inverse_entry(row_vars@, col_vars@, b, a) by {
                    crate::symbols::rows_apart(b, j as int, n as int);
                    assert(before[b * n + a] == inverse_entry(row_vars@, col_vars@, b, a));
                }
            }
            at += 1;
            i += 1;
        }
        proof {
            row_bounds(j as int, n as int, n as int);
        }
        j += 1;
    }
}

/// `prefix[j] = prod_{h < j} (z + cols[h])` and
/// `suffix[j] = prod_{h >= j} (z + cols[h])`.
fn fill_prefix_suffix<F: FieldElement>(cols: &[F], z: F, prefix: &mut [F], suffix: &mut [F])
    requires
        old(prefix)@.len() == cols@.len() + 1,
        old(suffix)@.len() == cols@.len() + 1,
    ensures
        final(prefix)@.len() == cols@.len() + 1,
        final(suffix)@.len() == cols@.len() + 1,
        forall|j: int|
            0 <= j <= cols@.len() ==> #[trigger] final(prefix)@[j] == root_product(
                cols@.take(j),
                z,
            ),
        forall|j: int|
            0 <= j <= cols@.len() ==> #[trigger] final(suffix)@[j] == root_product(
                cols@.skip(j),
                z,
            ),
{
    let n: usize = cols.len();
    prefix[0] = F::one_value();
    let mut j: usize = 0;
    while j < n
        invariant
            j <= n,
            n == cols@.len(),
            prefix@.len() == n + 1,
            forall|l: int|
                0 <= l <= j ==> #[trigger] prefix@[l] == root_product(cols@.take(l), z),
        decreases n - j,
    {
        let next = prefix[j].mul_value(z.add_value(cols[j]));
        proof {
            assert(cols@.take(j + 1).drop_last() =~= cols@.take(j as int));
        }
        prefix[j + 1] = next;
        j += 1;
    }
    suffix[n] = F::one_value();
    let mut left: usize = n;
    while left > 0
        invariant
            left <= n,
            n == cols@.len(),
            suffix@.len() == n + 1,
            forall|l: int|
                left <= l <= n ==> #[trigger] suffix@[l] == root_product(cols@.skip(l), z),
        decreases left,
    {
        let next = suffix[left].mul_value(z.add_value(cols[left - 1]));
        proof {
            root_product_first(cols@.skip(left - 1), z);
            assert(cols@.skip(left - 1).skip(1) =~= cols@.skip(left as int));
        }
        suffix[left - 1] = next;
        left -= 1;
    }
}

/// Writes the fused coefficients of every present column.
fn emit_present<F: FieldElement>(
    row_vars: &[F],
    col_vars: &[F],
    present_vars: &[F],
    col_factors: &[F],
    row_products: &[F],
    present: &mut [F],
    prefix: &mut [F],
    suffix: &mut [F],
)
    requires
        row_vars@.len() == col_vars@.len(),
        col_factors@.len() == row_vars@.len(),
        row_products@.len() == present_vars@.len(),
        old(present)@.len() == present_vars@.len() * row_vars@.len(),
        old(prefix)@.len() == col_vars@.len() + 1,
        old(suffix)@.len() == col_vars@.len() + 1,
        forall|j: int|
            0 <= j < row_vars@.len() ==> #[trigger] col_factors@[j] == col_factor(
                row_vars@,
                col_vars@,
                j,
            ),
        forall|z: int|
            0 <= z < present_vars@.len() ==> #[trigger] row_products@[z] == root_product(
                row_vars@,
                present_vars@[z],
            ).recip(),
    ensures
        is_present_table(row_vars@, col_vars@, present_vars@, final(present)@),
{
    let n: usize = row_vars.len();
    let mut pos: usize = 0;
    let mut at: usize = 0;
    while pos < present_vars.len()
        invariant
            pos <= present_vars@.len(),
            n == row_vars@.len() == col_vars@.len(),
            col_factors@.len() == n,
            row_products@.len() == present_vars@.len(),
            present@.len() == present_vars@.len() * n,
            prefix@.len() == n + 1,
            suffix@.len() == n + 1,
            at == pos * n,
            forall|j: int|
                0 <= j < n ==> #[trigger] col_factors@[j] == col_factor(row_vars@, col_vars@, j),
            forall|z: int|
                0 <= z < present_vars@.len() ==> #[trigger] row_products@[z] == root_product(
                    row_vars@,
                    present_vars@[z],
                ).recip(),
            forall|z: int, j: int|
                0 <= z < pos && 0 <= j < n ==> present@[z * n + j] == #[trigger] fused_entry(
                    row_vars@,
                    col_vars@,
                    j,
                    present_vars@[z],
                ),
        decreases present_vars@.len() - pos,
    {
        let z = present_vars[pos];
        fill_prefix_suffix(col_vars, z, prefix, suffix);
        let row_product_inv = row_products[pos];
        proof {
            row_bounds(pos as int, present_vars@.len() as int, n as int);
        }
        let mut j: usize = 0;
        while j < n
            invariant
                j <= n,
                pos < present_vars@.len(),
                z == present_vars@[pos as int],
                row_product_inv == root_product(row_vars@, z).recip(),
                n == row_vars@.len() == col_vars@.len(),
                col_factors@.len() == n,
                present@.len() == present_vars@.len() * n,
                prefix@.len() == n + 1,
                suffix@.len() == n + 1,
                at == pos * n + j,
                pos * n + n <= present_vars@.len() * n,
                forall|j: int|
                    0 <= j < n ==> #[trigger] col_factors@[j] == col_factor(
                        row_vars@,
                        col_vars@,
                        j,
                    ),
                forall|l: int|
                    0 <= l <= n ==> #[trigger] prefix@[l] == root_product(col_vars@.take(l), z),
                forall|l: int|
                    0 <= l <= n ==> #[trigger] suffix@[l] == root_product(col_vars@.skip(l), z),
                forall|z: int, j: int|
                    0 <= z < pos && 0 <= j < n ==> present@[z * n + j] == #[trigger] fused_entry(
                        row_vars@,
                        col_vars@,
                        j,
                        present_vars@[z],
                    ),
                forall|l: int|
                    0 <= l < j ==> present@[pos * n + l] == #[trigger] fused_entry(
                        row_vars@,
                        col_vars@,
                        l,
                        z,
                    ),
            decreases n - j,
        {
            let ghost before = present@;
            let all_but_j = prefix[j].mul_value(suffix[j + 1]);
            proof {
                others_product_around(col_vars@, j as int, z);
            }
            present[at] = col_factors[j].mul_value(all_but_j).mul_value(row_product_inv);
            proof {
                assert(present@[pos * n + j] == fused_entry(row_vars@, col_vars@, j as int, z));
                assert forall|y: int, l: int| 0 <= y < pos && 0 <= l < n implies present@[y * n + l]
                    == #[trigger] fused_entry(row_vars@, col_vars@, l, present_vars@[y]) by {
                    crate::symbols::rows_apart(y, pos as int, n as int);
                    assert(before[y * n + l] == fused_entry(
                        row_vars@,
                        col_vars@,
                        l,
                        present_vars@[y],
                    ));
                }
            }
            at += 1;
            j += 1;
        }
        proof {
            row_bounds(pos as int, present_vars@.len() as int, n as int);
        }
        pos += 1;
    }
}

/// `out[i] = a[i] * b[i]`.
fn fill_products<F: FieldElement>(a: &[F], b: &[F], out: &mut [F])
    requires
        a@.len() == b@.len(),
        old(out)@.len() == a@.len(),
    ensures
        final(out)@.len() == a@.len(),
        forall|i: int| 0 <= i < a@.len() ==> #[trigger] final(out)@[i] == a@[i].times(b@[i]),
{
    let mut i: usize = 0;
    while i < a.len()
        invariant
            i <= a@.len(),
            a@.len() == b@.len(),
            out@.len() == a@.len(),
            forall|l: int| 0 <= l < i ==> #[trigger] out@[l] == a@[l].times(b@[l]),
        decreases a@.len() - i,
    {
        out[i] = a[i].mul_value(b[i]);
        i += 1;
    }
}

/// Every denominator of the factorized form is nonzero.
proof fn denominators_nonzero<F: FieldElement>(rows: Seq<F>, cols: Seq<F>, present: Seq<F>)
    requires
        reduced_system(rows, cols, present),
    ensures
        forall|i: int|
            0 <= i < rows.len() ==> others_product(rows, i, #[trigger] rows[i]) != F::zero_elem(),
        forall|j: int|
            0 <= j < cols.len() ==> others_product(cols, j, #[trigger] cols[j]) != F::zero_elem(),
        forall|j: int, i: int|
            0 <= j < cols.len() && 0 <= i < rows.len() ==> #[trigger] cross_sum(rows, cols, j, i)
                != F::zero_elem(),
        forall|z: int|
            0 <= z < present.len() ==> root_product(rows, #[trigger] present[z]) != F::zero_elem(),
{
    assert forall|i: int| 0 <= i < rows.len() implies others_product(rows, i, #[trigger] rows[i])
        != F::zero_elem() by {
        others_product_nonzero(rows, i);
    }
    assert forall|j: int| 0 <= j < cols.len() implies others_product(cols, j, #[trigger] cols[j])
        != F::zero_elem() by {
        others_product_nonzero(cols, j);
    }
    assert forall|j: int, i: int|
        0 <= j < cols.len() && 0 <= i < rows.len() implies #[trigger] cross_sum(rows, cols, j, i)
        != F::zero_elem() by {
        assert(rows[i] != cols[j]);
        plus_is_zero(cols[j], rows[i]);
    }
    assert forall|z: int| 0 <= z < present.len() implies root_product(rows, #[trigger] present[z])
        != F::zero_elem() by {
        root_product_nonzero(rows, present[z]);
    }
}

/// Slice-writing core of [`rational_lagrange_coefficients`].
///
/// Writes the inverse (`n * n` elements, `[missing_col][repair_row]`) and the
/// fused coefficients (`present_vars.len() * n` elements,
/// `[present_col][missing_col]`). `temp` holds at least
/// [`lagrange_scratch_len`] elements; every element is written before it is
/// read.
pub fn rational_lagrange_coefficients_into<F: FieldElement>(
    row_vars: &[F],
    col_vars: &[F],
    present_vars: &[F],
    inverse: &mut [F],
    present: &mut [F],
    temp: &mut [F],
)
    requires
        reduced_system(row_vars@, col_vars@, present_vars@),
        old(inverse)@.len() == row_vars@.len() * row_vars@.len(),
        old(present)@.len() == present_vars@.len() * row_vars@.len(),
        old(temp)@.len() >= row_vars@.len() * row_vars@.len() + 8 * row_vars@.len()
            + present_vars@.len() + 2,
    ensures
        is_inverse_table(row_vars@, col_vars@, final(inverse)@),
        is_present_table(row_vars@, col_vars@, present_vars@, final(present)@),
{
    let n: usize = row_vars.len();
    let p: usize = present_vars.len();
    if n == 0 {
        return ;
    }
    if n <= 2 {
        rational_lagrange_small_into(row_vars, col_vars, present_vars, inverse, present);
        return ;
    }
    proof {
        denominators_nonzero(row_vars@, col_vars@, present_vars@);
        assert(0 <= n * n) by (nonlinear_arith);
    }
    let square: usize = inverse.len();
    let available: usize = temp.len();
    assert(n + 1 <= available);
    let (row_cross, rest) = temp.split_at_mut(n);
    let (col_cross, rest) = rest.split_at_mut(n);
    let (row_within, rest) = rest.split_at_mut(n);
    let (col_within, rest) = rest.split_at_mut(n);
    let (cross, rest) = rest.split_at_mut(square);
    let (present_row, rest) = rest.split_at_mut(p);
    let (row_factors, rest) = rest.split_at_mut(n);
    let (col_factors, rest) = rest.split_at_mut(n);
    let (prefix, rest) = rest.split_at_mut(n + 1);
    let (suffix, _) = rest.split_at_mut(n + 1);

    fill_root_products(row_vars, col_vars, row_cross);
    fill_root_products(col_vars, row_vars, col_cross);
    fill_others_products(row_vars, row_within);
    fill_others_products(col_vars, col_within);
    fill_cross_sums(row_vars, col_vars, cross);
    fill_root_products(present_vars, row_vars, present_row);

    proof {
        assert forall|t: int| 0 <= t < cross@.len() implies #[trigger] cross@[t]
            != F::zero_elem() by {
            let j = t / n as int;
            let i = t % n as int;
            assert(0 <= j < n && 0 <= i < n && t == j * n + i) by (nonlinear_arith)
                requires
                    n > 0,
                    0 <= t < n * n,
                    j == t / n as int,
                    i == t % n as int,
            ;
            assert(cross@[j * n + i] == cross_sum(row_vars@, col_vars@, j, i));
        }
    }
    let ghost sums = cross@;
    batch_invert(row_within);
    batch_invert(col_within);
    batch_invert(cross);
    batch_invert(present_row);
    proof {
        assert forall|j: int, i: int| 0 <= j < n && 0 <= i < n implies cross@[j * n + i] == (
        #[trigger] cross_sum(row_vars@, col_vars@, j, i)).recip() by {
            row_bounds(j, n as int, n as int);
            assert(sums[j * n + i] == cross_sum(row_vars@, col_vars@, j, i));
        }
    }

    fill_products(row_cross, row_within, row_factors);
    fill_products(col_cross, col_within, col_factors);
    emit_inverse(row_vars, col_vars, row_factors, col_factors, cross, inverse);
    emit_present(
        row_vars,
        col_vars,
        present_vars,
        col_factors,
        present_row,
        present,
        prefix,
        suffix,
    );
}

/// Builds the inverse and the fused coefficients.
pub fn rational_lagrange_coefficients<F: FieldElement>(
    row_vars: &[F],
    col_vars: &[F],
    present_vars: &[F],
) -> (r: RationalLagrangeCoefficients<F>)
    requires
        reduced_system(row_vars@, col_vars@, present_vars@),
        row_vars@.len() * row_vars@.len() + 8 * row_vars@.len() + present_vars@.len() + 2
            <= usize::MAX,
        present_vars@.len() * row_vars@.len() <= usize::MAX,
    ensures
        is_inverse_table(row_vars@, col_vars@, r.inverse@),
        is_present_table(row_vars@, col_vars@, present_vars@, r.present@),
{
    let n: usize = row_vars.len();
    let p: usize = present_vars.len();
    proof {
        assert(0 <= n * n && 0 <= p * n) by (nonlinear_arith);
    }
    let mut inverse: Vec<F> = vec![F::zero_value(); n * n];
    let mut present: Vec<F> = vec![F::zero_value(); p * n];
    let mut temp: Vec<F> = vec![F::zero_value(); lagrange_scratch_len(n, p)];
    rational_lagrange_coefficients_into(
        row_vars,
        col_vars,
        present_vars,
        &mut inverse,
        &mut present,
        &mut temp,
    );
    RationalLagrangeCoefficients { inverse, present }
}

/// Closed-form inverse of the Cauchy matrix
/// `C[i, j] = 1 / (row_vars[i] + col_vars[j])`.
///
/// The result is row-major with rows corresponding to `col_vars` and columns
/// corresponding to `row_vars`.
pub fn cauchy_inverse_closed_form<F: FieldElement>(row_vars: &[F], col_vars: &[F]) -> (r: Vec<F>)
    requires
        cauchy_variables(row_vars@, col_vars@),
        row_vars@.len() * row_vars@.len() + 8 * row_vars@.len() + 2 <= usize::MAX,
    ensures
        is_inverse_table(row_vars@, col_vars@, r@),
{
    let none: Vec<F> = Vec::new();
    rational_lagrange_coefficients(row_vars, col_vars, &none).inverse
}

/// `a / b`.
fn quotient<F: FieldElement>(a: F, b: F) -> (r: F)
    ensures
        r == a.times(b.recip()),
{
    a.mul_value(b.inv_value())
}

/// Products over one and two variables.
proof fn small_products<F: FieldElement>(nodes: Seq<F>, x: F)
    ensures
        nodes.len() == 1 ==> root_product(nodes, x) == x.plus(nodes[0]) && others_product(
            nodes,
            0,
            x,
        ) == F::one_elem(),
        nodes.len() == 2 ==> root_product(nodes, x) == x.plus(nodes[0]).times(x.plus(nodes[1]))
            && others_product(nodes, 0, x) == x.plus(nodes[1]) && others_product(nodes, 1, x)
            == x.plus(nodes[0]),
{
    reveal_with_fuel(root_product, 3);
    reveal_with_fuel(others_product, 3);
    if nodes.len() == 1 {
        left_identities(x.plus(nodes[0]));
    }
    if nodes.len() == 2 {
        left_identities(x.plus(nodes[0]));
        left_identities(x.plus(nodes[1]));
    }
}

/// Closed forms for one and two missing columns.
fn rational_lagrange_small_into<F: FieldElement>(
    row_vars: &[F],
    col_vars: &[F],
    present_vars: &[F],
    inverse: &mut [F],
    present: &mut [F],
)
    requires
        1 <= row_vars@.len() <= 2,
        reduced_system(row_vars@, col_vars@, present_vars@),
        old(inverse)@.len() == row_vars@.len() * row_vars@.len(),
        old(present)@.len() == present_vars@.len() * row_vars@.len(),
    ensures
        is_inverse_table(row_vars@, col_vars@, final(inverse)@),
        is_present_table(row_vars@, col_vars@, present_vars@, final(present)@),
{
    let ghost rows = row_vars@;
    let ghost cols = col_vars@;
    if row_vars.len() == 1 {
        let cross = row_vars[0].add_value(col_vars[0]);
        inverse[0] = cross;
        let ghost c = cols[0].plus(rows[0]);
        proof {
            F::plus_commutes(rows[0], cols[0]);
            assert(rows[0] != cols[0]);
            plus_is_zero(cols[0], rows[0]);
            small_products(cols, rows[0]);
            small_products(rows, cols[0]);
            small_products(rows, rows[0]);
            small_products(cols, cols[0]);
            F::times_identity(F::one_elem());
            crate::algebra::field::recip_is_unique(F::one_elem(), F::one_elem());
            F::times_identity(c);
            assert(col_factor(rows, cols, 0) == c);
            times_undoes(c, c);
            F::times_associates(c, c, c.recip());
            F::times_recip(c);
            assert(inverse_entry(rows, cols, 0, 0) == c);
            assert(is_inverse_table(rows, cols, inverse@));
        }
        let mut pos: usize = 0;
        while pos < present_vars.len()
            invariant
                pos <= present_vars@.len(),
                present@.len() == present_vars@.len(),
                rows == row_vars@,
                rows.len() == 1,
                cols.len() == 1,
                cross == c,
                col_factor(rows, cols, 0) == c,
                forall|z: int|
                    0 <= z < pos ==> #[trigger] present@[z] == fused_entry(
                        rows,
                        cols,
                        0,
                        present_vars@[z],
                    ),
            decreases present_vars@.len() - pos,
        {
            let z = present_vars[pos];
            present[pos] = quotient(cross, z.add_value(row_vars[0]));
            proof {
                small_products(rows, z);
                small_products(cols, z);
                F::times_identity(c);
            }
            pos += 1;
        }
        return ;
    }
    let r0 = row_vars[0];
    let r1 = row_vars[1];
    let c0 = col_vars[0];
    let c1 = col_vars[1];
    let row_delta = r0.add_value(r1);
    let col_delta = c0.add_value(c1);
    let row_factor_0 = quotient(r0.add_value(c0).mul_value(r0.add_value(c1)), row_delta);
    let row_factor_1 = quotient(r1.add_value(c0).mul_value(r1.add_value(c1)), row_delta);
    let col_factor_0 = quotient(c0.add_value(r0).mul_value(c0.add_value(r1)), col_delta);
    let col_factor_1 = quotient(c1.add_value(r0).mul_value(c1.add_value(r1)), col_delta);
    proof {
        small_products(rows, r0);
        small_products(rows, r1);
        small_products(rows, c0);
        small_products(rows, c1);
        small_products(cols, r0);
        small_products(cols, r1);
        small_products(cols, c0);
        small_products(cols, c1);
        F::plus_commutes(r0, r1);
        F::plus_commutes(c0, c1);
        assert(row_factor(rows, cols, 0) == row_factor_0);
        assert(row_factor(rows, cols, 1) == row_factor_1);
        assert(col_factor(rows, cols, 0) == col_factor_0);
        assert(col_factor(rows, cols, 1) == col_factor_1);
    }
    inverse[0] = quotient(row_factor_0.mul_value(col_factor_0), c0.add_value(r0));
    inverse[1] = quotient(row_factor_1.mul_value(col_factor_0), c0.add_value(r1));
    inverse[2] = quotient(row_factor_0.mul_value(col_factor_1), c1.add_value(r0));
    inverse[3] = quotient(row_factor_1.mul_value(col_factor_1), c1.add_value(r1));
    proof {
        assert forall|j: int, i: int| 0 <= j < 2 && 0 <= i < 2 implies inverse@[j * 2 + i]
            == #[trigger] inverse_entry(rows, cols, j, i) by {
            if j == 0 {
                if i == 0 {
                } else {
                }
            } else {
                if i == 0 {
                } else {
                }
            }
        }
    }
    let available: usize = present.len();
    let mut pos: usize = 0;
    while pos < present_vars.len()
        invariant
            pos <= present_vars@.len(),
            present@.len() == present_vars@.len() * 2,
            available == present@.len(),
            rows.len() == 2,
            cols.len() == 2,
            rows[0] == r0,
            rows[1] == r1,
            cols[0] == c0,
            cols[1] == c1,
            col_factor(rows, cols, 0) == col_factor_0,
            col_factor(rows, cols, 1) == col_factor_1,
            forall|z: int, j: int|
                0 <= z < pos && 0 <= j < 2 ==> present@[z * 2 + j] == #[trigger] fused_entry(
                    rows,
                    cols,
                    j,
                    present_vars@[z],
                ),
        decreases present_vars@.len() - pos,
    {
        let ghost before = present@;
        let z = present_vars[pos];
        let row_product = z.add_value(r0).mul_value(z.add_value(r1));
        present[2 * pos] = quotient(col_factor_0.mul_value(z.add_value(c1)), row_product);
        present[2 * pos + 1] = quotient(col_factor_1.mul_value(z.add_value(c0)), row_product);
        proof {
            small_products(rows, z);
            small_products(cols, z);
            assert(present@[pos * 2 + 0] == fused_entry(rows, cols, 0, z));
            assert(present@[pos * 2 + 1] == fused_entry(rows, cols, 1, z));
            assert forall|y: int, j: int|
                0 <= y < pos + 1 && 0 <= j < 2 implies present@[y * 2 + j]
                == #[trigger] fused_entry(rows, cols, j, present_vars@[y]) by {
                if y < pos {
                    assert(before[y * 2 + j] == fused_entry(rows, cols, j, present_vars@[y]));
                } else {
                    if j == 0 {
                    } else {
                    }
                }
            }
        }
        pos += 1;
    }
}

/// Closed forms for one and two missing columns, with the layouts and the values
/// of [`rational_lagrange_coefficients`].
pub fn rational_lagrange_small<F: FieldElement>(
    row_vars: &[F],
    col_vars: &[F],
    present_vars: &[F],
) -> (r: RationalLagrangeCoefficients<F>)
    requires
        1 <= row_vars@.len() <= 2,
        reduced_system(row_vars@, col_vars@, present_vars@),
        present_vars@.len() * row_vars@.len() <= usize::MAX,
    ensures
        is_inverse_table(row_vars@, col_vars@, r.inverse@),
        is_present_table(row_vars@, col_vars@, present_vars@, r.present@),
{
    let n: usize = row_vars.len();
    let p: usize = present_vars.len();
    proof {
        assert(0 <= n * n <= 4 && 0 <= p * n) by (nonlinear_arith)
            requires
                1 <= n <= 2,
        ;
    }
    let mut inverse: Vec<F> = vec![F::zero_value(); n * n];
    let mut present: Vec<F> = vec![F::zero_value(); p * n];
    rational_lagrange_small_into(row_vars, col_vars, present_vars, &mut inverse, &mut present);
    RationalLagrangeCoefficients { inverse, present }
}

} // verus!
