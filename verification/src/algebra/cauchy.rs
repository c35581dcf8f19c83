//! Cauchy matrices and their closed-form inverses.
//!
//! For row variables `r` and column variables `c`, the Cauchy matrix is
//! `A[i, j] = 1 / (r_i + c_j)`. With
//!
//! ```text
//! R_i = prod_h (r_i + c_h) / prod_{l != i} (r_i + r_l)
//! C_j = prod_l (c_j + r_l) / prod_{h != j} (c_j + c_h)
//! ```
//!
//! its inverse is `B[j, i] = R_i * C_j / (c_j + r_i)`, and `B` applied to a
//! further column `1 / (r_i + z)` is
//! `C_j * prod_{h != j} (z + c_h) / prod_l (z + r_l)`.

use vstd::prelude::*;

use crate::algebra::field::{
    left_identities, plus_is_zero, recip_of_product, times_swap_inner, times_undoes, times_zero,
    FieldElement,
};
use crate::algebra::interpolation::{
    degree_below, degree_of_roots, difference_congruent, difference_isolates_last,
    difference_term, distinct, divided_difference, others_product, others_product_all,
    others_product_complete, others_product_nonzero, others_product_zero, root_product,
};
use crate::algebra::sums::{sum, sum_congruent, sum_scale};

verus! {

/// All row variables differ, all column variables differ, and no row variable
/// is a column variable.
pub open spec fn cauchy_variables<F: FieldElement>(rows: Seq<F>, cols: Seq<F>) -> bool {
    &&& rows.len() == cols.len()
    &&& distinct(rows)
    &&& distinct(cols)
    &&& forall|i: int, j: int|
        0 <= i < rows.len() && 0 <= j < cols.len() ==> #[trigger] rows[i] != #[trigger] cols[j]
}

/// `z` is none of the row variables.
pub open spec fn avoids<F: FieldElement>(rows: Seq<F>, z: F) -> bool {
    forall|i: int| 0 <= i < rows.len() ==> #[trigger] rows[i] != z
}

/// Entry `1 / (r + c)` of a Cauchy matrix.
pub open spec fn cauchy_entry<F: FieldElement>(r: F, c: F) -> F {
    r.plus(c).recip()
}

/// The factor `R_i`.
pub open spec fn row_factor<F: FieldElement>(rows: Seq<F>, cols: Seq<F>, i: int) -> F {
    root_product(cols, rows[i]).times(others_product(rows, i, rows[i]).recip())
}

/// The factor `C_j`.
pub open spec fn col_factor<F: FieldElement>(rows: Seq<F>, cols: Seq<F>, j: int) -> F {
    root_product(rows, cols[j]).times(others_product(cols, j, cols[j]).recip())
}

/// Entry `B[j, i]` of the inverse.
pub open spec fn inverse_entry<F: FieldElement>(rows: Seq<F>, cols: Seq<F>, j: int, i: int) -> F {
    row_factor(rows, cols, i).times(col_factor(rows, cols, j)).times(
        cols[j].plus(rows[i]).recip(),
    )
}

/// Entry `j` of the inverse applied to the column `1 / (r_i + z)`.
pub open spec fn fused_entry<F: FieldElement>(rows: Seq<F>, cols: Seq<F>, j: int, z: F) -> F {
    col_factor(rows, cols, j).times(others_product(cols, j, z)).times(
        root_product(rows, z).recip(),
    )
}

/// Leaving out a factor is the product over the remaining roots.
pub proof fn others_product_removed<F: FieldElement>(nodes: Seq<F>, skipped: int, x: F)
    requires
        0 <= skipped < nodes.len(),
    ensures
        others_product(nodes, skipped, x) == root_product(nodes.remove(skipped), x),
    decreases nodes.len(),
{
    let front = nodes.drop_last();
    let rest = nodes.remove(skipped);
    if skipped == nodes.len() - 1 {
        assert(rest =~= front);
        others_product_all(front, skipped, x);
    } else {
        others_product_removed(front, skipped, x);
        assert(rest.drop_last() =~= front.remove(skipped));
        assert(rest.last() == nodes.last());
    }
}

/// Leaving out one of `d` factors leaves degree `d - 1`.
pub proof fn degree_of_others<F: FieldElement>(nodes: Seq<F>, skipped: int)
    requires
        0 <= skipped < nodes.len(),
    ensures
        degree_below(|x: F| others_product(nodes, skipped, x), nodes.len() as int),
{
    let f = |x: F| others_product(nodes, skipped, x);
    let rest = nodes.remove(skipped);
    let g = |x: F| root_product(rest, x);
    degree_of_roots(rest);
    assert forall|points: Seq<F>|
        distinct(points) && points.len() > nodes.len() && points.len()
            >= 2 implies #[trigger] divided_difference(points, f) == F::zero_elem() by {
        assert forall|i: int| 0 <= i < points.len() implies f(#[trigger] points[i]) == g(
            points[i],
        ) by {
            others_product_removed(nodes, skipped, points[i]);
        }
        difference_congruent(points, f, g);
        assert(divided_difference(points, g) == F::zero_elem());
    }
}

/// A product of differences from points it avoids is nonzero.
pub proof fn root_product_nonzero<F: FieldElement>(roots: Seq<F>, x: F)
    requires
        avoids(roots, x),
    ensures
        root_product(roots, x) != F::zero_elem(),
{
    others_product_all(roots, -1, x);
    others_product_zero(roots, -1, x);
}

/// `((a/w) * c / d) / e = c * (b / (w * e))` when `a = b * d`.
proof fn rearrange_row_term<F: FieldElement>(a: F, b: F, w: F, c: F, d: F, e: F)
    requires
        a == b.times(d),
        d != F::zero_elem(),
    ensures
        a.times(w.recip()).times(c).times(d.recip()).times(e.recip()) == c.times(
            b.times(w.times(e).recip()),
        ),
{
    let wi = w.recip();
    let di = d.recip();
    let ei = e.recip();
    recip_of_product(w, e);
    // a * wi * c * di = (b * wi) * c
    let u = a.times(wi);
    F::times_associates(u, c, di);
    F::times_commutes(c, di);
    F::times_associates(u, di, c);
    assert(u.times(di) == b.times(wi)) by {
        times_swap_inner(b, d, wi, di);
        F::times_associates(a, wi, di);
        F::times_recip(d);
        F::times_identity(b.times(wi));
    }
    let v = b.times(wi);
    F::times_commutes(v, c);
    F::times_associates(c, v, ei);
    F::times_associates(b, wi, ei);
}

/// The inverse times a further Cauchy column is the fused coefficient.
pub proof fn inverse_times_column<F: FieldElement>(rows: Seq<F>, cols: Seq<F>, j: int, z: F)
    requires
        cauchy_variables(rows, cols),
        0 <= j < cols.len(),
        avoids(rows, z),
    ensures
        sum(
            |i: int| inverse_entry(rows, cols, j, i).times(cauchy_entry(rows[i], z)),
            rows.len() as int,
        ) == fused_entry(rows, cols, j, z),
{
    let n = rows.len() as int;
    let cj = col_factor(rows, cols, j);
    let f = |x: F| others_product(cols, j, x);
    let lhs = |i: int| inverse_entry(rows, cols, j, i).times(cauchy_entry(rows[i], z));
    let g = |i: int|
        f(rows[i]).times(others_product(rows, i, rows[i]).times(rows[i].plus(z)).recip());
    let scaled = |i: int| cj.times(g(i));
    assert forall|i: int| 0 <= i < n implies #[trigger] lhs(i) == scaled(i) by {
        let r = rows[i];
        let c = cols[j];
        others_product_complete(cols, j, r);
        F::plus_commutes(r, c);
        plus_is_zero(r, c);
        assert(rows[i] != cols[j]);
        rearrange_row_term(
            root_product(cols, r),
            f(r),
            others_product(rows, i, r),
            cj,
            c.plus(r),
            r.plus(z),
        );
    }
    sum_congruent(lhs, scaled, n);
    sum_scale(cj, g, n);
    let all = rows.push(z);
    assert(distinct(all)) by {
        assert forall|a: int, b: int|
            0 <= a < all.len() && 0 <= b < all.len() && a != b implies #[trigger] all[a]
            != #[trigger] all[b] by {
            if a < n && b < n {
                assert(rows[a] != rows[b]);
            } else if a < n {
                assert(rows[a] != z);
            } else {
                assert(rows[b] != z);
            }
        }
    }
    degree_of_others(cols, j);
    assert(divided_difference(all, f) == F::zero_elem());
    difference_isolates_last(rows, z, f);
    F::times_associates(cj, f(z), root_product(rows, z).recip());
}

/// At the column variables the fused coefficients are those of the identity.
pub proof fn fused_at_columns<F: FieldElement>(rows: Seq<F>, cols: Seq<F>, j: int, h: int)
    requires
        cauchy_variables(rows, cols),
        0 <= j < cols.len(),
        0 <= h < cols.len(),
    ensures
        fused_entry(rows, cols, j, cols[h]) == if j == h {
            F::one_elem()
        } else {
            F::zero_elem()
        },
{
    let cj = col_factor(rows, cols, j);
    let z = cols[h];
    let p = root_product(rows, z);
    if j != h {
        others_product_zero(cols, j, z);
        times_zero(cj);
        left_identities(p.recip());
    } else {
        let w = others_product(cols, j, z);
        others_product_nonzero(cols, j);
        root_product_nonzero(rows, z);
        // (p / w) * w / p = 1
        F::times_associates(p, w.recip(), w);
        times_undoes(w, p);
        F::times_identity(p);
        F::times_recip(p);
    }
}

/// The Cauchy matrix times its inverse is the identity.
pub proof fn matrix_times_inverse<F: FieldElement>(rows: Seq<F>, cols: Seq<F>, i: int, l: int)
    requires
        cauchy_variables(rows, cols),
        0 <= i < rows.len(),
        0 <= l < rows.len(),
    ensures
        sum(
            |j: int| cauchy_entry(rows[i], cols[j]).times(inverse_entry(rows, cols, j, l)),
            cols.len() as int,
        ) == if i == l {
            F::one_elem()
        } else {
            F::zero_elem()
        },
{
    let n = rows.len() as int;
    let rl = row_factor(rows, cols, l);
    let lhs = |j: int| cauchy_entry(rows[i], cols[j]).times(inverse_entry(rows, cols, j, l));
    let f = |x: F| others_product(rows, l, x);
    let g = |j: int|
        f(cols[j]).times(others_product(cols, j, cols[j]).times(cols[j].plus(rows[i])).recip());
    let scaled = |j: int| rl.times(g(j));
    assert forall|j: int| 0 <= j < n implies #[trigger] lhs(j) == scaled(j) by {
        let c = cols[j];
        let r = rows[l];
        let cj = col_factor(rows, cols, j);
        assert(rows[l] != cols[j]);
        others_product_complete(rows, l, c);
        plus_is_zero(c, r);
        F::plus_commutes(rows[i], c);
        let d = c.plus(r);
        let e = c.plus(rows[i]);
        // e' * (rl * cj * d') = (cj * rl * d') * e'
        F::times_commutes(rl, cj);
        F::times_commutes(e.recip(), cj.times(rl).times(d.recip()));
        rearrange_row_term(
            root_product(rows, c),
            f(c),
            others_product(cols, j, c),
            rl,
            d,
            e,
        );
    }
    sum_congruent(lhs, scaled, n);
    sum_scale(rl, g, n);
    let z = rows[i];
    if i == l {
        let all = cols.push(z);
        assert(distinct(all)) by {
            assert forall|a: int, b: int|
                0 <= a < all.len() && 0 <= b < all.len() && a != b implies #[trigger] all[a]
                != #[trigger] all[b] by {
                if a < n && b < n {
                    assert(cols[a] != cols[b]);
                } else if a < n {
                    assert(rows[i] != cols[a]);
                } else {
                    assert(rows[i] != cols[b]);
                }
            }
        }
        degree_of_others(rows, l);
        assert(divided_difference(all, f) == F::zero_elem());
        difference_isolates_last(cols, z, f);
        // (p / w) * (w / p) = 1
        let p = root_product(cols, z);
        let w = others_product(rows, l, z);
        assert(avoids(cols, z)) by {
            assert forall|a: int| 0 <= a < cols.len() implies #[trigger] cols[a] != z by {
                assert(rows[i] != cols[a]);
            }
        }
        root_product_nonzero(cols, z);
        others_product_nonzero(rows, l);
        F::times_commutes(p, w.recip());
        times_swap_inner(w.recip(), p, w, p.recip());
        times_undoes(w, p);
        F::times_recip(p);
        F::times_identity(F::one_elem());
    } else {
        // The remaining factor for row i cancels, leaving n - 2 roots.
        let rest = rows.remove(l);
        let at = if i < l {
            i
        } else {
            i - 1
        };
        assert(rest[at] == z);
        let q = |x: F| others_product(rest, at, x);
        let t = |j: int| difference_term(cols, q, j);
        assert forall|j: int| 0 <= j < n implies #[trigger] g(j) == t(j) by {
            let c = cols[j];
            assert(rows[i] != cols[j]);
            plus_is_zero(c, z);
            others_product_removed(rows, l, c);
            others_product_complete(rest, at, c);
            let d = c.plus(z);
            let w = others_product(cols, j, c);
            recip_of_product(w, d);
            times_swap_inner(q(c), d, w.recip(), d.recip());
            F::times_recip(d);
            F::times_identity(q(c).times(w.recip()));
        }
        sum_congruent(g, t, n);
        degree_of_others(rest, at);
        assert(divided_difference(cols, q) == F::zero_elem());
        times_zero(rl);
    }
}

} // verus!
