//! Codes whose symbols are the values of one polynomial, and the recovery of
//! erased values.

use vstd::prelude::*;

use crate::algebra::cauchy::{degree_of_others, others_product_removed};
use crate::algebra::domains::{independent, span_point, span_points, span_size};
use crate::algebra::field::{left_identities, plus_is_zero, times_zero, FieldElement};
use crate::algebra::index_lists::{indices_where, indices_where_complement, indices_where_facts};
use crate::algebra::interpolation::{
    degree_below, degree_scale, degree_sum, degree_times_linear, distinct, interpolation_is_exact,
    lagrange, lagrange_at_node, others_product, others_product_all, others_product_complete,
    others_product_zero, root_product, slice,
};
use crate::algebra::linear_code::{codeword, points_of};
use crate::algebra::novel_basis::{
    degree_congruent, degree_of_zero, novel_derivative, novel_slope, novel_value,
    novel_value_is_smooth, quotient,
};
use crate::algebra::sums::{sum, sum_congruent, sum_of_zeros, sum_single};
use crate::symbols::{lanes_determined, same_codeword_at};

verus! {

/// The polynomial through `(nodes[t], value(t))`, at `x`.
pub open spec fn interpolant<F: FieldElement>(
    nodes: Seq<F>,
    value: spec_fn(int) -> F,
    x: F,
) -> F {
    sum(|t: int| value(t).times(lagrange(nodes, t, x)), nodes.len() as int)
}

/// The interpolant has degree below the number of nodes.
pub proof fn interpolant_degree<F: FieldElement>(nodes: Seq<F>, value: spec_fn(int) -> F)
    ensures
        degree_below(|x: F| interpolant(nodes, value, x), nodes.len() as int),
{
    let n = nodes.len() as int;
    let f = |t: int, x: F| value(t).times(lagrange(nodes, t, x));
    assert forall|t: int| 0 <= t < n implies degree_below(#[trigger] slice(f, t), n) by {
        degree_of_others(nodes, t);
        let others = |x: F| others_product(nodes, t, x);
        let w = others_product(nodes, t, nodes[t]).recip();
        let c = value(t).times(w);
        degree_scale(c, others, n);
        let scaled = |x: F| c.times(others(x));
        let target = slice(f, t);
        assert forall|x: F| #[trigger] scaled(x) == target(x) by {
            F::times_associates(value(t), w, others(x));
            F::times_commutes(w, others(x));
        }
        degree_congruent(scaled, target, n);
    }
    degree_sum(f, n, n);
    let summed = |x: F| sum(|t: int| f(t, x), n);
    let target = |x: F| interpolant(nodes, value, x);
    assert forall|x: F| #[trigger] summed(x) == target(x) by {
        sum_congruent(
            |t: int| f(t, x),
            |t: int| value(t).times(lagrange(nodes, t, x)),
            n,
        );
    }
    degree_congruent(summed, target, n);
}

/// The interpolant takes the given values.
pub proof fn interpolant_at_node<F: FieldElement>(
    nodes: Seq<F>,
    value: spec_fn(int) -> F,
    j: int,
)
    requires
        distinct(nodes),
        0 <= j < nodes.len(),
    ensures
        interpolant(nodes, value, nodes[j]) == value(j),
{
    let h = |t: int| value(t).times(lagrange(nodes, t, nodes[j]));
    assert forall|t: int| 0 <= t < nodes.len() && t != j implies #[trigger] h(t)
        == F::zero_elem() by {
        lagrange_at_node(nodes, t, j);
        times_zero(value(t));
    }
    sum_single(h, nodes.len() as int, j);
    lagrange_at_node(nodes, j, j);
    F::times_identity(value(j));
}

/// The first `k` points.
pub open spec fn first_points<F: FieldElement>(point: spec_fn(int) -> F, k: int) -> Seq<F> {
    Seq::new(k as nat, |i: int| point(i))
}

/// Coefficients of the code that takes data as the values of a polynomial of
/// degree below `k` at the first `k` points, and repairs as its values at the
/// points that follow.
pub open spec fn lagrange_coef<F: FieldElement>(
    point: spec_fn(int) -> F,
    k: int,
) -> spec_fn(int, int) -> F {
    |j: int, d: int| lagrange(first_points(point, k), d, point(k + j))
}

/// No two of the first `n` points are equal.
pub open spec fn points_differ<F: FieldElement>(point: spec_fn(int) -> F, n: int) -> bool {
    forall|i: int, j: int|
        0 <= i < n && 0 <= j < n && i != j ==> #[trigger] point(i) != #[trigger] point(j)
}

/// Every symbol of a codeword is a value of the message polynomial.
pub proof fn codeword_is_evaluation<F: FieldElement>(
    point: spec_fn(int) -> F,
    k: int,
    message: spec_fn(int) -> F,
    index: int,
)
    requires
        k > 0,
        0 <= index,
        points_differ(point, k),
    ensures
        codeword(lagrange_coef(point, k), k, message, index) == interpolant(
            first_points(point, k),
            message,
            point(index),
        ),
{
    let nodes = first_points(point, k);
    if index < k {
        assert(distinct(nodes)) by {
            assert forall|i: int, j: int|
                0 <= i < nodes.len() && 0 <= j < nodes.len() && i != j implies #[trigger] nodes[i]
                != #[trigger] nodes[j] by {
                assert(point(i) != point(j));
            }
        }
        interpolant_at_node(nodes, message, index);
    } else {
        let coef = lagrange_coef(point, k);
        let left = |i: int| coef(index - k, i).times(message(i));
        let right = |i: int| message(i).times(lagrange(nodes, i, point(index)));
        assert forall|i: int| 0 <= i < k implies #[trigger] left(i) == right(i) by {
            F::times_commutes(coef(index - k, i), message(i));
        }
        sum_congruent(left, right, k);
    }
}

/// Any `k` symbols of an evaluation code determine the message.
pub proof fn lagrange_code_is_mds<F: FieldElement>(point: spec_fn(int) -> F, k: int, m: int)
    requires
        k > 0,
        m >= 0,
        points_differ(point, k + m),
    ensures
        lanes_determined(lagrange_coef(point, k), k, m),
{
    let coef = lagrange_coef(point, k);
    assert forall|first: spec_fn(int) -> F, second: spec_fn(int) -> F, indices: Seq<int>, at: int|
        #![trigger same_codeword_at(coef, k, first, second, indices), first(at)]
        distinct(indices) && indices.len() == k && (forall|t: int|
            0 <= t < indices.len() ==> 0 <= #[trigger] indices[t] < k + m) && same_codeword_at(
            coef,
            k,
            first,
            second,
            indices,
        ) && 0 <= at < k implies first(at) == second(at) by {
        let nodes = first_points(point, k);
        let p = |x: F| interpolant(nodes, first, x);
        let q = |x: F| interpolant(nodes, second, x);
        interpolant_degree(nodes, first);
        interpolant_degree(nodes, second);
        let chosen = points_of(point, indices);
        assert(distinct(chosen)) by {
            assert forall|i: int, j: int|
                0 <= i < chosen.len() && 0 <= j < chosen.len() && i != j implies #[trigger] chosen[i]
                != #[trigger] chosen[j] by {
                assert(indices[i] != indices[j]);
                assert(point(indices[i]) != point(indices[j]));
            }
        }
        interpolation_is_exact(chosen, p, point(at));
        interpolation_is_exact(chosen, q, point(at));
        let left = |i: int| p(chosen[i]).times(lagrange(chosen, i, point(at)));
        let right = |i: int| q(chosen[i]).times(lagrange(chosen, i, point(at)));
        assert forall|i: int| 0 <= i < k implies #[trigger] left(i) == right(i) by {
            codeword_is_evaluation(point, k, first, indices[i]);
            codeword_is_evaluation(point, k, second, indices[i]);
            assert(codeword(coef, k, first, indices[i]) == codeword(coef, k, second, indices[i]));
        }
        sum_congruent(left, right, k);
        codeword_is_evaluation(point, k, first, at);
        codeword_is_evaluation(point, k, second, at);
    }
}

/// The product of `point(x) + point(e)` over the erased positions `e` below `n`
/// other than `x`: the erasure locator at a known position, its derivative at
/// an erased one.
pub open spec fn erasure_product<F: FieldElement>(
    point: spec_fn(int) -> F,
    known: spec_fn(int) -> bool,
    x: int,
    n: int,
) -> F
    decreases n,
{
    if n <= 0 {
        F::one_elem()
    } else {
        let front = erasure_product(point, known, x, n - 1);
        if known(n - 1) || n - 1 == x {
            front
        } else {
            front.times(point(x).plus(point(n - 1)))
        }
    }
}

/// The erased positions below `n`.
pub open spec fn erased_positions(known: spec_fn(int) -> bool, n: int) -> Seq<int> {
    indices_where(|i: int| !known(i), n)
}

/// The erasure product as a product over the list of erased points.
proof fn erasure_product_is_others<F: FieldElement>(
    point: spec_fn(int) -> F,
    known: spec_fn(int) -> bool,
    x: int,
    n: int,
    at: int,
)
    requires
        forall|t: int|
            0 <= t < erased_positions(known, n).len() ==> ((#[trigger] erased_positions(
                known,
                n,
            )[t] == x) == (t == at)),
    ensures
        erasure_product(point, known, x, n) == others_product(
            points_of(point, erased_positions(known, n)),
            at,
            point(x),
        ),
    decreases n,
{
    if n > 0 {
        let list = erased_positions(known, n);
        let front = erased_positions(known, n - 1);
        let p = |i: int| !known(i);
        assert(p(n - 1) == !known(n - 1));
        if !known(n - 1) {
            assert(list == front.push(n - 1));
            let last = front.len() as int;
            assert(list[last] == n - 1);
            assert forall|t: int| 0 <= t < front.len() implies ((#[trigger] front[t] == x) == (t
                == at)) by {
                assert(list[t] == front[t]);
            }
            erasure_product_is_others(point, known, x, n - 1, at);
            let nodes = points_of(point, list);
            assert(nodes.drop_last() =~= points_of(point, front));
            assert(nodes.last() == point(n - 1));
        } else {
            assert(list == front);
            erasure_product_is_others(point, known, x, n - 1, at);
        }
    }
}

/// The erasure product never vanishes on distinct points.
pub proof fn erasure_product_nonzero<F: FieldElement>(
    point: spec_fn(int) -> F,
    known: spec_fn(int) -> bool,
    x: int,
    n: int,
    size: int,
)
    requires
        points_differ(point, size),
        0 <= n <= size,
        0 <= x < size,
    ensures
        erasure_product(point, known, x, n) != F::zero_elem(),
    decreases n,
{
    if n <= 0 {
        F::one_is_not_zero();
    } else {
        erasure_product_nonzero(point, known, x, n - 1, size);
        if !(known(n - 1) || n - 1 == x) {
            assert(point(x) != point(n - 1));
            plus_is_zero(point(x), point(n - 1));
            crate::algebra::field::no_zero_divisors(
                erasure_product(point, known, x, n - 1),
                point(x).plus(point(n - 1)),
            );
        }
    }
}

/// Erasure products depend on the pattern below `n` only.
pub proof fn erasure_product_congruent<F: FieldElement>(
    point: spec_fn(int) -> F,
    known: spec_fn(int) -> bool,
    other: spec_fn(int) -> bool,
    x: int,
    n: int,
)
    requires
        forall|i: int| 0 <= i < n ==> #[trigger] known(i) == other(i),
    ensures
        erasure_product(point, known, x, n) == erasure_product(point, other, x, n),
    decreases n,
{
    if n > 0 {
        erasure_product_congruent(point, known, other, x, n - 1);
        assert(known(n - 1) == other(n - 1));
    }
}

/// The value at `x` of the polynomial through the known values.
pub open spec fn known_value<F: FieldElement>(
    point: spec_fn(int) -> F,
    known: spec_fn(int) -> bool,
    n: int,
    value: spec_fn(int) -> F,
    x: F,
) -> F {
    let list = indices_where(known, n);
    interpolant(points_of(point, list), |t: int| value(list[t]), x)
}

/// Multiplying by linear factors raises the degree by their number.
proof fn degree_times_roots<F: FieldElement>(f: spec_fn(F) -> F, bound: int, roots: Seq<F>)
    requires
        degree_below(f, bound),
        bound >= 1,
    ensures
        degree_below(|x: F| f(x).times(root_product(roots, x)), bound + roots.len()),
    decreases roots.len(),
{
    let h = |x: F| f(x).times(root_product(roots, x));
    if roots.len() == 0 {
        assert forall|x: F| #[trigger] f(x) == h(x) by {
            F::times_identity(f(x));
        }
        degree_congruent(f, h, bound);
    } else {
        let front = roots.drop_last();
        let c = roots.last();
        degree_times_roots(f, bound, front);
        let p = |x: F| f(x).times(root_product(front, x));
        degree_times_linear(p, bound + front.len(), c);
        let q = |x: F| p(x).times(x.plus(c));
        assert forall|x: F| #[trigger] q(x) == h(x) by {
            F::times_associates(f(x), root_product(front, x), x.plus(c));
        }
        degree_congruent(q, h, bound + roots.len());
    }
}

/// A polynomial that vanishes at one domain point and whose values at the
/// others are `t(x) * (x + e)` has the derivative `t(e)` there.
proof fn slope_at_root<F: FieldElement>(
    basis: Seq<F>,
    coefficient: spec_fn(int) -> F,
    e: int,
    t: spec_fn(F) -> F,
)
    requires
        independent(basis),
        0 <= e < span_size(basis.len()),
        span_size(basis.len()) >= 2,
        degree_below(t, span_size(basis.len()) - 1),
        novel_value(basis, coefficient, span_size(basis.len()) as int, span_point(basis, e))
            == F::zero_elem(),
        forall|i: int|
            0 <= i < span_size(basis.len()) && i != e ==> novel_value(
                basis,
                coefficient,
                span_size(basis.len()) as int,
                #[trigger] span_point(basis, i),
            ) == t(span_point(basis, i)).times(span_point(basis, i).plus(span_point(basis, e))),
    ensures
        novel_slope(basis, coefficient, span_size(basis.len()) as int, span_point(basis, e)) == t(
            span_point(basis, e),
        ),
{
    let n = span_size(basis.len()) as int;
    let f = |x: F| novel_value(basis, coefficient, n, x);
    let d = |x: F| novel_slope(basis, coefficient, n, x);
    novel_value_is_smooth(basis, coefficient, n);
    let a = span_point(basis, e);
    let q = quotient(f, d, a);
    assert(degree_below(q, n - 1));
    let points = span_points(basis);
    let nodes = points.remove(e);
    assert(nodes.len() == n - 1);
    assert(distinct(nodes)) by {
        assert forall|i: int, j: int|
            0 <= i < nodes.len() && 0 <= j < nodes.len() && i != j implies #[trigger] nodes[i]
            != #[trigger] nodes[j] by {
            let s = if i < e {
                i
            } else {
                i + 1
            };
            let r = if j < e {
                j
            } else {
                j + 1
            };
            assert(nodes[i] == points[s] && nodes[j] == points[r]);
        }
    }
    interpolation_is_exact(nodes, q, a);
    interpolation_is_exact(nodes, t, a);
    let left = |i: int| q(nodes[i]).times(lagrange(nodes, i, a));
    let right = |i: int| t(nodes[i]).times(lagrange(nodes, i, a));
    assert forall|i: int| 0 <= i < n - 1 implies #[trigger] left(i) == right(i) by {
        let s = if i < e {
            i
        } else {
            i + 1
        };
        assert(nodes[i] == points[s]);
        let x = span_point(basis, s);
        assert(points[s] == x && points[e] == a);
        assert(x != a);
        plus_is_zero(x, a);
        F::plus_identity(f(x));
        let gap = x.plus(a);
        F::times_associates(t(x), gap, gap.recip());
        F::times_recip(gap);
        F::times_identity(t(x));
    }
    sum_congruent(left, right, n - 1);
}

/// The derivative of the product of the message polynomial with the erasure
/// locator, at an erased position, is the message value times the locator's
/// derivative.
pub proof fn erased_value<F: FieldElement>(
    basis: Seq<F>,
    known: spec_fn(int) -> bool,
    value: spec_fn(int) -> F,
    coefficient: spec_fn(int) -> F,
    e: int,
)
    requires
        independent(basis),
        0 <= e < span_size(basis.len()),
        !known(e),
        forall|i: int|
            #![trigger span_point(basis, i)]
            0 <= i < span_size(basis.len()) ==> novel_value(
                basis,
                coefficient,
                span_size(basis.len()) as int,
                span_point(basis, i),
            ) == if known(i) {
                value(i).times(
                    erasure_product(
                        |j: int| span_point(basis, j),
                        known,
                        i,
                        span_size(basis.len()) as int,
                    ),
                )
            } else {
                F::zero_elem()
            },
    ensures
        novel_slope(basis, coefficient, span_size(basis.len()) as int, span_point(basis, e))
            == known_value(
            |j: int| span_point(basis, j),
            known,
            span_size(basis.len()) as int,
            value,
            span_point(basis, e),
        ).times(
            erasure_product(
                |j: int| span_point(basis, j),
                known,
                e,
                span_size(basis.len()) as int,
            ),
        ),
{
    let n = span_size(basis.len()) as int;
    let point = |j: int| span_point(basis, j);
    let points = span_points(basis);
    let erased = erased_positions(known, n);
    let kept = indices_where(known, n);
    let p = |i: int| !known(i);
    indices_where_facts(p, n);
    indices_where_facts(known, n);
    indices_where_complement(known, n);
    assert(p(e));
    assert(erased.contains(e));
    let at = choose|t: int| 0 <= t < erased.len() && erased[t] == e;
    assert forall|t: int| 0 <= t < erased.len() implies ((#[trigger] erased[t] == e) == (t
        == at)) by {
        assert(erased[at] == e);
    }
    erasure_product_is_others(point, known, e, n, at);
    let gone = points_of(point, erased);
    let nodes = points_of(point, kept);
    let own = |t: int| value(kept[t]);
    let f = |x: F| interpolant(nodes, own, x);
    let t = |x: F| f(x).times(others_product(gone, at, x));
    assert(distinct(nodes)) by {
        assert forall|i: int, j: int|
            0 <= i < nodes.len() && 0 <= j < nodes.len() && i != j implies #[trigger] nodes[i]
            != #[trigger] nodes[j] by {
            assert(kept[i] != kept[j]);
            assert(points[kept[i]] != points[kept[j]]);
        }
    }
    assert(degree_below(t, n - 1)) by {
        if kept.len() == 0 {
            assert forall|x: F| #[trigger] t(x) == F::zero_elem() by {
                left_identities(others_product(gone, at, x));
            }
            degree_of_zero(t, n - 1);
        } else {
            interpolant_degree(nodes, own);
            let rest = gone.remove(at);
            degree_times_roots(f, kept.len() as int, rest);
            let h = |x: F| f(x).times(root_product(rest, x));
            assert forall|x: F| #[trigger] h(x) == t(x) by {
                others_product_removed(gone, at, x);
            }
            assert(kept.len() + rest.len() == n - 1);
            degree_congruent(h, t, n - 1);
        }
    }
    if n >= 2 {
        assert forall|i: int| 0 <= i < n && i != e implies novel_value(
            basis,
            coefficient,
            n,
            #[trigger] span_point(basis, i),
        ) == t(span_point(basis, i)).times(span_point(basis, i).plus(span_point(basis, e))) by {
            let x = span_point(basis, i);
            let gap = x.plus(span_point(basis, e));
            if known(i) {
                assert(kept.contains(i));
                let s = choose|s: int| 0 <= s < kept.len() && kept[s] == i;
                assert(nodes[s] == x);
                interpolant_at_node(nodes, own, s);
                assert forall|r: int| 0 <= r < erased.len() implies ((#[trigger] erased[r] == i)
                    == (r == -1)) by {
                    assert(p(erased[r]));
                }
                erasure_product_is_others(point, known, i, n, -1);
                others_product_all(gone, -1, x);
                others_product_complete(gone, at, x);
                assert(gone[at] == span_point(basis, e));
                F::times_associates(f(x), others_product(gone, at, x), gap);
            } else {
                assert(p(i));
                assert(erased.contains(i));
                let s = choose|s: int| 0 <= s < erased.len() && erased[s] == i;
                assert(gone[s] == x);
                assert(s != at);
                others_product_zero(gone, at, x);
                times_zero(f(x));
                left_identities(gap);
            }
        }
        assert(novel_value(basis, coefficient, n, span_point(basis, e)) == F::zero_elem());
        slope_at_root(basis, coefficient, e, t);
    } else {
        // A single point, erased: both sides are zero.
        assert(kept.len() == 0);
        left_identities(erasure_product(point, known, e, n));
        crate::algebra::domains::span_size_grows(0, basis.len());
        assert(basis.len() == 0) by {
            if basis.len() > 0 {
                crate::algebra::domains::span_size_grows(0, basis.len());
            }
        }
        let h = |i: int| coefficient(i).times(novel_derivative(basis, i, span_point(basis, e)));
        assert forall|i: int| 0 <= i < n implies #[trigger] h(i) == F::zero_elem() by {
            times_zero(coefficient(i));
        }
        sum_of_zeros(h, n);
    }
}

} // verus!
