//! Polynomials in the novel basis of an additive domain.
//!
//! For an ordered basis `b_0, b_1, ...` let `W_j` vanish on the span of the
//! first `j` elements. The basis polynomial `X_i` is the product of
//! `W_j / W_j(b_j)` over the set bits `j` of `i`; it has degree `i`.

use vstd::prelude::*;

use crate::algebra::domains::{span_points, span_size, span_size_grows};
use crate::algebra::field::{
    left_identities, plus_is_zero, plus_swap_inner, plus_times, plus_undoes, times_zero,
    FieldElement,
};
use crate::algebra::interpolation::{
    degree_below, degree_scale, degree_times_linear, degree_weaken, difference_congruent,
    difference_plus, distinct, divided_difference, root_product,
};
use crate::algebra::sums::{sum, sum_congruent, sum_of_zeros};

verus! {

/// The derivative of a product of linear factors, by the product rule.
pub open spec fn root_derivative<F: FieldElement>(roots: Seq<F>, x: F) -> F
    decreases roots.len(),
{
    if roots.len() == 0 {
        F::zero_elem()
    } else {
        root_derivative(roots.drop_last(), x).times(x.plus(roots.last())).plus(
            root_product(roots.drop_last(), x),
        )
    }
}

/// Basis polynomial `X_i` at `x`.
pub open spec fn novel<F: FieldElement>(basis: Seq<F>, i: int, x: F) -> F
    decreases basis.len(),
{
    if basis.len() == 0 {
        F::one_elem()
    } else {
        let front = basis.drop_last();
        let half = span_size(front.len());
        if i >= half {
            novel(front, i - half, x).times(normalizer(basis)).times(
                root_product(span_points(front), x),
            )
        } else {
            novel(front, i, x)
        }
    }
}

/// `1 / W(b)` for the last basis element `b` and the polynomial `W` that
/// vanishes on the span of those before it.
pub open spec fn normalizer<F: FieldElement>(basis: Seq<F>) -> F {
    root_product(span_points(basis.drop_last()), basis.last()).recip()
}

/// The formal derivative of `X_i` at `x`, by the product rule.
pub open spec fn novel_derivative<F: FieldElement>(basis: Seq<F>, i: int, x: F) -> F
    decreases basis.len(),
{
    if basis.len() == 0 {
        F::zero_elem()
    } else {
        let front = basis.drop_last();
        let half = span_size(front.len());
        if i >= half {
            novel_derivative(front, i - half, x).times(normalizer(basis)).times(
                root_product(span_points(front), x),
            ).plus(
                novel(front, i - half, x).times(normalizer(basis)).times(
                    root_derivative(span_points(front), x),
                ),
            )
        } else {
            novel_derivative(front, i, x)
        }
    }
}

/// The polynomial with the given novel-basis coefficients, at `x`.
pub open spec fn novel_value<F: FieldElement>(
    basis: Seq<F>,
    coefficient: spec_fn(int) -> F,
    count: int,
    x: F,
) -> F {
    sum(|i: int| coefficient(i).times(novel(basis, i, x)), count)
}

/// The formal derivative of the polynomial with the given novel-basis
/// coefficients, at `x`.
pub open spec fn novel_slope<F: FieldElement>(
    basis: Seq<F>,
    coefficient: spec_fn(int) -> F,
    count: int,
    x: F,
) -> F {
    sum(|i: int| coefficient(i).times(novel_derivative(basis, i, x)), count)
}

/// The difference quotient of `f` at `a`, completed by `d(a)` at `a` itself.
pub open spec fn quotient<F: FieldElement>(
    f: spec_fn(F) -> F,
    d: spec_fn(F) -> F,
    a: F,
) -> spec_fn(F) -> F {
    |x: F|
        if x == a {
            d(a)
        } else {
            f(x).plus(f(a)).times(x.plus(a).recip())
        }
}

/// `f` is a polynomial of degree below `bound` and `d` its derivative: every
/// difference quotient, completed by `d`, is a polynomial of one degree less.
pub open spec fn smooth<F: FieldElement>(
    f: spec_fn(F) -> F,
    d: spec_fn(F) -> F,
    bound: int,
) -> bool {
    &&& degree_below(f, bound)
    &&& forall|a: F| degree_below(#[trigger] quotient(f, d, a), bound - 1)
}

/// Equal functions have equal degrees.
pub proof fn degree_congruent<F: FieldElement>(
    f: spec_fn(F) -> F,
    g: spec_fn(F) -> F,
    bound: int,
)
    requires
        degree_below(f, bound),
        forall|x: F| #[trigger] f(x) == g(x),
    ensures
        degree_below(g, bound),
{
    assert forall|nodes: Seq<F>|
        distinct(nodes) && nodes.len() > bound && nodes.len()
            >= 2 implies #[trigger] divided_difference(nodes, g) == F::zero_elem() by {
        assert forall|i: int| 0 <= i < nodes.len() implies f(#[trigger] nodes[i]) == g(
            nodes[i],
        ) by {}
        difference_congruent(nodes, f, g);
        assert(divided_difference(nodes, f) == F::zero_elem());
    }
}

/// The zero function has every degree.
pub proof fn degree_of_zero<F: FieldElement>(f: spec_fn(F) -> F, bound: int)
    requires
        forall|x: F| #[trigger] f(x) == F::zero_elem(),
    ensures
        degree_below(f, bound),
{
    assert forall|nodes: Seq<F>|
        distinct(nodes) && nodes.len() > bound && nodes.len()
            >= 2 implies #[trigger] divided_difference(nodes, f) == F::zero_elem() by {
        let t = |i: int| crate::algebra::interpolation::difference_term(nodes, f, i);
        assert forall|i: int| 0 <= i < nodes.len() implies #[trigger] t(i) == F::zero_elem() by {
            left_identities(
                crate::algebra::interpolation::others_product(nodes, i, nodes[i]).recip(),
            );
        }
        sum_of_zeros(t, nodes.len() as int);
    }
}

/// A sum of two polynomials has no larger degree.
pub proof fn degree_plus<F: FieldElement>(f: spec_fn(F) -> F, g: spec_fn(F) -> F, bound: int)
    requires
        degree_below(f, bound),
        degree_below(g, bound),
    ensures
        degree_below(|x: F| f(x).plus(g(x)), bound),
{
    let h = |x: F| f(x).plus(g(x));
    assert forall|nodes: Seq<F>|
        distinct(nodes) && nodes.len() > bound && nodes.len()
            >= 2 implies #[trigger] divided_difference(nodes, h) == F::zero_elem() by {
        difference_plus(nodes, f, g);
        assert(divided_difference(nodes, f) == F::zero_elem());
        assert(divided_difference(nodes, g) == F::zero_elem());
        F::plus_identity(F::zero_elem());
    }
}

/// The quotient of `f * (x + c)` at `a`, off `a`.
proof fn quotient_of_linear<F: FieldElement>(fx: F, fa: F, x: F, a: F, c: F)
    requires
        x != a,
    ensures
        fx.times(x.plus(c)).plus(fa.times(a.plus(c))).times(x.plus(a).recip()) == fx.plus(
            a.plus(c).times(fx.plus(fa).times(x.plus(a).recip())),
        ),
{
    let gap = x.plus(a);
    let ac = a.plus(c);
    plus_is_zero(x, a);
    // x + c = (x + a) + (a + c)
    assert(x.plus(c) == gap.plus(ac)) by {
        F::plus_associates(x, a, ac);
        plus_undoes(a, c);
    }
    F::times_distributes(fx, gap, ac);
    F::plus_associates(fx.times(gap), fx.times(ac), fa.times(ac));
    plus_times(fx, fa, ac);
    let both = fx.plus(fa);
    plus_times(fx.times(gap), both.times(ac), gap.recip());
    F::times_associates(fx, gap, gap.recip());
    F::times_recip(gap);
    F::times_identity(fx);
    F::times_commutes(both, ac);
    F::times_associates(ac, both, gap.recip());
}

/// Multiplying by `x + c` keeps a polynomial and its derivative together.
pub proof fn smooth_times_linear<F: FieldElement>(
    f: spec_fn(F) -> F,
    d: spec_fn(F) -> F,
    bound: int,
    c: F,
)
    requires
        smooth(f, d, bound),
        bound >= 1,
    ensures
        smooth(
            |x: F| f(x).times(x.plus(c)),
            |x: F| d(x).times(x.plus(c)).plus(f(x)),
            bound + 1,
        ),
{
    let h = |x: F| f(x).times(x.plus(c));
    let hd = |x: F| d(x).times(x.plus(c)).plus(f(x));
    degree_times_linear(f, bound, c);
    assert forall|a: F| degree_below(#[trigger] quotient(h, hd, a), bound) by {
        let q = quotient(f, d, a);
        assert(degree_below(q, bound - 1));
        let ac = a.plus(c);
        degree_weaken(q, bound - 1, bound);
        degree_scale(ac, q, bound);
        let scaled = |x: F| ac.times(q(x));
        degree_plus(f, scaled, bound);
        let both = |x: F| f(x).plus(scaled(x));
        let target = quotient(h, hd, a);
        assert forall|x: F| #[trigger] both(x) == target(x) by {
            if x == a {
                F::times_commutes(ac, d(a));
                F::plus_commutes(f(a), d(a).times(ac));
            } else {
                quotient_of_linear(f(x), f(a), x, a, c);
            }
        }
        degree_congruent(both, target, bound);
    }
}

/// Multiplying by linear factors keeps a polynomial and its derivative
/// together.
pub proof fn smooth_times_roots<F: FieldElement>(
    f: spec_fn(F) -> F,
    d: spec_fn(F) -> F,
    bound: int,
    roots: Seq<F>,
)
    requires
        smooth(f, d, bound),
        bound >= 1,
    ensures
        smooth(
            |x: F| f(x).times(root_product(roots, x)),
            |x: F|
                d(x).times(root_product(roots, x)).plus(f(x).times(root_derivative(roots, x))),
            bound + roots.len(),
        ),
    decreases roots.len(),
{
    let h = |x: F| f(x).times(root_product(roots, x));
    let hd = |x: F|
        d(x).times(root_product(roots, x)).plus(f(x).times(root_derivative(roots, x)));
    if roots.len() == 0 {
        assert forall|x: F| #[trigger] f(x) == h(x) by {
            F::times_identity(f(x));
        }
        assert forall|x: F| #[trigger] d(x) == hd(x) by {
            F::times_identity(d(x));
            times_zero(f(x));
            F::plus_identity(d(x));
        }
        smooth_congruent(f, d, h, hd, bound);
    } else {
        let front = roots.drop_last();
        let c = roots.last();
        smooth_times_roots(f, d, bound, front);
        let p = |x: F| f(x).times(root_product(front, x));
        let pd = |x: F|
            d(x).times(root_product(front, x)).plus(f(x).times(root_derivative(front, x)));
        smooth_times_linear(p, pd, bound + front.len(), c);
        let q = |x: F| p(x).times(x.plus(c));
        let qd = |x: F| pd(x).times(x.plus(c)).plus(p(x));
        assert forall|x: F| #[trigger] q(x) == h(x) by {
            F::times_associates(f(x), root_product(front, x), x.plus(c));
        }
        assert forall|x: F| #[trigger] qd(x) == hd(x) by {
            let r = root_product(front, x);
            let s = root_derivative(front, x);
            let l = x.plus(c);
            plus_times(d(x).times(r), f(x).times(s), l);
            F::times_associates(d(x), r, l);
            F::times_associates(f(x), s, l);
            F::plus_associates(d(x).times(r.times(l)), f(x).times(s.times(l)), f(x).times(r));
            F::times_distributes(f(x), s.times(l), r);
        }
        smooth_congruent(q, qd, h, hd, bound + roots.len());
    }
}

/// Smoothness depends on the values only.
pub proof fn smooth_congruent<F: FieldElement>(
    f: spec_fn(F) -> F,
    d: spec_fn(F) -> F,
    g: spec_fn(F) -> F,
    e: spec_fn(F) -> F,
    bound: int,
)
    requires
        smooth(f, d, bound),
        forall|x: F| #[trigger] f(x) == g(x),
        forall|x: F| #[trigger] d(x) == e(x),
    ensures
        smooth(g, e, bound),
{
    degree_congruent(f, g, bound);
    assert forall|a: F| degree_below(#[trigger] quotient(g, e, a), bound - 1) by {
        let q = quotient(f, d, a);
        assert(degree_below(q, bound - 1));
        let r = quotient(g, e, a);
        assert forall|x: F| #[trigger] q(x) == r(x) by {
            assert(f(x) == g(x) && f(a) == g(a) && d(a) == e(a));
        }
        degree_congruent(q, r, bound - 1);
    }
}

/// A larger bound is weaker.
pub proof fn smooth_weaken<F: FieldElement>(
    f: spec_fn(F) -> F,
    d: spec_fn(F) -> F,
    bound: int,
    larger: int,
)
    requires
        smooth(f, d, bound),
        bound <= larger,
    ensures
        smooth(f, d, larger),
{
    degree_weaken(f, bound, larger);
    assert forall|a: F| degree_below(#[trigger] quotient(f, d, a), larger - 1) by {
        degree_weaken(quotient(f, d, a), bound - 1, larger - 1);
    }
}

/// A scaled polynomial has the scaled derivative.
pub proof fn smooth_scale<F: FieldElement>(
    c: F,
    f: spec_fn(F) -> F,
    d: spec_fn(F) -> F,
    bound: int,
)
    requires
        smooth(f, d, bound),
    ensures
        smooth(|x: F| c.times(f(x)), |x: F| c.times(d(x)), bound),
{
    let h = |x: F| c.times(f(x));
    let hd = |x: F| c.times(d(x));
    degree_scale(c, f, bound);
    assert forall|a: F| degree_below(#[trigger] quotient(h, hd, a), bound - 1) by {
        let q = quotient(f, d, a);
        assert(degree_below(q, bound - 1));
        degree_scale(c, q, bound - 1);
        let scaled = |x: F| c.times(q(x));
        let r = quotient(h, hd, a);
        assert forall|x: F| #[trigger] scaled(x) == r(x) by {
            if x != a {
                F::times_distributes(c, f(x), f(a));
                F::times_associates(c, f(x).plus(f(a)), x.plus(a).recip());
            }
        }
        degree_congruent(scaled, r, bound - 1);
    }
}

/// The derivative of a sum is the sum of the derivatives.
pub proof fn smooth_plus<F: FieldElement>(
    f: spec_fn(F) -> F,
    d: spec_fn(F) -> F,
    g: spec_fn(F) -> F,
    e: spec_fn(F) -> F,
    bound: int,
)
    requires
        smooth(f, d, bound),
        smooth(g, e, bound),
    ensures
        smooth(|x: F| f(x).plus(g(x)), |x: F| d(x).plus(e(x)), bound),
{
    let h = |x: F| f(x).plus(g(x));
    let hd = |x: F| d(x).plus(e(x));
    degree_plus(f, g, bound);
    assert forall|a: F| degree_below(#[trigger] quotient(h, hd, a), bound - 1) by {
        let q = quotient(f, d, a);
        let r = quotient(g, e, a);
        assert(degree_below(q, bound - 1));
        assert(degree_below(r, bound - 1));
        degree_plus(q, r, bound - 1);
        let both = |x: F| q(x).plus(r(x));
        let s = quotient(h, hd, a);
        assert forall|x: F| #[trigger] both(x) == s(x) by {
            if x != a {
                plus_swap_inner(f(x), g(x), f(a), g(a));
                plus_times(f(x).plus(f(a)), g(x).plus(g(a)), x.plus(a).recip());
            }
        }
        degree_congruent(both, s, bound - 1);
    }
}

/// The constant one.
proof fn smooth_one<F: FieldElement>(f: spec_fn(F) -> F, d: spec_fn(F) -> F)
    requires
        forall|x: F| #[trigger] f(x) == F::one_elem(),
        forall|x: F| #[trigger] d(x) == F::zero_elem(),
    ensures
        smooth(f, d, 1),
{
    crate::algebra::interpolation::degree_of_roots(Seq::<F>::empty());
    let r = |x: F| root_product(Seq::<F>::empty(), x);
    degree_congruent(r, f, 1);
    assert forall|a: F| degree_below(#[trigger] quotient(f, d, a), 0) by {
        let q = quotient(f, d, a);
        assert forall|x: F| #[trigger] q(x) == F::zero_elem() by {
            assert(f(x) == f(a));
            F::plus_cancels(f(a));
            left_identities(x.plus(a).recip());
            assert(d(a) == F::zero_elem());
        }
        degree_of_zero(q, 0);
    }
}

/// `X_i` has degree `i`, and its formal derivative is its derivative.
pub proof fn novel_is_smooth<F: FieldElement>(basis: Seq<F>, i: int)
    requires
        0 <= i < span_size(basis.len()),
    ensures
        smooth(|x: F| novel(basis, i, x), |x: F| novel_derivative(basis, i, x), i + 1),
    decreases basis.len(),
{
    let f = |x: F| novel(basis, i, x);
    let d = |x: F| novel_derivative(basis, i, x);
    if basis.len() == 0 {
        smooth_one(f, d);
    } else {
        let front = basis.drop_last();
        let half = span_size(front.len());
        if i >= half {
            novel_is_smooth(front, i - half);
            let p = |x: F| novel(front, i - half, x);
            let pd = |x: F| novel_derivative(front, i - half, x);
            let c = normalizer(basis);
            smooth_scale(c, p, pd, i - half + 1);
            let s = |x: F| c.times(p(x));
            let sd = |x: F| c.times(pd(x));
            let roots = span_points(front);
            smooth_times_roots(s, sd, i - half + 1, roots);
            let t = |x: F| s(x).times(root_product(roots, x));
            let td = |x: F|
                sd(x).times(root_product(roots, x)).plus(s(x).times(root_derivative(roots, x)));
            assert forall|x: F| #[trigger] t(x) == f(x) by {
                F::times_commutes(c, p(x));
            }
            assert forall|x: F| #[trigger] td(x) == d(x) by {
                F::times_commutes(c, p(x));
                F::times_commutes(c, pd(x));
            }
            assert(i - half + 1 + roots.len() == i + 1);
            smooth_congruent(t, td, f, d, i + 1);
        } else {
            novel_is_smooth(front, i);
            let p = |x: F| novel(front, i, x);
            let pd = |x: F| novel_derivative(front, i, x);
            smooth_congruent(p, pd, f, d, i + 1);
        }
    }
}

/// A polynomial with `count` novel-basis coefficients has degree below `count`,
/// and its formal derivative is its derivative.
pub proof fn novel_value_is_smooth<F: FieldElement>(
    basis: Seq<F>,
    coefficient: spec_fn(int) -> F,
    count: int,
)
    requires
        0 <= count <= span_size(basis.len()),
    ensures
        smooth(
            |x: F| novel_value(basis, coefficient, count, x),
            |x: F| novel_slope(basis, coefficient, count, x),
            count,
        ),
    decreases count,
{
    let f = |x: F| novel_value(basis, coefficient, count, x);
    let d = |x: F| novel_slope(basis, coefficient, count, x);
    if count == 0 {
        assert forall|x: F| #[trigger] f(x) == F::zero_elem() by {}
        degree_of_zero(f, 0);
        assert forall|a: F| degree_below(#[trigger] quotient(f, d, a), -1) by {
            let q = quotient(f, d, a);
            assert forall|x: F| #[trigger] q(x) == F::zero_elem() by {
                assert(f(x) == f(a));
                F::plus_cancels(f(a));
                left_identities(x.plus(a).recip());
            }
            degree_of_zero(q, -1);
        }
    } else {
        let last = count - 1;
        novel_value_is_smooth(basis, coefficient, last);
        let p = |x: F| novel_value(basis, coefficient, last, x);
        let pd = |x: F| novel_slope(basis, coefficient, last, x);
        smooth_weaken(p, pd, last, count);
        novel_is_smooth(basis, last);
        let g = |x: F| novel(basis, last, x);
        let gd = |x: F| novel_derivative(basis, last, x);
        let c = coefficient(last);
        smooth_scale(c, g, gd, count);
        let s = |x: F| c.times(g(x));
        let sd = |x: F| c.times(gd(x));
        smooth_plus(p, pd, s, sd, count);
        let both = |x: F| p(x).plus(s(x));
        let both_d = |x: F| pd(x).plus(sd(x));
        assert forall|x: F| #[trigger] both(x) == f(x) by {}
        assert forall|x: F| #[trigger] both_d(x) == d(x) by {}
        smooth_congruent(both, both_d, f, d, count);
    }
}

/// The first basis polynomials of a domain are those of the domain of a shorter
/// basis.
pub proof fn novel_prefix<F: FieldElement>(basis: Seq<F>, short: nat, i: int, x: F)
    requires
        short <= basis.len(),
        0 <= i < span_size(short),
    ensures
        novel(basis.subrange(0, short as int), i, x) == novel(basis, i, x),
    decreases basis.len(),
{
    let prefix = basis.subrange(0, short as int);
    if short == basis.len() {
        assert(prefix =~= basis);
    } else {
        let front = basis.drop_last();
        span_size_grows(short, front.len());
        novel_prefix(front, short, i, x);
        assert(front.subrange(0, short as int) =~= prefix);
    }
}

/// Polynomials with few coefficients are the same over a shorter basis.
pub proof fn novel_value_prefix<F: FieldElement>(
    basis: Seq<F>,
    short: nat,
    coefficient: spec_fn(int) -> F,
    count: int,
    x: F,
)
    requires
        short <= basis.len(),
        0 <= count <= span_size(short),
    ensures
        novel_value(basis.subrange(0, short as int), coefficient, count, x) == novel_value(
            basis,
            coefficient,
            count,
            x,
        ),
{
    let prefix = basis.subrange(0, short as int);
    let a = |i: int| coefficient(i).times(novel(prefix, i, x));
    let b = |i: int| coefficient(i).times(novel(basis, i, x));
    assert forall|i: int| 0 <= i < count implies #[trigger] a(i) == b(i) by {
        novel_prefix(basis, short, i, x);
    }
    sum_congruent(a, b, count);
}

} // verus!
