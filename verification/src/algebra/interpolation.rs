//! Divided differences and polynomial interpolation.
//!
//! A function on the field behaves like a polynomial of degree below `d`
//! exactly when all its divided differences over more than `d` distinct points
//! vanish. Everything the codecs rely on (interpolation is exact, two messages
//! that agree on enough points are equal, closed-form matrix inverses) follows
//! from that one property.

use vstd::prelude::*;

use crate::algebra::field::{
    left_identities, no_zero_divisors, plus_is_zero, plus_swap_inner, plus_times, plus_undoes,
    recip_of_product, times_swap_inner, times_undoes, times_zero, FieldElement,
};
use crate::algebra::sums::{
    sum, sum_congruent, sum_first, sum_of_zeros, sum_plus, sum_scale, sum_single,
};

verus! {

/// `(x + roots[0]) * (x + roots[1]) * ...`.
pub open spec fn root_product<F: FieldElement>(roots: Seq<F>, x: F) -> F
    decreases roots.len(),
{
    if roots.len() == 0 {
        F::one_elem()
    } else {
        root_product(roots.drop_last(), x).times(x.plus(roots.last()))
    }
}

/// The product of `x + nodes[l]` over all `l` but `skipped`.
pub open spec fn others_product<F: FieldElement>(nodes: Seq<F>, skipped: int, x: F) -> F
    decreases nodes.len(),
{
    if nodes.len() == 0 {
        F::one_elem()
    } else {
        let front = others_product(nodes.drop_last(), skipped, x);
        if nodes.len() - 1 == skipped {
            front
        } else {
            front.times(x.plus(nodes.last()))
        }
    }
}

/// No point occurs twice.
pub open spec fn distinct<F>(nodes: Seq<F>) -> bool {
    forall|i: int, j: int|
        0 <= i < nodes.len() && 0 <= j < nodes.len() && i != j ==> #[trigger] nodes[i]
            != #[trigger] nodes[j]
}

/// One term of [`divided_difference`].
pub open spec fn difference_term<F: FieldElement>(
    nodes: Seq<F>,
    f: spec_fn(F) -> F,
    i: int,
) -> F {
    f(nodes[i]).times(others_product(nodes, i, nodes[i]).recip())
}

/// The divided difference of `f` over `nodes`.
pub open spec fn divided_difference<F: FieldElement>(nodes: Seq<F>, f: spec_fn(F) -> F) -> F {
    sum(|i: int| difference_term(nodes, f, i), nodes.len() as int)
}

/// `f` agrees with a polynomial of degree below `bound`.
pub open spec fn degree_below<F: FieldElement>(f: spec_fn(F) -> F, bound: int) -> bool {
    forall|nodes: Seq<F>|
        distinct(nodes) && nodes.len() > bound && nodes.len() >= 2
            ==> #[trigger] divided_difference(nodes, f) == F::zero_elem()
}

/// The `i`-th Lagrange basis polynomial over `nodes`, at `x`.
pub open spec fn lagrange<F: FieldElement>(nodes: Seq<F>, i: int, x: F) -> F {
    others_product(nodes, i, x).times(others_product(nodes, i, nodes[i]).recip())
}

/// A product of nonzero differences is nonzero, one with a zero difference is
/// zero.
pub proof fn others_product_zero<F: FieldElement>(nodes: Seq<F>, skipped: int, x: F)
    ensures
        others_product(nodes, skipped, x) == F::zero_elem() <==> exists|l: int|
            0 <= l < nodes.len() && l != skipped && x == #[trigger] nodes[l],
    decreases nodes.len(),
{
    if nodes.len() == 0 {
        F::one_is_not_zero();
    } else {
        let last = nodes.len() - 1;
        let front = nodes.drop_last();
        others_product_zero(front, skipped, x);
        no_zero_divisors(others_product(front, skipped, x), x.plus(nodes.last()));
        plus_is_zero(x, nodes.last());
        assert(nodes.last() == nodes[last]);
        if exists|l: int| 0 <= l < front.len() && l != skipped && x == #[trigger] front[l] {
            let l = choose|l: int|
                0 <= l < front.len() && l != skipped && x == #[trigger] front[l];
            assert(nodes[l] == x);
        }
        if exists|l: int| 0 <= l < nodes.len() && l != skipped && x == #[trigger] nodes[l] {
            let l = choose|l: int|
                0 <= l < nodes.len() && l != skipped && x == #[trigger] nodes[l];
            if l != last {
                assert(front[l] == x);
            }
        }
    }
}

/// Over distinct nodes the weights of a divided difference are invertible.
pub proof fn others_product_nonzero<F: FieldElement>(nodes: Seq<F>, i: int)
    requires
        distinct(nodes),
        0 <= i < nodes.len(),
    ensures
        others_product(nodes, i, nodes[i]) != F::zero_elem(),
{
    others_product_zero(nodes, i, nodes[i]);
}

/// Skipping an index outside the sequence skips nothing.
pub proof fn others_product_all<F: FieldElement>(nodes: Seq<F>, skipped: int, x: F)
    requires
        skipped < 0 || skipped >= nodes.len(),
    ensures
        others_product(nodes, skipped, x) == root_product(nodes, x),
    decreases nodes.len(),
{
    if nodes.len() > 0 {
        others_product_all(nodes.drop_last(), skipped, x);
    }
}

/// The skipped factor completes the product.
pub proof fn others_product_complete<F: FieldElement>(nodes: Seq<F>, i: int, x: F)
    requires
        0 <= i < nodes.len(),
    ensures
        root_product(nodes, x) == others_product(nodes, i, x).times(x.plus(nodes[i])),
    decreases nodes.len(),
{
    let front = nodes.drop_last();
    if i == nodes.len() - 1 {
        others_product_all(front, i, x);
    } else {
        others_product_complete(front, i, x);
        assert(front[i] == nodes[i]);
        let p = others_product(front, i, x);
        let a = x.plus(nodes[i]);
        let b = x.plus(nodes.last());
        F::times_associates(p, a, b);
        F::times_commutes(a, b);
        F::times_associates(p, b, a);
    }
}

/// The first factor can be split off.
pub proof fn others_product_first<F: FieldElement>(nodes: Seq<F>, skipped: int, x: F)
    requires
        nodes.len() > 0,
        skipped != 0,
    ensures
        others_product(nodes, skipped, x) == others_product(
            nodes.drop_first(),
            skipped - 1,
            x,
        ).times(x.plus(nodes[0])),
    decreases nodes.len(),
{
    let rest = nodes.drop_first();
    let front = nodes.drop_last();
    if nodes.len() == 1 {
        assert(others_product(front, skipped, x) == F::one_elem());
        assert(others_product(rest, skipped - 1, x) == F::one_elem());
    } else {
        others_product_first(front, skipped, x);
        assert(front.drop_first() =~= rest.drop_last());
        assert(front[0] == nodes[0]);
        assert(rest.last() == nodes.last());
        let p = others_product(rest.drop_last(), skipped - 1, x);
        let a = x.plus(nodes[0]);
        let b = x.plus(nodes.last());
        if nodes.len() - 1 != skipped {
            F::times_associates(p, a, b);
            F::times_commutes(a, b);
            F::times_associates(p, b, a);
        }
    }
}

pub proof fn difference_plus<F: FieldElement>(
    nodes: Seq<F>,
    f: spec_fn(F) -> F,
    g: spec_fn(F) -> F,
)
    ensures
        divided_difference(nodes, |x: F| f(x).plus(g(x))) == divided_difference(nodes, f).plus(
            divided_difference(nodes, g),
        ),
{
    let h = |x: F| f(x).plus(g(x));
    let n = nodes.len() as int;
    let tf = |i: int| difference_term(nodes, f, i);
    let tg = |i: int| difference_term(nodes, g, i);
    let th = |i: int| difference_term(nodes, h, i);
    let both = |i: int| tf(i).plus(tg(i));
    assert forall|i: int| 0 <= i < n implies #[trigger] th(i) == both(i) by {
        plus_times(f(nodes[i]), g(nodes[i]), others_product(nodes, i, nodes[i]).recip());
    }
    sum_congruent(th, both, n);
    sum_plus(tf, tg, n);
}

pub proof fn difference_scale<F: FieldElement>(nodes: Seq<F>, c: F, f: spec_fn(F) -> F)
    ensures
        divided_difference(nodes, |x: F| c.times(f(x))) == c.times(divided_difference(nodes, f)),
{
    let h = |x: F| c.times(f(x));
    let n = nodes.len() as int;
    let tf = |i: int| difference_term(nodes, f, i);
    let th = |i: int| difference_term(nodes, h, i);
    let scaled = |i: int| c.times(tf(i));
    assert forall|i: int| 0 <= i < n implies #[trigger] th(i) == scaled(i) by {
        F::times_associates(c, f(nodes[i]), others_product(nodes, i, nodes[i]).recip());
    }
    sum_congruent(th, scaled, n);
    sum_scale(c, tf, n);
}

pub proof fn difference_congruent<F: FieldElement>(
    nodes: Seq<F>,
    f: spec_fn(F) -> F,
    g: spec_fn(F) -> F,
)
    requires
        forall|i: int| 0 <= i < nodes.len() ==> f(#[trigger] nodes[i]) == g(nodes[i]),
    ensures
        divided_difference(nodes, f) == divided_difference(nodes, g),
{
    let tf = |i: int| difference_term(nodes, f, i);
    let tg = |i: int| difference_term(nodes, g, i);
    assert forall|i: int| 0 <= i < nodes.len() implies #[trigger] tf(i) == tg(i) by {
        assert(f(nodes[i]) == g(nodes[i]));
    }
    sum_congruent(tf, tg, nodes.len() as int);
}

/// `(v * d) / (w * d) = v / w`.
proof fn cancel_factor<F: FieldElement>(v: F, w: F, d: F)
    requires
        d != F::zero_elem(),
    ensures
        v.times(d).times(w.times(d).recip()) == v.times(w.recip()),
{
    recip_of_product(w, d);
    times_swap_inner(v, d, w.recip(), d.recip());
    F::times_recip(d);
    F::times_identity(v.times(w.recip()));
}

/// A factor that vanishes at the last node removes it.
pub proof fn difference_drop_last<F: FieldElement>(nodes: Seq<F>, f: spec_fn(F) -> F)
    requires
        distinct(nodes),
        nodes.len() > 0,
    ensures
        divided_difference(nodes, |x: F| f(x).times(x.plus(nodes.last()))) == divided_difference(
            nodes.drop_last(),
            f,
        ),
{
    let n = nodes.len() as int;
    let last = nodes.last();
    let front = nodes.drop_last();
    let h = |x: F| f(x).times(x.plus(last));
    let th = |i: int| difference_term(nodes, h, i);
    let tf = |i: int| difference_term(front, f, i);
    assert(th(n - 1) == F::zero_elem()) by {
        F::plus_cancels(last);
        times_zero(f(last));
        left_identities(others_product(nodes, n - 1, last).recip());
    }
    assert forall|i: int| 0 <= i < n - 1 implies #[trigger] th(i) == tf(i) by {
        let p = nodes[i];
        assert(front[i] == p);
        plus_is_zero(p, last);
        assert(nodes[n - 1] == last);
        cancel_factor(f(p), others_product(front, i, p), p.plus(last));
    }
    sum_congruent(th, tf, n - 1);
    F::plus_identity(sum(th, n - 1));
}

/// A factor that vanishes at the first node removes it.
pub proof fn difference_drop_first<F: FieldElement>(nodes: Seq<F>, f: spec_fn(F) -> F)
    requires
        distinct(nodes),
        nodes.len() > 0,
    ensures
        divided_difference(nodes, |x: F| f(x).times(x.plus(nodes[0]))) == divided_difference(
            nodes.drop_first(),
            f,
        ),
{
    let n = nodes.len() as int;
    let first = nodes[0];
    let rest = nodes.drop_first();
    let h = |x: F| f(x).times(x.plus(first));
    let th = |i: int| difference_term(nodes, h, i);
    let shifted = |i: int| th(i + 1);
    let tf = |i: int| difference_term(rest, f, i);
    sum_first(th, n);
    assert(th(0) == F::zero_elem()) by {
        F::plus_cancels(first);
        times_zero(f(first));
        left_identities(others_product(nodes, 0, first).recip());
    }
    assert forall|i: int| 0 <= i < n - 1 implies #[trigger] shifted(i) == tf(i) by {
        let p = nodes[i + 1];
        assert(rest[i] == p);
        plus_is_zero(p, first);
        others_product_first(nodes, i + 1, p);
        cancel_factor(f(p), others_product(rest, i, p), p.plus(first));
    }
    sum_congruent(shifted, tf, n - 1);
    left_identities(sum(shifted, n - 1));
}

/// The weights of a divided difference over two or more nodes sum to zero.
pub proof fn difference_of_one<F: FieldElement>(nodes: Seq<F>)
    requires
        distinct(nodes),
        nodes.len() >= 2,
    ensures
        divided_difference(nodes, |x: F| F::one_elem()) == F::zero_elem(),
    decreases nodes.len(),
{
    let one = |x: F| F::one_elem();
    let n = nodes.len() as int;
    let first = nodes[0];
    let last = nodes.last();
    assert(nodes[n - 1] == last);
    if n == 2 {
        let t = |i: int| difference_term(nodes, one, i);
        let front = nodes.drop_last();
        assert(front.drop_last().len() == 0);
        assert(front.last() == first);
        left_identities(first.plus(last));
        left_identities(last.plus(first));
        assert(others_product(front.drop_last(), 0, first) == F::one_elem());
        assert(others_product(front, 0, first) == F::one_elem());
        assert(others_product(nodes, 0, first) == first.plus(last));
        assert(others_product(front.drop_last(), 1, last) == F::one_elem());
        assert(others_product(front, 1, last) == F::one_elem().times(last.plus(first)));
        assert(others_product(nodes, 1, last) == last.plus(first));
        F::plus_commutes(first, last);
        assert(t(0) == t(1));
        assert(sum(t, 2) == sum(t, 1).plus(t(1)));
        assert(sum(t, 1) == sum(t, 0).plus(t(0)));
        left_identities(t(0));
        F::plus_cancels(t(0));
    } else {
        let rest = nodes.drop_first();
        let front = nodes.drop_last();
        assert(distinct(rest)) by {
            assert forall|i: int, j: int|
                0 <= i < rest.len() && 0 <= j < rest.len() && i != j implies #[trigger] rest[i]
                != #[trigger] rest[j] by {
                assert(nodes[i + 1] != nodes[j + 1]);
            }
        }
        difference_of_one(rest);
        difference_of_one(front);
        let by_last = |x: F| one(x).times(x.plus(last));
        let by_first = |x: F| one(x).times(x.plus(first));
        difference_drop_last(nodes, one);
        difference_drop_first(nodes, one);
        difference_congruent(front, one, |x: F| F::one_elem());
        difference_congruent(rest, one, |x: F| F::one_elem());
        difference_plus(nodes, by_last, by_first);
        let both = |x: F| by_last(x).plus(by_first(x));
        let gap = first.plus(last);
        let scaled = |x: F| gap.times(one(x));
        assert forall|i: int| 0 <= i < n implies both(#[trigger] nodes[i]) == scaled(nodes[i]) by {
            let x = nodes[i];
            left_identities(x.plus(last));
            left_identities(x.plus(first));
            F::times_identity(gap);
            plus_swap_inner(x, last, x, first);
            F::plus_cancels(x);
            left_identities(last.plus(first));
            F::plus_commutes(last, first);
        }
        difference_congruent(nodes, both, scaled);
        difference_scale(nodes, gap, one);
        F::plus_identity(F::zero_elem());
        plus_is_zero(first, last);
        no_zero_divisors(gap, divided_difference(nodes, one));
        difference_congruent(nodes, one, |x: F| F::one_elem());
    }
}

/// Multiplying by `x + c` raises the degree by at most one.
pub proof fn degree_times_linear<F: FieldElement>(f: spec_fn(F) -> F, bound: int, c: F)
    requires
        degree_below(f, bound),
        bound >= 1,
    ensures
        degree_below(|x: F| f(x).times(x.plus(c)), bound + 1),
{
    let h = |x: F| f(x).times(x.plus(c));
    assert forall|nodes: Seq<F>|
        distinct(nodes) && nodes.len() > bound + 1 && nodes.len()
            >= 2 implies #[trigger] divided_difference(nodes, h) == F::zero_elem() by {
        let last = nodes.last();
        let front = nodes.drop_last();
        let gap = last.plus(c);
        let by_last = |x: F| f(x).times(x.plus(last));
        let by_gap = |x: F| gap.times(f(x));
        let both = |x: F| by_last(x).plus(by_gap(x));
        assert forall|i: int| 0 <= i < nodes.len() implies h(#[trigger] nodes[i]) == both(
            nodes[i],
        ) by {
            let x = nodes[i];
            F::times_commutes(gap, f(x));
            F::times_distributes(f(x), x.plus(last), gap);
            F::plus_associates(x, last, gap);
            plus_undoes(last, c);
        }
        difference_congruent(nodes, h, both);
        difference_plus(nodes, by_last, by_gap);
        difference_drop_last(nodes, f);
        difference_scale(nodes, gap, f);
        assert(divided_difference(front, f) == F::zero_elem());
        assert(divided_difference(nodes, f) == F::zero_elem());
        times_zero(gap);
        F::plus_identity(F::zero_elem());
    }
}

/// A product of `d` linear factors has degree `d`.
pub proof fn degree_of_roots<F: FieldElement>(roots: Seq<F>)
    ensures
        degree_below(|x: F| root_product(roots, x), roots.len() as int + 1),
    decreases roots.len(),
{
    let h = |x: F| root_product(roots, x);
    if roots.len() == 0 {
        assert forall|nodes: Seq<F>|
            distinct(nodes) && nodes.len() > 1 && nodes.len()
                >= 2 implies #[trigger] divided_difference(nodes, h) == F::zero_elem() by {
            difference_of_one(nodes);
            difference_congruent(nodes, h, |x: F| F::one_elem());
        }
    } else {
        let front = roots.drop_last();
        degree_of_roots(front);
        let f = |x: F| root_product(front, x);
        let c = roots.last();
        degree_times_linear(f, front.len() as int + 1, c);
        let g = |x: F| f(x).times(x.plus(c));
        assert forall|nodes: Seq<F>|
            distinct(nodes) && nodes.len() > roots.len() + 1 && nodes.len()
                >= 2 implies #[trigger] divided_difference(nodes, h) == F::zero_elem() by {
            difference_congruent(nodes, h, g);
            assert(divided_difference(nodes, g) == F::zero_elem());
        }
    }
}

/// A scaled polynomial keeps its degree.
pub proof fn degree_scale<F: FieldElement>(c: F, f: spec_fn(F) -> F, bound: int)
    requires
        degree_below(f, bound),
    ensures
        degree_below(|x: F| c.times(f(x)), bound),
{
    let h = |x: F| c.times(f(x));
    assert forall|nodes: Seq<F>|
        distinct(nodes) && nodes.len() > bound && nodes.len()
            >= 2 implies #[trigger] divided_difference(nodes, h) == F::zero_elem() by {
        difference_scale(nodes, c, f);
        assert(divided_difference(nodes, f) == F::zero_elem());
        times_zero(c);
    }
}

/// A sum of polynomials has no larger degree.
pub proof fn degree_sum<F: FieldElement>(f: spec_fn(int, F) -> F, n: int, bound: int)
    requires
        forall|j: int| 0 <= j < n ==> degree_below(#[trigger] slice(f, j), bound),
    ensures
        degree_below(|x: F| sum(|j: int| f(j, x), n), bound),
    decreases n,
{
    let h = |x: F| sum(|j: int| f(j, x), n);
    assert forall|nodes: Seq<F>|
        distinct(nodes) && nodes.len() > bound && nodes.len()
            >= 2 implies #[trigger] divided_difference(nodes, h) == F::zero_elem() by {
        if n <= 0 {
            let t = |i: int| difference_term(nodes, h, i);
            assert forall|i: int| 0 <= i < nodes.len() implies #[trigger] t(i)
                == F::zero_elem() by {
                left_identities(others_product(nodes, i, nodes[i]).recip());
            }
            sum_of_zeros(t, nodes.len() as int);
        } else {
            degree_sum(f, n - 1, bound);
            let shorter = |x: F| sum(|j: int| f(j, x), n - 1);
            let last = slice(f, n - 1);
            let both = |x: F| shorter(x).plus(last(x));
            assert forall|i: int| 0 <= i < nodes.len() implies h(#[trigger] nodes[i]) == both(
                nodes[i],
            ) by {
                let g = |j: int| f(j, nodes[i]);
                assert(sum(g, n) == sum(g, n - 1).plus(g(n - 1)));
            }
            difference_congruent(nodes, h, both);
            difference_plus(nodes, shorter, last);
            assert(divided_difference(nodes, shorter) == F::zero_elem());
            assert(divided_difference(nodes, last) == F::zero_elem());
            F::plus_identity(F::zero_elem());
        }
    }
}

/// The function `x -> f(j, x)`.
pub open spec fn slice<F: FieldElement>(f: spec_fn(int, F) -> F, j: int) -> spec_fn(F) -> F {
    |x: F| f(j, x)
}

/// A larger bound is weaker.
pub proof fn degree_weaken<F: FieldElement>(f: spec_fn(F) -> F, bound: int, larger: int)
    requires
        degree_below(f, bound),
        bound <= larger,
    ensures
        degree_below(f, larger),
{
}

/// At its own node a Lagrange basis polynomial is one, at the others zero.
pub proof fn lagrange_at_node<F: FieldElement>(nodes: Seq<F>, i: int, j: int)
    requires
        distinct(nodes),
        0 <= i < nodes.len(),
        0 <= j < nodes.len(),
    ensures
        lagrange(nodes, i, nodes[j]) == if i == j {
            F::one_elem()
        } else {
            F::zero_elem()
        },
{
    if i == j {
        others_product_nonzero(nodes, i);
        F::times_recip(others_product(nodes, i, nodes[i]));
    } else {
        others_product_zero(nodes, i, nodes[j]);
        left_identities(others_product(nodes, i, nodes[i]).recip());
    }
}

/// A vanishing divided difference over the nodes and one further point
/// expresses the value there by the values at the nodes.
pub proof fn difference_isolates_last<F: FieldElement>(nodes: Seq<F>, z: F, f: spec_fn(F) -> F)
    requires
        distinct(nodes.push(z)),
        divided_difference(nodes.push(z), f) == F::zero_elem(),
    ensures
        f(z).times(root_product(nodes, z).recip()) == sum(
            |i: int|
                f(nodes[i]).times(
                    others_product(nodes, i, nodes[i]).times(nodes[i].plus(z)).recip(),
                ),
            nodes.len() as int,
        ),
{
    let n = nodes.len() as int;
    let all = nodes.push(z);
    let t = |i: int| difference_term(all, f, i);
    let g = |i: int|
        f(nodes[i]).times(others_product(nodes, i, nodes[i]).times(nodes[i].plus(z)).recip());
    assert(all.drop_last() =~= nodes);
    assert forall|i: int| 0 <= i < n implies #[trigger] t(i) == g(i) by {
        assert(all[i] == nodes[i]);
    }
    sum_congruent(t, g, n);
    others_product_all(nodes, n, z);
    assert(all[n] == z);
    assert(sum(t, n + 1) == sum(t, n).plus(t(n)));
    plus_is_zero(sum(t, n), t(n));
}

/// Interpolation is exact: a polynomial of degree below the number of nodes is
/// determined everywhere by its values at the nodes.
pub proof fn interpolation_is_exact<F: FieldElement>(nodes: Seq<F>, f: spec_fn(F) -> F, z: F)
    requires
        distinct(nodes),
        nodes.len() > 0,
        degree_below(f, nodes.len() as int),
    ensures
        f(z) == sum(
            |i: int| f(nodes[i]).times(lagrange(nodes, i, z)),
            nodes.len() as int,
        ),
{
    let n = nodes.len() as int;
    let h = |i: int| f(nodes[i]).times(lagrange(nodes, i, z));
    if exists|j: int| 0 <= j < n && #[trigger] nodes[j] == z {
        let j = choose|j: int| 0 <= j < n && #[trigger] nodes[j] == z;
        assert forall|i: int| 0 <= i < n && i != j implies #[trigger] h(i)
            == F::zero_elem() by {
            lagrange_at_node(nodes, i, j);
            times_zero(f(nodes[i]));
        }
        sum_single(h, n, j);
        lagrange_at_node(nodes, j, j);
        F::times_identity(f(z));
    } else {
        let all = nodes.push(z);
        assert(distinct(all)) by {
            assert forall|i: int, j: int|
                0 <= i < all.len() && 0 <= j < all.len() && i != j implies #[trigger] all[i]
                != #[trigger] all[j] by {
                if i < n && j < n {
                    assert(nodes[i] != nodes[j]);
                } else if i < n {
                    assert(nodes[i] != z);
                } else {
                    assert(nodes[j] != z);
                }
            }
        }
        difference_isolates_last(nodes, z, f);
        let w = root_product(nodes, z);
        let g = |i: int|
            f(nodes[i]).times(others_product(nodes, i, nodes[i]).times(nodes[i].plus(z)).recip());
        others_product_all(nodes, n, z);
        others_product_zero(nodes, n, z);
        let scaled = |i: int| w.times(g(i));
        assert forall|i: int| 0 <= i < n implies #[trigger] h(i) == scaled(i) by {
            let p = nodes[i];
            let d = z.plus(p);
            let own = others_product(nodes, i, p);
            let away = others_product(nodes, i, z);
            others_product_complete(nodes, i, z);
            plus_is_zero(z, p);
            F::plus_commutes(p, z);
            // w * (f / (own * d)) = f * (away * d) / (own * d) = f * (away / own)
            let r = own.times(d).recip();
            F::times_commutes(w, f(p).times(r));
            F::times_associates(f(p), r, w);
            F::times_commutes(r, w);
            cancel_factor(away, own, d);
        }
        sum_congruent(h, scaled, n);
        sum_scale(w, g, n);
        F::times_commutes(w, f(z).times(w.recip()));
        F::times_associates(f(z), w.recip(), w);
        times_undoes(w, f(z));
        F::times_identity(f(z));
    }
}

} // verus!
