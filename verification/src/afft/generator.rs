//! Generator rows for targeted recovery.

use vstd::prelude::*;

use crate::afft::field::{generator_generates, group_order, Field};
use crate::afft::locator::{domain_points_differ, ErasureLocator};
use crate::afft::tables::LogExpTables;
use crate::afft::transform::TransformPlan;
use crate::algebra::domains::{span_point, span_size};
use crate::algebra::evaluation_code::{
    erasure_product, erasure_product_nonzero, first_points, points_differ,
};
use crate::algebra::field::{plus_is_zero, recip_of_product, FieldElement};
use crate::algebra::interpolation::{
    lagrange, others_product, others_product_all, others_product_complete, root_product,
};
use crate::algebra::logarithms::{logarithm_facts, power_of_quotient};
use crate::algebra::powers::power;

verus! {

/// The points before `count` are erased, the rest known.
pub open spec fn systematic_pattern(count: int) -> spec_fn(int) -> bool {
    |i: int| i >= count
}

/// Over the systematic pattern the erasure product is a product over the first
/// points.
pub proof fn systematic_product<F: FieldElement>(
    point: spec_fn(int) -> F,
    count: int,
    x: int,
    n: int,
)
    requires
        0 <= count <= n,
        0 <= x,
    ensures
        erasure_product(point, systematic_pattern(count), x, n) == others_product(
            first_points(point, count),
            x,
            point(x),
        ),
    decreases n,
{
    if n > count {
        systematic_product(point, count, x, n - 1);
    } else if n > 0 {
        let nodes = first_points(point, count);
        let front = first_points(point, count - 1);
        assert(nodes.drop_last() =~= front);
        assert(nodes.last() == point(count - 1));
        shorter_systematic_product(point, count, count - 1, x);
    }
}

/// The product over the first `n` of the erased points.
proof fn shorter_systematic_product<F: FieldElement>(
    point: spec_fn(int) -> F,
    count: int,
    n: int,
    x: int,
)
    requires
        0 <= n <= count,
        0 <= x,
    ensures
        erasure_product(point, systematic_pattern(count), x, n) == others_product(
            first_points(point, n),
            x,
            point(x),
        ),
    decreases n,
{
    if n > 0 {
        shorter_systematic_product(point, count, n - 1, x);
        let nodes = first_points(point, n);
        assert(nodes.drop_last() =~= first_points(point, n - 1));
        assert(nodes.last() == point(n - 1));
    }
}

/// Coefficients expressing the evaluation at `point` as a combination of the
/// evaluations at the systematic points `0..row.len()`.
///
/// This is Lagrange interpolation with the locator of the systematic points:
/// `row[d]` is its value at `point`, divided by `point + d` and by its
/// derivative at `d`. Computed in exponents, so a row costs table lookups and
/// no field multiplications or inversions.
pub fn generator_row<F: Field>(
    plan: &TransformPlan<F>,
    tables: &LogExpTables<F>,
    locator: &ErasureLocator<F>,
    point: usize,
    row: &mut [F],
)
    requires
        plan.valid(),
        tables.valid(),
        old(row)@.len() <= point < plan.domain(),
        locator.locates(plan.ordered_basis(), systematic_pattern(old(row)@.len() as int)),
    ensures
        final(row)@.len() == old(row)@.len(),
        forall|d: int|
            0 <= d < final(row)@.len() ==> #[trigger] final(row)@[d] == lagrange(
                first_points(plan.points(), final(row)@.len() as int),
                d,
                (plan.points())(point as int),
            ),
{
    let ghost basis = plan.ordered_basis();
    let ghost places = |j: int| span_point(basis, j);
    let count: usize = row.len();
    let ghost size = plan.domain();
    let ghost pattern = systematic_pattern(count as int);
    let ghost nodes = first_points(places, count as int);
    let ghost g = F::generator_elem();
    let ghost n = group_order::<F>();
    let modulus: u32 = tables.order();
    let numerator: u32 = tables.log(locator.values()[point]);
    let element = plan.point_element(point);
    proof {
        assert(plan.points() =~= places);
        generator_generates::<F>();
        domain_points_differ(basis);
        systematic_product(places, count as int, point as int, size);
        others_product_all(nodes, point as int, places(point as int));
        erasure_product_nonzero(places, pattern, point as int, size, size);
        order_is_small::<F>();
        assert(pattern(point as int));
        assert(locator.value_table()[point as int] == erasure_product(
            places,
            pattern,
            point as int,
            size,
        ));
        logarithm_facts(g, n, locator.value_table()[point as int]);
    }
    let mut d: usize = 0;
    while d < count
        invariant
            d <= count,
            count == row@.len(),
            count == old(row)@.len(),
            plan.valid(),
            tables.valid(),
            locator.locates(basis, pattern),
            basis == plan.ordered_basis(),
            size == plan.domain(),
            places == (|j: int| span_point(basis, j)),
            pattern == systematic_pattern(count as int),
            nodes == first_points(places, count as int),
            count <= point < size,
            points_differ(places, size),
            g == F::generator_elem(),
            n == group_order::<F>(),
            crate::algebra::logarithms::generates(g, n),
            modulus == n,
            0 < n <= 0xffff,
            numerator < n,
            element == places(point as int),
            power(g, numerator as nat) == root_product(nodes, places(point as int)),
            forall|j: int|
                0 <= j < d ==> #[trigger] row@[j] == lagrange(nodes, j, places(point as int)),
        decreases count - d,
    {
        let gap = element.add_value(plan.point_element(d));
        let difference: u32 = tables.log(gap);
        let derivative: u32 = tables.log(locator.derivatives()[d]);
        let ghost x = places(point as int);
        let ghost own = others_product(nodes, d as int, places(d as int));
        proof {
            assert(places(point as int) != places(d as int));
            plus_is_zero(x, places(d as int));
            systematic_product(places, count as int, d as int, size);
            erasure_product_nonzero(places, pattern, d as int, size, size);
            assert(nodes[d as int] == places(d as int));
            logarithm_facts(g, n, gap);
            logarithm_facts(g, n, own);
            power_of_quotient(
                g,
                n,
                numerator as nat,
                difference as nat,
                derivative as nat,
            );
            others_product_complete(nodes, d as int, x);
            let away = others_product(nodes, d as int, x);
            // (away * gap) / (gap * own) = away / own
            recip_of_product(gap, own);
            let r = gap.recip();
            F::times_associates(away, gap, r.times(own.recip()));
            F::times_associates(gap, r, own.recip());
            F::times_recip(gap);
            crate::algebra::field::left_identities(own.recip());
        }
        let exponent: u32 = (numerator + 2 * modulus - difference - derivative) % modulus;
        row[d] = tables.exp(exponent);
        d += 1;
    }
    proof {
        assert(plan.points() =~= places);
    }
}

/// The group order fits sixteen bits.
pub proof fn order_is_small<F: Field>()
    ensures
        0 < group_order::<F>() <= 0xffff,
{
    F::bits_are_few();
    crate::algebra::domains::span_size_grows(F::bits(), 16);
    crate::algebra::domains::span_size_grows(1, F::bits());
    assert(span_size(16) == 65536 && span_size(1) == 2) by {
        reveal_with_fuel(span_size, 17);
    }
}

} // verus!
