//! Additive evaluation domains: every sum of the elements of an ordered basis.

use vstd::prelude::*;

use crate::algebra::field::FieldElement;
use crate::algebra::interpolation::distinct;

verus! {

/// Number of points that `dimension` basis elements span.
pub open spec fn span_size(dimension: nat) -> nat
    decreases dimension,
{
    if dimension == 0 {
        1
    } else {
        2 * span_size((dimension - 1) as nat)
    }
}

/// Point `i` of the domain: the sum of the basis elements at the set bits of
/// `i`.
pub open spec fn span_point<F: FieldElement>(basis: Seq<F>, i: int) -> F
    decreases basis.len(),
{
    if basis.len() == 0 {
        F::zero_elem()
    } else {
        let front = basis.drop_last();
        let half = span_size(front.len());
        if i >= half {
            span_point(front, i - half).plus(basis.last())
        } else {
            span_point(front, i)
        }
    }
}

/// All points of the domain, in order.
pub open spec fn span_points<F: FieldElement>(basis: Seq<F>) -> Seq<F> {
    Seq::new(span_size(basis.len()), |i: int| span_point(basis, i))
}

/// No two sums of basis elements are equal.
pub open spec fn independent<F: FieldElement>(basis: Seq<F>) -> bool {
    distinct(span_points(basis))
}

/// A span has at least one point, and doubles with every basis element.
pub proof fn span_size_grows(small: nat, large: nat)
    requires
        small <= large,
    ensures
        1 <= span_size(small) <= span_size(large),
        small < large ==> 2 * span_size(small) <= span_size(large),
    decreases large,
{
    if small < large {
        span_size_grows(small, (large - 1) as nat);
    } else if small > 0 {
        span_size_grows((small - 1) as nat, (small - 1) as nat);
    }
}

/// Spans of different dimensions have different sizes.
pub proof fn span_size_is_injective(a: nat, b: nat)
    requires
        span_size(a) == span_size(b),
    ensures
        a == b,
{
    if a < b {
        span_size_grows(a, b);
    } else if b < a {
        span_size_grows(b, a);
    }
}

/// The first points of a domain are those of the domain of a shorter basis.
pub proof fn span_point_prefix<F: FieldElement>(basis: Seq<F>, short: nat, i: int)
    requires
        short <= basis.len(),
        0 <= i < span_size(short),
    ensures
        span_point(basis.subrange(0, short as int), i) == span_point(basis, i),
    decreases basis.len(),
{
    let prefix = basis.subrange(0, short as int);
    if short == basis.len() {
        assert(prefix =~= basis);
    } else {
        let front = basis.drop_last();
        span_size_grows(short, front.len());
        span_point_prefix(front, short, i);
        assert(front.subrange(0, short as int) =~= prefix);
    }
}

} // verus!
