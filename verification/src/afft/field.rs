//! The fields the additive transforms run over.

use vstd::prelude::*;

use crate::afft::transform::{
    derives, evaluates, evaluates_high_coset, evaluates_selected, interpolates, plan_fault,
    scratch_rows, table_inverts, table_is_singular, PlanError,
};
use crate::algebra::domains::{independent, span_point, span_points, span_size, span_size_grows};
use crate::algebra::generators::{has_order, powers_are_distinct};
use crate::algebra::index_lists::{
    distinct_list_count, indices_where, indices_where_complement, indices_where_facts,
};
use crate::algebra::interpolation::distinct;
use crate::algebra::logarithms::{generates, is_power};
use crate::algebra::powers::{power, power_nonzero};
use crate::codec::Engine;
use crate::payload::RowCombiner;
use crate::symbols::{lane, lane_count, whole_lanes};

verus! {

/// Fields this engine can code over.
///
/// An element is identified with an integer, its bit pattern; adding a power of
/// two to a smaller pattern adds the elements.
pub trait Field: RowCombiner {
    /// Extension degree over GF(2).
    spec fn bits() -> nat;

    /// The additive-transform engine over this field.
    spec fn engine_spec() -> Engine;

    /// The element with the given bit pattern.
    spec fn of_raw(pattern: int) -> Self;

    /// The bit pattern of an element.
    spec fn raw(self) -> int;

    /// A generator of the multiplicative group.
    spec fn generator_elem() -> Self;

    proof fn bits_are_few()
        ensures
            2 <= Self::bits() <= 16,
    ;

    /// Elements and bit patterns correspond.
    proof fn patterns_are_elements(x: Self, pattern: int)
        ensures
            0 <= x.raw() < span_size(Self::bits()),
            Self::of_raw(x.raw()) == x,
            0 <= pattern < span_size(Self::bits()) ==> Self::of_raw(pattern).raw() == pattern,
            Self::of_raw(0) == Self::zero_elem(),
    ;

    /// A pattern with one more bit set is the sum of its parts.
    proof fn patterns_add(bit: nat, pattern: int)
        requires
            bit < Self::bits(),
            0 <= pattern < span_size(bit),
        ensures
            Self::of_raw(pattern + span_size(bit)) == Self::of_raw(pattern).plus(
                Self::of_raw(span_size(bit) as int),
            ),
    ;

    /// The generator has full order.
    proof fn generator_has_order()
        ensures
            has_order(Self::generator_elem(), (span_size(Self::bits()) - 1) as nat),
    ;

    /// Largest evaluation domain, and so the largest `k + m`.
    ///
    /// Fixed by the field: a domain point is a distinct field element.
    fn max_transform_size() -> (r: usize)
        ensures
            r == span_size(Self::bits()),
    ;

    fn raw_value(self) -> (r: usize)
        ensures
            r == self.raw(),
    ;

    fn generator_value() -> (r: Self)
        ensures
            r == Self::generator_elem(),
    ;

    /// The basis of a domain of `size` points: the elements with one bit set.
    fn bit_basis(size: usize) -> (r: Result<Vec<Self>, PlanError>)
        ensures
            match r {
                Ok(basis) => plan_fault(size as int, Self::bits()) is None && size == span_size(
                    basis@.len(),
                ) && forall|j: int|
                    0 <= j < basis@.len() ==> #[trigger] basis@[j] == Self::of_raw(
                        span_size(j as nat) as int,
                    ),
                Err(error) => plan_fault(size as int, Self::bits()) == Some(error),
            },
    ;

    /// The basis of a domain of `size` points, taken from `basis`.
    fn custom_basis(size: usize, basis: &[Self]) -> (r: Result<Vec<Self>, PlanError>)
        ensures
            match r {
                Ok(used) => plan_fault(size as int, Self::bits()) is None && size == span_size(
                    used@.len(),
                ) && used@.len() <= basis@.len() && used@ == basis@.subrange(
                    0,
                    used@.len() as int,
                ) && independent(used@),
                Err(PlanError::BasisTooShort { needed, got }) => plan_fault(
                    size as int,
                    Self::bits(),
                ) is None && size == span_size(needed as nat) && got == basis@.len() && got
                    < needed,
                Err(PlanError::DependentBasis) => plan_fault(size as int, Self::bits()) is None
                    && exists|dimension: nat|
                    #![trigger span_size(dimension)]
                    size == span_size(dimension) && dimension <= basis@.len() && !independent(
                        basis@.subrange(0, dimension as int),
                    ),
                Err(error) => plan_fault(size as int, Self::bits()) == Some(error),
            },
    ;

    /// Temporary rows that [`Field::interpolate_truncated`] needs.
    fn truncated_scratch_rows(basis: &[Self], active: usize) -> (r: usize)
        requires
            independent(basis@),
            basis@.len() <= Self::bits(),
            1 <= active <= span_size(basis@.len()),
        ensures
            r == scratch_rows(span_size(basis@.len()) as int, active as int),
    ;

    /// Replaces the first `active` rows, values at the first domain points, by
    /// the coefficients of the polynomial through them.
    fn interpolate_truncated(
        basis: &[Self],
        rows: &mut [u8],
        row_len: usize,
        active: usize,
        scratch: &mut [u8],
    )
        requires
            independent(basis@),
            basis@.len() <= Self::bits(),
            row_len > 0,
            whole_lanes::<Self>(row_len as int),
            old(rows)@.len() == span_size(basis@.len()) * row_len,
            1 <= active <= span_size(basis@.len()),
            old(scratch)@.len() >= scratch_rows(span_size(basis@.len()) as int, active as int)
                * row_len,
        ensures
            interpolates(basis@, old(rows)@, final(rows)@, row_len as int, active as int),
            final(scratch)@.len() == old(scratch)@.len(),
    ;

    /// Replaces values at every domain point by the coefficients of the
    /// polynomial through them.
    fn interpolate_all(basis: &[Self], rows: &mut [u8], row_len: usize)
        requires
            independent(basis@),
            basis@.len() <= Self::bits(),
            row_len > 0,
            whole_lanes::<Self>(row_len as int),
            old(rows)@.len() == span_size(basis@.len()) * row_len,
        ensures
            interpolates(
                basis@,
                old(rows)@,
                final(rows)@,
                row_len as int,
                span_size(basis@.len()) as int,
            ),
    ;

    /// Writes the coefficients of the formal derivative.
    fn differentiate(basis: &[Self], derivative: &mut [u8], row_len: usize, coefficients: &[u8])
        requires
            independent(basis@),
            basis@.len() <= Self::bits(),
            row_len > 0,
            whole_lanes::<Self>(row_len as int),
            old(derivative)@.len() == span_size(basis@.len()) * row_len,
            coefficients@.len() == span_size(basis@.len()) * row_len,
        ensures
            final(derivative)@.len() == old(derivative)@.len(),
            derives(basis@, coefficients@, final(derivative)@, row_len as int),
    ;

    /// Evaluates at the selected domain points. The other rows are left holding
    /// intermediate values.
    fn evaluate_selected(basis: &[Self], rows: &mut [u8], row_len: usize, selected: &[usize])
        requires
            independent(basis@),
            basis@.len() <= Self::bits(),
            row_len > 0,
            whole_lanes::<Self>(row_len as int),
            old(rows)@.len() == span_size(basis@.len()) * row_len,
            forall|t: int|
                0 <= t < selected@.len() ==> #[trigger] selected@[t] < span_size(basis@.len()),
            forall|s: int, t: int|
                0 <= s < t < selected@.len() ==> #[trigger] selected@[s] < #[trigger] selected@[t],
        ensures
            final(rows)@.len() == old(rows)@.len(),
            evaluates_selected(basis@, old(rows)@, final(rows)@, row_len as int, selected@),
    ;

    /// Evaluates a polynomial of `active` coefficients at the domain points
    /// from `start` to `end`. The other rows are left holding intermediate
    /// values.
    fn evaluate_range(
        basis: &[Self],
        rows: &mut [u8],
        row_len: usize,
        active: usize,
        start: usize,
        end: usize,
    )
        requires
            independent(basis@),
            basis@.len() <= Self::bits(),
            row_len > 0,
            whole_lanes::<Self>(row_len as int),
            old(rows)@.len() == span_size(basis@.len()) * row_len,
            active <= span_size(basis@.len()),
            start <= end <= span_size(basis@.len()),
            forall|i: int, e: int|
                active <= i < span_size(basis@.len()) && 0 <= e < lane_count::<Self>(
                    row_len as int,
                ) ==> #[trigger] lane::<Self>(old(rows)@, row_len as int, i, e)
                    == Self::zero_elem(),
        ensures
            final(rows)@.len() == old(rows)@.len(),
            evaluates(
                basis@,
                old(rows)@,
                final(rows)@,
                row_len as int,
                active as int,
                start as int,
                end as int,
            ),
    ;

    /// Evaluates a polynomial with half as many coefficients as the domain has
    /// points at the first `count` points of its upper half.
    fn evaluate_high_coset(basis: &[Self], rows: &mut [u8], row_len: usize, count: usize)
        requires
            independent(basis@),
            2 <= basis@.len() <= Self::bits(),
            row_len > 0,
            whole_lanes::<Self>(row_len as int),
            2 * old(rows)@.len() == span_size(basis@.len()) * row_len,
            2 * count <= span_size(basis@.len()),
        ensures
            final(rows)@.len() == old(rows)@.len(),
            evaluates_high_coset(
                basis@,
                old(rows)@,
                final(rows)@,
                row_len as int,
                count as int,
            ),
    ;

    /// Inverts a square matrix, row by row in one table.
    fn invert_table(system: &[Self], order: usize) -> (r: Option<Vec<Self>>)
        requires
            0 < order <= 65536,
            system@.len() == order * order,
        ensures
            match r {
                Some(inverse) => inverse@.len() == order * order && table_inverts(
                    system@,
                    inverse@,
                    order as int,
                ),
                None => table_is_singular(system@, order as int),
            },
    ;
}

/// The order of the multiplicative group.
pub open spec fn group_order<F: Field>() -> nat {
    (span_size(F::bits()) - 1) as nat
}

/// The elements with one bit set, lowest first.
pub open spec fn pattern_basis<F: Field>(dimension: nat) -> Seq<F> {
    Seq::new(dimension, |j: int| F::of_raw(span_size(j as nat) as int))
}

/// Over the elements with one bit set, point `i` has the bit pattern `i`.
pub proof fn pattern_point<F: Field>(dimension: nat, i: int)
    requires
        dimension <= F::bits(),
        0 <= i < span_size(dimension),
    ensures
        span_point(pattern_basis::<F>(dimension), i) == F::of_raw(i),
    decreases dimension,
{
    let basis = pattern_basis::<F>(dimension);
    if dimension == 0 {
        F::patterns_are_elements(F::zero_elem(), 0);
    } else {
        let front = (dimension - 1) as nat;
        let half = span_size(front);
        assert(basis.drop_last() =~= pattern_basis::<F>(front));
        assert(basis.last() == F::of_raw(half as int));
        if i >= half {
            pattern_point::<F>(front, i - half);
            F::patterns_add(front, i - half);
        } else {
            pattern_point::<F>(front, i);
        }
    }
}

/// Different patterns are different elements.
pub proof fn patterns_differ<F: Field>(i: int, j: int)
    requires
        0 <= i < span_size(F::bits()),
        0 <= j < span_size(F::bits()),
        i != j,
    ensures
        F::of_raw(i) != F::of_raw(j),
{
    F::patterns_are_elements(F::zero_elem(), i);
    F::patterns_are_elements(F::zero_elem(), j);
}

/// The elements with one bit set are independent.
pub proof fn pattern_basis_is_independent<F: Field>(dimension: nat)
    requires
        dimension <= F::bits(),
    ensures
        independent(pattern_basis::<F>(dimension)),
{
    let points = span_points(pattern_basis::<F>(dimension));
    span_size_grows(dimension, F::bits());
    assert forall|i: int, j: int|
        0 <= i < points.len() && 0 <= j < points.len() && i != j implies #[trigger] points[i]
        != #[trigger] points[j] by {
        pattern_point::<F>(dimension, i);
        pattern_point::<F>(dimension, j);
        patterns_differ::<F>(i, j);
    }
}

/// Every nonzero element is a power of the generator.
pub proof fn generator_generates<F: Field>()
    ensures
        generates(F::generator_elem(), group_order::<F>()),
{
    let g = F::generator_elem();
    let order = group_order::<F>();
    let size = span_size(F::bits()) as int;
    span_size_grows(0, F::bits());
    F::generator_has_order();
    crate::algebra::generators::order_nonzero(g, order);
    let list = Seq::new(order, |e: int| power(g, e as nat).raw());
    assert forall|e: int| 0 <= e < list.len() implies 0 < #[trigger] list[e] < size by {
        F::patterns_are_elements(power(g, e as nat), 0);
        power_nonzero(g, e as nat);
    }
    assert(distinct(list)) by {
        assert forall|i: int, j: int|
            0 <= i < list.len() && 0 <= j < list.len() && i != j implies #[trigger] list[i]
            != #[trigger] list[j] by {
            powers_are_distinct(g, order, i as nat, j as nat);
            F::patterns_are_elements(power(g, i as nat), 0);
            F::patterns_are_elements(power(g, j as nat), 0);
        }
    }
    distinct_list_count(list, size);
    let p = |i: int| list.contains(i);
    let q = |i: int| !p(i);
    indices_where_complement(p, size);
    indices_where_facts(q, size);
    let missed = indices_where(q, size);
    assert(missed.len() == 1);
    assert(!list.contains(0)) by {
        if list.contains(0) {
            let e = choose|e: int| 0 <= e < list.len() && list[e] == 0;
            assert(list[e] > 0);
        }
    }
    assert(q(0));
    assert(missed.contains(0));
    assert forall|x: F| x != F::zero_elem() implies #[trigger] is_power(g, order, x) by {
        F::patterns_are_elements(x, 0);
        let r = x.raw();
        if !list.contains(r) {
            assert(q(r));
            assert(missed.contains(r));
            let s = choose|s: int| 0 <= s < missed.len() && missed[s] == 0;
            let t = choose|t: int| 0 <= t < missed.len() && missed[t] == r;
            assert(s == t);
        }
        let e = choose|e: int| 0 <= e < list.len() && list[e] == r;
        F::patterns_are_elements(power(g, e as nat), 0);
        assert(power(g, e as nat) == x);
    }
}

} // verus!
