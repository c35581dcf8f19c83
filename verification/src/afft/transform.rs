//! Additive transform plans, and what the byte-row transforms compute.

use vstd::prelude::*;

use crate::afft::field::{pattern_basis, pattern_basis_is_independent, Field};
use crate::algebra::domains::{independent, span_point, span_size, span_size_is_injective};
use crate::algebra::field::FieldElement;
use crate::algebra::linear_code::unit;
use crate::algebra::novel_basis::{novel_slope, novel_value};
use crate::algebra::sums::sum;
use crate::symbols::{lane, lane_count};

verus! {

/// Why a transform plan cannot be built.
#[derive(Clone, Copy, Debug, PartialEq, Eq, Structural)]
pub enum PlanError {
    /// The size is zero or not a power of two.
    InvalidSize {
        /// The offending size.
        size: usize,
    },
    /// The domain has more points than the field has elements.
    DomainTooLarge {
        /// Base-two logarithm of the requested size.
        log_size: usize,
        /// The largest one.
        cap: usize,
    },
    /// Fewer basis elements than the domain has dimensions.
    BasisTooShort {
        /// Elements required.
        needed: usize,
        /// Elements supplied.
        got: usize,
    },
    /// A basis element is a sum of others.
    DependentBasis,
}

/// A buffer whose length does not fit the transform.
#[derive(Clone, Copy, Debug, PartialEq, Eq, Structural)]
pub struct TransformLengthError {
    /// The length required.
    pub expected: usize,
    /// The length supplied.
    pub got: usize,
}

/// `size` is a domain size of the given dimension.
pub open spec fn has_dimension(size: int, dimension: nat) -> bool {
    size == span_size(dimension)
}

/// Why a domain of `size` points does not exist in a field of `bits` bits.
pub open spec fn plan_fault(size: int, bits: nat) -> Option<PlanError> {
    if !exists|dimension: nat| has_dimension(size, dimension) {
        Some(PlanError::InvalidSize { size: size as usize })
    } else {
        let dimension = choose|dimension: nat| has_dimension(size, dimension);
        if dimension > bits {
            Some(PlanError::DomainTooLarge { log_size: dimension as usize, cap: bits as usize })
        } else {
            None
        }
    }
}

/// A domain of `2^dimension` points exists exactly if the field has that many
/// bits; otherwise the refusal names both.
pub proof fn domains_are_judged(dimension: nat, bits: nat)
    ensures
        plan_fault(span_size(dimension) as int, bits) is None <==> dimension <= bits,
        dimension > bits ==> plan_fault(span_size(dimension) as int, bits) == Some(
            PlanError::DomainTooLarge { log_size: dimension as usize, cap: bits as usize },
        ),
{
    let size = span_size(dimension) as int;
    assert(has_dimension(size, dimension));
    let found = choose|d: nat| has_dimension(size, d);
    span_size_is_injective(found, dimension);
}

/// A domain whose size is no power of two is refused with its size.
pub proof fn odd_domains_are_refused(size: int, bits: nat)
    requires
        0 <= size <= usize::MAX,
        forall|dimension: nat| #[trigger] span_size(dimension) != size,
    ensures
        plan_fault(size, bits) matches Some(PlanError::InvalidSize { size: refused }) && refused
            == size,
{
    if exists|dimension: nat| has_dimension(size, dimension) {
        let dimension = choose|dimension: nat| has_dimension(size, dimension);
        assert(span_size(dimension) == size);
    }
}

/// The lanes `e` of all rows, as coefficients or values.
pub open spec fn column<F: FieldElement>(
    rows: Seq<u8>,
    row_len: int,
    e: int,
) -> spec_fn(int) -> F {
    |i: int| lane::<F>(rows, row_len, i, e)
}

/// The first `active` rows of `after` are the coefficients of the polynomial
/// that takes the values in the first `active` rows of `before` at the first
/// domain points.
pub open spec fn interpolates<F: FieldElement>(
    basis: Seq<F>,
    before: Seq<u8>,
    after: Seq<u8>,
    row_len: int,
    active: int,
) -> bool {
    &&& after.len() == before.len()
    &&& forall|i: int, e: int|
        0 <= i < active && 0 <= e < lane_count::<F>(row_len) ==> #[trigger] lane::<F>(
            before,
            row_len,
            i,
            e,
        ) == novel_value(basis, column(after, row_len, e), active, span_point(basis, i))
}

/// The rows of `after` from `start` to `end` are the values of the polynomial
/// with coefficients `before` at those domain points.
pub open spec fn evaluates<F: FieldElement>(
    basis: Seq<F>,
    before: Seq<u8>,
    after: Seq<u8>,
    row_len: int,
    active: int,
    start: int,
    end: int,
) -> bool {
    forall|i: int, e: int|
        start <= i < end && 0 <= e < lane_count::<F>(row_len) ==> #[trigger] lane::<F>(
            after,
            row_len,
            i,
            e,
        ) == novel_value(basis, column(before, row_len, e), active, span_point(basis, i))
}

/// The selected rows of `after` are the values of the polynomial with
/// coefficients `before` at those domain points.
pub open spec fn evaluates_selected<F: FieldElement>(
    basis: Seq<F>,
    before: Seq<u8>,
    after: Seq<u8>,
    row_len: int,
    selected: Seq<usize>,
) -> bool {
    forall|t: int, e: int|
        0 <= t < selected.len() && 0 <= e < lane_count::<F>(row_len) ==> #[trigger] lane::<F>(
            after,
            row_len,
            selected[t] as int,
            e,
        ) == novel_value(
            basis,
            column(before, row_len, e),
            span_size(basis.len()) as int,
            span_point(basis, selected[t] as int),
        )
}

/// Row `i` of `after` is the value of the polynomial with coefficients `before`
/// at point `i` of the upper half of the domain.
pub open spec fn evaluates_high_coset<F: FieldElement>(
    basis: Seq<F>,
    before: Seq<u8>,
    after: Seq<u8>,
    row_len: int,
    count: int,
) -> bool {
    let half = span_size((basis.len() - 1) as nat) as int;
    forall|i: int, e: int|
        0 <= i < count && 0 <= e < lane_count::<F>(row_len) ==> #[trigger] lane::<F>(
            after,
            row_len,
            i,
            e,
        ) == novel_value(basis, column(before, row_len, e), half, span_point(basis, half + i))
}

/// `derivative` holds the coefficients of the formal derivative of the
/// polynomial with coefficients `coefficients`.
pub open spec fn derives<F: FieldElement>(
    basis: Seq<F>,
    coefficients: Seq<u8>,
    derivative: Seq<u8>,
    row_len: int,
) -> bool {
    let size = span_size(basis.len()) as int;
    forall|e: int, x: F|
        0 <= e < lane_count::<F>(row_len) ==> #[trigger] novel_value(
            basis,
            column(derivative, row_len, e),
            size,
            x,
        ) == novel_slope(basis, column(coefficients, row_len, e), size, x)
}

/// Rows of workspace for a truncated interpolation.
pub open spec fn scratch_rows(size: int, active: int) -> int
    decreases size,
{
    if size <= 1 || active >= size {
        0
    } else if active > size / 2 {
        size / 2
    } else {
        scratch_rows(size / 2, active)
    }
}

/// Entry of a square matrix stored row by row.
pub open spec fn entry<F: FieldElement>(table: Seq<F>, order: int, row: int, col: int) -> F {
    table[row * order + col]
}

/// The tables are two-sided inverses of each other.
pub open spec fn table_inverts<F: FieldElement>(
    system: Seq<F>,
    inverse: Seq<F>,
    order: int,
) -> bool {
    &&& forall|a: int, c: int|
        0 <= a < order && 0 <= c < order ==> #[trigger] table_product(
            inverse,
            system,
            order,
            a,
            c,
        ) == unit::<F>(a, c)
    &&& forall|a: int, c: int|
        0 <= a < order && 0 <= c < order ==> #[trigger] table_product(
            system,
            inverse,
            order,
            a,
            c,
        ) == unit::<F>(a, c)
}

/// Entry of the product of two tables.
pub open spec fn table_product<F: FieldElement>(
    left: Seq<F>,
    right: Seq<F>,
    order: int,
    a: int,
    c: int,
) -> F {
    sum(|b: int| entry(left, order, a, b).times(entry(right, order, b, c)), order)
}

/// Some nonzero vector is mapped to zero.
pub open spec fn table_is_singular<F: FieldElement>(system: Seq<F>, order: int) -> bool {
    exists|v: Seq<F>| #[trigger] in_kernel(system, order, v)
}

/// `v` is nonzero and mapped to zero.
pub open spec fn in_kernel<F: FieldElement>(system: Seq<F>, order: int, v: Seq<F>) -> bool {
    &&& v.len() == order
    &&& exists|c: int| 0 <= c < order && #[trigger] v[c] != F::zero_elem()
    &&& forall|a: int|
        0 <= a < order ==> #[trigger] table_row_times(system, order, a, v) == F::zero_elem()
}

/// Row `a` applied to `v`.
pub open spec fn table_row_times<F: FieldElement>(
    system: Seq<F>,
    order: int,
    a: int,
    v: Seq<F>,
) -> F {
    sum(|c: int| entry(system, order, a, c).times(v[c]), order)
}

/// Reusable plan for one power-of-two evaluation domain.
#[derive(Clone, Debug)]
pub struct TransformPlan<F: Field> {
    basis: Vec<F>,
    size: usize,
}

impl<F: Field> TransformPlan<F> {
    /// The ordered basis of the domain.
    pub closed spec fn ordered_basis(&self) -> Seq<F> {
        self.basis@
    }

    /// Number of domain points.
    pub closed spec fn domain(&self) -> int {
        self.size as int
    }

    /// The basis is independent and spans the domain.
    pub open spec fn valid(&self) -> bool {
        &&& self.domain() == span_size(self.ordered_basis().len())
        &&& self.ordered_basis().len() <= F::bits()
        &&& independent(self.ordered_basis())
    }

    /// The field element of each domain point.
    pub open spec fn points(&self) -> spec_fn(int) -> F {
        |i: int| span_point(self.ordered_basis(), i)
    }

    /// Plan a domain over the elements with one bit set.
    pub fn new(size: usize) -> (r: Result<Self, PlanError>)
        ensures
            match r {
                Ok(plan) => plan.valid() && plan.domain() == size && plan_fault(
                    size as int,
                    F::bits(),
                ) is None && plan.ordered_basis() == pattern_basis::<F>(
                    plan.ordered_basis().len(),
                ),
                Err(error) => plan_fault(size as int, F::bits()) == Some(error),
            },
    {
        match F::bit_basis(size) {
            Ok(basis) => {
                proof {
                    fault_free_dimension(size as int, F::bits(), basis@.len());
                    assert(basis@ =~= pattern_basis::<F>(basis@.len()));
                    pattern_basis_is_independent::<F>(basis@.len());
                }
                Ok(TransformPlan { basis, size })
            },
            Err(error) => Err(error),
        }
    }

    /// Plan a domain over the first elements of `basis`.
    pub fn with_basis(size: usize, basis: &[F]) -> (r: Result<Self, PlanError>)
        ensures
            match r {
                Ok(plan) => plan.valid() && plan.domain() == size && plan_fault(
                    size as int,
                    F::bits(),
                ) is None && plan.ordered_basis().len() <= basis@.len() && plan.ordered_basis()
                    == basis@.subrange(0, plan.ordered_basis().len() as int),
                Err(PlanError::BasisTooShort { needed, got }) => plan_fault(
                    size as int,
                    F::bits(),
                ) is None && size == span_size(needed as nat) && got == basis@.len() && got
                    < needed,
                Err(PlanError::DependentBasis) => plan_fault(size as int, F::bits()) is None
                    && exists|dimension: nat|
                    #![trigger span_size(dimension)]
                    size == span_size(dimension) && dimension <= basis@.len() && !independent(
                        basis@.subrange(0, dimension as int),
                    ),
                Err(error) => plan_fault(size as int, F::bits()) == Some(error),
            },
    {
        match F::custom_basis(size, basis) {
            Ok(used) => {
                proof {
                    fault_free_dimension(size as int, F::bits(), used@.len());
                }
                Ok(TransformPlan { basis: used, size })
            },
            Err(error) => Err(error),
        }
    }

    /// Number of transform points.
    pub fn size(&self) -> (r: usize)
        ensures
            r == self.domain(),
    {
        self.size
    }

    /// Base-two logarithm of the number of points.
    pub fn log_size(&self) -> (r: usize)
        ensures
            r == self.ordered_basis().len(),
    {
        self.basis.len()
    }

    /// The ordered basis that spans the domain.
    pub fn basis(&self) -> (r: &[F])
        ensures
            r@ == self.ordered_basis(),
    {
        self.basis.as_slice()
    }

    /// The field element of transform point `index`.
    pub fn point_element(&self, index: usize) -> (r: F)
        requires
            self.valid(),
            index < self.domain(),
        ensures
            r == span_point(self.ordered_basis(), index as int),
    {
        let ghost all = self.ordered_basis();
        let mut rest: usize = index;
        let mut half: usize = self.size;
        let mut element = F::zero_value();
        let mut j: usize = self.basis.len();
        proof {
            assert(all.subrange(0, j as int) =~= all);
            F::plus_identity(span_point(all, index as int));
        }
        while j > 0
            invariant
                self.valid(),
                all == self.ordered_basis(),
                j <= all.len(),
                half == span_size(j as nat),
                rest < half,
                span_point(all.subrange(0, j as int), rest as int).plus(element) == span_point(
                    all,
                    index as int,
                ),
            decreases j,
        {
            let ghost prefix = all.subrange(0, j as int);
            proof {
                assert(prefix.drop_last() =~= all.subrange(0, j - 1));
                assert(prefix.last() == all[j - 1]);
            }
            j -= 1;
            half = half / 2;
            if rest >= half {
                rest = rest - half;
                proof {
                    let p = span_point(prefix.drop_last(), rest as int);
                    F::plus_associates(p, prefix.last(), element);
                }
                element = self.basis[j].add_value(element);
            }
        }
        proof {
            crate::algebra::field::left_identities(element);
        }
        element
    }
}

/// A size without fault has the dimension that its basis has.
pub proof fn fault_free_dimension(size: int, bits: nat, dimension: nat)
    requires
        plan_fault(size, bits) is None,
        size == span_size(dimension),
    ensures
        dimension <= bits,
{
    assert(has_dimension(size, dimension));
    let chosen = choose|d: nat| has_dimension(size, d);
    span_size_is_injective(chosen, dimension);
}

/// A power of two that fits the field has no fault.
pub proof fn dimension_is_fault_free(size: int, bits: nat, dimension: nat)
    requires
        size == span_size(dimension),
        dimension <= bits,
    ensures
        plan_fault(size, bits) is None,
{
    assert(has_dimension(size, dimension));
    let chosen = choose|d: nat| has_dimension(size, d);
    span_size_is_injective(chosen, dimension);
}

} // verus!
