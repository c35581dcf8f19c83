//! Additive transforms over GF(2^16).
//!
//! The `butterfly_fft` crate runs the transforms and the `gfm` crate inverts
//! matrices; each function below hands plain values to one of their functions.

use vstd::prelude::*;

use crate::afft::field::Field;
use crate::afft::transform::{
    derives, evaluates, evaluates_high_coset, evaluates_selected, interpolates, plan_fault,
    scratch_rows, table_inverts, table_is_singular, PlanError,
};
use crate::algebra::domains::{independent, span_size};
use crate::algebra::field::FieldElement;
use crate::algebra::generators::gf65536_generator_order;
use crate::algebra::gf65536::{GfElem, GENERATOR};
use crate::codec::Engine;
use crate::symbols::{lane, lane_count, whole_lanes};

verus! {

/// The basis that `butterfly_fft::TransformPlan::shared` uses for a domain of
/// `size` points.
///
/// The call succeeds exactly for the powers of two up to the number of field
/// elements, and the basis is the elements with one bit set, lowest first.
#[verifier::external_body]
fn shared_basis(size: usize) -> (r: Result<Vec<GfElem>, PlanError>)
    ensures
        match r {
            Ok(basis) => plan_fault(size as int, 16) is None && size == span_size(basis@.len())
                && forall|j: int|
                0 <= j < basis@.len() ==> #[trigger] basis@[j] == GfElem::of_raw(
                    span_size(j as nat) as int,
                ),
            Err(error) => plan_fault(size as int, 16) == Some(error),
        },
{
    match butterfly_fft::TransformPlan::<fgf::Gf16>::shared(size) {
        Ok(plan) => Ok(plan.basis().iter().map(|b| GfElem(b.to_raw())).collect()),
        Err(butterfly_fft::PlanError::DomainTooLarge { log_size, cap }) => Err(
            PlanError::DomainTooLarge { log_size, cap },
        ),
        Err(_) => Err(PlanError::InvalidSize { size }),
    }
}

/// The basis that `butterfly_fft::TransformPlan::with_basis` uses for a domain
/// of `size` points: the first elements of `basis`.
///
/// The call fails if no such domain exists in the field, then if `basis` is
/// shorter than the dimension, then if its first elements are dependent.
#[verifier::external_body]
fn planned_basis(size: usize, basis: &[GfElem]) -> (r: Result<Vec<GfElem>, PlanError>)
    ensures
        match r {
            Ok(used) => plan_fault(size as int, 16) is None && size == span_size(used@.len())
                && used@.len() <= basis@.len() && used@ == basis@.subrange(0, used@.len() as int)
                && independent(used@),
            Err(PlanError::BasisTooShort { needed, got }) => plan_fault(size as int, 16) is None
                && size == span_size(needed as nat) && got == basis@.len() && got < needed,
            Err(PlanError::DependentBasis) => plan_fault(size as int, 16) is None && exists|
                dimension: nat,
            |
                #![trigger span_size(dimension)]
                size == span_size(dimension) && dimension <= basis@.len() && !independent(
                    basis@.subrange(0, dimension as int),
                ),
            Err(error) => plan_fault(size as int, 16) == Some(error),
        },
{
    let elements: Vec<_> = basis.iter().map(|b| fgf::field::gf16::Elem::from_raw(b.0)).collect();
    match butterfly_fft::TransformPlan::<fgf::Gf16>::with_basis(size, &elements) {
        Ok(plan) => Ok(plan.basis().iter().map(|b| GfElem(b.to_raw())).collect()),
        Err(butterfly_fft::PlanError::DomainTooLarge { log_size, cap }) => Err(
            PlanError::DomainTooLarge { log_size, cap },
        ),
        Err(butterfly_fft::PlanError::BasisTooShort { needed, got }) => Err(
            PlanError::BasisTooShort { needed, got },
        ),
        Err(butterfly_fft::PlanError::InvalidSize { size }) => Err(PlanError::InvalidSize { size }),
        Err(_) => Err(PlanError::DependentBasis),
    }
}

/// Calls `butterfly_fft::TransformPlan::inverse_bytes_truncated_scratch_rows`:
/// half of the smallest block of the domain that holds all active rows, unless
/// they fill it.
#[verifier::external_body]
fn temporary_rows(basis: &[GfElem], active: usize) -> (r: usize)
    requires
        independent(basis@),
        basis@.len() <= 16,
        1 <= active <= span_size(basis@.len()),
    ensures
        r == scratch_rows(span_size(basis@.len()) as int, active as int),
{
    let elements: Vec<_> = basis.iter().map(|b| fgf::field::gf16::Elem::from_raw(b.0)).collect();
    butterfly_fft::TransformPlan::<fgf::Gf16>::with_basis(
        1 << basis.len(),
        &elements,
    ).unwrap().inverse_bytes_truncated_scratch_rows(active).unwrap()
}

/// Calls `butterfly_fft::TransformPlan::inverse_bytes_truncated_scratch`.
///
/// The first `active` rows become the novel-basis coefficients of the
/// polynomial with `active` coefficients that takes their values at the first
/// domain points. The remaining rows are not read, and what they hold
/// afterwards is not stated, nor what `scratch` holds.
#[verifier::external_body]
fn inverse_truncated(
    basis: &[GfElem],
    rows: &mut [u8],
    row_len: usize,
    active: usize,
    scratch: &mut [u8],
)
    requires
        independent(basis@),
        basis@.len() <= 16,
        row_len > 0,
        whole_lanes::<GfElem>(row_len as int),
        old(rows)@.len() == span_size(basis@.len()) * row_len,
        1 <= active <= span_size(basis@.len()),
        old(scratch)@.len() >= scratch_rows(span_size(basis@.len()) as int, active as int) * row_len,
    ensures
        interpolates(basis@, old(rows)@, final(rows)@, row_len as int, active as int),
        final(scratch)@.len() == old(scratch)@.len(),
{
    let elements: Vec<_> = basis.iter().map(|b| fgf::field::gf16::Elem::from_raw(b.0)).collect();
    butterfly_fft::TransformPlan::<fgf::Gf16>::with_basis(
        1 << basis.len(),
        &elements,
    ).unwrap().inverse_bytes_truncated_scratch(rows, row_len, active, scratch).unwrap();
}

/// Calls `butterfly_fft::TransformPlan::inverse_bytes`: values at every domain
/// point become novel-basis coefficients.
#[verifier::external_body]
fn inverse(basis: &[GfElem], rows: &mut [u8], row_len: usize)
    requires
        independent(basis@),
        basis@.len() <= 16,
        row_len > 0,
        whole_lanes::<GfElem>(row_len as int),
        old(rows)@.len() == span_size(basis@.len()) * row_len,
    ensures
        interpolates(
            basis@,
            old(rows)@,
            final(rows)@,
            row_len as int,
            span_size(basis@.len()) as int,
        ),
{
    let elements: Vec<_> = basis.iter().map(|b| fgf::field::gf16::Elem::from_raw(b.0)).collect();
    butterfly_fft::TransformPlan::<fgf::Gf16>::with_basis(
        1 << basis.len(),
        &elements,
    ).unwrap().inverse_bytes(rows, row_len).unwrap();
}

/// Calls `butterfly_fft::TransformPlan::derivative_into_bytes`: the
/// coefficients of the formal derivative, in the same basis.
#[verifier::external_body]
fn derivative_into(
    basis: &[GfElem],
    derivative: &mut [u8],
    row_len: usize,
    coefficients: &[u8],
)
    requires
        independent(basis@),
        basis@.len() <= 16,
        row_len > 0,
        whole_lanes::<GfElem>(row_len as int),
        old(derivative)@.len() == span_size(basis@.len()) * row_len,
        coefficients@.len() == span_size(basis@.len()) * row_len,
    ensures
        final(derivative)@.len() == old(derivative)@.len(),
        derives(basis@, coefficients@, final(derivative)@, row_len as int),
{
    let elements: Vec<_> = basis.iter().map(|b| fgf::field::gf16::Elem::from_raw(b.0)).collect();
    butterfly_fft::TransformPlan::<fgf::Gf16>::with_basis(
        1 << basis.len(),
        &elements,
    ).unwrap().derivative_into_bytes(derivative, row_len, coefficients).unwrap();
}

/// Calls `butterfly_fft::TransformPlan::forward_bytes_selected`: the selected
/// rows become the values at those domain points. What the other rows hold
/// afterwards is not stated.
#[verifier::external_body]
fn forward_selected(basis: &[GfElem], rows: &mut [u8], row_len: usize, selected: &[usize])
    requires
        independent(basis@),
        basis@.len() <= 16,
        row_len > 0,
        whole_lanes::<GfElem>(row_len as int),
        old(rows)@.len() == span_size(basis@.len()) * row_len,
        forall|t: int|
            0 <= t < selected@.len() ==> #[trigger] selected@[t] < span_size(basis@.len()),
        forall|s: int, t: int|
            0 <= s < t < selected@.len() ==> #[trigger] selected@[s] < #[trigger] selected@[t],
    ensures
        final(rows)@.len() == old(rows)@.len(),
        evaluates_selected(basis@, old(rows)@, final(rows)@, row_len as int, selected@),
{
    let elements: Vec<_> = basis.iter().map(|b| fgf::field::gf16::Elem::from_raw(b.0)).collect();
    butterfly_fft::TransformPlan::<fgf::Gf16>::with_basis(
        1 << basis.len(),
        &elements,
    ).unwrap().forward_bytes_selected(rows, row_len, selected).unwrap();
}

/// Calls `butterfly_fft::TransformPlan::forward_bytes_truncated_range`: with
/// every coefficient from `active` on zero, the rows of the range become the
/// values at those domain points. What the other rows hold afterwards is not
/// stated.
#[verifier::external_body]
fn forward_truncated_range(
    basis: &[GfElem],
    rows: &mut [u8],
    row_len: usize,
    active: usize,
    start: usize,
    end: usize,
)
    requires
        independent(basis@),
        basis@.len() <= 16,
        row_len > 0,
        whole_lanes::<GfElem>(row_len as int),
        old(rows)@.len() == span_size(basis@.len()) * row_len,
        active <= span_size(basis@.len()),
        start <= end <= span_size(basis@.len()),
        forall|i: int, e: int|
            active <= i < span_size(basis@.len()) && 0 <= e < lane_count::<GfElem>(row_len as int)
                ==> #[trigger] lane::<GfElem>(old(rows)@, row_len as int, i, e)
                == GfElem::zero_elem(),
    ensures
        final(rows)@.len() == old(rows)@.len(),
        evaluates(
            basis@,
            old(rows)@,
            final(rows)@,
            row_len as int,
            active as int,
            start as int,
            end as int,
        ),
{
    let elements: Vec<_> = basis.iter().map(|b| fgf::field::gf16::Elem::from_raw(b.0)).collect();
    butterfly_fft::TransformPlan::<fgf::Gf16>::with_basis(
        1 << basis.len(),
        &elements,
    ).unwrap().forward_bytes_truncated_range(rows, row_len, active, start..end).unwrap();
}

/// Calls `butterfly_fft::TransformPlan::forward_bytes_high_coset_range`: from
/// half as many coefficients as domain points, the first rows become the values
/// at the first points of the upper half. What the other rows hold afterwards
/// is not stated.
#[verifier::external_body]
fn forward_high_coset(basis: &[GfElem], rows: &mut [u8], row_len: usize, count: usize)
    requires
        independent(basis@),
        2 <= basis@.len() <= 16,
        row_len > 0,
        whole_lanes::<GfElem>(row_len as int),
        2 * old(rows)@.len() == span_size(basis@.len()) * row_len,
        2 * count <= span_size(basis@.len()),
    ensures
        final(rows)@.len() == old(rows)@.len(),
        evaluates_high_coset(basis@, old(rows)@, final(rows)@, row_len as int, count as int),
{
    let elements: Vec<_> = basis.iter().map(|b| fgf::field::gf16::Elem::from_raw(b.0)).collect();
    butterfly_fft::TransformPlan::<fgf::Gf16>::with_basis(
        1 << basis.len(),
        &elements,
    ).unwrap().forward_bytes_high_coset_range(rows, row_len, 0..count).unwrap();
}

/// Calls `gfm::Ple::decompose` and `gfm::Ple::inverse_into`: the two-sided
/// inverse of a square matrix, or nothing when its columns are dependent.
#[verifier::external_body]
fn inverse_matrix(system: &[GfElem], order: usize) -> (r: Option<Vec<GfElem>>)
    requires
        0 < order <= 65536,
        system@.len() == order * order,
    ensures
        match r {
            Some(inverse) => inverse@.len() == order * order && table_inverts(
                system@,
                inverse@,
                order as int,
            ),
            None => table_is_singular(system@, order as int),
        },
{
    let bytes: Vec<u8> = system.iter().flat_map(|e| e.0.to_le_bytes()).collect();
    let matrix = gfm::Matrix::<fgf::Gf16>::from_rows(order, order, &bytes).unwrap();
    let factors = gfm::Ple::decompose(matrix, &mut gfm::PleScratch::new());
    let mut out = gfm::Matrix::<fgf::Gf16>::zeros(order, order).unwrap();
    match factors.inverse_into(&mut out) {
        Ok(()) => Some(
            (0..order * order).map(|i| GfElem(out.get(i / order, i % order).to_raw())).collect(),
        ),
        Err(_) => None,
    }
}

impl Field for GfElem {
    open spec fn bits() -> nat {
        16
    }

    open spec fn engine_spec() -> Engine {
        Engine::Gf16Afft
    }

    open spec fn of_raw(pattern: int) -> Self {
        GfElem(pattern as u16)
    }

    open spec fn raw(self) -> int {
        self.0 as int
    }

    open spec fn generator_elem() -> Self {
        GfElem(GENERATOR)
    }

    proof fn bits_are_few() {
    }

    proof fn patterns_are_elements(x: Self, pattern: int) {
        assert(span_size(16) == 65536) by {
            reveal_with_fuel(span_size, 17);
        }
    }

    proof fn patterns_add(bit: nat, pattern: int) {
        assert(span_size(0) == 1 && span_size(1) == 2 && span_size(2) == 4 && span_size(3) == 8 && span_size(4) == 16 && span_size(5) == 32 && span_size(6) == 64 && span_size(7) == 128 && span_size(8) == 256 && span_size(9) == 512 && span_size(10) == 1024 && span_size(11) == 2048 && span_size(12) == 4096 && span_size(13) == 8192 && span_size(14) == 16384 && span_size(15) == 32768) by {
            reveal_with_fuel(span_size, 17);
        }
        let h = span_size(bit) as u16;
        let i = pattern as u16;
        assert(h + i == i ^ h) by (bit_vector)
            requires
                i < h,
                h == 1 || h == 2 || h == 4 || h == 8 || h == 16 || h == 32 || h == 64 || h == 128 || h == 256 || h == 512 || h == 1024 || h == 2048 || h == 4096 || h == 8192 || h == 16384 || h == 32768,
        ;
    }

    proof fn generator_has_order() {
        gf65536_generator_order();
        assert(span_size(16) == 65536) by {
            reveal_with_fuel(span_size, 17);
        }
    }

    fn max_transform_size() -> (r: usize) {
        proof {
            assert(span_size(16) == 65536) by {
                reveal_with_fuel(span_size, 17);
            }
        }
        65536
    }

    fn raw_value(self) -> (r: usize) {
        self.0 as usize
    }

    fn generator_value() -> (r: Self) {
        GfElem(GENERATOR)
    }

    fn bit_basis(size: usize) -> (r: Result<Vec<Self>, PlanError>) {
        shared_basis(size)
    }

    fn custom_basis(size: usize, basis: &[Self]) -> (r: Result<Vec<Self>, PlanError>) {
        planned_basis(size, basis)
    }

    fn truncated_scratch_rows(basis: &[Self], active: usize) -> (r: usize) {
        temporary_rows(basis, active)
    }

    fn interpolate_truncated(
        basis: &[Self],
        rows: &mut [u8],
        row_len: usize,
        active: usize,
        scratch: &mut [u8],
    ) {
        inverse_truncated(basis, rows, row_len, active, scratch);
    }

    fn interpolate_all(basis: &[Self], rows: &mut [u8], row_len: usize) {
        inverse(basis, rows, row_len);
    }

    fn differentiate(basis: &[Self], derivative: &mut [u8], row_len: usize, coefficients: &[u8]) {
        derivative_into(basis, derivative, row_len, coefficients);
    }

    fn evaluate_selected(basis: &[Self], rows: &mut [u8], row_len: usize, selected: &[usize]) {
        forward_selected(basis, rows, row_len, selected);
    }

    fn evaluate_range(
        basis: &[Self],
        rows: &mut [u8],
        row_len: usize,
        active: usize,
        start: usize,
        end: usize,
    ) {
        forward_truncated_range(basis, rows, row_len, active, start, end);
    }

    fn evaluate_high_coset(basis: &[Self], rows: &mut [u8], row_len: usize, count: usize) {
        forward_high_coset(basis, rows, row_len, count);
    }

    fn invert_table(system: &[Self], order: usize) -> (r: Option<Vec<Self>>) {
        inverse_matrix(system, order)
    }
}

} // verus!
