//! Additive-transform planning.

use vstd::prelude::*;

use crate::afft::field::{pattern_basis, Field};
use crate::afft::transform::{plan_fault, TransformPlan};

verus! {

/// The transform plan for a domain of `size` points.
///
/// `None` when `size` is not a power of two or exceeds the field's domain.
#[must_use]
pub fn shared_transform_plan<F: Field>(size: usize) -> (r: Option<TransformPlan<F>>)
    ensures
        r is Some <==> plan_fault(size as int, F::bits()) is None,
        r matches Some(plan) ==> plan.valid() && plan.domain() == size && plan.ordered_basis()
            == pattern_basis::<F>(plan.ordered_basis().len()),
{
    match TransformPlan::new(size) {
        Ok(plan) => Some(plan),
        Err(_) => None,
    }
}

} // verus!
