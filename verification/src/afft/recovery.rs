//! Row recovery through the formal derivative.
//!
//! Let `f` be the polynomial whose values are the codeword and `L` the erasure
//! locator. The product `f * L` is known everywhere: it vanishes at exactly the
//! erased points. Its coefficients follow from one interpolation, and at an
//! erased point its derivative is `f` times the derivative of `L`. So each
//! missing value takes one interpolation, one derivative, one evaluation at the
//! missing points, and one scaling.

use vstd::prelude::*;

use crate::afft::field::Field;
use crate::afft::locator::{domain_points_differ, ErasureLocator};
use crate::afft::transform::{column, interpolates, TransformLengthError, TransformPlan};
use crate::algebra::domains::{independent, span_point, span_size};
use crate::algebra::evaluation_code::{
    erased_value, erasure_product, erasure_product_nonzero, known_value,
};
use crate::algebra::field::{left_identities, times_undoes};
use crate::algebra::index_lists::indices_where_congruent;
use crate::algebra::novel_basis::{novel_slope, novel_value};
use crate::decoder::reduced::fill_zero;
use crate::payload::{lane_of_zeros, row_slice, scale_into_row};
use crate::symbols::{lane, lane_count, lane_of_row, row_bounds, whole_lanes};

verus! {

/// Byte-row workspace for [`recover_rows`].
#[derive(Clone, Debug, Default)]
pub struct RecoveryScratch {
    product: Vec<u8>,
    derivative: Vec<u8>,
}

impl RecoveryScratch {
    /// Bytes held by each buffer.
    pub open spec fn bytes(&self) -> int {
        self.product_rows().len() as int
    }

    /// Rows of the product of codeword and locator.
    pub closed spec fn product_rows(&self) -> Seq<u8> {
        self.product@
    }

    /// Rows of its derivative.
    pub closed spec fn derivative_rows(&self) -> Seq<u8> {
        self.derivative@
    }

    /// Empty scratch, sized on first use.
    pub fn new() -> (r: Self)
        ensures
            r.bytes() == 0,
            r.derivative_rows().len() == 0,
    {
        RecoveryScratch { product: Vec::new(), derivative: Vec::new() }
    }

    /// The product of codeword and locator, as the transform left it.
    pub fn product(&self) -> (r: &[u8])
        ensures
            r@ == self.product_rows(),
    {
        self.product.as_slice()
    }

    /// The formal derivative of the product, as the transform left it.
    pub fn derivative(&self) -> (r: &[u8])
        ensures
            r@ == self.derivative_rows(),
    {
        self.derivative.as_slice()
    }

    /// Bytes each of the two buffers needs for this geometry.
    pub fn required_bytes(size: usize, row_len: usize) -> (r: usize)
        requires
            size * row_len <= usize::MAX,
        ensures
            r == size * row_len,
    {
        proof {
            assert(0 <= size * row_len) by (nonlinear_arith);
        }
        size * row_len
    }

    fn ensure(&mut self, bytes: usize)
        ensures
            final(self).product@.len() == bytes,
            final(self).derivative@.len() == bytes,
    {
        if self.product.len() != bytes || self.derivative.len() != bytes {
            self.product.clear();
            self.product.resize(bytes, 0);
            self.derivative.clear();
            self.derivative.resize(bytes, 0);
        }
    }
}

/// The value that the known rows determine at position `at`.
pub open spec fn recovered_lane<F: Field>(
    basis: Seq<F>,
    known: spec_fn(int) -> bool,
    received: Seq<u8>,
    row_len: int,
    at: int,
    e: int,
) -> F {
    known_value(
        |j: int| span_point(basis, j),
        known,
        span_size(basis.len()) as int,
        column(received, row_len, e),
        span_point(basis, at),
    )
}

/// `recovered` holds the value of every missing position, in order.
pub open spec fn holds_recovered<F: Field>(
    basis: Seq<F>,
    known: spec_fn(int) -> bool,
    received: Seq<u8>,
    row_len: int,
    missing: Seq<usize>,
    recovered: Seq<u8>,
) -> bool {
    &&& recovered.len() == missing.len() * row_len
    &&& forall|row: int, e: int|
        0 <= row < missing.len() && 0 <= e < lane_count::<F>(row_len) ==> #[trigger] lane::<F>(
            recovered,
            row_len,
            row,
            e,
        ) == recovered_lane(basis, known, received, row_len, missing[row] as int, e)
}

/// Every row of `scaled` is the received row times the locator at its point.
pub open spec fn scaled_by_locator<F: Field>(
    locator: &ErasureLocator<F>,
    size: int,
    received: Seq<u8>,
    row_len: int,
    scaled: Seq<u8>,
) -> bool {
    forall|i: int, e: int|
        0 <= i < size && 0 <= e < lane_count::<F>(row_len) ==> #[trigger] lane::<F>(
            scaled,
            row_len,
            i,
            e,
        ) == locator.value_table()[i].times(lane::<F>(received, row_len, i, e))
}

/// `product` holds the coefficients of the polynomial whose values are the
/// received rows times the locator.
pub open spec fn holds_product<F: Field>(
    basis: Seq<F>,
    locator: &ErasureLocator<F>,
    received: Seq<u8>,
    row_len: int,
    product: Seq<u8>,
) -> bool {
    let size = span_size(basis.len()) as int;
    &&& product.len() == size * row_len
    &&& exists|scaled: Seq<u8>|
        scaled_by_locator(locator, size, received, row_len, scaled) && #[trigger] interpolates(
            basis,
            scaled,
            product,
            row_len,
            size,
        )
}

/// The polynomial with the product rows as its coefficients takes, at every point
/// of the domain, the received row times the value of the locator there.
pub proof fn products_take_the_scaled_rows<F: Field>(
    basis: Seq<F>,
    locator: &ErasureLocator<F>,
    received: Seq<u8>,
    row_len: int,
    product: Seq<u8>,
    i: int,
    e: int,
)
    requires
        holds_product(basis, locator, received, row_len, product),
        0 <= i < span_size(basis.len()),
        0 <= e < lane_count::<F>(row_len),
    ensures
        product.len() == span_size(basis.len()) * row_len,
        novel_value(
            basis,
            column::<F>(product, row_len, e),
            span_size(basis.len()) as int,
            span_point(basis, i),
        ) == locator.value_table()[i].times(lane::<F>(received, row_len, i, e)),
{
    let size = span_size(basis.len()) as int;
    let scaled = choose|scaled: Seq<u8>|
        scaled_by_locator(locator, size, received, row_len, scaled) && #[trigger] interpolates(
            basis,
            scaled,
            product,
            row_len,
            size,
        );
    assert(lane::<F>(scaled, row_len, i, e) == locator.value_table()[i].times(
        lane::<F>(received, row_len, i, e),
    ));
}

/// At the missing points `slopes` holds the recovered value times the derivative
/// of the locator.
pub open spec fn holds_slopes<F: Field>(
    basis: Seq<F>,
    known: spec_fn(int) -> bool,
    locator: &ErasureLocator<F>,
    received: Seq<u8>,
    row_len: int,
    missing: Seq<usize>,
    slopes: Seq<u8>,
) -> bool {
    &&& slopes.len() == span_size(basis.len()) * row_len
    &&& forall|t: int, e: int|
        0 <= t < missing.len() && 0 <= e < lane_count::<F>(row_len) ==> #[trigger] lane::<F>(
            slopes,
            row_len,
            missing[t] as int,
            e,
        ) == recovered_lane(basis, known, received, row_len, missing[t] as int, e).times(
            locator.derivative_table()[missing[t] as int],
        )
}

/// Why recovery is refused.
pub open spec fn recovery_fault(
    size: int,
    locator: int,
    row_len: int,
    received: int,
    missing: int,
    recovered: int,
) -> Option<TransformLengthError> {
    if locator != size {
        Some(TransformLengthError { expected: size as usize, got: locator as usize })
    } else if received != size * row_len {
        Some(
            TransformLengthError { expected: (size * row_len) as usize, got: received as usize },
        )
    } else if recovered != missing * row_len {
        Some(
            TransformLengthError {
                expected: (missing * row_len) as usize,
                got: recovered as usize,
            },
        )
    } else {
        None
    }
}

/// Recovery is accepted exactly with a locator of the domain's size, a received
/// row per point and room for a row per missing point; a refusal names the first
/// length that differs and what it should be.
pub proof fn recovery_lengths_are_judged(
    size: int,
    locator: int,
    row_len: int,
    received: int,
    missing: int,
    recovered: int,
)
    requires
        0 <= size <= usize::MAX,
        0 <= locator <= usize::MAX,
        0 <= size * row_len <= usize::MAX,
        0 <= received <= usize::MAX,
        0 <= missing * row_len <= usize::MAX,
        0 <= recovered <= usize::MAX,
    ensures
        ({
            let fault = recovery_fault(size, locator, row_len, received, missing, recovered);
            &&& fault is None <==> locator == size && received == size * row_len && recovered
                == missing * row_len
            &&& fault matches Some(e) ==> e.expected != e.got && if locator != size {
                e.expected == size && e.got == locator
            } else if received != size * row_len {
                e.expected == size * row_len && e.got == received
            } else {
                e.expected == missing * row_len && e.got == recovered
            }
        }),
{
}

/// Recovers the erased evaluation rows named by `missing`.
///
/// `received` holds one row per transform point; rows at erased points are
/// ignored and may hold anything. `recovered` receives the rows for `missing`,
/// in that order. The pattern may erase more points than `missing` names.
pub fn recover_rows<F: Field>(
    plan: &TransformPlan<F>,
    locator: &ErasureLocator<F>,
    received: &[u8],
    row_len: usize,
    missing: &[usize],
    scratch: &mut RecoveryScratch,
    recovered: &mut [u8],
) -> (r: Result<(), TransformLengthError>)
    requires
        plan.valid(),
        row_len > 0,
        whole_lanes::<F>(row_len as int),
        plan.domain() * row_len <= usize::MAX,
        missing@.len() * row_len <= usize::MAX,
        locator.value_table().len() == plan.domain() ==> exists|known: spec_fn(int) -> bool|
            locator.locates(plan.ordered_basis(), known),
        forall|t: int| 0 <= t < missing@.len() ==> #[trigger] missing@[t] < plan.domain(),
        forall|s: int, t: int|
            0 <= s < t < missing@.len() ==> #[trigger] missing@[s] < #[trigger] missing@[t],
        locator.value_table().len() == plan.domain() ==> forall|t: int|
            0 <= t < missing@.len() ==> locator.value_table()[#[trigger] missing@[t] as int]
                == F::zero_elem(),
    ensures
        match recovery_fault(
            plan.domain(),
            locator.value_table().len() as int,
            row_len as int,
            received@.len() as int,
            missing@.len() as int,
            old(recovered)@.len() as int,
        ) {
            Some(e) => r == Err::<(), TransformLengthError>(e) && final(recovered)@ == old(
                recovered,
            )@ && *final(scratch) == *old(scratch),
            None => {
                &&& r is Ok
                &&& missing@.len() == 0 ==> *final(scratch) == *old(scratch)
                &&& missing@.len() > 0 ==> holds_product(
                    plan.ordered_basis(),
                    locator,
                    received@,
                    row_len as int,
                    final(scratch).product_rows(),
                )
                &&& forall|known: spec_fn(int) -> bool| #[trigger]
                    locator.locates(plan.ordered_basis(), known) ==> holds_recovered(
                        plan.ordered_basis(),
                        known,
                        received@,
                        row_len as int,
                        missing@,
                        final(recovered)@,
                    ) && (missing@.len() > 0 ==> holds_slopes(
                        plan.ordered_basis(),
                        known,
                        locator,
                        received@,
                        row_len as int,
                        missing@,
                        final(scratch).derivative_rows(),
                    ))
            },
        },
{
    let size: usize = plan.size();
    if locator.size() != size {
        return Err(TransformLengthError { expected: size, got: locator.size() });
    }
    let expected: usize = RecoveryScratch::required_bytes(size, row_len);
    if received.len() != expected {
        return Err(TransformLengthError { expected, got: received.len() });
    }
    let expected_out: usize = RecoveryScratch::required_bytes(missing.len(), row_len);
    if recovered.len() != expected_out {
        return Err(TransformLengthError { expected: expected_out, got: recovered.len() });
    }
    let ghost basis = plan.ordered_basis();
    let ghost known = choose|known: spec_fn(int) -> bool| locator.locates(basis, known);
    if missing.len() == 0 {
        return Ok(());
    }
    scratch.ensure(expected);
    let ghost l = row_len as int;
    let ghost n = size as int;
    scale_known(plan, locator, received, row_len, scratch.product.as_mut_slice());
    let ghost product = scratch.product@;
    F::interpolate_all(plan.basis(), scratch.product.as_mut_slice(), row_len);
    let ghost coefficients = scratch.product@;
    proof {
        assert(scaled_by_locator(locator, n, received@, l, product));
        assert(holds_product(basis, locator, received@, l, coefficients));
    }
    F::differentiate(
        plan.basis(),
        scratch.derivative.as_mut_slice(),
        row_len,
        scratch.product.as_slice(),
    );
    let ghost differentiated = scratch.derivative@;
    F::evaluate_selected(plan.basis(), scratch.derivative.as_mut_slice(), row_len, missing);
    let ghost slopes = scratch.derivative@;
    proof {
        assert forall|t: int| 0 <= t < missing@.len() implies !known(
            #[trigger] missing@[t] as int,
        ) by {
            locates_means(locator, basis, known, missing@[t] as int);
        }
        assert forall|t: int, e: int|
            0 <= t < missing@.len() && 0 <= e < lane_count::<F>(l) implies #[trigger] lane::<F>(
            slopes,
            l,
            missing@[t] as int,
            e,
        ) == recovered_lane(basis, known, received@, l, missing@[t] as int, e).times(
            locator.derivative_table()[missing@[t] as int],
        ) by {
            let at = missing@[t] as int;
            slope_is_scaled(
                locator,
                basis,
                known,
                received@,
                product,
                coefficients,
                l,
                at,
                e,
            );
            let x = span_point(basis, at);
            assert(novel_value(basis, column(differentiated, l, e), n, x) == novel_slope(
                basis,
                column(coefficients, l, e),
                n,
                x,
            ));
        }
    }
    scale_recovered(
        plan,
        locator,
        row_len,
        missing,
        scratch.derivative.as_slice(),
        recovered,
    );
    proof {
        assert forall|row: int, e: int|
            0 <= row < missing@.len() && 0 <= e < lane_count::<F>(l) implies #[trigger] lane::<F>(
            recovered@,
            l,
            row,
            e,
        ) == recovered_lane(basis, known, received@, l, missing@[row] as int, e) by {
            let at = missing@[row] as int;
            let value = recovered_lane(basis, known, received@, l, at, e);
            let d = locator.derivative_table()[at];
            locates_means(locator, basis, known, at);
            assert(lane::<F>(slopes, l, missing@[row] as int, e) == value.times(d));
            F::times_commutes(value, d);
            times_undoes(d, value);
        }
        assert forall|other: spec_fn(int) -> bool| #[trigger]
            locator.locates(basis, other) implies holds_recovered(
            basis,
            other,
            received@,
            l,
            missing@,
            recovered@,
        ) && holds_slopes(basis, other, locator, received@, l, missing@, slopes) by {
            assert forall|t: int, e: int|
                0 <= t < missing@.len() && 0 <= e < lane_count::<F>(l) implies #[trigger] lane::<F>(
                slopes,
                l,
                missing@[t] as int,
                e,
            ) == recovered_lane(basis, other, received@, l, missing@[t] as int, e).times(
                locator.derivative_table()[missing@[t] as int],
            ) by {
                same_pattern(locator, basis, known, other);
                indices_where_congruent(known, other, n);
            }
            assert forall|row: int, e: int|
                0 <= row < missing@.len() && 0 <= e < lane_count::<F>(l) implies #[trigger] lane::<
                F,
            >(recovered@, l, row, e) == recovered_lane(
                basis,
                other,
                received@,
                l,
                missing@[row] as int,
                e,
            ) by {
                same_pattern(locator, basis, known, other);
                indices_where_congruent(known, other, n);
            }
        }
    }
    Ok(())
}

/// At a known point the locator is not zero; at an erased one its derivative is
/// not.
pub proof fn locates_means<F: Field>(
    locator: &ErasureLocator<F>,
    basis: Seq<F>,
    known: spec_fn(int) -> bool,
    i: int,
)
    requires
        independent(basis),
        locator.locates(basis, known),
        0 <= i < span_size(basis.len()),
    ensures
        known(i) <==> locator.value_table()[i] != F::zero_elem(),
        !known(i) ==> locator.derivative_table()[i] != F::zero_elem(),
{
    let n = span_size(basis.len()) as int;
    domain_points_differ(basis);
    erasure_product_nonzero(|j: int| span_point(basis, j), known, i, n, n);
    assert(locator.value_table()[i] == if known(i) {
        erasure_product(|j: int| span_point(basis, j), known, i, n)
    } else {
        F::zero_elem()
    });
    assert(locator.derivative_table()[i] == if known(i) {
        F::zero_elem()
    } else {
        erasure_product(|j: int| span_point(basis, j), known, i, n)
    });
}

/// A locator describes one pattern only.
proof fn same_pattern<F: Field>(
    locator: &ErasureLocator<F>,
    basis: Seq<F>,
    known: spec_fn(int) -> bool,
    other: spec_fn(int) -> bool,
)
    requires
        independent(basis),
        locator.locates(basis, known),
        locator.locates(basis, other),
    ensures
        forall|i: int| 0 <= i < span_size(basis.len()) ==> #[trigger] known(i) == other(i),
{
    assert forall|i: int| 0 <= i < span_size(basis.len()) implies #[trigger] known(i) == other(
        i,
    ) by {
        locates_means(locator, basis, known, i);
        locates_means(locator, basis, other, i);
    }
}

/// The derivative of the interpolated product at an erased point.
proof fn slope_is_scaled<F: Field>(
    locator: &ErasureLocator<F>,
    basis: Seq<F>,
    known: spec_fn(int) -> bool,
    received: Seq<u8>,
    product: Seq<u8>,
    coefficients: Seq<u8>,
    row_len: int,
    at: int,
    e: int,
)
    requires
        independent(basis),
        locator.locates(basis, known),
        0 <= at < span_size(basis.len()),
        !known(at),
        0 <= e < lane_count::<F>(row_len),
        forall|i: int, f: int|
            0 <= i < span_size(basis.len()) && 0 <= f < lane_count::<F>(row_len)
                ==> #[trigger] lane::<F>(product, row_len, i, f)
                == locator.value_table()[i].times(lane::<F>(received, row_len, i, f)),
        interpolates(basis, product, coefficients, row_len, span_size(basis.len()) as int),
    ensures
        novel_slope(
            basis,
            column(coefficients, row_len, e),
            span_size(basis.len()) as int,
            span_point(basis, at),
        ) == recovered_lane(basis, known, received, row_len, at, e).times(
            locator.derivative_table()[at],
        ),
{
    let n = span_size(basis.len()) as int;
    let point = |j: int| span_point(basis, j);
    let value = column::<F>(received, row_len, e);
    let c = column::<F>(coefficients, row_len, e);
    assert forall|i: int| #![trigger span_point(basis, i)] 0 <= i < n implies novel_value(
        basis,
        c,
        n,
        span_point(basis, i),
    ) == if known(i) {
        value(i).times(erasure_product(point, known, i, n))
    } else {
        F::zero_elem()
    } by {
        assert(lane::<F>(product, row_len, i, e) == novel_value(basis, c, n, span_point(basis, i)));
        let v = locator.value_table()[i];
        assert(v == if known(i) {
            erasure_product(point, known, i, n)
        } else {
            F::zero_elem()
        });
        F::times_commutes(v, value(i));
        left_identities(value(i));
    }
    erased_value(basis, known, value, c, at);
    assert(locator.derivative_table()[at] == erasure_product(point, known, at, n));
}

/// Overwrites `product` with every received row scaled by the locator there.
fn scale_known<F: Field>(
    plan: &TransformPlan<F>,
    locator: &ErasureLocator<F>,
    received: &[u8],
    row_len: usize,
    product: &mut [u8],
)
    requires
        plan.valid(),
        row_len > 0,
        whole_lanes::<F>(row_len as int),
        locator.value_table().len() == plan.domain(),
        received@.len() == plan.domain() * row_len,
        old(product)@.len() == plan.domain() * row_len,
    ensures
        final(product)@.len() == old(product)@.len(),
        forall|i: int, e: int|
            0 <= i < plan.domain() && 0 <= e < lane_count::<F>(row_len as int)
                ==> #[trigger] lane::<F>(final(product)@, row_len as int, i, e)
                == locator.value_table()[i].times(lane::<F>(received@, row_len as int, i, e)),
{
    let size: usize = plan.size();
    let ghost l = row_len as int;
    let values = locator.values();
    fill_zero(product);
    proof {
        assert forall|i: int, e: int|
            0 <= i < size && 0 <= e < lane_count::<F>(l) implies #[trigger] lane::<F>(
            product@,
            l,
            i,
            e,
        ) == F::zero_elem() by {
            row_bounds(i, size as int, l);
            lane_of_zeros::<F>(product@, l, i, e);
        }
    }
    let mut point: usize = 0;
    while point < size
        invariant
            point <= size,
            size == plan.domain(),
            row_len > 0,
            l == row_len,
            whole_lanes::<F>(l),
            values@ == locator.value_table(),
            values@.len() == size,
            received@.len() == size * row_len,
            product@.len() == size * row_len,
            product@.len() == old(product)@.len(),
            forall|i: int, e: int|
                0 <= i < size && 0 <= e < lane_count::<F>(l) ==> #[trigger] lane::<F>(
                    product@,
                    l,
                    i,
                    e,
                ) == if i < point {
                    values@[i].times(lane::<F>(received@, l, i, e))
                } else {
                    F::zero_elem()
                },
        decreases size - point,
    {
        let value = values[point];
        let ghost before = product@;
        proof {
            row_bounds(point as int, size as int, l);
        }
        if !value.is_zero_value() {
            let source = row_slice(received, point, row_len);
            scale_into_row(product, point, size, row_len, value, source);
        }
        proof {
            assert forall|i: int, e: int|
                0 <= i < size && 0 <= e < lane_count::<F>(l) implies #[trigger] lane::<F>(
                product@,
                l,
                i,
                e,
            ) == if i < point + 1 {
                values@[i].times(lane::<F>(received@, l, i, e))
            } else {
                F::zero_elem()
            } by {
                assert(lane::<F>(before, l, i, e) == if i < point {
                    values@[i].times(lane::<F>(received@, l, i, e))
                } else {
                    F::zero_elem()
                });
                if i == point {
                    lane_of_row::<F>(received@, l, i, size as int, e);
                    left_identities(value.times(lane::<F>(received@, l, i, e)));
                    left_identities(lane::<F>(received@, l, i, e));
                }
            }
        }
        point += 1;
    }
}

/// Overwrites `recovered` with the rows of the missing points, each divided by
/// the derivative of the locator there.
fn scale_recovered<F: Field>(
    plan: &TransformPlan<F>,
    locator: &ErasureLocator<F>,
    row_len: usize,
    missing: &[usize],
    slopes: &[u8],
    recovered: &mut [u8],
)
    requires
        plan.valid(),
        row_len > 0,
        whole_lanes::<F>(row_len as int),
        locator.derivative_table().len() == plan.domain(),
        slopes@.len() == plan.domain() * row_len,
        old(recovered)@.len() == missing@.len() * row_len,
        forall|t: int| 0 <= t < missing@.len() ==> #[trigger] missing@[t] < plan.domain(),
    ensures
        final(recovered)@.len() == old(recovered)@.len(),
        forall|row: int, e: int|
            0 <= row < missing@.len() && 0 <= e < lane_count::<F>(row_len as int)
                ==> #[trigger] lane::<F>(final(recovered)@, row_len as int, row, e)
                == locator.derivative_table()[missing@[row] as int].recip().times(
                lane::<F>(slopes@, row_len as int, missing@[row] as int, e),
            ),
{
    let count: usize = missing.len();
    let ghost l = row_len as int;
    let derivatives = locator.derivatives();
    fill_zero(recovered);
    proof {
        assert forall|i: int, e: int|
            0 <= i < count && 0 <= e < lane_count::<F>(l) implies #[trigger] lane::<F>(
            recovered@,
            l,
            i,
            e,
        ) == F::zero_elem() by {
            row_bounds(i, count as int, l);
            lane_of_zeros::<F>(recovered@, l, i, e);
        }
    }
    let mut row: usize = 0;
    while row < count
        invariant
            row <= count,
            count == missing@.len(),
            row_len > 0,
            l == row_len,
            whole_lanes::<F>(l),
            derivatives@ == locator.derivative_table(),
            derivatives@.len() == plan.domain(),
            slopes@.len() == plan.domain() * row_len,
            recovered@.len() == count * row_len,
            recovered@.len() == old(recovered)@.len(),
            forall|t: int| 0 <= t < missing@.len() ==> #[trigger] missing@[t] < plan.domain(),
            forall|i: int, e: int|
                0 <= i < count && 0 <= e < lane_count::<F>(l) ==> #[trigger] lane::<F>(
                    recovered@,
                    l,
                    i,
                    e,
                ) == if i < row {
                    derivatives@[missing@[i] as int].recip().times(
                        lane::<F>(slopes@, l, missing@[i] as int, e),
                    )
                } else {
                    F::zero_elem()
                },
        decreases count - row,
    {
        let point: usize = missing[row];
        let ghost before = recovered@;
        proof {
            row_bounds(point as int, plan.domain(), l);
            row_bounds(row as int, count as int, l);
        }
        let factor = derivatives[point].inv_value();
        let source = row_slice(slopes, point, row_len);
        scale_into_row(recovered, row, count, row_len, factor, source);
        proof {
            assert forall|i: int, e: int|
                0 <= i < count && 0 <= e < lane_count::<F>(l) implies #[trigger] lane::<F>(
                recovered@,
                l,
                i,
                e,
            ) == if i < row + 1 {
                derivatives@[missing@[i] as int].recip().times(
                    lane::<F>(slopes@, l, missing@[i] as int, e),
                )
            } else {
                F::zero_elem()
            } by {
                assert(lane::<F>(before, l, i, e) == if i < row {
                    derivatives@[missing@[i] as int].recip().times(
                        lane::<F>(slopes@, l, missing@[i] as int, e),
                    )
                } else {
                    F::zero_elem()
                });
                if i == row {
                    lane_of_row::<F>(slopes@, l, point as int, plan.domain(), e);
                    left_identities(factor.times(lane::<F>(slopes@, l, point as int, e)));
                }
            }
        }
        row += 1;
    }
}

} // verus!
