//! Fixed-coefficient payload operations over interleaved GF(65536) elements.

use vstd::prelude::*;

use crate::algebra::field::FieldElement;
use crate::algebra::gf65536::GfElem;
use crate::payload::{flat_coefficient, scale_into_row, source_bytes, PayloadElement, RowCombiner};
use crate::symbols::{
    lane, lane_count, row_bounds, scaled_into, scaled_into_rows, terms_at, whole_lanes,
};

pub use crate::tower::butterfly::{
    butterfly_backend, fused_forward, fused_forward_bytes, fused_forward_scalar, fused_inverse,
    fused_inverse_bytes, fused_inverse_scalar, ButterflyBackend, ButterflyBackendKind,
};

verus! {

/// XORs `coefficient * src` into `dst` element by element.
///
/// Calls `fgf::ops::mul_add` for the tower field, which adds
/// `coefficient * src` to `dst` element by element and panics unless both slices
/// have the same even length.
#[verifier::external_body]
pub fn xor_scaled_bytes(dst: &mut [u8], coefficient: GfElem, src: &[u8])
    requires
        old(dst)@.len() == src@.len(),
        src@.len() % 2 == 0,
    ensures
        scaled_into(old(dst)@, final(dst)@, coefficient, src@),
{
    fgf::ops::mul_add::<fgf::Gf16>(dst, fgf::field::gf16::Elem::from_raw(coefficient.0), src);
}

/// XORs one scaled source into each flat destination row.
///
/// Calls `fgf::ops::mul_add_scatter` for the tower field, which adds
/// `coefficients[row] * src` to every row and panics unless the shapes agree.
#[verifier::external_body]
pub fn xor_scaled_bytes_rows(
    destinations: &mut [u8],
    symbol_len: usize,
    coefficients: &[GfElem],
    src: &[u8],
)
    requires
        src@.len() == symbol_len,
        symbol_len % 2 == 0,
        old(destinations)@.len() == coefficients@.len() * symbol_len,
    ensures
        scaled_into_rows(
            old(destinations)@,
            final(destinations)@,
            symbol_len as int,
            coefficients@,
            src@,
        ),
{
    let converted: Vec<fgf::field::gf16::Elem> = coefficients.iter().map(
        |c| fgf::field::gf16::Elem::from_raw(c.0),
    ).collect();
    fgf::ops::mul_add_scatter::<fgf::Gf16>(destinations, symbol_len, &converted, src);
}

impl PayloadElement for GfElem {
    fn element_width() -> (r: usize) {
        2
    }

    fn scale_into(dst: &mut [u8], coefficient: Self, src: &[u8]) {
        xor_scaled_bytes(dst, coefficient, src);
    }

    fn scale_into_rows(
        destinations: &mut [u8],
        symbol_len: usize,
        coefficients: &[Self],
        src: &[u8],
    ) {
        xor_scaled_bytes_rows(destinations, symbol_len, coefficients, src);
    }
}

impl RowCombiner for GfElem {
    fn combine_into_rows(
        destinations: &mut [u8],
        symbol_len: usize,
        rows: usize,
        coefficients: &[Self],
        sources: &[&[u8]],
    ) {
        let ghost l = symbol_len as int;
        let ghost flat = flat_coefficient(coefficients@, rows as int);
        let ghost bytes = source_bytes(sources@);
        let ghost before = destinations@;
        let ghost lanes = lane_count::<GfElem>(l);
        let mut t: usize = 0;
        let mut at: usize = 0;
        proof {
            assert forall|row: int, e: int| 0 <= row < rows && 0 <= e < lanes implies #[trigger] lane::<
                GfElem,
            >(destinations@, l, row, e) == lane::<GfElem>(before, l, row, e).plus(
                terms_at(flat, bytes, 0, l, row, e),
            ) by {
                GfElem::plus_identity(lane::<GfElem>(before, l, row, e));
            }
        }
        while t < sources.len()
            invariant
                t <= sources@.len(),
                at == t * rows,
                l == symbol_len,
                lanes == lane_count::<GfElem>(l),
                whole_lanes::<GfElem>(l),
                flat == flat_coefficient(coefficients@, rows as int),
                bytes == source_bytes(sources@),
                before.len() == rows * symbol_len,
                destinations@.len() == before.len(),
                coefficients@.len() == sources@.len() * rows,
                forall|s: int|
                    0 <= s < sources@.len() ==> (#[trigger] sources@[s])@.len() == symbol_len,
                forall|row: int, e: int|
                    0 <= row < rows && 0 <= e < lanes ==> #[trigger] lane::<GfElem>(
                        destinations@,
                        l,
                        row,
                        e,
                    ) == lane::<GfElem>(before, l, row, e).plus(
                        terms_at(flat, bytes, t as int, l, row, e),
                    ),
            decreases sources@.len() - t,
        {
            let available: usize = coefficients.len();
            proof {
                row_bounds(t as int, sources@.len() as int, rows as int);
            }
            let ghost start = destinations@;
            let mut row: usize = 0;
            while row < rows
                invariant
                    row <= rows,
                    t < sources@.len(),
                    at == t * rows,
                    at + rows <= available,
                    available == coefficients@.len(),
                    l == symbol_len,
                    lanes == lane_count::<GfElem>(l),
                    whole_lanes::<GfElem>(l),
                    destinations@.len() == rows * symbol_len,
                    forall|s: int|
                        0 <= s < sources@.len() ==> (#[trigger] sources@[s])@.len() == symbol_len,
                    forall|other: int, e: int|
                        0 <= other < rows && 0 <= e < lanes ==> #[trigger] lane::<GfElem>(
                            destinations@,
                            l,
                            other,
                            e,
                        ) == if other < row {
                            lane::<GfElem>(start, l, other, e).plus(
                                coefficients@[at + other].times(
                                    lane::<GfElem>(sources@[t as int]@, l, 0, e),
                                ),
                            )
                        } else {
                            lane::<GfElem>(start, l, other, e)
                        },
                decreases rows - row,
            {
                scale_into_row(
                    destinations,
                    row,
                    rows,
                    symbol_len,
                    coefficients[at + row],
                    sources[t],
                );
                row += 1;
            }
            proof {
                assert forall|row: int, e: int|
                    0 <= row < rows && 0 <= e < lanes implies #[trigger] lane::<GfElem>(
                    destinations@,
                    l,
                    row,
                    e,
                ) == lane::<GfElem>(before, l, row, e).plus(
                    terms_at(flat, bytes, t + 1, l, row, e),
                ) by {
                    let first = lane::<GfElem>(before, l, row, e);
                    let done = terms_at(flat, bytes, t as int, l, row, e);
                    let term = |t: int| flat(t, row).times(lane::<GfElem>(bytes(t), l, 0, e));
                    assert(lane::<GfElem>(start, l, row, e) == first.plus(done));
                    assert(terms_at(flat, bytes, t + 1, l, row, e) == done.plus(term(t as int)));
                    GfElem::plus_associates(first, done, term(t as int));
                }
            }
            at += rows;
            t += 1;
        }
    }
}

} // verus!
