//! Payload kernels over packed field elements.
//!
//! The library decides which rows and which coefficients take part; the `fgf`
//! crate moves the bytes.

use vstd::prelude::*;

use crate::algebra::field::FieldElement;
use crate::algebra::gf256::GfElem;
use crate::algebra::sums::sum_congruent;
use crate::codec::with_symbol;
use crate::symbols::{
    lane, lane_bounds, lane_congruent, lane_count, lane_of_row, row_bounds, row_of, rows_apart,
    scaled_into, scaled_into_rows, terms_at, terms_into_rows, whole_lanes,
};

verus! {

/// A field whose packed elements can be scaled and accumulated in place.
pub trait PayloadElement: FieldElement {
    /// Bytes per element.
    fn element_width() -> (r: usize)
        ensures
            r == Self::width(),
    ;

    /// `dst += coefficient * src`.
    fn scale_into(dst: &mut [u8], coefficient: Self, src: &[u8])
        requires
            old(dst)@.len() == src@.len(),
            whole_lanes::<Self>(src@.len() as int),
        ensures
            scaled_into(old(dst)@, final(dst)@, coefficient, src@),
    ;

    /// `destinations[row] += coefficients[row] * src` for every row.
    fn scale_into_rows(
        destinations: &mut [u8],
        symbol_len: usize,
        coefficients: &[Self],
        src: &[u8],
    )
        requires
            src@.len() == symbol_len,
            old(destinations)@.len() == coefficients@.len() * symbol_len,
            whole_lanes::<Self>(symbol_len as int),
        ensures
            scaled_into_rows(
                old(destinations)@,
                final(destinations)@,
                symbol_len as int,
                coefficients@,
                src@,
            ),
    ;
}

/// A field whose packed elements can be combined from many sources at once.
pub trait RowCombiner: PayloadElement {
    /// `destinations[row] += coefficients[t * rows + row] * sources[t]` for every
    /// row and every source.
    fn combine_into_rows(
        destinations: &mut [u8],
        symbol_len: usize,
        rows: usize,
        coefficients: &[Self],
        sources: &[&[u8]],
    )
        requires
            old(destinations)@.len() == rows * symbol_len,
            coefficients@.len() == sources@.len() * rows,
            forall|t: int| 0 <= t < sources@.len() ==> (#[trigger] sources@[t])@.len() == symbol_len,
            whole_lanes::<Self>(symbol_len as int),
        ensures
            terms_into_rows(
                old(destinations)@,
                final(destinations)@,
                symbol_len as int,
                rows as int,
                flat_coefficient(coefficients@, rows as int),
                source_bytes(sources@),
                sources@.len() as int,
            ),
    ;
}

/// Row-major coefficients, one row per term.
pub open spec fn flat_coefficient<F>(coefficients: Seq<F>, rows: int) -> spec_fn(int, int) -> F {
    |t: int, row: int| coefficients[t * rows + row]
}

/// Bytes of the sources.
pub open spec fn source_bytes(sources: Seq<&[u8]>) -> spec_fn(int) -> Seq<u8> {
    |t: int| sources[t]@
}

/// Overwrites row `row` with `src`.
pub fn copy_row(out: &mut [u8], row: usize, symbol_len: usize, src: &[u8])
    requires
        src@.len() == symbol_len,
        row * symbol_len + symbol_len <= old(out)@.len(),
    ensures
        final(out)@ == with_symbol(old(out)@, symbol_len as int, row as int, src@),
        row_of(final(out)@, symbol_len as int, row as int) == src@,
        forall|other: int|
            0 <= other && other != row && other * symbol_len + symbol_len <= old(out)@.len()
                ==> #[trigger] row_of(final(out)@, symbol_len as int, other) == row_of(
                old(out)@,
                symbol_len as int,
                other,
            ),
{
    let available: usize = out.len();
    proof {
        assert(0 <= row * symbol_len) by (nonlinear_arith);
    }
    let start: usize = row * symbol_len;
    let mut b: usize = 0;
    while b < symbol_len
        invariant
            b <= symbol_len,
            src@.len() == symbol_len,
            start == row * symbol_len,
            available == out@.len() == old(out)@.len(),
            start + symbol_len <= available,
            forall|t: int|
                0 <= t < available ==> #[trigger] out@[t] == if start <= t < start + b {
                    src@[t - start]
                } else {
                    old(out)@[t]
                },
        decreases symbol_len - b,
    {
        out[start + b] = src[b];
        b += 1;
    }
    proof {
        assert(out@ =~= with_symbol(old(out)@, symbol_len as int, row as int, src@));
        assert(row_of(out@, symbol_len as int, row as int) =~= src@);
        assert forall|other: int|
            0 <= other && other != row && other * symbol_len + symbol_len <= old(
                out,
            )@.len() implies #[trigger] row_of(out@, symbol_len as int, other) == row_of(
            old(out)@,
            symbol_len as int,
            other,
        ) by {
            assert(0 <= other * symbol_len) by (nonlinear_arith)
                requires
                    0 <= other,
                    0 <= symbol_len,
            ;
            if other < row {
                rows_apart(other, row as int, symbol_len as int);
            } else {
                rows_apart(row as int, other, symbol_len as int);
            }
            assert(row_of(out@, symbol_len as int, other) =~= row_of(
                old(out)@,
                symbol_len as int,
                other,
            ));
        }
    }
}

/// Row `row` as a slice.
pub fn row_slice<'a>(bytes: &'a [u8], row: usize, symbol_len: usize) -> (r: &'a [u8])
    requires
        row * symbol_len + symbol_len <= bytes@.len(),
    ensures
        r@ == row_of(bytes@, symbol_len as int, row as int),
{
    let available: usize = bytes.len();
    proof {
        assert(0 <= row * symbol_len) by (nonlinear_arith);
    }
    let start: usize = row * symbol_len;
    vstd::slice::slice_subrange(bytes, start, start + symbol_len)
}

/// `destinations[row] += coefficient * src`, leaving the other rows alone.
pub fn scale_into_row<F: PayloadElement>(
    destinations: &mut [u8],
    row: usize,
    rows: usize,
    symbol_len: usize,
    coefficient: F,
    src: &[u8],
)
    requires
        row < rows,
        old(destinations)@.len() == rows * symbol_len,
        src@.len() == symbol_len,
        whole_lanes::<F>(symbol_len as int),
    ensures
        final(destinations)@.len() == old(destinations)@.len(),
        forall|other: int, e: int|
            0 <= other < rows && 0 <= e < lane_count::<F>(symbol_len as int) ==> #[trigger] lane::<
                F,
            >(final(destinations)@, symbol_len as int, other, e) == if other == row {
                lane::<F>(old(destinations)@, symbol_len as int, other, e).plus(
                    coefficient.times(lane::<F>(src@, symbol_len as int, 0, e)),
                )
            } else {
                lane::<F>(old(destinations)@, symbol_len as int, other, e)
            },
{
    let ghost l = symbol_len as int;
    let ghost before = destinations@;
    let available: usize = destinations.len();
    proof {
        row_bounds(row as int, rows as int, l);
    }
    let start: usize = row * symbol_len;
    let (head, tail) = destinations.split_at_mut(start);
    let (middle, rest) = tail.split_at_mut(symbol_len);
    let ghost old_middle = middle@;
    F::scale_into(middle, coefficient, src);
    let ghost new_middle = middle@;
    proof {
        assert(head@ + (new_middle + rest@) =~= before.subrange(0, start as int) + (new_middle
            + before.subrange(start + symbol_len, before.len() as int)));
    }
    proof {
        let after = destinations@;
        assert(after == before.subrange(0, start as int) + (new_middle + before.subrange(
            start + symbol_len,
            before.len() as int,
        )));
        assert(old_middle =~= row_of(before, l, row as int));
        assert(new_middle =~= row_of(after, l, row as int));
        assert forall|other: int, e: int|
            0 <= other < rows && 0 <= e < lane_count::<F>(l) implies #[trigger] lane::<F>(
            after,
            l,
            other,
            e,
        ) == if other == row {
            lane::<F>(before, l, other, e).plus(coefficient.times(lane::<F>(src@, l, 0, e)))
        } else {
            lane::<F>(before, l, other, e)
        } by {
            row_bounds(other, rows as int, l);
            if other == row {
                lane_of_row::<F>(before, l, other, rows as int, e);
                lane_of_row::<F>(after, l, other, rows as int, e);
                assert(lane::<F>(new_middle, l, 0, e) == lane::<F>(old_middle, l, 0, e).plus(
                    coefficient.times(lane::<F>(src@, l, 0, e)),
                ));
            } else {
                if other < row {
                    rows_apart(other, row as int, l);
                } else {
                    rows_apart(row as int, other, l);
                }
                assert forall|t: int|
                    #![trigger before[other * l + t]]
                    0 <= t < l implies after[other * l + t] == before[other * l + t] by {
                }
                lane_congruent::<F>(after, other, before, other, l, e);
            }
        }
    }
}

/// The lanes of a zero block are zero.
pub proof fn lane_of_zeros<F: FieldElement>(bytes: Seq<u8>, symbol_len: int, row: int, e: int)
    requires
        whole_lanes::<F>(symbol_len),
        0 <= e < lane_count::<F>(symbol_len),
        forall|t: int| 0 <= t < symbol_len ==> bytes[#[trigger] (row * symbol_len + t)] == 0,
    ensures
        lane::<F>(bytes, symbol_len, row, e) == F::zero_elem(),
{
    lane_bounds::<F>(symbol_len, e);
    let at = e * F::width();
    assert forall|p: int| 0 <= p < F::width() implies bytes[row * symbol_len + at + p]
        == #[trigger] F::zero_elem().byte_of(p) by {
        F::zero_is_zero_bytes(p);
        assert(bytes[row * symbol_len + (at + p)] == 0);
    }
    F::read_of_bytes(bytes, row * symbol_len + at, F::zero_elem());
}

/// XORs a scaled source symbol into a destination symbol:
/// `dst ^= coefficient * src`.
///
/// Calls `fgf::ops::mul_add` for the field modulo `x^8 + x^4 + x^3 + x + 1`,
/// which adds `coefficient * src` to `dst` element by element and panics unless
/// both slices have the same length.
#[verifier::external_body]
pub fn xor_scaled_bytes(dst: &mut [u8], coefficient: GfElem, src: &[u8])
    requires
        old(dst)@.len() == src@.len(),
    ensures
        scaled_into(old(dst)@, final(dst)@, coefficient, src@),
{
    fgf::ops::mul_add::<fgf::Gf8B>(dst, fgf::field::gf8b::Elem::from_raw(coefficient.0), src);
}

/// Applies many source terms to one contiguous group of flat destination rows.
///
/// `dst` is `row_count` rows of `symbol_len` bytes; each term supplies one
/// coefficient per row. Calls `fgf::ops::mul_add_matrix`, which adds
/// `coefficients[row] * source` of every term to every row and panics unless the
/// shapes agree.
#[verifier::external_body]
pub fn xor_scaled_bytes_rows_terms(
    dst: &mut [u8],
    symbol_len: usize,
    row_count: usize,
    terms: &[(&[GfElem], &[u8])],
)
    requires
        old(dst)@.len() == row_count * symbol_len,
        forall|t: int|
            0 <= t < terms@.len() ==> (#[trigger] terms@[t]).0@.len() == row_count
                && terms@[t].1@.len() == symbol_len,
    ensures
        terms_into_rows(
            old(dst)@,
            final(dst)@,
            symbol_len as int,
            row_count as int,
            |t: int, row: int| terms@[t].0@[row],
            |t: int| terms@[t].1@,
            terms@.len() as int,
        ),
{
    let coefficients: Vec<Vec<fgf::field::gf8b::Elem>> = terms.iter().map(
        |term| term.0.iter().map(|c| fgf::field::gf8b::Elem::from_raw(c.0)).collect(),
    ).collect();
    let converted: Vec<(&[fgf::field::gf8b::Elem], &[u8])> = coefficients.iter().zip(terms).map(
        |(c, term)| (c.as_slice(), term.1),
    ).collect();
    fgf::ops::mul_add_matrix::<fgf::Gf8B>(dst, symbol_len, row_count, &converted);
}

/// XORs one source symbol into every row of a flat destination buffer, each row
/// scaled by its own coefficient.
///
/// Calls `fgf::ops::mul_add_scatter`, which adds `coefficients[row] * src` to
/// every row and panics unless the shapes agree.
#[verifier::external_body]
pub fn xor_scaled_bytes_rows(
    destinations: &mut [u8],
    symbol_len: usize,
    coefficients: &[GfElem],
    src: &[u8],
)
    requires
        src@.len() == symbol_len,
        old(destinations)@.len() == coefficients@.len() * symbol_len,
    ensures
        scaled_into_rows(
            old(destinations)@,
            final(destinations)@,
            symbol_len as int,
            coefficients@,
            src@,
        ),
{
    let converted: Vec<fgf::field::gf8b::Elem> = coefficients.iter().map(
        |c| fgf::field::gf8b::Elem::from_raw(c.0),
    ).collect();
    fgf::ops::mul_add_scatter::<fgf::Gf8B>(destinations, symbol_len, &converted, src);
}

impl PayloadElement for GfElem {
    fn element_width() -> (r: usize) {
        1
    }

    fn scale_into(dst: &mut [u8], coefficient: Self, src: &[u8]) {
        xor_scaled_bytes(dst, coefficient, src);
    }

    fn scale_into_rows(
        destinations: &mut [u8],
        symbol_len: usize,
        coefficients: &[Self],
        src: &[u8],
    ) {
        xor_scaled_bytes_rows(destinations, symbol_len, coefficients, src);
    }
}

impl RowCombiner for GfElem {
    fn combine_into_rows(
        destinations: &mut [u8],
        symbol_len: usize,
        rows: usize,
        coefficients: &[Self],
        sources: &[&[u8]],
    ) {
        let mut terms: Vec<(&[GfElem], &[u8])> = Vec::new();
        let mut t: usize = 0;
        let mut at: usize = 0;
        while t < sources.len()
            invariant
                t <= sources@.len(),
                at == t * rows,
                coefficients@.len() == sources@.len() * rows,
                forall|s: int|
                    0 <= s < sources@.len() ==> (#[trigger] sources@[s])@.len() == symbol_len,
                terms@.len() == t,
                forall|s: int|
                    0 <= s < t ==> (#[trigger] terms@[s]).1@ == sources@[s]@ && terms@[s].0@
                        == coefficients@.subrange(s * rows, s * rows + rows),
            decreases sources@.len() - t,
        {
            let available: usize = coefficients.len();
            proof {
                row_bounds(t as int, sources@.len() as int, rows as int);
            }
            terms.push(
                (vstd::slice::slice_subrange(coefficients, at, at + rows), sources[t]),
            );
            at += rows;
            t += 1;
        }
        proof {
            assert forall|s: int| 0 <= s < terms@.len() implies (#[trigger] terms@[s]).0@.len()
                == rows && terms@[s].1@.len() == symbol_len by {
                row_bounds(s, sources@.len() as int, rows as int);
            }
        }
        let ghost before = destinations@;
        xor_scaled_bytes_rows_terms(destinations, symbol_len, rows, &terms);
        proof {
            let flat = flat_coefficient(coefficients@, rows as int);
            let bytes = source_bytes(sources@);
            let own = |t: int, row: int| terms@[t].0@[row];
            let own_bytes = |t: int| terms@[t].1@;
            let l = symbol_len as int;
            let count = sources@.len() as int;
            assert forall|row: int, e: int|
                0 <= row < rows && 0 <= e < lane_count::<GfElem>(l) implies #[trigger] lane::<
                GfElem,
            >(destinations@, l, row, e) == lane::<GfElem>(before, l, row, e).plus(
                terms_at(flat, bytes, count, l, row, e),
            ) by {
                let left = |t: int| own(t, row).times(lane::<GfElem>(own_bytes(t), l, 0, e));
                let right = |t: int| flat(t, row).times(lane::<GfElem>(bytes(t), l, 0, e));
                assert forall|t: int| 0 <= t < count implies #[trigger] left(t) == right(t) by {
                    assert(terms@[t].1@ == sources@[t]@);
                    row_bounds(t, count, rows as int);
                }
                sum_congruent(left, right, count);
                assert(terms_at(own, own_bytes, count, l, row, e) == terms_at(
                    flat,
                    bytes,
                    count,
                    l,
                    row,
                    e,
                ));
            }
        }
    }
}

} // verus!
