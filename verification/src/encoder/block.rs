//! Block-final Cauchy encoding.

use vstd::prelude::*;

use crate::algebra::cauchy::cauchy_entry;
use crate::algebra::linear_code::codeword;
use crate::algebra::sums::{sum, sum_congruent};
use crate::codec::holds_repairs;
use crate::decoder::reduced::{combine_sources, combined, holds_combined};
use crate::matrices::coding_matrix::{
    is_coefficient_table, point_code, point_coef, PointSet,
};
use crate::payload::{flat_coefficient, row_slice, source_bytes, PayloadElement, RowCombiner};
use crate::symbols::{
    lane, lane_count, lane_message, lane_of_row, row_bounds, row_of, symbol_from_lanes, whole_lanes,
};

verus! {

/// The rows of a block as slices.
pub fn rows_of<'a>(bytes: &'a [u8], count: usize, symbol_len: usize) -> (r: Vec<&'a [u8]>)
    requires
        bytes@.len() == count * symbol_len,
    ensures
        r@.len() == count,
        forall|t: int|
            0 <= t < count ==> (#[trigger] r@[t])@ == row_of(bytes@, symbol_len as int, t) && r@[t]@.len()
                == symbol_len,
{
    let mut rows: Vec<&'a [u8]> = Vec::new();
    let mut t: usize = 0;
    while t < count
        invariant
            t <= count,
            bytes@.len() == count * symbol_len,
            rows@.len() == t,
            forall|s: int|
                0 <= s < t ==> (#[trigger] rows@[s])@ == row_of(bytes@, symbol_len as int, s)
                    && rows@[s]@.len() == symbol_len,
        decreases count - t,
    {
        proof {
            row_bounds(t as int, count as int, symbol_len as int);
        }
        rows.push(row_slice(bytes, t, symbol_len));
        t += 1;
    }
    rows
}

/// Combining all data rows with the coefficient table gives the repair symbols.
pub proof fn combined_rows_are_repairs<F: PayloadElement, P: PointSet<F>>(
    k: int,
    m: int,
    symbol_len: int,
    table: Seq<F>,
    sources: Seq<&[u8]>,
    data: Seq<u8>,
    repairs: Seq<u8>,
)
    requires
        k >= 0,
        m >= 0,
        whole_lanes::<F>(symbol_len),
        data.len() == k * symbol_len,
        is_coefficient_table::<F, P>(k, m, table),
        sources.len() == k,
        forall|t: int|
            0 <= t < k ==> (#[trigger] sources[t])@ == row_of(data, symbol_len, t),
        holds_combined(table, sources, m, symbol_len, repairs),
    ensures
        holds_repairs(point_code::<F, P>(k, m, symbol_len), data, repairs),
{
    let coef = point_coef::<F, P>(k);
    let code = point_code::<F, P>(k, m, symbol_len);
    assert forall|j: int| 0 <= j < m implies row_of(repairs, symbol_len, j)
        == #[trigger] (code.symbol)(data, k + j) by {
        row_bounds(j, m, symbol_len);
        let payload = row_of(repairs, symbol_len, j);
        assert forall|e: int| 0 <= e < lane_count::<F>(symbol_len) implies #[trigger] lane::<F>(
            payload,
            symbol_len,
            0,
            e,
        ) == codeword(coef, k, lane_message(data, symbol_len, e), k + j) by {
            lane_of_row::<F>(repairs, symbol_len, j, m, e);
            let message = lane_message::<F>(data, symbol_len, e);
            let flat = flat_coefficient(table, m);
            let bytes = source_bytes(sources);
            let left = |t: int| flat(t, j).times(lane::<F>(bytes(t), symbol_len, 0, e));
            let right = |i: int| coef(k + j - k, i).times(message(i));
            assert forall|t: int| 0 <= t < k implies #[trigger] left(t) == right(t) by {
                assert(table[t * m + j] == cauchy_entry(P::point(k + j), P::point(t)));
                assert(sources[t]@ == row_of(data, symbol_len, t));
                lane_of_row::<F>(data, symbol_len, t, k, e);
            }
            sum_congruent(left, right, k);
            assert(combined(table, sources, m, symbol_len, j, e) == sum(left, k));
        }
        symbol_from_lanes(coef, k, symbol_len, data, k + j, payload);
    }
}

/// Overwrites `repairs` with every repair symbol of `data`.
pub fn encode_rows<F: RowCombiner, P: PointSet<F>>(
    k: usize,
    m: usize,
    symbol_len: usize,
    table: &[F],
    data: &[u8],
    repairs: &mut [u8],
)
    requires
        whole_lanes::<F>(symbol_len as int),
        data@.len() == k * symbol_len,
        old(repairs)@.len() == m * symbol_len,
        is_coefficient_table::<F, P>(k as int, m as int, table@),
    ensures
        holds_repairs(
            point_code::<F, P>(k as int, m as int, symbol_len as int),
            data@,
            final(repairs)@,
        ),
{
    let sources = rows_of(data, k, symbol_len);
    combine_sources(table, &sources, m, symbol_len, repairs);
    proof {
        combined_rows_are_repairs::<F, P>(
            k as int,
            m as int,
            symbol_len as int,
            table@,
            sources@,
            data@,
            repairs@,
        );
    }
}

} // verus!
