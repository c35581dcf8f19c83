//! Symbols as rows of packed field elements.
//!
//! A block of symbols is one flat byte buffer; symbol `row` occupies
//! `symbol_len` bytes from `row * symbol_len`. Its bytes are a sequence of
//! encoded field elements, its lanes, and every code acts on each lane
//! separately.

use vstd::prelude::*;

use crate::algebra::field::FieldElement;
use crate::algebra::interpolation::distinct;
use crate::algebra::linear_code::{
    codeword, folded, inverts, partition, solved, solved_message_agrees,
};
use crate::algebra::sums::{sum, sum_congruent};
use crate::codec::{Code, Engine};

verus! {

/// Lane `e` of symbol `row`.
pub open spec fn lane<F: FieldElement>(bytes: Seq<u8>, symbol_len: int, row: int, e: int) -> F {
    F::read_at(bytes, row * symbol_len + e * F::width())
}

/// Number of lanes in a symbol.
pub open spec fn lane_count<F: FieldElement>(symbol_len: int) -> int {
    symbol_len / F::width()
}

/// A symbol length that holds whole elements.
pub open spec fn whole_lanes<F: FieldElement>(symbol_len: int) -> bool {
    symbol_len >= 0 && symbol_len % F::width() == 0
}

/// Bytes of symbol `row`.
pub open spec fn row_of(bytes: Seq<u8>, symbol_len: int, row: int) -> Seq<u8> {
    bytes.subrange(row * symbol_len, row * symbol_len + symbol_len)
}

/// The message in lane `e` of a flat data block.
pub open spec fn lane_message<F: FieldElement>(
    data: Seq<u8>,
    symbol_len: int,
    e: int,
) -> spec_fn(int) -> F {
    |i: int| lane(data, symbol_len, i, e)
}

/// Symbol `index` of the codeword for a flat block of `k` data symbols.
pub open spec fn codeword_symbol<F: FieldElement>(
    coef: spec_fn(int, int) -> F,
    k: int,
    symbol_len: int,
    data: Seq<u8>,
    index: int,
) -> Seq<u8> {
    Seq::new(
        symbol_len as nat,
        |b: int|
            codeword(coef, k, lane_message(data, symbol_len, b / F::width()), index).byte_of(
                b % F::width(),
            ),
    )
}

/// `after` is `before` with `coefficient * src` added to every lane.
pub open spec fn scaled_into<F: FieldElement>(
    before: Seq<u8>,
    after: Seq<u8>,
    coefficient: F,
    src: Seq<u8>,
) -> bool {
    &&& after.len() == before.len()
    &&& forall|e: int|
        0 <= e < lane_count::<F>(before.len() as int) ==> #[trigger] lane::<F>(
            after,
            before.len() as int,
            0,
            e,
        ) == lane::<F>(before, before.len() as int, 0, e).plus(
            coefficient.times(lane::<F>(src, before.len() as int, 0, e)),
        )
}

/// `after` is `before` with `coefficients[row] * src` added to every lane of
/// every row.
pub open spec fn scaled_into_rows<F: FieldElement>(
    before: Seq<u8>,
    after: Seq<u8>,
    symbol_len: int,
    coefficients: Seq<F>,
    src: Seq<u8>,
) -> bool {
    &&& after.len() == before.len()
    &&& forall|row: int, e: int|
        0 <= row < coefficients.len() && 0 <= e < lane_count::<F>(symbol_len) ==> #[trigger] lane::<
            F,
        >(after, symbol_len, row, e) == lane::<F>(before, symbol_len, row, e).plus(
            coefficients[row].times(lane::<F>(src, symbol_len, 0, e)),
        )
}

/// The contribution of all terms to lane `e` of row `row`: term `t` pairs one
/// coefficient per row with one source symbol.
pub open spec fn terms_at<F: FieldElement>(
    coefficients: spec_fn(int, int) -> F,
    sources: spec_fn(int) -> Seq<u8>,
    count: int,
    symbol_len: int,
    row: int,
    e: int,
) -> F {
    sum(
        |t: int| coefficients(t, row).times(lane::<F>(sources(t), symbol_len, 0, e)),
        count,
    )
}

/// `after` is `before` with every term added to every row.
pub open spec fn terms_into_rows<F: FieldElement>(
    before: Seq<u8>,
    after: Seq<u8>,
    symbol_len: int,
    rows: int,
    coefficients: spec_fn(int, int) -> F,
    sources: spec_fn(int) -> Seq<u8>,
    count: int,
) -> bool {
    &&& after.len() == before.len()
    &&& forall|row: int, e: int|
        0 <= row < rows && 0 <= e < lane_count::<F>(symbol_len) ==> #[trigger] lane::<F>(
            after,
            symbol_len,
            row,
            e,
        ) == lane::<F>(before, symbol_len, row, e).plus(
            terms_at(coefficients, sources, count, symbol_len, row, e),
        )
}

/// `i * len` for rows of a block stays inside the block.
pub proof fn row_bounds(row: int, rows: int, symbol_len: int)
    requires
        0 <= row < rows,
        symbol_len >= 0,
    ensures
        0 <= row * symbol_len,
        row * symbol_len + symbol_len <= rows * symbol_len,
        (row + 1) * symbol_len == row * symbol_len + symbol_len,
{
    assert(0 <= row * symbol_len && row * symbol_len + symbol_len <= rows * symbol_len && (row + 1)
        * symbol_len == row * symbol_len + symbol_len) by (nonlinear_arith)
        requires
            0 <= row < rows,
            symbol_len >= 0,
    ;
}

/// Rows do not overlap.
pub proof fn rows_apart(a: int, b: int, symbol_len: int)
    requires
        a < b,
        symbol_len >= 0,
    ensures
        a * symbol_len + symbol_len <= b * symbol_len,
{
    assert(a * symbol_len + symbol_len <= b * symbol_len) by (nonlinear_arith)
        requires
            a < b,
            symbol_len >= 0,
    ;
}

/// A lane lies inside its symbol.
pub proof fn lane_bounds<F: FieldElement>(symbol_len: int, e: int)
    requires
        whole_lanes::<F>(symbol_len),
        0 <= e < lane_count::<F>(symbol_len),
    ensures
        0 <= e * F::width(),
        e * F::width() + F::width() <= symbol_len,
        1 <= F::width() <= 2,
{
    F::width_is_positive();
    let w = F::width();
    assert(0 <= e * w && e * w + w <= symbol_len) by (nonlinear_arith)
        requires
            w >= 1,
            0 <= e < symbol_len / w,
    ;
}

/// Every byte belongs to a lane.
pub proof fn byte_in_lane<F: FieldElement>(symbol_len: int, b: int)
    requires
        whole_lanes::<F>(symbol_len),
        0 <= b < symbol_len,
    ensures
        0 <= b / F::width() < lane_count::<F>(symbol_len),
        0 <= b % F::width() < F::width(),
        b == (b / F::width()) * F::width() + b % F::width(),
{
    F::width_is_positive();
    let w = F::width();
    assert(0 <= b / w < symbol_len / w && 0 <= b % w < w && b == (b / w) * w + b % w)
        by (nonlinear_arith)
        requires
            1 <= w <= 2,
            0 <= b < symbol_len,
            symbol_len % w == 0,
    ;
}

/// The byte at position `p` of lane `e` splits back into `e` and `p`.
pub proof fn lane_of_byte<F: FieldElement>(e: int, p: int)
    requires
        0 <= e,
        0 <= p < F::width(),
    ensures
        (e * F::width() + p) / F::width() == e,
        (e * F::width() + p) % F::width() == p,
{
    F::width_is_positive();
    let w = F::width();
    assert((e * w + p) / w == e && (e * w + p) % w == p) by (nonlinear_arith)
        requires
            1 <= w <= 2,
            0 <= e,
            0 <= p < w,
    ;
}

/// Equal bytes read as equal elements.
pub proof fn read_congruent<F: FieldElement>(a: Seq<u8>, a_at: int, b: Seq<u8>, b_at: int)
    requires
        forall|p: int| #![trigger b[b_at + p]] 0 <= p < F::width() ==> a[a_at + p] == b[b_at + p],
    ensures
        F::read_at(a, a_at) == F::read_at(b, b_at),
{
    let value = F::read_at(b, b_at);
    assert forall|p: int| 0 <= p < F::width() implies a[a_at + p] == #[trigger] value.byte_of(
        p,
    ) by {
        F::bytes_of_read(b, b_at, p);
        assert(a[a_at + p] == b[b_at + p]);
    }
    F::read_of_bytes(a, a_at, value);
}

/// Equal elements were read from equal bytes.
pub proof fn bytes_congruent<F: FieldElement>(
    a: Seq<u8>,
    a_at: int,
    b: Seq<u8>,
    b_at: int,
    p: int,
)
    requires
        F::read_at(a, a_at) == F::read_at(b, b_at),
        0 <= p < F::width(),
    ensures
        a[a_at + p] == b[b_at + p],
{
    F::bytes_of_read(a, a_at, p);
    F::bytes_of_read(b, b_at, p);
}

/// Rows with equal bytes have equal lanes.
pub proof fn lane_congruent<F: FieldElement>(
    a: Seq<u8>,
    a_row: int,
    b: Seq<u8>,
    b_row: int,
    symbol_len: int,
    e: int,
)
    requires
        whole_lanes::<F>(symbol_len),
        0 <= e < lane_count::<F>(symbol_len),
        forall|t: int|
            #![trigger b[b_row * symbol_len + t]]
            0 <= t < symbol_len ==> a[a_row * symbol_len + t] == b[b_row * symbol_len + t],
    ensures
        lane::<F>(a, symbol_len, a_row, e) == lane::<F>(b, symbol_len, b_row, e),
{
    lane_bounds::<F>(symbol_len, e);
    let at = e * F::width();
    assert forall|p: int|
        #![trigger b[b_row * symbol_len + at + p]]
        0 <= p < F::width() implies a[a_row * symbol_len + at + p] == b[b_row * symbol_len + at
        + p] by {
        assert(b[b_row * symbol_len + (at + p)] == a[a_row * symbol_len + (at + p)]);
    }
    read_congruent::<F>(a, a_row * symbol_len + at, b, b_row * symbol_len + at);
}

/// A row cut out of a block keeps its lanes.
pub proof fn lane_of_row<F: FieldElement>(
    bytes: Seq<u8>,
    symbol_len: int,
    row: int,
    rows: int,
    e: int,
)
    requires
        whole_lanes::<F>(symbol_len),
        0 <= e < lane_count::<F>(symbol_len),
        0 <= row < rows,
        bytes.len() >= rows * symbol_len,
    ensures
        lane::<F>(row_of(bytes, symbol_len, row), symbol_len, 0, e) == lane::<F>(
            bytes,
            symbol_len,
            row,
            e,
        ),
{
    row_bounds(row, rows, symbol_len);
    let cut = row_of(bytes, symbol_len, row);
    assert forall|t: int|
        #![trigger bytes[row * symbol_len + t]]
        0 <= t < symbol_len implies cut[0 * symbol_len + t] == bytes[row * symbol_len + t] by {
        assert(cut[t] == bytes[row * symbol_len + t]);
    }
    lane_congruent::<F>(cut, 0, bytes, row, symbol_len, e);
}

/// Rows with equal lanes have equal bytes.
pub proof fn lanes_determine_row<F: FieldElement>(
    a: Seq<u8>,
    a_row: int,
    b: Seq<u8>,
    b_row: int,
    symbol_len: int,
)
    requires
        whole_lanes::<F>(symbol_len),
        forall|e: int|
            0 <= e < lane_count::<F>(symbol_len) ==> #[trigger] lane::<F>(a, symbol_len, a_row, e)
                == lane::<F>(b, symbol_len, b_row, e),
    ensures
        forall|t: int|
            #![trigger b[b_row * symbol_len + t]]
            #![trigger a[a_row * symbol_len + t]]
            0 <= t < symbol_len ==> a[a_row * symbol_len + t] == b[b_row * symbol_len + t],
{
    assert forall|t: int|
        #![trigger b[b_row * symbol_len + t]]
        0 <= t < symbol_len implies a[a_row * symbol_len + t] == b[b_row * symbol_len + t] by {
        byte_in_lane::<F>(symbol_len, t);
        let e = t / F::width();
        let p = t % F::width();
        assert(lane::<F>(a, symbol_len, a_row, e) == lane::<F>(b, symbol_len, b_row, e));
        bytes_congruent::<F>(
            a,
            a_row * symbol_len + e * F::width(),
            b,
            b_row * symbol_len + e * F::width(),
            p,
        );
        assert(a_row * symbol_len + e * F::width() + p == a_row * symbol_len + t);
        assert(b_row * symbol_len + e * F::width() + p == b_row * symbol_len + t);
    }
}

/// A lane of a codeword symbol is the codeword of that lane's message.
pub proof fn lane_of_symbol<F: FieldElement>(
    coef: spec_fn(int, int) -> F,
    k: int,
    symbol_len: int,
    data: Seq<u8>,
    index: int,
    e: int,
)
    requires
        whole_lanes::<F>(symbol_len),
        0 <= e < lane_count::<F>(symbol_len),
    ensures
        lane::<F>(codeword_symbol(coef, k, symbol_len, data, index), symbol_len, 0, e) == codeword(
            coef,
            k,
            lane_message(data, symbol_len, e),
            index,
        ),
{
    lane_bounds::<F>(symbol_len, e);
    let s = codeword_symbol(coef, k, symbol_len, data, index);
    let value = codeword(coef, k, lane_message(data, symbol_len, e), index);
    let at = e * F::width();
    assert(0 * symbol_len + at == at);
    assert forall|p: int| 0 <= p < F::width() implies s[at + p] == #[trigger] value.byte_of(
        p,
    ) by {
        lane_of_byte::<F>(e, p);
    }
    F::read_of_bytes(s, at, value);
}

/// A payload whose lanes are those of a codeword symbol is that symbol.
pub proof fn symbol_from_lanes<F: FieldElement>(
    coef: spec_fn(int, int) -> F,
    k: int,
    symbol_len: int,
    data: Seq<u8>,
    index: int,
    payload: Seq<u8>,
)
    requires
        whole_lanes::<F>(symbol_len),
        payload.len() == symbol_len,
        forall|e: int|
            0 <= e < lane_count::<F>(symbol_len) ==> #[trigger] lane::<F>(
                payload,
                symbol_len,
                0,
                e,
            ) == codeword(coef, k, lane_message(data, symbol_len, e), index),
    ensures
        payload == codeword_symbol(coef, k, symbol_len, data, index),
{
    let s = codeword_symbol(coef, k, symbol_len, data, index);
    assert forall|e: int| 0 <= e < lane_count::<F>(symbol_len) implies #[trigger] lane::<F>(
        payload,
        symbol_len,
        0,
        e,
    ) == lane::<F>(s, symbol_len, 0, e) by {
        lane_of_symbol(coef, k, symbol_len, data, index, e);
    }
    lanes_determine_row::<F>(payload, 0, s, 0, symbol_len);
    assert forall|t: int| 0 <= t < symbol_len implies payload[t] == s[t] by {
        assert(payload[0 * symbol_len + t] == s[0 * symbol_len + t]);
    }
    assert(payload =~= s);
}

/// Codes are systematic: the first `k` symbols of a codeword are the data.
pub proof fn systematic_symbol<F: FieldElement>(
    coef: spec_fn(int, int) -> F,
    k: int,
    symbol_len: int,
    data: Seq<u8>,
    index: int,
)
    requires
        whole_lanes::<F>(symbol_len),
        0 <= index < k,
        data.len() == k * symbol_len,
    ensures
        codeword_symbol(coef, k, symbol_len, data, index) == row_of(data, symbol_len, index),
{
    row_bounds(index, k, symbol_len);
    let payload = row_of(data, symbol_len, index);
    assert forall|e: int| 0 <= e < lane_count::<F>(symbol_len) implies #[trigger] lane::<F>(
        payload,
        symbol_len,
        0,
        e,
    ) == codeword(coef, k, lane_message(data, symbol_len, e), index) by {
        lane_of_row::<F>(data, symbol_len, index, k, e);
    }
    symbol_from_lanes(coef, k, symbol_len, data, index, payload);
}

/// Equal data rows give equal lane messages, hence equal data blocks.
pub proof fn blocks_from_lanes<F: FieldElement>(
    first: Seq<u8>,
    second: Seq<u8>,
    k: int,
    symbol_len: int,
)
    requires
        whole_lanes::<F>(symbol_len),
        symbol_len > 0,
        k >= 0,
        first.len() == k * symbol_len,
        second.len() == k * symbol_len,
        forall|i: int, e: int|
            0 <= i < k && 0 <= e < lane_count::<F>(symbol_len) ==> #[trigger] lane::<F>(
                first,
                symbol_len,
                i,
                e,
            ) == lane::<F>(second, symbol_len, i, e),
    ensures
        first == second,
{
    assert forall|t: int| 0 <= t < first.len() implies first[t] == second[t] by {
        let i = t / symbol_len;
        let b = t % symbol_len;
        assert(0 <= i < k && 0 <= b < symbol_len && t == i * symbol_len + b) by (nonlinear_arith)
            requires
                symbol_len > 0,
                0 <= t < k * symbol_len,
                i == t / symbol_len,
                b == t % symbol_len,
        ;
        lanes_determine_row::<F>(first, i, second, i, symbol_len);
        assert(first[i * symbol_len + b] == second[i * symbol_len + b]);
    }
    assert(first =~= second);
}

/// A block whose present rows are the received data and whose missing rows are
/// solved from the received symbols encodes to every received repair.
pub proof fn solved_block_agrees<F: FieldElement>(
    coef: spec_fn(int, int) -> F,
    k: int,
    symbol_len: int,
    missing: Seq<int>,
    present: Seq<int>,
    repairs: Seq<int>,
    inverse: spec_fn(int, int) -> F,
    present_payload: spec_fn(int) -> Seq<u8>,
    repair_payload: spec_fn(int) -> Seq<u8>,
    out: Seq<u8>,
    b: int,
)
    requires
        whole_lanes::<F>(symbol_len),
        partition(missing, present, k),
        inverts(coef, missing, repairs, inverse),
        out.len() == k * symbol_len,
        0 <= b < repairs.len(),
        0 <= repairs[b],
        repair_payload(b).len() == symbol_len,
        forall|p: int|
            0 <= p < present.len() ==> #[trigger] present_payload(p) == row_of(
                out,
                symbol_len,
                present[p],
            ),
        forall|a: int, e: int|
            0 <= a < missing.len() && 0 <= e < lane_count::<F>(symbol_len) ==> #[trigger] lane::<F>(
                out,
                symbol_len,
                missing[a],
                e,
            ) == solved(
                coef,
                present,
                repairs,
                inverse,
                payload_lane(repair_payload, symbol_len, e),
                payload_lane(present_payload, symbol_len, e),
                a,
            ),
    ensures
        repair_payload(b) == codeword_symbol(coef, k, symbol_len, out, k + repairs[b]),
{
    let payload = repair_payload(b);
    let at = k + repairs[b];
    assert forall|e: int| 0 <= e < lane_count::<F>(symbol_len) implies #[trigger] lane::<F>(
        payload,
        symbol_len,
        0,
        e,
    ) == codeword(coef, k, lane_message(out, symbol_len, e), at) by {
        let message = lane_message::<F>(out, symbol_len, e);
        let repair_value = payload_lane::<F>(repair_payload, symbol_len, e);
        let stored = payload_lane::<F>(present_payload, symbol_len, e);
        let own = |p: int| message(present[p]);
        assert forall|a: int| 0 <= a < missing.len() implies message(#[trigger] missing[a])
            == solved(coef, present, repairs, inverse, repair_value, own, a) by {
            assert(lane::<F>(out, symbol_len, missing[a], e) == solved(
                coef,
                present,
                repairs,
                inverse,
                repair_value,
                stored,
                a,
            ));
            let left = |p: int| folded(coef, repairs, inverse, a, present[p]).times(stored(p));
            let right = |p: int| folded(coef, repairs, inverse, a, present[p]).times(own(p));
            assert forall|p: int| 0 <= p < present.len() implies #[trigger] left(p) == right(
                p,
            ) by {
                assert(present_payload(p) == row_of(out, symbol_len, present[p]));
                lane_of_row::<F>(out, symbol_len, present[p], k, e);
            }
            sum_congruent(left, right, present.len() as int);
        }
        solved_message_agrees(
            coef,
            k,
            missing,
            present,
            repairs,
            inverse,
            repair_value,
            message,
            b,
        );
    }
    symbol_from_lanes(coef, k, symbol_len, out, at, payload);
}

/// Lane `e` of each payload.
pub open spec fn payload_lane<F: FieldElement>(
    payload: spec_fn(int) -> Seq<u8>,
    symbol_len: int,
    e: int,
) -> spec_fn(int) -> F {
    |t: int| lane(payload(t), symbol_len, 0, e)
}

/// Two messages have the same codeword symbols at `indices`.
pub open spec fn same_codeword_at<F: FieldElement>(
    coef: spec_fn(int, int) -> F,
    k: int,
    first: spec_fn(int) -> F,
    second: spec_fn(int) -> F,
    indices: Seq<int>,
) -> bool {
    forall|t: int|
        0 <= t < indices.len() ==> codeword(coef, k, first, #[trigger] indices[t]) == codeword(
            coef,
            k,
            second,
            indices[t],
        )
}

/// Any `k` distinct symbols of a lane determine its message.
pub open spec fn lanes_determined<F: FieldElement>(
    coef: spec_fn(int, int) -> F,
    k: int,
    m: int,
) -> bool {
    forall|first: spec_fn(int) -> F, second: spec_fn(int) -> F, indices: Seq<int>, at: int|
        #![trigger same_codeword_at(coef, k, first, second, indices), first(at)]
        distinct(indices) && indices.len() == k && (forall|t: int|
            0 <= t < indices.len() ==> 0 <= #[trigger] indices[t] < k + m) && same_codeword_at(
            coef,
            k,
            first,
            second,
            indices,
        ) && 0 <= at < k ==> first(at) == second(at)
}

/// The code with the given repair coefficients.
pub open spec fn coefficient_code<F: FieldElement>(
    engine: Engine,
    coef: spec_fn(int, int) -> F,
    k: int,
    m: int,
    symbol_len: int,
) -> Code {
    Code {
        engine,
        k,
        m,
        symbol_len,
        symbol: |data: Seq<u8>, index: int| codeword_symbol(coef, k, symbol_len, data, index),
    }
}

/// If every lane is determined by any `k` symbols, so is the block.
pub proof fn coefficient_code_is_sound<F: FieldElement>(
    engine: Engine,
    coef: spec_fn(int, int) -> F,
    k: int,
    m: int,
    symbol_len: int,
)
    requires
        lanes_determined(coef, k, m),
        whole_lanes::<F>(symbol_len),
        coefficient_code(engine, coef, k, m, symbol_len).well_shaped(),
    ensures
        coefficient_code(engine, coef, k, m, symbol_len).sound(),
{
    let code = coefficient_code(engine, coef, k, m, symbol_len);
    assert forall|data: Seq<u8>, i: int|
        code.is_block(data) && 0 <= i < k implies #[trigger] (code.symbol)(data, i) == row_of(
        data,
        symbol_len,
        i,
    ) by {
        systematic_symbol(coef, k, symbol_len, data, i);
    }
    assert forall|first: Seq<u8>, second: Seq<u8>, indices: Seq<int>|
        code.is_block(first) && code.is_block(second) && code.selects(indices)
            && #[trigger] code.same_at(first, second, indices) implies first == second by {
        assert forall|i: int, e: int|
            0 <= i < k && 0 <= e < lane_count::<F>(symbol_len) implies #[trigger] lane::<F>(
            first,
            symbol_len,
            i,
            e,
        ) == lane::<F>(second, symbol_len, i, e) by {
            let a = lane_message::<F>(first, symbol_len, e);
            let b = lane_message::<F>(second, symbol_len, e);
            assert forall|t: int| 0 <= t < indices.len() implies codeword(
                coef,
                k,
                a,
                #[trigger] indices[t],
            ) == codeword(coef, k, b, indices[t]) by {
                lane_of_symbol(coef, k, symbol_len, first, indices[t], e);
                lane_of_symbol(coef, k, symbol_len, second, indices[t], e);
                assert((code.symbol)(first, indices[t]) == (code.symbol)(second, indices[t]));
            }
            assert(same_codeword_at(coef, k, a, b, indices));
            assert(a(i) == b(i));
        }
        blocks_from_lanes::<F>(first, second, k, symbol_len);
    }
}

} // verus!
