//! What the codecs promise together.
//!
//! Every contract of the library is stated over one [`Code`]. The laws below
//! relate several calls: what an encoder produced, what a decoder recorded and
//! what it gives back.

pub mod codewords;

use vstd::prelude::*;

use crate::afft::code::{afft_code_is_sound, shape_facts};
use crate::algebra::domains::span_size;
use crate::algebra::interpolation::distinct;
use crate::algebra::{gf256, gf65536};
use crate::batch::plan::{holds_rows, reconstructed};
use crate::codec::{
    decoding_undoes_encoding, explains, holds_repairs, indices_of, recovers, with_symbol,
    zero_block, Code, Engine, Geometry,
};
use crate::error::DecodeError;
use crate::matrices::cauchy::CauchyView;
use crate::matrices::coding_matrix::point_code_is_sound;
use crate::matrices::good_cauchy::GoodCauchyView;
use crate::selector::{construction_fault, geometry_code};
use crate::stream::{is_dependent, push_outcome, stored_after, PushOutcome};
use crate::symbols::{row_bounds, row_of};
use crate::tower::cauchy::TowerCauchyView;

verus! {

/// For every engine and every geometry, transmitted symbols `0..k` are the input
/// data verbatim, and any `k` distinct symbols determine the data.
pub proof fn every_engine_is_systematic(geometry: Geometry, data: Seq<u8>, i: int)
    requires
        geometry.k >= 0,
        geometry.m >= 0,
        geometry.symbol_len >= 0,
        construction_fault(geometry) is None,
        (geometry.k + geometry.m) * geometry.symbol_len <= usize::MAX,
        data.len() == geometry.k * geometry.symbol_len,
        0 <= i < geometry.k,
    ensures
        (geometry_code(geometry).symbol)(data, i) == row_of(data, geometry.symbol_len, i),
        geometry_code(geometry).sound(),
{
    let k = geometry.k;
    let m = geometry.m;
    let l = geometry.symbol_len;
    reveal_with_fuel(span_size, 17);
    match geometry.engine {
        Engine::StandardCauchy => {
            point_code_is_sound::<gf256::GfElem, CauchyView>(k, m, l);
        },
        Engine::GoodCauchy => {
            point_code_is_sound::<gf256::GfElem, GoodCauchyView>(k, m, l);
        },
        Engine::Tower => {
            point_code_is_sound::<gf65536::GfElem, TowerCauchyView>(k, m, l);
        },
        Engine::Gf8Afft => {
            shape_facts::<gf256::GfElem>(k, m, l);
            afft_code_is_sound::<gf256::GfElem>(k, m, l);
        },
        Engine::Gf16Afft => {
            shape_facts::<gf65536::GfElem>(k, m, l);
            afft_code_is_sound::<gf65536::GfElem>(k, m, l);
        },
    }
    assert(geometry_code(geometry).is_block(data));
}

/// A finite set has as many distinct members as its size says.
proof fn members(s: Set<int>, count: nat) -> (list: Seq<int>)
    requires
        s.finite(),
        count <= s.len(),
    ensures
        list.len() == count,
        distinct(list),
        forall|t: int| 0 <= t < list.len() ==> s.contains(#[trigger] list[t]),
    decreases count,
{
    if count == 0 {
        Seq::empty()
    } else {
        let x = s.choose();
        let rest = members(s.remove(x), (count - 1) as nat);
        let list = rest.push(x);
        assert forall|a: int, b: int|
            0 <= a < list.len() && 0 <= b < list.len() && a != b implies #[trigger] list[a]
            != #[trigger] list[b] by {
            if a < rest.len() && b < rest.len() {
                assert(rest[a] != rest[b]);
            } else if a < rest.len() {
                assert(s.remove(x).contains(rest[a]));
            } else {
                assert(s.remove(x).contains(rest[b]));
            }
        }
        assert forall|t: int| 0 <= t < list.len() implies s.contains(#[trigger] list[t]) by {
            if t < rest.len() {
                assert(s.remove(x).contains(rest[t]));
            }
        }
        list
    }
}

/// Streaming decode gives back what was encoded: a block that agrees with at
/// least `k` recorded symbols of a codeword is the block the codeword was made
/// from, whichever symbols arrived and in whatever order.
pub proof fn streaming_decode_recovers_the_data(
    code: Code,
    data: Seq<u8>,
    block: Seq<u8>,
    stored: Map<int, Seq<u8>>,
)
    requires
        code.sound(),
        code.is_block(data),
        stored.dom().finite(),
        stored.len() >= code.k,
        forall|i: int| #[trigger] stored.contains_key(i) ==> 0 <= i < code.k + code.m,
        recovers(code, data, stored),
        recovers(code, block, stored),
    ensures
        block == data,
{
    let indices = members(stored.dom(), code.k as nat);
    assert forall|t: int| 0 <= t < indices.len() implies 0 <= #[trigger] indices[t] < code.k
        + code.m by {
        assert(stored.contains_key(indices[t]));
    }
    assert forall|t: int| 0 <= t < indices.len() implies (code.symbol)(
        block,
        #[trigger] indices[t],
    ) == (code.symbol)(data, indices[t]) by {
        assert(stored.contains_key(indices[t]));
    }
    assert(code.selects(indices));
    assert(code.same_at(block, data, indices));
}

/// Full decode, prepared decode and streaming decode agree: two blocks that
/// explain the same `k` distinct symbols are equal.
pub proof fn decoders_agree(
    code: Code,
    first: Seq<u8>,
    second: Seq<u8>,
    symbols: Seq<(usize, &[u8])>,
)
    requires
        code.sound(),
        code.is_block(first),
        code.is_block(second),
        code.selects(indices_of(symbols)),
        explains(code, first, symbols),
        explains(code, second, symbols),
    ensures
        first == second,
{
    decoding_undoes_encoding(code, first, second, symbols);
}

/// Engines agree on the message: what two engines decode from their own
/// codewords of one block is the same, whichever symbols each received.
pub proof fn engines_agree_on_the_message(
    first: Code,
    second: Code,
    data: Seq<u8>,
    first_out: Seq<u8>,
    second_out: Seq<u8>,
    first_symbols: Seq<(usize, &[u8])>,
    second_symbols: Seq<(usize, &[u8])>,
)
    requires
        first.sound(),
        second.sound(),
        first.is_block(data),
        second.is_block(data),
        first.is_block(first_out),
        second.is_block(second_out),
        first.selects(indices_of(first_symbols)),
        second.selects(indices_of(second_symbols)),
        explains(first, data, first_symbols),
        explains(first, first_out, first_symbols),
        explains(second, data, second_symbols),
        explains(second, second_out, second_symbols),
    ensures
        first_out == second_out,
        first_out == data,
{
    decoding_undoes_encoding(first, data, first_out, first_symbols);
    decoding_undoes_encoding(second, data, second_out, second_symbols);
}

/// Reconstructing only the missing symbols matches full decode: the rows written
/// are the rows of the decoded block.
pub proof fn missing_rows_match_full_decode(
    code: Code,
    decoded: Seq<u8>,
    symbols: Seq<(usize, &[u8])>,
    missing: Seq<int>,
    before: Seq<u8>,
    rows: Seq<u8>,
    r: Result<(), DecodeError>,
)
    requires
        code.sound(),
        code.is_block(decoded),
        code.selects(indices_of(symbols)),
        explains(code, decoded, symbols),
        reconstructed(code, None, symbols, missing, before, rows, r),
    ensures
        holds_rows(code.symbol_len, decoded, missing, rows),
{
    let block = choose|block: Seq<u8>|
        code.is_block(block) && #[trigger] explains(code, block, symbols) && holds_rows(
            code.symbol_len,
            block,
            missing,
            rows,
        );
    decoders_agree(code, decoded, block, symbols);
}

/// A decode with no erasures returns the input untouched: each data symbol that
/// was received is the row of the decoded block with its index.
pub proof fn received_data_passes_through(
    code: Code,
    decoded: Seq<u8>,
    symbols: Seq<(usize, &[u8])>,
    s: int,
)
    requires
        code.sound(),
        code.is_block(decoded),
        explains(code, decoded, symbols),
        0 <= s < symbols.len(),
        symbols[s].0 < code.k,
    ensures
        row_of(decoded, code.symbol_len, symbols[s].0 as int) == symbols[s].1@,
{
    assert(symbols[s].1@ == (code.symbol)(decoded, symbols[s].0 as int));
}

/// The same for a streaming decoder: recorded data symbols come back verbatim.
pub proof fn recorded_data_passes_through(
    code: Code,
    block: Seq<u8>,
    stored: Map<int, Seq<u8>>,
    i: int,
)
    requires
        code.sound(),
        recovers(code, block, stored),
        stored.contains_key(i),
        0 <= i < code.k,
    ensures
        row_of(block, code.symbol_len, i) == stored[i],
{
    assert(stored[i] == (code.symbol)(block, i));
}

/// The order in which two data symbols are fed does not matter.
pub proof fn feeding_order_is_irrelevant(
    block: Seq<u8>,
    symbol_len: int,
    i: int,
    first: Seq<u8>,
    j: int,
    second: Seq<u8>,
)
    requires
        0 <= i,
        0 <= j,
        i != j,
        symbol_len >= 0,
    ensures
        with_symbol(with_symbol(block, symbol_len, i, first), symbol_len, j, second)
            == with_symbol(with_symbol(block, symbol_len, j, second), symbol_len, i, first),
{
    if i < j {
        row_bounds(i, j, symbol_len);
    } else {
        row_bounds(j, i, symbol_len);
    }
    assert(with_symbol(with_symbol(block, symbol_len, i, first), symbol_len, j, second)
        =~= with_symbol(with_symbol(block, symbol_len, j, second), symbol_len, i, first));
}

/// The block an incremental encoder holds once the first `count` symbols of
/// `data` have been fed.
pub open spec fn fed_prefix(data: Seq<u8>, symbol_len: int, count: int) -> Seq<u8>
    decreases count,
{
    if count <= 0 {
        zero_block(data.len() as int)
    } else {
        with_symbol(
            fed_prefix(data, symbol_len, count - 1),
            symbol_len,
            count - 1,
            row_of(data, symbol_len, count - 1),
        )
    }
}

/// What is fed agrees with the data, what is not fed is zero.
proof fn fed_prefix_bytes(data: Seq<u8>, k: int, symbol_len: int, count: int)
    requires
        symbol_len >= 0,
        0 <= count <= k,
        data.len() == k * symbol_len,
    ensures
        fed_prefix(data, symbol_len, count).len() == data.len(),
        forall|t: int|
            0 <= t < count * symbol_len && t < data.len() ==> #[trigger] fed_prefix(
                data,
                symbol_len,
                count,
            )[t] == data[t],
    decreases count,
{
    if count > 0 {
        fed_prefix_bytes(data, k, symbol_len, count - 1);
        row_bounds(count - 1, k, symbol_len);
    } else {
        assert(0 * symbol_len == 0) by (nonlinear_arith);
    }
}

/// Incremental encode matches block-final encode: once every symbol of `data`
/// has been fed, the repairs are those that a block-final encoder writes.
pub proof fn incremental_matches_block_final(
    code: Code,
    data: Seq<u8>,
    repairs: Seq<u8>,
    j: int,
)
    requires
        code.sound(),
        code.is_block(data),
        holds_repairs(code, data, repairs),
        0 <= j < code.m,
    ensures
        fed_prefix(data, code.symbol_len, code.k) == data,
        (code.symbol)(fed_prefix(data, code.symbol_len, code.k), code.k + j) == row_of(
            repairs,
            code.symbol_len,
            j,
        ),
{
    fed_prefix_bytes(data, code.k, code.symbol_len, code.k);
    assert(fed_prefix(data, code.symbol_len, code.k) =~= data);
    assert(row_of(repairs, code.symbol_len, j) == (code.symbol)(data, code.k + j));
}

/// Block-final encode has one result: neither the workspace nor the width of the
/// strips it is cut into can change the repairs.
pub proof fn encodings_agree(code: Code, data: Seq<u8>, first: Seq<u8>, second: Seq<u8>)
    requires
        code.sound(),
        code.is_block(data),
        holds_repairs(code, data, first),
        holds_repairs(code, data, second),
    ensures
        first == second,
{
    let l = code.symbol_len;
    assert forall|t: int| 0 <= t < first.len() implies first[t] == second[t] by {
        let j = t / l;
        let b = t % l;
        vstd::arithmetic::div_mod::lemma_fundamental_div_mod(t, l);
        assert(0 <= j < code.m && 0 <= b < l && j * l + b == t) by (nonlinear_arith)
            requires
                0 <= t < code.m * l,
                l >= 1,
                j == t / l,
                b == t % l,
        ;
        row_bounds(j, code.m, l);
        assert(row_of(first, l, j) == (code.symbol)(data, code.k + j));
        assert(row_of(second, l, j) == (code.symbol)(data, code.k + j));
        assert(row_of(first, l, j)[b] == first[t]);
        assert(row_of(second, l, j)[b] == second[t]);
    }
    assert(first =~= second);
}

/// A symbol that was recorded before is reported as dependent and changes
/// nothing, and neither does any symbol once the decoder is complete.
pub proof fn repeated_symbols_change_nothing(
    code: Code,
    stored: Map<int, Seq<u8>>,
    received: int,
    index: int,
    first: Seq<u8>,
    second: Seq<u8>,
)
    ensures
        ({
            let once = stored_after(code, stored, index, first);
            &&& stored_after(code, once, index, second) == once
            &&& push_outcome(code, once, received, index) == PushOutcome::Dependent
        }),
{
    let once = stored_after(code, stored, index, first);
    assert(is_dependent(code, once, index));
}

/// A decoder becomes complete with the `k`-th distinct symbol and not before.
pub proof fn complete_after_k_distinct_symbols(
    code: Code,
    stored: Map<int, Seq<u8>>,
    received: int,
    index: int,
    payload: Seq<u8>,
)
    requires
        stored.dom().finite(),
        stored.len() < code.k,
        !stored.contains_key(index),
    ensures
        stored_after(code, stored, index, payload).len() == stored.len() + 1,
        push_outcome(code, stored, received, index) == PushOutcome::Complete <==> stored.len() + 1
            == code.k,
{
    assert(stored.insert(index, payload).dom() =~= stored.dom().insert(index));
}

} // verus!
