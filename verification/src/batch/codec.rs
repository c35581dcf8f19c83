//! Batch (non-streaming) Cauchy Reed-Solomon encode and decode.
//!
//! Systematic code with generator `G = [I_k | A]`, where `A` is the `k` by `m`
//! Cauchy matrix. The codeword is `n = k + m` symbols of `symbol_len` bytes:
//!
//! - Symbols `0..k` are data: symbol `i` equals `data[i]` verbatim.
//! - Symbols `k..n` are repair: symbol `k + j` is the linear combination
//!   `sum_i A[i][j] * data[i]`, applied independently to each byte position.
//!
//! Any `k` of the `n` symbols suffice to recover the original `k` data symbols.

use vstd::prelude::*;

use crate::algebra::gf256::GfElem;
use crate::algebra::index_lists::{indices_where, indices_where_facts};
use crate::algebra::linear_code::{cauchy_points, missing_positions};
use crate::batch::plan::{holds_rows, reconstructed, split_fits, DecodePlan};
use crate::batch::receipt::{
    data_in_order, first_symbol_fault, occurs_before, partition_symbols, repairs_in_order, sourced,
    symbol_faults_are_judged, Receipt,
};
use crate::codec::{
    addressable, block_sizes, config_fault, decoded, encode_fault, encode_lengths_are_judged,
    encoded, explains, indices_of, BatchDecoder, BatchEncoder, Code, Coded, Engine,
};
use crate::decoder::reduced::{
    assemble, assembled_block, assembled_block_agrees, combine_sources, fused_coefficients,
    holds_combined, ints, is_fused_table, term_index, valid_split,
};
use crate::encoder::block::{encode_rows, rows_of};
use crate::error::{ConfigError, DecodeError, EncodeError};
use crate::matrices::coding_matrix::{
    coef_of_points, engine_points, fits_points, is_coefficient_table, point_code,
    point_code_is_sound, points_fit, shifted, CodingMatrix,
};
use crate::symbols::{coefficient_code, row_of};

verus! {

/// A batch (non-streaming) Cauchy Reed-Solomon codec configuration.
///
/// The codec stores only the parameters `(k, m, symbol_len)` and the coding
/// matrix; it holds no per-call state.
#[derive(Clone, Debug)]
pub struct BatchCodec<C: CodingMatrix> {
    k: usize,
    m: usize,
    symbol_len: usize,
    cauchy: C,
    /// Source-major coefficient table (`i * m + j` = `C[i][j]`).
    coeffs: Vec<GfElem>,
}

/// The coefficients of the most recent receipt.
#[derive(Debug)]
struct Memo {
    engine: Engine,
    missing: Vec<usize>,
    present: Vec<usize>,
    repairs: Vec<usize>,
    table: Vec<GfElem>,
}

/// Caller-owned workspace for repeated batch decodes.
///
/// Construct with [`BatchCodec::decode_scratch`] and reuse it with
/// [`BatchCodec::decode_into_with`]. A scratch is tied to one
/// `(k, m, symbol_len)` geometry, but may be shared sequentially by codecs with
/// the same geometry.
///
/// The scratch also memoizes the fused reconstruction coefficients of the most
/// recent receipt: repeated decodes of one receipt pay only validation and
/// payload arithmetic.
#[derive(Debug)]
pub struct DecodeScratch {
    k: usize,
    m: usize,
    symbol_len: usize,
    memo: Option<Memo>,
}

impl DecodeScratch {
    /// Memoized coefficients belong to the recorded receipt.
    pub closed spec fn valid(&self) -> bool {
        self.memo matches Some(memo) ==> is_fused_table(
            engine_points(memo.engine),
            self.k as int,
            ints(memo.missing@),
            ints(memo.present@),
            ints(memo.repairs@),
            memo.table@,
        )
    }

    /// The scratch was sized for this geometry.
    pub open spec fn fits(&self, k: int, m: int, symbol_len: int) -> bool {
        self.geometry() == (k, m, symbol_len)
    }

    /// A scratch serves one geometry.
    pub proof fn fits_one_geometry(&self, first: (int, int, int), second: (int, int, int))
        requires
            self.fits(first.0, first.1, first.2),
        ensures
            self.fits(second.0, second.1, second.2) <==> second == first,
    {
    }

    /// `k`, `m` and `symbol_len` of the codec that the scratch was built for.
    pub closed spec fn geometry(&self) -> (int, int, int) {
        (self.k as int, self.m as int, self.symbol_len as int)
    }

    /// Data-symbol count this scratch was sized for; a decode with a different
    /// `k` is rejected as [`DecodeError::ScratchMismatch`].
    pub fn k(&self) -> (r: usize)
        ensures
            r == self.geometry().0,
    {
        self.k
    }

    /// Repair-symbol count this scratch was sized for.
    pub fn m(&self) -> (r: usize)
        ensures
            r == self.geometry().1,
    {
        self.m
    }

    /// Per-symbol byte length this scratch was sized for.
    pub fn symbol_len(&self) -> (r: usize)
        ensures
            r == self.geometry().2,
    {
        self.symbol_len
    }
}

/// Whether two lists are equal.
fn same_list(a: &[usize], b: &[usize]) -> (r: bool)
    ensures
        r == (a@ == b@),
{
    if a.len() != b.len() {
        return false;
    }
    let mut t: usize = 0;
    while t < a.len()
        invariant
            t <= a@.len(),
            a@.len() == b@.len(),
            forall|s: int| 0 <= s < t ==> a@[s] == b@[s],
        decreases a@.len() - t,
    {
        if a[t] != b[t] {
            return false;
        }
        t += 1;
    }
    assert(a@ =~= b@);
    true
}

/// Why a decode is refused before the symbols are looked at one by one.
pub open spec fn batch_decode_fault(code: Code, symbols: Seq<(usize, &[u8])>, output: int) -> Option<
    DecodeError,
> {
    if symbols.len() != code.k {
        Some(
            DecodeError::WrongCount { expected: code.k as usize, got: symbols.len() as usize },
        )
    } else if output != code.k * code.symbol_len {
        Some(
            DecodeError::WrongOutputLen {
                expected: (code.k * code.symbol_len) as usize,
                got: output as usize,
            },
        )
    } else {
        first_symbol_fault(code.k + code.m, code.symbol_len, symbols, symbols.len() as int)
    }
}

/// A batch decode is accepted exactly for `k` symbols at different codeword
/// positions, of `symbol_len` bytes each, with an output that has room for `k`
/// such symbols. A refusal names the count, the lengths or the index that the
/// request has: first the count, then the output, then the symbols.
pub proof fn decode_requests_are_judged(code: Code, symbols: Seq<(usize, &[u8])>, output: int)
    requires
        code.well_shaped(),
        code.fits_memory(),
        0 <= output <= usize::MAX,
        symbols.len() <= usize::MAX,
    ensures
        batch_decode_fault(code, symbols, output) is None <==> {
            &&& symbols.len() == code.k
            &&& output == code.k * code.symbol_len
            &&& forall|s: int|
                0 <= s < symbols.len() ==> (#[trigger] symbols[s]).0 < code.k + code.m
                    && symbols[s].1@.len() == code.symbol_len
            &&& forall|s: int, t: int|
                0 <= t < s < symbols.len() ==> (#[trigger] symbols[t]).0
                    != (#[trigger] symbols[s]).0
        },
        batch_decode_fault(code, symbols, output) matches Some(e) ==> match e {
            DecodeError::WrongCount { expected, got } => expected == code.k && got
                == symbols.len() && got != expected,
            DecodeError::WrongOutputLen { expected, got } => expected == code.k
                * code.symbol_len && got == output && got != expected && symbols.len() == code.k,
            DecodeError::IndexOutOfRange { index, n } => n == code.k + code.m && index >= n
                && symbols.len() == code.k && exists|s: int|
                0 <= s < symbols.len() && (#[trigger] symbols[s]).0 == index,
            DecodeError::DuplicateIndex { index } => index < code.k + code.m
                && symbols.len() == code.k && exists|s: int, t: int|
                0 <= t < s < symbols.len() && (#[trigger] symbols[t]).0 == index
                    && (#[trigger] symbols[s]).0
                    == index,
            DecodeError::WrongPayloadLen { expected, got } => expected == code.symbol_len
                && got != expected && symbols.len() == code.k && exists|s: int|
                0 <= s < symbols.len() && (#[trigger] symbols[s]).1@.len() == got,
            _ => false,
        },
        symbols.len() != code.k <==> batch_decode_fault(code, symbols, output) matches Some(
            DecodeError::WrongCount { .. },
        ),
        symbols.len() == code.k && output != code.k * code.symbol_len <==> batch_decode_fault(
            code,
            symbols,
            output,
        ) matches Some(DecodeError::WrongOutputLen { .. }),
{
    block_sizes(code);
    if symbols.len() == code.k {
        symbol_faults_are_judged(
            code.k + code.m,
            code.symbol_len,
            symbols,
            symbols.len() as int,
        );
    }
}

/// Why reconstructing only the missing symbols is refused.
pub open spec fn reconstruct_fault(code: Code, symbols: Seq<(usize, &[u8])>, output: int) -> Option<
    DecodeError,
> {
    let wanted = missing_positions(indices_of(symbols), code.k).len() * code.symbol_len;
    if symbols.len() != code.k {
        Some(
            DecodeError::WrongCount { expected: code.k as usize, got: symbols.len() as usize },
        )
    } else {
        match first_symbol_fault(
            code.k + code.m,
            code.symbol_len,
            symbols,
            symbols.len() as int,
        ) {
            Some(e) => Some(e),
            None => if output != wanted {
                Some(
                    DecodeError::WrongOutputLen { expected: wanted as usize, got: output as usize },
                )
            } else {
                None
            },
        }
    }
}

/// Reconstructing the missing symbols is accepted exactly for `k` symbols at
/// different codeword positions, of `symbol_len` bytes each, with room for every
/// data symbol that is not among them. A refusal names what the request has:
/// first the count, then the symbols, then the output.
pub proof fn reconstruct_requests_are_judged(
    code: Code,
    symbols: Seq<(usize, &[u8])>,
    output: int,
)
    requires
        code.well_shaped(),
        code.fits_memory(),
        0 <= output <= usize::MAX,
        symbols.len() <= usize::MAX,
    ensures
        reconstruct_fault(code, symbols, output) is None <==> {
            &&& symbols.len() == code.k
            &&& output == missing_positions(indices_of(symbols), code.k).len() * code.symbol_len
            &&& forall|s: int|
                0 <= s < symbols.len() ==> (#[trigger] symbols[s]).0 < code.k + code.m
                    && symbols[s].1@.len() == code.symbol_len
            &&& forall|s: int, t: int|
                0 <= t < s < symbols.len() ==> (#[trigger] symbols[t]).0
                    != (#[trigger] symbols[s]).0
        },
        reconstruct_fault(code, symbols, output) matches Some(e) ==> match e {
            DecodeError::WrongCount { expected, got } => expected == code.k && got
                == symbols.len() && got != expected,
            DecodeError::WrongOutputLen { expected, got } => expected
                == missing_positions(indices_of(symbols), code.k).len() * code.symbol_len && got
                == output && got != expected && symbols.len() == code.k,
            DecodeError::IndexOutOfRange { index, n } => n == code.k + code.m && index >= n
                && symbols.len() == code.k && exists|s: int|
                0 <= s < symbols.len() && (#[trigger] symbols[s]).0 == index,
            DecodeError::DuplicateIndex { index } => index < code.k + code.m
                && symbols.len() == code.k && exists|s: int, t: int|
                0 <= t < s < symbols.len() && (#[trigger] symbols[t]).0 == index
                    && (#[trigger] symbols[s]).0
                    == index,
            DecodeError::WrongPayloadLen { expected, got } => expected == code.symbol_len
                && got != expected && symbols.len() == code.k && exists|s: int|
                0 <= s < symbols.len() && (#[trigger] symbols[s]).1@.len() == got,
            _ => false,
        },
        reconstruct_fault(code, symbols, output) matches Some(DecodeError::WrongOutputLen { .. })
            ==> (forall|s: int|
            0 <= s < symbols.len() ==> (#[trigger] symbols[s]).0 < code.k + code.m
                && symbols[s].1@.len() == code.symbol_len) && (forall|s: int, t: int|
            0 <= t < s < symbols.len() ==> (#[trigger] symbols[t]).0 != (#[trigger] symbols[s]).0),
{
    block_sizes(code);
    let lacks = |i: int| !indices_of(symbols).contains(i);
    indices_where_facts(lacks, code.k);
    let missing = missing_positions(indices_of(symbols), code.k);
    assert(missing =~= indices_where(lacks, code.k));
    let (k, l, count) = (code.k, code.symbol_len, missing.len() as int);
    assert(0 <= count * l <= k * l) by (nonlinear_arith)
        requires
            0 <= count <= k,
            1 <= l,
    ;
    if symbols.len() == code.k {
        symbol_faults_are_judged(
            code.k + code.m,
            code.symbol_len,
            symbols,
            symbols.len() as int,
        );
    }
}

/// A foreign scratch is reported before every other fault.
pub open spec fn scratch_first(fits: bool, fault: Option<DecodeError>) -> Option<DecodeError> {
    if !fits {
        Some(DecodeError::ScratchMismatch)
    } else {
        fault
    }
}

/// Why index `s` is refused when preparing a plan.
pub open spec fn index_fault(n: int, indices: Seq<usize>, s: int) -> Option<DecodeError> {
    if indices[s] >= n {
        Some(DecodeError::IndexOutOfRange { index: indices[s], n: n as usize })
    } else if exists|t: int| 0 <= t < s && #[trigger] indices[t] == indices[s] {
        Some(DecodeError::DuplicateIndex { index: indices[s] })
    } else {
        None
    }
}

/// The fault of the first refused index among the first `count`.
pub open spec fn first_index_fault(n: int, indices: Seq<usize>, count: int) -> Option<DecodeError>
    decreases count,
{
    if count <= 0 {
        None
    } else {
        match first_index_fault(n, indices, count - 1) {
            Some(e) => Some(e),
            None => index_fault(n, indices, count - 1),
        }
    }
}

/// Why preparing a plan is refused.
pub open spec fn prepare_fault(code: Code, indices: Seq<usize>) -> Option<DecodeError> {
    if indices.len() != code.k {
        Some(
            DecodeError::WrongCount { expected: code.k as usize, got: indices.len() as usize },
        )
    } else {
        first_index_fault(code.k + code.m, indices, indices.len() as int)
    }
}

/// The first `count` indices have no fault exactly when they differ and lie below
/// `n`, and a fault names one of them.
proof fn index_faults_are_judged(n: int, indices: Seq<usize>, count: int)
    requires
        0 <= count <= indices.len(),
        0 <= n <= usize::MAX,
    ensures
        first_index_fault(n, indices, count) is None <==> {
            &&& forall|s: int| 0 <= s < count ==> #[trigger] indices[s] < n
            &&& forall|s: int, t: int|
                0 <= t < s < count ==> #[trigger] indices[t] != #[trigger] indices[s]
        },
        first_index_fault(n, indices, count) matches Some(e) ==> match e {
            DecodeError::IndexOutOfRange { index, n: limit } => limit == n && index >= n
                && indices.contains(index),
            DecodeError::DuplicateIndex { index } => exists|s: int, t: int|
                0 <= t < s < count && #[trigger] indices[t] == index && #[trigger] indices[s]
                    == index,
            _ => false,
        },
    decreases count,
{
    if count > 0 {
        index_faults_are_judged(n, indices, count - 1);
        let s = count - 1;
        assert(indices.contains(indices[s]));
        if exists|t: int| 0 <= t < s && #[trigger] indices[t] == indices[s] {
            let t = choose|t: int| 0 <= t < s && #[trigger] indices[t] == indices[s];
            assert(indices[t] == indices[s]);
        }
    }
}

/// A plan can be prepared exactly for `k` different codeword positions; a refusal
/// names the count or an index of the request.
pub proof fn index_lists_are_judged(code: Code, indices: Seq<usize>)
    requires
        code.well_shaped(),
        indices.len() <= usize::MAX,
    ensures
        prepare_fault(code, indices) is None <==> {
            &&& indices.len() == code.k
            &&& forall|s: int| 0 <= s < indices.len() ==> #[trigger] indices[s] < code.k + code.m
            &&& forall|s: int, t: int|
                0 <= t < s < indices.len() ==> #[trigger] indices[t] != #[trigger] indices[s]
        },
        prepare_fault(code, indices) matches Some(e) ==> match e {
            DecodeError::WrongCount { expected, got } => expected == code.k && got == indices.len()
                && got != expected,
            DecodeError::IndexOutOfRange { index, n } => n == code.k + code.m && index >= n
                && indices.len() == code.k && indices.contains(index),
            DecodeError::DuplicateIndex { index } => indices.len() == code.k && exists|
                s: int,
                t: int,
            |
                0 <= t < s < indices.len() && #[trigger] indices[t] == index
                    && #[trigger] indices[s] == index,
            _ => false,
        },
{
    if indices.len() == code.k {
        index_faults_are_judged(code.k + code.m, indices, indices.len() as int);
    }
}

/// Index faults are the faults of symbols with empty payloads.
proof fn index_fault_is_symbol_fault(
    n: int,
    indices: Seq<usize>,
    symbols: Seq<(usize, &[u8])>,
    count: int,
)
    requires
        0 <= count <= indices.len(),
        symbols.len() == indices.len(),
        forall|s: int|
            0 <= s < symbols.len() ==> (#[trigger] symbols[s]).0 == indices[s]
                && symbols[s].1@.len() == 0,
    ensures
        first_index_fault(n, indices, count) == first_symbol_fault(n, 0, symbols, count),
    decreases count,
{
    if count > 0 {
        index_fault_is_symbol_fault(n, indices, symbols, count - 1);
        let s = count - 1;
        assert(symbols[s].0 == indices[s]);
        if exists|t: int| 0 <= t < s && #[trigger] indices[t] == indices[s] {
            let t = choose|t: int| 0 <= t < s && #[trigger] indices[t] == indices[s];
            assert(symbols[t].0 == symbols[s].0);
        }
        if occurs_before(symbols, s) {
            let t = choose|t: int| 0 <= t < s && (#[trigger] symbols[t]).0 == symbols[s].0;
            assert(indices[t] == indices[s]);
        }
    }
}

/// A block that encodes to every source explains the symbols.
proof fn sources_explain(
    code: Code,
    symbols: Seq<(usize, &[u8])>,
    present: Seq<int>,
    repairs: Seq<int>,
    sources: Seq<&[u8]>,
    block: Seq<u8>,
)
    requires
        sourced(code.k, symbols, present, repairs, sources),
        present.len() + repairs.len() == code.k,
        sources.len() == code.k,
        forall|t: int|
            0 <= t < code.k ==> (#[trigger] sources[t])@ == (code.symbol)(
                block,
                term_index(code.k, present, repairs, t),
            ),
    ensures
        explains(code, block, symbols),
{
    assert forall|s: int| 0 <= s < symbols.len() implies (#[trigger] symbols[s]).1@ == (
    code.symbol)(block, symbols[s].0 as int) by {
        if symbols[s].0 < code.k {
            let p = choose|p: int|
                0 <= p < present.len() && #[trigger] present[p] == symbols[s].0
                    && sources[repairs.len() + p]@ == symbols[s].1@;
            assert(term_index(code.k, present, repairs, repairs.len() + p) == present[p]);
        } else {
            let b = choose|b: int|
                0 <= b < repairs.len() && #[trigger] repairs[b] == symbols[s].0 - code.k
                    && sources[b]@ == symbols[s].1@;
            assert(term_index(code.k, present, repairs, b) == code.k + repairs[b]);
        }
    }
}

impl<C: CodingMatrix> BatchCodec<C> {
    /// Creates a codec for `(k, m)` with symbols of `symbol_len` bytes.
    ///
    /// Returns [`ConfigError::ZeroDimension`] if `k` or `m` is zero,
    /// [`ConfigError::ZeroSymbolLen`] if `symbol_len` is zero, and
    /// [`ConfigError::TooManySymbols`] if the selected `C` rejects `(k, m)`.
    pub fn new(k: usize, m: usize, symbol_len: usize) -> (r: Result<Self, ConfigError>)
        requires
            addressable(
                k as int,
                m as int,
                symbol_len as int,
                1,
                C::engine_spec().capacity_spec(),
            ),
        ensures
            match config_fault(
                k as int,
                m as int,
                symbol_len as int,
                1,
                C::engine_spec().capacity_spec(),
            ) {
                Some(e) => r == Err::<Self, ConfigError>(e),
                None => r is Ok,
            },
            C::engine_spec() == Engine::GoodCauchy ==> (r is Ok
                <==> k >= 1 && m >= 1 && symbol_len >= 1
                && k + m <= 255),
            C::engine_spec() == Engine::StandardCauchy ==> (r is Ok
                <==> k >= 1 && m >= 1 && symbol_len >= 1
                && k + m <= 256),
            r == Err::<Self, ConfigError>(ConfigError::ZeroDimension) <==> k == 0 || m == 0,
            r == Err::<Self, ConfigError>(ConfigError::ZeroSymbolLen)
                <==> k != 0 && m != 0 && symbol_len == 0,
            r matches Err(e) ==> match e {
                ConfigError::ZeroDimension => true,
                ConfigError::ZeroSymbolLen => true,
                ConfigError::TooManySymbols { cap } => k + m > cap && {
                    &&& C::engine_spec() == Engine::GoodCauchy ==> cap == 255
                    &&& C::engine_spec() == Engine::StandardCauchy ==> cap == 256
                },
                _ => false,
            },
            r matches Ok(codec) ==> codec.valid() && codec.code() == point_code::<GfElem, C>(
                k as int,
                m as int,
                symbol_len as int,
            ),
    {
        proof {
            C::capacity_is_point_count();
        }
        if k == 0 || m == 0 {
            return Err(ConfigError::ZeroDimension);
        }
        if symbol_len == 0 {
            return Err(ConfigError::ZeroSymbolLen);
        }
        match C::new(k, m) {
            None => Err(ConfigError::TooManySymbols { cap: C::capacity() }),
            Some(cauchy) => {
                let coeffs = cauchy.coefficient_matrix();
                Ok(BatchCodec { k, m, symbol_len, cauchy, coeffs })
            },
        }
    }

    /// Number of data symbols.
    pub fn k(&self) -> (r: usize)
        ensures
            r == self.code().k,
    {
        self.k
    }

    /// Number of repair symbols.
    pub fn m(&self) -> (r: usize)
        ensures
            r == self.code().m,
    {
        self.m
    }

    /// Total codeword length `n = k + m`.
    pub fn n(&self) -> (r: usize)
        requires
            self.valid(),
        ensures
            r == self.code().k + self.code().m,
    {
        proof {
            C::capacity_is_point_count();
        }
        self.k + self.m
    }

    /// Per-symbol byte length.
    pub fn symbol_len(&self) -> (r: usize)
        ensures
            r == self.code().symbol_len,
    {
        self.symbol_len
    }

    /// Coding-matrix view whose points define the reduced Cauchy system.
    #[must_use]
    pub fn cauchy(&self) -> (r: &C)
        requires
            self.valid(),
        ensures
            r.data_symbols() == self.code().k,
            r.repair_symbols() == self.code().m,
    {
        &self.cauchy
    }

    /// The coding coefficients, data symbol by data symbol.
    #[must_use]
    pub fn coeffs(&self) -> (r: &[GfElem])
        requires
            self.valid(),
        ensures
            is_coefficient_table::<GfElem, C>(self.code().k, self.code().m, r@),
    {
        self.coeffs.as_slice()
    }

    /// Sizes that follow from the invariant.
    proof fn sizes(&self)
        requires
            self.valid(),
        ensures
            self.k + self.m <= 256,
            0 <= self.k * self.symbol_len <= usize::MAX,
            0 <= self.m * self.symbol_len <= usize::MAX,
            cauchy_points(
                engine_points(C::engine_spec()),
                shifted(engine_points(C::engine_spec()), self.k as int),
                self.k as int,
                self.m as int,
            ),
            self.code() == coefficient_code(
                C::engine_spec(),
                coef_of_points(engine_points(C::engine_spec()), self.k as int),
                self.k as int,
                self.m as int,
                self.symbol_len as int,
            ),
    {
        C::capacity_is_point_count();
        C::points_follow_engine();
        points_fit::<GfElem, C>(self.k as int, self.m as int);
        let k = self.k as int;
        let m = self.m as int;
        let l = self.symbol_len as int;
        assert(0 <= k * l <= (k + m) * l && 0 <= m * l <= (k + m) * l) by (nonlinear_arith)
            requires
                0 <= k,
                0 <= m,
                0 <= l,
        ;
    }

    /// Encodes `k * symbol_len` bytes of data into `n` symbols.
    ///
    /// Entries `0..k` are the data copied verbatim; entries `k..n` are repair
    /// symbols.
    pub fn encode(&self, data: &[u8]) -> (r: Result<Vec<Vec<u8>>, EncodeError>)
        requires
            self.valid(),
        ensures
            match r {
                Ok(symbols) => {
                    &&& self.code().is_block(data@)
                    &&& symbols@.len() == self.code().k + self.code().m
                    &&& forall|i: int|
                        0 <= i < symbols@.len() ==> (#[trigger] symbols@[i])@ == (
                        self.code().symbol)(data@, i)
                },
                Err(e) => !self.code().is_block(data@) && e == (EncodeError::WrongInputLen {
                    expected: (self.code().k * self.code().symbol_len) as usize,
                    got: data@.len() as usize,
                }),
            },
            r is Ok <==> data@.len() == self.code().k * self.code().symbol_len,
    {
        proof {
            self.sizes();
            self.code_is_sound();
        }
        let expected: usize = self.k * self.symbol_len;
        if data.len() != expected {
            return Err(EncodeError::WrongInputLen { expected, got: data.len() });
        }
        let mut repairs: Vec<u8> = vec![0u8; self.m * self.symbol_len];
        encode_rows::<GfElem, C>(
            self.k,
            self.m,
            self.symbol_len,
            &self.coeffs,
            data,
            &mut repairs,
        );
        let data_rows = rows_of(data, self.k, self.symbol_len);
        let repair_rows = rows_of(&repairs, self.m, self.symbol_len);
        let mut symbols: Vec<Vec<u8>> = Vec::new();
        let mut i: usize = 0;
        while i < self.k
            invariant
                i <= self.k,
                data_rows@.len() == self.k,
                symbols@.len() == i,
                forall|s: int| 0 <= s < i ==> (#[trigger] symbols@[s])@ == data_rows@[s]@,
            decreases self.k - i,
        {
            symbols.push(vstd::slice::slice_to_vec(data_rows[i]));
            i += 1;
        }
        let mut j: usize = 0;
        while j < self.m
            invariant
                j <= self.m,
                data_rows@.len() == self.k,
                repair_rows@.len() == self.m,
                symbols@.len() == self.k + j,
                forall|s: int| 0 <= s < self.k ==> (#[trigger] symbols@[s])@ == data_rows@[s]@,
                forall|s: int|
                    self.k <= s < self.k + j ==> (#[trigger] symbols@[s])@ == repair_rows@[s
                        - self.k]@,
            decreases self.m - j,
        {
            symbols.push(vstd::slice::slice_to_vec(repair_rows[j]));
            j += 1;
        }
        proof {
            let code = self.code();
            assert forall|i: int| 0 <= i < symbols@.len() implies (#[trigger] symbols@[i])@ == (
            code.symbol)(data@, i) by {
                if i < self.k {
                    assert(data_rows@[i]@ == row_of(data@, self.symbol_len as int, i));
                    assert((code.symbol)(data@, i) == row_of(data@, self.symbol_len as int, i));
                } else {
                    let j = i - self.k;
                    assert(repair_rows@[j]@ == row_of(repairs@, self.symbol_len as int, j));
                    assert(row_of(repairs@, self.symbol_len as int, j) == (code.symbol)(
                        data@,
                        code.k + j,
                    ));
                }
            }
        }
        Ok(symbols)
    }

    /// Encodes the `m` repair symbols for `data` into `repairs`, which is fully
    /// overwritten.
    pub fn encode_into(&self, data: &[u8], repairs: &mut [u8]) -> (r: Result<(), EncodeError>)
        requires
            self.valid(),
        ensures
            encoded(
                self.code(),
                encode_fault(self.code(), data@.len() as int, old(repairs)@.len() as int),
                data@,
                old(repairs)@,
                final(repairs)@,
                r,
            ),
    {
        proof {
            self.sizes();
        }
        let din: usize = self.k * self.symbol_len;
        if data.len() != din {
            return Err(EncodeError::WrongInputLen { expected: din, got: data.len() });
        }
        let dout: usize = self.m * self.symbol_len;
        if repairs.len() != dout {
            return Err(EncodeError::WrongOutputLen { expected: dout, got: repairs.len() });
        }
        encode_rows::<GfElem, C>(self.k, self.m, self.symbol_len, &self.coeffs, data, repairs);
        Ok(())
    }

    /// Decodes any `k` of the `n` symbols back into the original
    /// `k * symbol_len` bytes.
    ///
    /// Exactly `k` pairs `(index, payload)` with distinct, in-range indices must
    /// be provided.
    pub fn decode(&self, symbols: &[(usize, &[u8])]) -> (r: Result<Vec<u8>, DecodeError>)
        requires
            self.valid(),
        ensures
            match batch_decode_fault(
                self.code(),
                symbols@,
                self.code().k * self.code().symbol_len,
            ) {
                Some(e) => r == Err::<Vec<u8>, DecodeError>(e),
                None => r is Ok && self.code().is_block(r->Ok_0@) && explains(
                    self.code(),
                    r->Ok_0@,
                    symbols@,
                ),
            },
            r is Ok <==> {
                &&& symbols@.len() == self.code().k
                &&& forall|s: int|
                    0 <= s < symbols@.len() ==> (#[trigger] symbols@[s]).0
                        < self.code().k + self.code().m
                        && symbols@[s].1@.len() == self.code().symbol_len
                &&& forall|s: int, t: int|
                    0 <= t < s < symbols@.len() ==> (#[trigger] symbols@[t]).0
                        != (#[trigger] symbols@[s]).0
            },
            r matches Ok(out) ==> {
                &&& out@.len() == self.code().k * self.code().symbol_len
                &&& forall|s: int|
                    0 <= s < symbols@.len() ==> (#[trigger] symbols@[s]).1@ == (self.code().symbol)(
                        out@,
                        symbols@[s].0 as int,
                    )
            },
            match r {
                Ok(_) => true,
                Err(DecodeError::WrongOutputLen { .. }) => false,
                Err(DecodeError::WrongCount { expected, got }) => expected == self.code().k && got
                    == symbols@.len() && got != expected,
                Err(DecodeError::WrongOutputLen { expected, got }) => expected
                    == self.code().k * self.code().symbol_len && got
                    == self.code().k * self.code().symbol_len && got != expected
                        && symbols@.len() == self.code().k,
                Err(DecodeError::IndexOutOfRange { index, n }) => n
                    == self.code().k + self.code().m && index >= n
                    && symbols@.len() == self.code().k && exists|s: int|
                    0 <= s < symbols@.len() && (#[trigger] symbols@[s]).0 == index,
                Err(DecodeError::DuplicateIndex { index }) => index < self.code().k + self.code().m
                    && symbols@.len() == self.code().k && exists|s: int, t: int|
                    0 <= t < s < symbols@.len() && (#[trigger] symbols@[t]).0 == index
                        && (#[trigger] symbols@[s]).0
                        == index,
                Err(DecodeError::WrongPayloadLen { expected, got }) => expected
                    == self.code().symbol_len
                    && got != expected && symbols@.len() == self.code().k && exists|s: int|
                    0 <= s < symbols@.len() && (#[trigger] symbols@[s]).1@.len() == got,
                _ => false,
            },
    {
        proof {
            self.sizes();
            self.code_is_sound();
            assert(symbols.len() == symbols@.len());
            decode_requests_are_judged(
                self.code(),
                symbols@,
                self.code().k * self.code().symbol_len,
            );
        }
        let mut out: Vec<u8> = vec![0u8; self.k * self.symbol_len];
        match self.decode_into(symbols, &mut out) {
            Ok(_) => Ok(out),
            Err(e) => Err(e),
        }
    }

    /// Allocates reusable workspace for this codec's decode geometry.
    pub fn decode_scratch(&self) -> (r: DecodeScratch)
        ensures
            r.valid(),
            r.fits(self.code().k, self.code().m, self.code().symbol_len),
    {
        DecodeScratch { k: self.k, m: self.m, symbol_len: self.symbol_len, memo: None }
    }

    /// Decodes into `out` with a temporary workspace.
    pub fn decode_into(&self, symbols: &[(usize, &[u8])], out: &mut [u8]) -> (r: Result<
        (),
        DecodeError,
    >)
        requires
            self.valid(),
        ensures
            decoded(
                self.code(),
                batch_decode_fault(self.code(), symbols@, old(out)@.len() as int),
                symbols@,
                old(out)@,
                final(out)@,
                r,
            ),
            r is Ok <==> {
                &&& symbols@.len() == self.code().k
                &&& old(out)@.len() == self.code().k * self.code().symbol_len
                &&& forall|s: int|
                    0 <= s < symbols@.len() ==> (#[trigger] symbols@[s]).0
                        < self.code().k + self.code().m
                        && symbols@[s].1@.len() == self.code().symbol_len
                &&& forall|s: int, t: int|
                    0 <= t < s < symbols@.len() ==> (#[trigger] symbols@[t]).0
                        != (#[trigger] symbols@[s]).0
            },
            r is Ok ==> {
                &&& final(out)@.len() == self.code().k * self.code().symbol_len
                &&& forall|s: int|
                    0 <= s < symbols@.len() ==> (#[trigger] symbols@[s]).1@ == (self.code().symbol)(
                        final(out)@,
                        symbols@[s].0 as int,
                    )
            },
            r is Err ==> final(out)@ == old(out)@,
            symbols@.len() != self.code().k <==> r matches Err(DecodeError::WrongCount { .. }),
            match r {
                Ok(_) => true,
                Err(DecodeError::WrongCount { expected, got }) => expected == self.code().k && got
                    == symbols@.len() && got != expected,
                Err(DecodeError::WrongOutputLen { expected, got }) => expected == self.code().k
                    * self.code().symbol_len && got == old(out)@.len() && got != expected
                        && symbols@.len() == self.code().k,
                Err(DecodeError::IndexOutOfRange { index, n }) => n
                    == self.code().k + self.code().m && index >= n
                    && symbols@.len() == self.code().k && exists|s: int|
                    0 <= s < symbols@.len() && (#[trigger] symbols@[s]).0 == index,
                Err(DecodeError::DuplicateIndex { index }) => index < self.code().k + self.code().m
                    && symbols@.len() == self.code().k && exists|s: int, t: int|
                    0 <= t < s < symbols@.len() && (#[trigger] symbols@[t]).0 == index
                        && (#[trigger] symbols@[s]).0
                        == index,
                Err(DecodeError::WrongPayloadLen { expected, got }) => expected
                    == self.code().symbol_len
                    && got != expected && symbols@.len() == self.code().k && exists|s: int|
                    0 <= s < symbols@.len() && (#[trigger] symbols@[s]).1@.len() == got,
                _ => false,
            },
            symbols@.len() == self.code().k && old(out)@.len() != self.code().k
                * self.code().symbol_len <==> r matches Err(DecodeError::WrongOutputLen { .. }),
    {
        let mut scratch = self.decode_scratch();
        self.decode_into_with(symbols, out, &mut scratch)
    }

    /// The scratch geometry is the codec's.
    fn scratch_fits(&self, scratch: &DecodeScratch) -> (r: bool)
        ensures
            r == scratch.fits(self.code().k, self.code().m, self.code().symbol_len),
    {
        scratch.k == self.k && scratch.m == self.m && scratch.symbol_len == self.symbol_len
    }

    /// Leaves the coefficients of the receipt in the scratch, computing them
    /// unless they are memoized.
    fn build_coefficients(&self, receipt: &Receipt<'_>, scratch: &mut DecodeScratch)
        requires
            self.valid(),
            old(scratch).valid(),
            old(scratch).fits(self.code().k, self.code().m, self.code().symbol_len),
            valid_split(
                self.k as int,
                self.m as int,
                ints(receipt.missing@),
                ints(receipt.present@),
                ints(receipt.repairs@),
            ),
        ensures
            final(scratch).valid(),
            final(scratch).fits(self.code().k, self.code().m, self.code().symbol_len),
            final(scratch).memo is Some,
            is_fused_table(
                engine_points(C::engine_spec()),
                self.k as int,
                ints(receipt.missing@),
                ints(receipt.present@),
                ints(receipt.repairs@),
                final(scratch).memo->Some_0.table@,
            ),
    {
        proof {
            C::points_follow_engine();
        }
        let hit = match &scratch.memo {
            None => false,
            Some(memo) => memo.engine == C::engine() && same_list(&memo.missing, &receipt.missing)
                && same_list(&memo.present, &receipt.present) && same_list(
                &memo.repairs,
                &receipt.repairs,
            ),
        };
        if !hit {
            let table = fused_coefficients::<GfElem, C>(
                self.k,
                self.m,
                &receipt.missing,
                &receipt.present,
                &receipt.repairs,
            );
            scratch.memo =
            Some(
                Memo {
                    engine: C::engine(),
                    missing: vstd::slice::slice_to_vec(&receipt.missing),
                    present: vstd::slice::slice_to_vec(&receipt.present),
                    repairs: vstd::slice::slice_to_vec(&receipt.repairs),
                    table,
                },
            );
        }
    }

    /// Zeroes `rows` and accumulates every received symbol's fused contribution.
    fn apply_coefficients(
        &self,
        scratch: &DecodeScratch,
        receipt: &Receipt<'_>,
        rows: &mut [u8],
    )
        requires
            self.valid(),
            scratch.memo is Some,
            scratch.memo->Some_0.table@.len() == self.k * receipt.missing@.len(),
            receipt.sources@.len() == self.k,
            forall|t: int|
                0 <= t < self.k ==> (#[trigger] receipt.sources@[t])@.len() == self.symbol_len,
            old(rows)@.len() == receipt.missing@.len() * self.symbol_len,
        ensures
            holds_combined(
                scratch.memo->Some_0.table@,
                receipt.sources@,
                receipt.missing@.len() as int,
                self.symbol_len as int,
                final(rows)@,
            ),
    {
        match &scratch.memo {
            None => {},
            Some(memo) => {
                combine_sources(
                    &memo.table,
                    &receipt.sources,
                    receipt.missing.len(),
                    self.symbol_len,
                    rows,
                );
            },
        }
    }

    /// Decodes any `k` of the `n` symbols into `out`.
    ///
    /// `scratch` must come from a codec with the same geometry.
    pub fn decode_into_with(
        &self,
        symbols: &[(usize, &[u8])],
        out: &mut [u8],
        scratch: &mut DecodeScratch,
    ) -> (r: Result<(), DecodeError>)
        requires
            self.valid(),
            old(scratch).valid(),
        ensures
            final(scratch).valid(),
            forall|k: int, m: int, l: int|
                #[trigger] final(scratch).fits(k, m, l) == old(scratch).fits(k, m, l),
            decoded(
                self.code(),
                scratch_first(
                    old(scratch).fits(self.code().k, self.code().m, self.code().symbol_len),
                    batch_decode_fault(self.code(), symbols@, old(out)@.len() as int),
                ),
                symbols@,
                old(out)@,
                final(out)@,
                r,
            ),
            r is Ok <==> old(scratch).geometry()
                == (self.code().k, self.code().m, self.code().symbol_len) && {
                &&& symbols@.len() == self.code().k
                &&& old(out)@.len() == self.code().k * self.code().symbol_len
                &&& forall|s: int|
                    0 <= s < symbols@.len() ==> (#[trigger] symbols@[s]).0
                        < self.code().k + self.code().m
                        && symbols@[s].1@.len() == self.code().symbol_len
                &&& forall|s: int, t: int|
                    0 <= t < s < symbols@.len() ==> (#[trigger] symbols@[t]).0
                        != (#[trigger] symbols@[s]).0
            },
            r matches Err(DecodeError::ScratchMismatch)
                <==> !(old(scratch).geometry() == (self.code().k, self.code().m, self.code().symbol_len)),
            r is Ok ==> {
                &&& final(out)@.len() == self.code().k * self.code().symbol_len
                &&& forall|s: int|
                    0 <= s < symbols@.len() ==> (#[trigger] symbols@[s]).1@ == (self.code().symbol)(
                        final(out)@,
                        symbols@[s].0 as int,
                    )
            },
            r is Err ==> final(out)@ == old(out)@,
            match r {
                Ok(_) => true,
                Err(DecodeError::WrongCount { expected, got }) => expected == self.code().k && got
                    == symbols@.len() && got != expected,
                Err(DecodeError::WrongOutputLen { expected, got }) => expected == self.code().k
                    * self.code().symbol_len && got == old(out)@.len() && got != expected
                        && symbols@.len() == self.code().k,
                Err(DecodeError::IndexOutOfRange { index, n }) => n
                    == self.code().k + self.code().m && index >= n
                    && symbols@.len() == self.code().k && exists|s: int|
                    0 <= s < symbols@.len() && (#[trigger] symbols@[s]).0 == index,
                Err(DecodeError::DuplicateIndex { index }) => index < self.code().k + self.code().m
                    && symbols@.len() == self.code().k && exists|s: int, t: int|
                    0 <= t < s < symbols@.len() && (#[trigger] symbols@[t]).0 == index
                        && (#[trigger] symbols@[s]).0
                        == index,
                Err(DecodeError::WrongPayloadLen { expected, got }) => expected
                    == self.code().symbol_len
                    && got != expected && symbols@.len() == self.code().k && exists|s: int|
                    0 <= s < symbols@.len() && (#[trigger] symbols@[s]).1@.len() == got,
                Err(DecodeError::ScratchMismatch) => true,
                _ => false,
            },
            r matches Err(DecodeError::WrongOutputLen { .. }) <==> {
                &&& old(scratch).geometry() == (self.code().k, self.code().m, self.code().symbol_len)
                &&& symbols@.len() == self.code().k
                &&& old(out)@.len() != self.code().k * self.code().symbol_len
            },
    {
        proof {
            self.sizes();
            self.code_is_sound();
            assert(symbols.len() == symbols@.len());
            decode_requests_are_judged(self.code(), symbols@, out.len() as int);
        }
        if !self.scratch_fits(scratch) {
            return Err(DecodeError::ScratchMismatch);
        }
        if symbols.len() != self.k {
            return Err(DecodeError::WrongCount { expected: self.k, got: symbols.len() });
        }
        let expected: usize = self.k * self.symbol_len;
        if out.len() != expected {
            return Err(DecodeError::WrongOutputLen { expected, got: out.len() });
        }
        match partition_symbols(self.k, self.m, self.symbol_len, symbols) {
            Err(e) => Err(e),
            Ok(receipt) => {
                proof {
                    split_fits(
                        self.k as int,
                        self.m as int,
                        self.symbol_len as int,
                        ints(receipt.missing@),
                        ints(receipt.present@),
                    );
                }
                self.build_coefficients(&receipt, scratch);
                let mut work: Vec<u8> = vec![0u8; receipt.missing.len() * self.symbol_len];
                self.apply_coefficients(scratch, &receipt, &mut work);
                assemble(
                    self.k,
                    self.symbol_len,
                    &receipt.missing,
                    &receipt.present,
                    &receipt.sources,
                    &work,
                    out,
                );
                proof {
                    self.assembled_explains(
                        &receipt,
                        symbols@,
                        scratch.memo->Some_0.table@,
                        work@,
                        out@,
                    );
                }
                Ok(())
            },
        }
    }

    /// The block assembled from the sources explains the symbols.
    proof fn assembled_explains(
        &self,
        receipt: &Receipt<'_>,
        symbols: Seq<(usize, &[u8])>,
        table: Seq<GfElem>,
        rows: Seq<u8>,
        block: Seq<u8>,
    )
        requires
            self.valid(),
            valid_split(
                self.k as int,
                self.m as int,
                ints(receipt.missing@),
                ints(receipt.present@),
                ints(receipt.repairs@),
            ),
            is_fused_table(
                engine_points(C::engine_spec()),
                self.k as int,
                ints(receipt.missing@),
                ints(receipt.present@),
                ints(receipt.repairs@),
                table,
            ),
            receipt.sources@.len() == self.k,
            forall|t: int|
                0 <= t < self.k ==> (#[trigger] receipt.sources@[t])@.len() == self.symbol_len,
            sourced(
                self.k as int,
                symbols,
                ints(receipt.present@),
                ints(receipt.repairs@),
                receipt.sources@,
            ),
            holds_combined(
                table,
                receipt.sources@,
                receipt.missing@.len() as int,
                self.symbol_len as int,
                rows,
            ),
            block.len() == self.k * self.symbol_len,
            forall|p: int|
                0 <= p < receipt.present@.len() ==> row_of(
                    block,
                    self.symbol_len as int,
                    #[trigger] ints(receipt.present@)[p],
                ) == receipt.sources@[receipt.missing@.len() + p]@,
            forall|a: int|
                0 <= a < receipt.missing@.len() ==> row_of(
                    block,
                    self.symbol_len as int,
                    #[trigger] ints(receipt.missing@)[a],
                ) == row_of(rows, self.symbol_len as int, a),
        ensures
            explains(self.code(), block, symbols),
    {
        self.sizes();
        assembled_block_agrees(
            engine_points(C::engine_spec()),
            self.k as int,
            self.m as int,
            self.symbol_len as int,
            ints(receipt.missing@),
            ints(receipt.present@),
            ints(receipt.repairs@),
            table,
            receipt.sources@,
            rows,
            block,
        );
        sources_explain(
            self.code(),
            symbols,
            ints(receipt.present@),
            ints(receipt.repairs@),
            receipt.sources@,
            block,
        );
    }

    /// Reconstructs only the missing data symbols with a temporary workspace.
    ///
    /// Writes only the data symbols absent from `symbols` - one `symbol_len` row
    /// each, in ascending data-index order - into `missing_out`.
    pub fn reconstruct_missing_into(
        &self,
        symbols: &[(usize, &[u8])],
        missing_out: &mut [u8],
    ) -> (r: Result<(), DecodeError>)
        requires
            self.valid(),
        ensures
            reconstructed(
                self.code(),
                reconstruct_fault(self.code(), symbols@, old(missing_out)@.len() as int),
                symbols@,
                missing_positions(indices_of(symbols@), self.code().k),
                old(missing_out)@,
                final(missing_out)@,
                r,
            ),
            r is Ok <==> {
                &&& symbols@.len() == self.code().k
                &&& old(missing_out)@.len() == missing_positions(indices_of(symbols@), self.code().k).len() * self.code().symbol_len
                &&& forall|s: int|
                    0 <= s < symbols@.len() ==> (#[trigger] symbols@[s]).0
                        < self.code().k + self.code().m
                        && symbols@[s].1@.len() == self.code().symbol_len
                &&& forall|s: int, t: int|
                    0 <= t < s < symbols@.len() ==> (#[trigger] symbols@[t]).0
                        != (#[trigger] symbols@[s]).0
            },
            r is Err ==> final(missing_out)@ == old(missing_out)@,
            match r {
                Ok(_) => true,
                Err(DecodeError::WrongCount { expected, got }) => expected == self.code().k && got
                    == symbols@.len() && got != expected,
                Err(DecodeError::WrongOutputLen { expected, got }) => expected
                    == missing_positions(indices_of(symbols@), self.code().k).len()
                    * self.code().symbol_len && got
                    == old(missing_out)@.len() && got != expected
                        && symbols@.len() == self.code().k,
                Err(DecodeError::IndexOutOfRange { index, n }) => n
                    == self.code().k + self.code().m && index >= n
                    && symbols@.len() == self.code().k && exists|s: int|
                    0 <= s < symbols@.len() && (#[trigger] symbols@[s]).0 == index,
                Err(DecodeError::DuplicateIndex { index }) => index < self.code().k + self.code().m
                    && symbols@.len() == self.code().k && exists|s: int, t: int|
                    0 <= t < s < symbols@.len() && (#[trigger] symbols@[t]).0 == index
                        && (#[trigger] symbols@[s]).0
                        == index,
                Err(DecodeError::WrongPayloadLen { expected, got }) => expected
                    == self.code().symbol_len
                    && got != expected && symbols@.len() == self.code().k && exists|s: int|
                    0 <= s < symbols@.len() && (#[trigger] symbols@[s]).1@.len() == got,
                _ => false,
            },
            r matches Err(DecodeError::WrongOutputLen { .. }) ==> (forall|s: int|
                0 <= s < symbols@.len() ==> (#[trigger] symbols@[s]).0
                    < self.code().k + self.code().m
                    && symbols@[s].1@.len() == self.code().symbol_len) && (forall|s: int, t: int|
                0 <= t < s < symbols@.len() ==> (#[trigger] symbols@[t]).0
                    != (#[trigger] symbols@[s]).0),
    {
        let mut scratch = self.decode_scratch();
        self.reconstruct_missing_into_with(symbols, missing_out, &mut scratch)
    }

    /// Reconstructs only the missing data symbols; `scratch` must come from a
    /// codec with the same geometry.
    pub fn reconstruct_missing_into_with(
        &self,
        symbols: &[(usize, &[u8])],
        missing_out: &mut [u8],
        scratch: &mut DecodeScratch,
    ) -> (r: Result<(), DecodeError>)
        requires
            self.valid(),
            old(scratch).valid(),
        ensures
            final(scratch).valid(),
            forall|k: int, m: int, l: int|
                #[trigger] final(scratch).fits(k, m, l) == old(scratch).fits(k, m, l),
            reconstructed(
                self.code(),
                scratch_first(
                    old(scratch).fits(self.code().k, self.code().m, self.code().symbol_len),
                    reconstruct_fault(self.code(), symbols@, old(missing_out)@.len() as int),
                ),
                symbols@,
                missing_positions(indices_of(symbols@), self.code().k),
                old(missing_out)@,
                final(missing_out)@,
                r,
            ),
            r is Ok <==> old(scratch).geometry()
                == (self.code().k, self.code().m, self.code().symbol_len) && {
                &&& symbols@.len() == self.code().k
                &&& old(missing_out)@.len() == missing_positions(indices_of(symbols@), self.code().k).len() * self.code().symbol_len
                &&& forall|s: int|
                    0 <= s < symbols@.len() ==> (#[trigger] symbols@[s]).0
                        < self.code().k + self.code().m
                        && symbols@[s].1@.len() == self.code().symbol_len
                &&& forall|s: int, t: int|
                    0 <= t < s < symbols@.len() ==> (#[trigger] symbols@[t]).0
                        != (#[trigger] symbols@[s]).0
            },
            r matches Err(DecodeError::ScratchMismatch)
                <==> !(old(scratch).geometry() == (self.code().k, self.code().m, self.code().symbol_len)),
            r is Err ==> final(missing_out)@ == old(missing_out)@,
            match r {
                Ok(_) => true,
                Err(DecodeError::WrongCount { expected, got }) => expected == self.code().k && got
                    == symbols@.len() && got != expected,
                Err(DecodeError::WrongOutputLen { expected, got }) => expected
                    == missing_positions(indices_of(symbols@), self.code().k).len()
                    * self.code().symbol_len && got
                    == old(missing_out)@.len() && got != expected
                        && symbols@.len() == self.code().k,
                Err(DecodeError::IndexOutOfRange { index, n }) => n
                    == self.code().k + self.code().m && index >= n
                    && symbols@.len() == self.code().k && exists|s: int|
                    0 <= s < symbols@.len() && (#[trigger] symbols@[s]).0 == index,
                Err(DecodeError::DuplicateIndex { index }) => index < self.code().k + self.code().m
                    && symbols@.len() == self.code().k && exists|s: int, t: int|
                    0 <= t < s < symbols@.len() && (#[trigger] symbols@[t]).0 == index
                        && (#[trigger] symbols@[s]).0
                        == index,
                Err(DecodeError::WrongPayloadLen { expected, got }) => expected
                    == self.code().symbol_len
                    && got != expected && symbols@.len() == self.code().k && exists|s: int|
                    0 <= s < symbols@.len() && (#[trigger] symbols@[s]).1@.len() == got,
                Err(DecodeError::ScratchMismatch) => true,
                _ => false,
            },
            r matches Err(DecodeError::WrongOutputLen { .. }) ==> (forall|s: int|
                0 <= s < symbols@.len() ==> (#[trigger] symbols@[s]).0
                    < self.code().k + self.code().m
                    && symbols@[s].1@.len() == self.code().symbol_len) && (forall|s: int, t: int|
                0 <= t < s < symbols@.len() ==> (#[trigger] symbols@[t]).0
                    != (#[trigger] symbols@[s]).0),
    {
        proof {
            self.sizes();
            self.code_is_sound();
            assert(symbols.len() == symbols@.len());
            reconstruct_requests_are_judged(self.code(), symbols@, missing_out.len() as int);
        }
        if !self.scratch_fits(scratch) {
            return Err(DecodeError::ScratchMismatch);
        }
        if symbols.len() != self.k {
            return Err(DecodeError::WrongCount { expected: self.k, got: symbols.len() });
        }
        match partition_symbols(self.k, self.m, self.symbol_len, symbols) {
            Err(e) => Err(e),
            Ok(receipt) => {
                proof {
                    split_fits(
                        self.k as int,
                        self.m as int,
                        self.symbol_len as int,
                        ints(receipt.missing@),
                        ints(receipt.present@),
                    );
                }
                let expected: usize = receipt.missing.len() * self.symbol_len;
                if missing_out.len() != expected {
                    return Err(
                        DecodeError::WrongOutputLen { expected, got: missing_out.len() },
                    );
                }
                self.build_coefficients(&receipt, scratch);
                self.apply_coefficients(scratch, &receipt, missing_out);
                proof {
                    let block = assembled_block(
                        self.k as int,
                        self.symbol_len as int,
                        ints(receipt.missing@),
                        ints(receipt.present@),
                        receipt.sources@,
                        missing_out@,
                    );
                    self.assembled_explains(
                        &receipt,
                        symbols@,
                        scratch.memo->Some_0.table@,
                        missing_out@,
                        block,
                    );
                    assert(holds_rows(
                        self.code().symbol_len,
                        block,
                        ints(receipt.missing@),
                        missing_out@,
                    ));
                }
                Ok(())
            },
        }
    }

    /// Prepares a reconstruction plan for one erasure pattern.
    ///
    /// `indices` are the codeword indices of the `k` symbols decode will be
    /// given, in any order. Validation, partitioning, and coefficient
    /// construction happen here, once. The plan lists the repairs and the
    /// present data symbols in the order of `indices`.
    pub fn prepare_decode(&self, indices: &[usize]) -> (r: Result<DecodePlan, DecodeError>)
        requires
            self.valid(),
        ensures
            match prepare_fault(self.code(), indices@) {
                Some(e) => r == Err::<DecodePlan, DecodeError>(e),
                None => r is Ok,
            },
            r is Ok <==> {
                &&& indices@.len() == self.code().k
                &&& forall|s: int|
                    0 <= s < indices@.len() ==> #[trigger] indices@[s] < self.code().k
                        + self.code().m
                &&& forall|s: int, t: int|
                    0 <= t < s < indices@.len() ==> #[trigger] indices@[t] != #[trigger] indices@[s]
            },
            match r {
                Ok(_) => true,
                Err(DecodeError::WrongCount { expected, got }) => expected == self.code().k && got
                    == indices@.len() && got != expected,
                Err(DecodeError::IndexOutOfRange { index, n }) => n == self.code().k
                    + self.code().m && index >= n && indices@.len() == self.code().k
                    && indices@.contains(index),
                Err(DecodeError::DuplicateIndex { index }) => indices@.len() == self.code().k
                    && exists|s: int, t: int|
                    0 <= t < s < indices@.len() && #[trigger] indices@[t] == index
                        && #[trigger] indices@[s] == index,
                _ => false,
            },
            r matches Ok(plan) ==> {
                &&& plan.valid()
                &&& plan.code() == self.code()
                &&& plan.missing_list() == missing_positions(ints(indices@), self.code().k)
                &&& plan.present_list() == data_in_order(
                    ints(indices@),
                    self.code().k,
                    self.code().k,
                )
                &&& plan.repair_list() == repairs_in_order(
                    ints(indices@),
                    self.code().k,
                    self.code().k,
                )
                &&& forall|i: int|
                    0 <= i < self.code().k + self.code().m ==> #[trigger] plan.expects(i) == ints(
                        indices@,
                    ).contains(i)
            },
    {
        proof {
            self.sizes();
            self.code_is_sound();
            assert(indices.len() == indices@.len());
            index_lists_are_judged(self.code(), indices@);
        }
        if indices.len() != self.k {
            return Err(DecodeError::WrongCount { expected: self.k, got: indices.len() });
        }
        let empty: Vec<u8> = Vec::new();
        let mut symbols: Vec<(usize, &[u8])> = Vec::new();
        let mut s: usize = 0;
        while s < indices.len()
            invariant
                s <= indices@.len(),
                empty@.len() == 0,
                symbols@.len() == s,
                forall|t: int|
                    0 <= t < s ==> (#[trigger] symbols@[t]).0 == indices@[t]
                        && symbols@[t].1@.len() == 0,
            decreases indices@.len() - s,
        {
            symbols.push((indices[s], empty.as_slice()));
            s += 1;
        }
        proof {
            index_fault_is_symbol_fault(
                self.k + self.m,
                indices@,
                symbols@,
                self.k as int,
            );
            assert(indices_of(symbols@) =~= ints(indices@));
        }
        match partition_symbols(self.k, self.m, 0, &symbols) {
            Err(e) => Err(e),
            Ok(receipt) => {
                proof {
                    C::points_follow_engine();
                }
                let table = fused_coefficients::<GfElem, C>(
                    self.k,
                    self.m,
                    &receipt.missing,
                    &receipt.present,
                    &receipt.repairs,
                );
                Ok(
                    DecodePlan::from_parts(
                        self.k,
                        self.m,
                        self.symbol_len,
                        C::engine(),
                        receipt.missing,
                        receipt.present,
                        receipt.repairs,
                        table,
                    ),
                )
            },
        }
    }
}

impl<C: CodingMatrix> Coded for BatchCodec<C> {
    closed spec fn valid(&self) -> bool {
        &&& fits_points(self.k as int, self.m as int, C::point_count())
        &&& self.cauchy.data_symbols() == self.k
        &&& self.cauchy.repair_symbols() == self.m
        &&& 1 <= self.symbol_len
        &&& (self.k + self.m) * self.symbol_len <= usize::MAX
        &&& is_coefficient_table::<GfElem, C>(self.k as int, self.m as int, self.coeffs@)
    }

    closed spec fn code(&self) -> Code {
        point_code::<GfElem, C>(self.k as int, self.m as int, self.symbol_len as int)
    }

    proof fn code_is_sound(&self) {
        C::capacity_is_point_count();
        point_code_is_sound::<GfElem, C>(self.k as int, self.m as int, self.symbol_len as int);
    }

    fn k(&self) -> (r: usize) {
        self.k
    }

    fn m(&self) -> (r: usize) {
        self.m
    }

    fn symbol_len(&self) -> (r: usize) {
        self.symbol_len
    }
}

impl<C: CodingMatrix> BatchEncoder for BatchCodec<C> {
    type Scratch = ();

    open spec fn scratch_valid(scratch: &()) -> bool {
        true
    }

    open spec fn encode_refusal(&self, input: int, output: int, scratch: &()) -> Option<
        EncodeError,
    > {
        encode_fault(self.code(), input, output)
    }

    proof fn codeword_fits(&self) {
    }

    proof fn encode_is_judged(&self, input: int, output: int, scratch: &()) {
        self.code_is_sound();
        encode_lengths_are_judged(self.code(), input, output);
    }

    fn scratch(&self) -> (r: ()) {
    }

    fn encode_into(&self, data: &[u8], repairs: &mut [u8]) -> (r: Result<(), EncodeError>) {
        proof {
            self.code_is_sound();
            encode_lengths_are_judged(self.code(), data.len() as int, repairs.len() as int);
        }
        BatchCodec::encode_into(self, data, repairs)
    }

    fn encode_into_with(&self, data: &[u8], repairs: &mut [u8], scratch: &mut ()) -> (r: Result<
        (),
        EncodeError,
    >) {
        proof {
            self.code_is_sound();
            encode_lengths_are_judged(self.code(), data.len() as int, repairs.len() as int);
        }
        BatchCodec::encode_into(self, data, repairs)
    }
}

impl<C: CodingMatrix> BatchDecoder for BatchCodec<C> {
    type Scratch = DecodeScratch;

    open spec fn batch_scratch_valid(scratch: &DecodeScratch) -> bool {
        scratch.valid()
    }

    open spec fn decode_refusal(
        &self,
        symbols: Seq<(usize, &[u8])>,
        output: int,
        scratch: &DecodeScratch,
    ) -> Option<DecodeError> {
        scratch_first(
            scratch.fits(self.code().k, self.code().m, self.code().symbol_len),
            batch_decode_fault(self.code(), symbols, output),
        )
    }

    open spec fn decode_fault(&self, symbols: Seq<(usize, &[u8])>, output: int) -> Option<
        DecodeError,
    > {
        batch_decode_fault(self.code(), symbols, output)
    }

    proof fn codeword_fits(&self) {
    }

    proof fn receipt_is_judged(&self, symbols: Seq<(usize, &[u8])>, output: int) {
        self.code_is_sound();
        decode_requests_are_judged(self.code(), symbols, output);
    }

    proof fn scratch_is_judged(
        &self,
        symbols: Seq<(usize, &[u8])>,
        output: int,
        scratch: &DecodeScratch,
    ) {
    }

    fn scratch(&self) -> (r: DecodeScratch) {
        self.decode_scratch()
    }

    fn decode_into(&mut self, symbols: &[(usize, &[u8])], out: &mut [u8]) -> (r: Result<
        (),
        DecodeError,
    >) {
        proof {
            assert(symbols.len() == symbols@.len());
            BatchDecoder::receipt_is_judged(self, symbols@, out.len() as int);
        }
        BatchCodec::decode_into(self, symbols, out)
    }

    fn decode_into_with(
        &mut self,
        symbols: &[(usize, &[u8])],
        out: &mut [u8],
        scratch: &mut DecodeScratch,
    ) -> (r: Result<(), DecodeError>) {
        proof {
            assert(symbols.len() == symbols@.len());
            BatchDecoder::receipt_is_judged(self, symbols@, out.len() as int);
            BatchDecoder::scratch_is_judged(self, symbols@, out.len() as int, scratch);
        }
        BatchCodec::decode_into_with(self, symbols, out, scratch)
    }
}

} // verus!
