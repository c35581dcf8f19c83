//! Codec vocabulary: [`Field`], [`Engine`], [`Profile`], and the traits every
//! engine implements.
//!
//! The concrete engines stay separate types, but they share one surface:
//!
//! - [`Coded`] - dimension accessors (`k`, `m`, `n`, `symbol_len`) and the code;
//! - [`IncrementalEncoder`] - data sendable immediately, per-source repair
//!   updates (GF(256) Good Cauchy, GF(65536) tower);
//! - [`BatchEncoder`] - block-final encode with reusable scratch;
//! - [`BatchDecoder`] - block-final decode from exactly `k` indexed symbols;
//! - [`Decoder`] - reusable payload-deferred streaming decode.

use vstd::prelude::*;

use crate::algebra::interpolation::distinct;
use crate::error::{ConfigError, DecodeError, EncodeError};
use crate::stream::{PushOutcome, SymbolSink};
use crate::symbols::row_of;

verus! {

/// Finite field underlying a codec.
#[derive(Clone, Copy, Debug, PartialEq, Eq, Structural)]
pub enum Field {
    /// GF(2^8), the AES field. Capacity `k + m <= 256`.
    Gf256,
    /// GF(2^16) as a quadratic extension of GF(256). Capacity up to 65535/65536.
    Gf65536,
}

/// Concrete coding engine. Each fixes a field and a construction; a sender and
/// receiver must agree on the engine.
#[derive(Clone, Copy, Debug, Hash, PartialEq, Eq, Structural)]
pub enum Engine {
    /// GF(256) Standard Cauchy (`k + m <= 256`).
    StandardCauchy,
    /// GF(256) Good Cauchy (`k + m <= 255`), incremental streaming encode.
    GoodCauchy,
    /// GF(65536) incremental Tower Cauchy.
    Tower,
    /// GF(256) block-final additive FFT.
    Gf8Afft,
    /// GF(65536) block-final additive FFT.
    Gf16Afft,
}

impl Engine {
    /// The field this engine codes over.
    pub open spec fn field_spec(self) -> Field {
        match self {
            Engine::StandardCauchy => Field::Gf256,
            Engine::GoodCauchy => Field::Gf256,
            Engine::Tower => Field::Gf65536,
            Engine::Gf8Afft => Field::Gf256,
            Engine::Gf16Afft => Field::Gf65536,
        }
    }

    /// The largest codeword length of the engine.
    pub open spec fn capacity_spec(self) -> usize {
        match self {
            Engine::StandardCauchy => 256,
            Engine::GoodCauchy => 255,
            Engine::Tower => 65535,
            Engine::Gf8Afft => 256,
            Engine::Gf16Afft => 65536,
        }
    }

    /// Bytes of one field element.
    pub open spec fn element_width(self) -> int {
        match self.field_spec() {
            Field::Gf256 => 1,
            Field::Gf65536 => 2,
        }
    }

    /// Characters of [`Engine::name`].
    pub open spec fn text(&self) -> Seq<char> {
        match self {
            Engine::StandardCauchy => "StandardCauchy"@,
            Engine::GoodCauchy => "GoodCauchy"@,
            Engine::Tower => "Tower"@,
            Engine::Gf8Afft => "Gf8Afft"@,
            Engine::Gf16Afft => "Gf16Afft"@,
        }
    }

    /// The field this engine codes over.
    pub fn field(self) -> (r: Field)
        ensures
            r == self.field_spec(),
            r == Field::Gf65536 <==> self == Engine::Tower || self == Engine::Gf16Afft,
    {
        match self {
            Engine::StandardCauchy => Field::Gf256,
            Engine::GoodCauchy => Field::Gf256,
            Engine::Tower => Field::Gf65536,
            Engine::Gf8Afft => Field::Gf256,
            Engine::Gf16Afft => Field::Gf65536,
        }
    }

    /// The largest codeword length of the engine.
    pub fn capacity(self) -> (r: usize)
        ensures
            r == self.capacity_spec(),
            self == Engine::GoodCauchy ==> r == 255,
            self == Engine::StandardCauchy || self == Engine::Gf8Afft ==> r == 256,
            self == Engine::Tower ==> r == 65535,
            self == Engine::Gf16Afft ==> r == 65536,
    {
        match self {
            Engine::StandardCauchy => 256,
            Engine::GoodCauchy => 255,
            Engine::Tower => 65535,
            Engine::Gf8Afft => 256,
            Engine::Gf16Afft => 65536,
        }
    }

    /// The engine's name.
    pub fn name(&self) -> (r: &'static str)
        ensures
            r@ == self.text(),
            *self == Engine::StandardCauchy ==> r@ == "StandardCauchy"@,
            *self == Engine::GoodCauchy ==> r@ == "GoodCauchy"@,
            *self == Engine::Tower ==> r@ == "Tower"@,
            *self == Engine::Gf8Afft ==> r@ == "Gf8Afft"@,
            *self == Engine::Gf16Afft ==> r@ == "Gf16Afft"@,
    {
        match self {
            Engine::StandardCauchy => "StandardCauchy",
            Engine::GoodCauchy => "GoodCauchy",
            Engine::Tower => "Tower",
            Engine::Gf8Afft => "Gf8Afft",
            Engine::Gf16Afft => "Gf16Afft",
        }
    }
}

/// A block code: `symbol(data, i)` is symbol `i` of the codeword for `data`.
pub struct Code {
    pub engine: Engine,
    pub k: int,
    pub m: int,
    pub symbol_len: int,
    pub symbol: spec_fn(Seq<u8>, int) -> Seq<u8>,
}

impl Code {
    /// A block of data symbols.
    pub open spec fn is_block(self, data: Seq<u8>) -> bool {
        data.len() == self.k * self.symbol_len
    }

    /// Dimensions every engine accepts.
    pub open spec fn well_shaped(self) -> bool {
        &&& 1 <= self.k
        &&& 1 <= self.m
        &&& self.k + self.m <= 65536
        &&& 1 <= self.symbol_len
    }

    /// The bytes of a codeword can be addressed.
    pub open spec fn fits_memory(self) -> bool {
        (self.k + self.m) * self.symbol_len <= usize::MAX
    }

    /// Symbols have `symbol_len` bytes, and the first `k` are the data verbatim.
    pub open spec fn systematic(self) -> bool {
        &&& forall|data: Seq<u8>, i: int|
            self.is_block(data) ==> (#[trigger] (self.symbol)(data, i)).len() == self.symbol_len
        &&& forall|data: Seq<u8>, i: int|
            self.is_block(data) && 0 <= i < self.k ==> #[trigger] (self.symbol)(data, i) == row_of(
                data,
                self.symbol_len,
                i,
            )
    }

    /// Both blocks have the same symbols at `indices`.
    pub open spec fn same_at(self, first: Seq<u8>, second: Seq<u8>, indices: Seq<int>) -> bool {
        forall|t: int|
            0 <= t < indices.len() ==> (self.symbol)(first, #[trigger] indices[t]) == (self.symbol)(
                second,
                indices[t],
            )
    }

    /// Distinct codeword positions.
    pub open spec fn selects(self, indices: Seq<int>) -> bool {
        &&& distinct(indices)
        &&& indices.len() == self.k
        &&& forall|t: int|
            0 <= t < indices.len() ==> 0 <= #[trigger] indices[t] < self.k + self.m
    }

    /// Any `k` distinct symbols determine the data.
    pub open spec fn maximum_distance(self) -> bool {
        forall|first: Seq<u8>, second: Seq<u8>, indices: Seq<int>|
            self.is_block(first) && self.is_block(second) && self.selects(indices)
                && #[trigger] self.same_at(first, second, indices) ==> first == second
    }

    /// What every engine's code guarantees.
    pub open spec fn sound(self) -> bool {
        self.well_shaped() && self.systematic() && self.maximum_distance()
    }
}

/// Why a geometry is refused by an engine with capacity `cap` and elements of
/// `width` bytes.
pub open spec fn config_fault(k: int, m: int, symbol_len: int, width: int, cap: usize) -> Option<
    ConfigError,
> {
    if k == 0 || m == 0 {
        Some(ConfigError::ZeroDimension)
    } else if symbol_len == 0 {
        Some(ConfigError::ZeroSymbolLen)
    } else if symbol_len % width != 0 {
        Some(ConfigError::OddSymbolLen)
    } else if k + m > cap {
        Some(ConfigError::TooManySymbols { cap })
    } else {
        None
    }
}

/// Why a geometry is refused by an engine that also refuses codewords too large
/// to address.
pub open spec fn sized_fault(k: int, m: int, symbol_len: int, width: int, cap: usize) -> Option<
    ConfigError,
> {
    match config_fault(k, m, symbol_len, width, cap) {
        Some(e) => Some(e),
        None => if (k + m) * symbol_len > usize::MAX {
            Some(ConfigError::TooManySymbols { cap })
        } else {
            None
        },
    }
}

/// A codeword of an accepted geometry can be addressed.
pub open spec fn addressable(k: int, m: int, symbol_len: int, width: int, cap: usize) -> bool {
    config_fault(k, m, symbol_len, width, cap) is None ==> (k + m) * symbol_len <= usize::MAX
}

/// A geometry is accepted exactly when the block is not empty, its symbols are
/// whole elements and the codeword is no longer than the engine can code. The
/// reasons to refuse come in that order, and the last names the limit.
pub proof fn geometries_are_judged(k: int, m: int, symbol_len: int, width: int, cap: usize)
    requires
        k >= 0,
        m >= 0,
        symbol_len >= 0,
        width >= 1,
    ensures
        config_fault(k, m, symbol_len, width, cap) is None <==> k >= 1 && m >= 1 && symbol_len >= 1
            && symbol_len % width == 0 && k + m <= cap,
        config_fault(k, m, symbol_len, width, cap) == Some(ConfigError::ZeroDimension) <==> k == 0
            || m == 0,
        config_fault(k, m, symbol_len, width, cap) == Some(ConfigError::ZeroSymbolLen) <==> k >= 1
            && m >= 1 && symbol_len == 0,
        config_fault(k, m, symbol_len, width, cap) == Some(ConfigError::OddSymbolLen) <==> k >= 1
            && m >= 1 && symbol_len >= 1 && symbol_len % width != 0,
        config_fault(k, m, symbol_len, width, cap) == Some(ConfigError::TooManySymbols { cap })
            <==> k >= 1 && m >= 1 && symbol_len >= 1 && symbol_len % width == 0 && k + m > cap,
        sized_fault(k, m, symbol_len, width, cap) is None <==> k >= 1 && m >= 1 && symbol_len >= 1
            && symbol_len % width == 0 && k + m <= cap && (k + m) * symbol_len <= usize::MAX,
        config_fault(k, m, symbol_len, width, cap) is Some ==> sized_fault(
            k,
            m,
            symbol_len,
            width,
            cap,
        ) == config_fault(k, m, symbol_len, width, cap),
        (k + m) * symbol_len <= usize::MAX ==> addressable(k, m, symbol_len, width, cap),
{
}

/// A resolved geometry: which engine, and the block shape.
pub struct Geometry {
    pub engine: Engine,
    pub k: int,
    pub m: int,
    pub symbol_len: int,
}

/// A fully resolved codec geometry: which engine, and the block shape.
#[derive(Clone, Copy, Debug, PartialEq, Eq, Structural)]
pub struct Profile {
    engine: Engine,
    k: usize,
    m: usize,
    symbol_len: usize,
}

impl View for Profile {
    type V = Geometry;

    closed spec fn view(&self) -> Geometry {
        Geometry {
            engine: self.engine,
            k: self.k as int,
            m: self.m as int,
            symbol_len: self.symbol_len as int,
        }
    }
}

impl Profile {
    /// Assembles a profile from parts that the caller has validated.
    pub(crate) fn from_parts(engine: Engine, k: usize, m: usize, symbol_len: usize) -> (r: Self)
        ensures
            r@ == (Geometry {
                engine,
                k: k as int,
                m: m as int,
                symbol_len: symbol_len as int,
            }),
    {
        Profile { engine, k, m, symbol_len }
    }

    /// The engine.
    pub fn engine(&self) -> (r: Engine)
        ensures
            r == self@.engine,
    {
        self.engine
    }

    /// The field.
    pub fn field(&self) -> (r: Field)
        ensures
            r == self@.engine.field_spec(),
            r == Field::Gf65536 <==> self@.engine == Engine::Tower || self@.engine
                == Engine::Gf16Afft,
    {
        self.engine.field()
    }

    /// Number of data symbols.
    pub fn k(&self) -> (r: usize)
        ensures
            r == self@.k,
    {
        self.k
    }

    /// Number of repair symbols.
    pub fn m(&self) -> (r: usize)
        ensures
            r == self@.m,
    {
        self.m
    }

    /// Codeword length `n = k + m`.
    pub fn n(&self) -> (r: usize)
        requires
            self@.k + self@.m <= usize::MAX,
        ensures
            r == self@.k + self@.m,
    {
        self.k + self.m
    }

    /// Per-symbol byte length.
    pub fn symbol_len(&self) -> (r: usize)
        ensures
            r == self@.symbol_len,
    {
        self.symbol_len
    }
}

/// The codeword indices of a list of symbols.
pub open spec fn indices_of(symbols: Seq<(usize, &[u8])>) -> Seq<int> {
    Seq::new(symbols.len(), |s: int| symbols[s].0 as int)
}

/// Every received symbol is the symbol that `block` encodes to.
pub open spec fn explains(code: Code, block: Seq<u8>, symbols: Seq<(usize, &[u8])>) -> bool {
    forall|s: int|
        0 <= s < symbols.len() ==> (#[trigger] symbols[s]).1@ == (code.symbol)(
            block,
            symbols[s].0 as int,
        )
}

/// A decoded block is the encoded one: the block that explains any `k` distinct
/// symbols of a codeword is the block the codeword was made from.
pub proof fn decoding_undoes_encoding(
    code: Code,
    data: Seq<u8>,
    decoded: Seq<u8>,
    symbols: Seq<(usize, &[u8])>,
)
    requires
        code.sound(),
        code.is_block(data),
        code.is_block(decoded),
        code.selects(indices_of(symbols)),
        explains(code, data, symbols),
        explains(code, decoded, symbols),
    ensures
        decoded == data,
{
    let indices = indices_of(symbols);
    assert forall|t: int| 0 <= t < indices.len() implies (code.symbol)(
        decoded,
        #[trigger] indices[t],
    ) == (code.symbol)(data, indices[t]) by {
        assert(symbols[t].1@ == (code.symbol)(data, symbols[t].0 as int));
    }
    assert(code.same_at(decoded, data, indices));
}

/// Dimension accessors shared by every codec.
pub trait Coded: Sized {
    /// The codec's invariant.
    spec fn valid(&self) -> bool;

    /// The code.
    spec fn code(&self) -> Code;

    /// The code is systematic and any `k` symbols determine the data.
    proof fn code_is_sound(&self)
        requires
            self.valid(),
        ensures
            self.code().sound(),
    ;

    /// Number of data symbols `k`.
    fn k(&self) -> (r: usize)
        requires
            self.valid(),
        ensures
            r == self.code().k,
    ;

    /// Number of repair symbols `m`.
    fn m(&self) -> (r: usize)
        requires
            self.valid(),
        ensures
            r == self.code().m,
    ;

    /// Per-symbol byte length.
    fn symbol_len(&self) -> (r: usize)
        requires
            self.valid(),
        ensures
            r == self.code().symbol_len,
    ;

    /// Codeword length `n = k + m`.
    fn n(&self) -> (r: usize)
        requires
            self.valid(),
        ensures
            r == self.code().k + self.code().m,
    {
        proof {
            self.code_is_sound();
        }
        self.k() + self.m()
    }
}

/// Why a data symbol is refused by an incremental encoder.
pub open spec fn feed_fault(code: Code, fed: bool, index: int, len: int) -> Option<EncodeError> {
    if index >= code.k {
        Some(
            EncodeError::IndexOutOfRange { index: index as usize, n: (code.k + code.m) as usize },
        )
    } else if len != code.symbol_len {
        Some(
            EncodeError::WrongPayloadLen {
                expected: code.symbol_len as usize,
                got: len as usize,
            },
        )
    } else if fed {
        Some(EncodeError::DuplicateData { index: index as usize })
    } else {
        None
    }
}

/// `block` with symbol `index` replaced.
pub open spec fn with_symbol(
    block: Seq<u8>,
    symbol_len: int,
    index: int,
    symbol: Seq<u8>,
) -> Seq<u8> {
    Seq::new(
        block.len(),
        |t: int|
            if index * symbol_len <= t < index * symbol_len + symbol_len {
                symbol[t - index * symbol_len]
            } else {
                block[t]
            },
    )
}

/// A block of zero bytes.
pub open spec fn zero_block(len: int) -> Seq<u8> {
    Seq::new(len as nat, |t: int| 0u8)
}

/// Incremental (streaming) encoder: data symbols are sendable immediately and
/// each source arrival updates every repair. Implemented by GF(256) Good Cauchy
/// and GF(65536) tower.
pub trait IncrementalEncoder: Coded {
    /// The data fed so far; symbols not yet fed are zero.
    spec fn fed_block(&self) -> Seq<u8>;

    /// Whether data symbol `index` has been fed.
    spec fn is_fed(&self, index: int) -> bool;

    /// Adds one data symbol's contribution to every repair.
    fn feed(&mut self, index: usize, data: &[u8]) -> (r: Result<(), EncodeError>)
        requires
            old(self).valid(),
        ensures
            final(self).valid(),
            final(self).code() == old(self).code(),
            match feed_fault(
                old(self).code(),
                old(self).is_fed(index as int),
                index as int,
                data@.len() as int,
            ) {
                Some(e) => r == Err::<(), EncodeError>(e) && final(self).fed_block() == old(
                    self,
                ).fed_block() && forall|i: int|
                    0 <= i < old(self).code().k ==> #[trigger] final(self).is_fed(i) == old(
                        self,
                    ).is_fed(i),
                None => r == Ok::<(), EncodeError>(()) && final(self).fed_block() == with_symbol(
                    old(self).fed_block(),
                    old(self).code().symbol_len,
                    index as int,
                    data@,
                ) && forall|i: int|
                    0 <= i < old(self).code().k ==> #[trigger] final(self).is_fed(i) == (i == index
                        || old(self).is_fed(i)),
            },
            r is Ok <==> index < old(self).code().k && data@.len() == old(self).code().symbol_len
                && !old(self).is_fed(
                index as int,
            ),
            index >= old(self).code().k <==> r matches Err(EncodeError::IndexOutOfRange { .. }),
            r is Ok ==> final(self).is_fed(index as int),
            r is Err ==> final(self).fed_block() == old(self).fed_block(),
            match r {
                Ok(_) => true,
                Err(EncodeError::IndexOutOfRange { index: refused, n }) => refused == index
                    && n == old(self).code().k
                    + old(self).code().m,
                Err(EncodeError::WrongPayloadLen { expected, got }) => expected
                    == old(self).code().symbol_len && got
                    == data@.len() && got != expected && index < old(self).code().k,
                Err(EncodeError::DuplicateData { index: refused }) => refused == index
                    && old(self).is_fed(
                    index as int,
                ) && data@.len() == old(self).code().symbol_len,
                _ => false,
            },
    ;

    /// Borrows a repair symbol (`index` in `0..m`) of the data fed so far.
    fn repair(&self, index: usize) -> (r: Result<&[u8], EncodeError>)
        requires
            self.valid(),
        ensures
            index >= self.code().m ==> r == Err::<&[u8], EncodeError>(
                EncodeError::IndexOutOfRange {
                    index,
                    n: (self.code().k + self.code().m) as usize,
                },
            ),
            index < self.code().m ==> r is Ok && r->Ok_0@ == (self.code().symbol)(
                self.fed_block(),
                self.code().k + index,
            ),
    ;

    /// Number of distinct data symbols fed so far.
    fn fed_count(&self) -> (r: usize)
        requires
            self.valid(),
        ensures
            r == fed_total(|i: int| self.is_fed(i), self.code().k),
    ;

    /// Clears fed state for reuse.
    fn reset(&mut self)
        requires
            old(self).valid(),
        ensures
            final(self).valid(),
            final(self).code() == old(self).code(),
            final(self).fed_block() == zero_block(old(self).code().k * old(self).code().symbol_len),
            forall|i: int| 0 <= i < old(self).code().k ==> !(#[trigger] final(self).is_fed(i)),
    ;
}

/// How many of the first `k` indices satisfy `fed`.
pub open spec fn fed_total(fed: spec_fn(int) -> bool, k: int) -> int
    decreases k,
{
    if k <= 0 {
        0
    } else if fed(k - 1) {
        fed_total(fed, k - 1) + 1
    } else {
        fed_total(fed, k - 1)
    }
}

/// Parts of a codeword that can be addressed can be addressed.
pub proof fn block_sizes(code: Code)
    requires
        code.well_shaped(),
        code.fits_memory(),
    ensures
        1 <= code.symbol_len <= usize::MAX,
        0 <= code.k * code.symbol_len <= usize::MAX,
        0 <= code.m * code.symbol_len <= usize::MAX,
{
    let (k, m, l) = (code.k, code.m, code.symbol_len);
    assert(l <= (k + m) * l && 0 <= k * l <= (k + m) * l && 0 <= m * l <= (k + m) * l)
        by (nonlinear_arith)
        requires
            k >= 1,
            m >= 1,
            l >= 1,
    ;
}

/// Why a block-final encode is refused.
pub open spec fn encode_fault(code: Code, input: int, output: int) -> Option<EncodeError> {
    if input != code.k * code.symbol_len {
        Some(
            EncodeError::WrongInputLen {
                expected: (code.k * code.symbol_len) as usize,
                got: input as usize,
            },
        )
    } else if output != code.m * code.symbol_len {
        Some(
            EncodeError::WrongOutputLen {
                expected: (code.m * code.symbol_len) as usize,
                got: output as usize,
            },
        )
    } else {
        None
    }
}

/// An encode is accepted exactly for `k` whole symbols of data and room for `m`
/// repairs; a refusal names the length that the request has and the one that it
/// should have, the data's before the repairs'.
pub proof fn encode_lengths_are_judged(code: Code, input: int, output: int)
    requires
        code.well_shaped(),
        code.fits_memory(),
        0 <= input <= usize::MAX,
        0 <= output <= usize::MAX,
    ensures
        encode_fault(code, input, output) is None <==> input == code.k * code.symbol_len && output
            == code.m * code.symbol_len,
        encode_fault(code, input, output) matches Some(e) ==> match e {
            EncodeError::WrongInputLen { expected, got } => expected == code.k * code.symbol_len
                && got == input && got != expected,
            EncodeError::WrongOutputLen { expected, got } => expected == code.m * code.symbol_len
                && got == output && got != expected && input == code.k * code.symbol_len,
            _ => false,
        },
{
    block_sizes(code);
}

/// A data symbol is accepted exactly when it is one of the `k`, has `symbol_len`
/// bytes and was not fed before; a refusal names the index or the lengths.
pub proof fn feeds_are_judged(code: Code, fed: bool, index: int, len: int)
    requires
        code.well_shaped(),
        code.symbol_len <= usize::MAX,
        0 <= index <= usize::MAX,
        0 <= len <= usize::MAX,
    ensures
        feed_fault(code, fed, index, len) is None <==> index < code.k && len == code.symbol_len
            && !fed,
        feed_fault(code, fed, index, len) matches Some(e) ==> match e {
            EncodeError::IndexOutOfRange { index: refused, n } => refused == index && n == code.k
                + code.m && index >= code.k,
            EncodeError::WrongPayloadLen { expected, got } => expected == code.symbol_len && got
                == len && got != expected && index < code.k,
            EncodeError::DuplicateData { index: refused } => refused == index && fed && index
                < code.k && len == code.symbol_len,
            _ => false,
        },
{
}

/// `repairs` holds every repair symbol of `data`.
pub open spec fn holds_repairs(code: Code, data: Seq<u8>, repairs: Seq<u8>) -> bool {
    &&& repairs.len() == code.m * code.symbol_len
    &&& forall|j: int|
        0 <= j < code.m ==> row_of(repairs, code.symbol_len, j) == #[trigger] (code.symbol)(
            data,
            code.k + j,
        )
}

/// The outcome of a block-final encode.
pub open spec fn encoded(
    code: Code,
    fault: Option<EncodeError>,
    data: Seq<u8>,
    before: Seq<u8>,
    after: Seq<u8>,
    r: Result<(), EncodeError>,
) -> bool {
    match fault {
        Some(e) => r == Err::<(), EncodeError>(e) && after == before,
        None => r == Ok::<(), EncodeError>(()) && holds_repairs(code, data, after),
    }
}

/// Block-final encoder: all data present, compute every repair. A reusable
/// [`Scratch`](BatchEncoder::Scratch) holds the workspace.
pub trait BatchEncoder: Coded {
    /// Reusable, caller-owned encode workspace (`()` where none is needed).
    type Scratch;

    /// The workspace invariant.
    spec fn scratch_valid(scratch: &Self::Scratch) -> bool;

    /// Why an encode with this workspace is refused.
    spec fn encode_refusal(&self, input: int, output: int, scratch: &Self::Scratch) -> Option<
        EncodeError,
    >;

    /// A whole codeword can be addressed.
    proof fn codeword_fits(&self)
        requires
            self.valid(),
        ensures
            self.code().fits_memory(),
    ;

    /// An encode is refused for the length of the data, for the length of the
    /// repairs, or because the workspace belongs elsewhere.
    proof fn encode_is_judged(&self, input: int, output: int, scratch: &Self::Scratch)
        requires
            self.valid(),
            0 <= input <= usize::MAX,
            0 <= output <= usize::MAX,
        ensures
            self.encode_refusal(input, output, scratch) is None ==> input == self.code().k
                * self.code().symbol_len && output == self.code().m * self.code().symbol_len,
            self.encode_refusal(input, output, scratch) matches Some(e) ==> match e {
                EncodeError::WrongInputLen { expected, got } => expected == self.code().k
                    * self.code().symbol_len && got == input && got != expected,
                EncodeError::WrongOutputLen { expected, got } => expected == self.code().m
                    * self.code().symbol_len && got == output && got != expected && input
                    == self.code().k * self.code().symbol_len,
                EncodeError::ScratchMismatch => true,
                _ => false,
            },
    ;

    /// Allocates a scratch sized for this codec.
    fn scratch(&self) -> (r: Self::Scratch)
        requires
            self.valid(),
        ensures
            Self::scratch_valid(&r),
            self.encode_refusal(
                self.code().k * self.code().symbol_len,
                self.code().m * self.code().symbol_len,
                &r,
            ) is None,
            forall|input: int, output: int| #[trigger]
                self.encode_refusal(input, output, &r) == encode_fault(
                    self.code(),
                    input,
                    output,
                ),
    ;

    /// Encodes `data` (`k * symbol_len`) into `repairs` (`m * symbol_len`),
    /// using a throwaway scratch.
    fn encode_into(&self, data: &[u8], repairs: &mut [u8]) -> (r: Result<(), EncodeError>)
        requires
            self.valid(),
        ensures
            encoded(
                self.code(),
                encode_fault(self.code(), data@.len() as int, old(repairs)@.len() as int),
                data@,
                old(repairs)@,
                final(repairs)@,
                r,
            ),
            r is Ok <==> data@.len() == self.code().k * self.code().symbol_len && old(
                repairs,
            )@.len() == self.code().m * self.code().symbol_len,
            r is Ok ==> {
                &&& data@.len() == self.code().k * self.code().symbol_len
                &&& final(repairs)@.len() == self.code().m * self.code().symbol_len
                &&& forall|j: int|
                    0 <= j < self.code().m ==> #[trigger] row_of(final(repairs)@, self.code().symbol_len, j) == (self.code().symbol)(
                        data@,
                        self.code().k + j,
                    )
            },
            r is Err ==> final(repairs)@ == old(repairs)@,
            match r {
                Ok(_) => true,
                Err(EncodeError::WrongInputLen { expected, got }) => expected == self.code().k
                    * self.code().symbol_len && got == data@.len() && got != expected,
                Err(EncodeError::WrongOutputLen { expected, got }) => expected == self.code().m
                    * self.code().symbol_len && got == old(repairs)@.len() && got != expected
                        && data@.len() == self.code().k
                    * self.code().symbol_len,
                _ => false,
            },
    ;

    /// Encodes with a workspace the caller owns and reuses.
    fn encode_into_with(
        &self,
        data: &[u8],
        repairs: &mut [u8],
        scratch: &mut Self::Scratch,
    ) -> (r: Result<(), EncodeError>)
        requires
            self.valid(),
            Self::scratch_valid(old(scratch)),
        ensures
            Self::scratch_valid(final(scratch)),
            forall|input: int, output: int| #[trigger]
                self.encode_refusal(input, output, final(scratch)) == self.encode_refusal(
                    input,
                    output,
                    old(scratch),
                ),
            encoded(
                self.code(),
                self.encode_refusal(data@.len() as int, old(repairs)@.len() as int, old(scratch)),
                data@,
                old(repairs)@,
                final(repairs)@,
                r,
            ),
            self.encode_refusal(
                self.code().k * self.code().symbol_len,
                self.code().m * self.code().symbol_len,
                old(scratch),
            ) is None ==> (r is Ok <==> data@.len() == self.code().k * self.code().symbol_len
                && old(repairs)@.len() == self.code().m * self.code().symbol_len),
            r is Ok ==> old(repairs)@.len() == self.code().m * self.code().symbol_len,
            r is Ok ==> {
                &&& data@.len() == self.code().k * self.code().symbol_len
                &&& final(repairs)@.len() == self.code().m * self.code().symbol_len
                &&& forall|j: int|
                    0 <= j < self.code().m ==> #[trigger] row_of(final(repairs)@, self.code().symbol_len, j) == (self.code().symbol)(
                        data@,
                        self.code().k + j,
                    )
            },
            r is Err ==> final(repairs)@ == old(repairs)@,
            match r {
                Ok(_) => true,
                Err(EncodeError::WrongInputLen { expected, got }) => expected == self.code().k
                    * self.code().symbol_len && got == data@.len() && got != expected,
                Err(EncodeError::WrongOutputLen { expected, got }) => expected == self.code().m
                    * self.code().symbol_len && got == old(repairs)@.len() && got != expected
                        && data@.len() == self.code().k
                    * self.code().symbol_len,
                Err(EncodeError::ScratchMismatch) => true,
                _ => false,
            },
    ;
}

/// The outcome of a decode.
pub open spec fn decoded(
    code: Code,
    fault: Option<DecodeError>,
    symbols: Seq<(usize, &[u8])>,
    before: Seq<u8>,
    after: Seq<u8>,
    r: Result<(), DecodeError>,
) -> bool {
    match fault {
        Some(e) => r == Err::<(), DecodeError>(e) && after == before,
        None => r == Ok::<(), DecodeError>(()) && code.is_block(after) && explains(
            code,
            after,
            symbols,
        ),
    }
}

/// Block-final decoder: exactly `k` indexed symbols are submitted together and
/// the `k` systematic symbols are reconstructed into caller-owned memory.
pub trait BatchDecoder: Coded {
    /// Reusable, caller-owned decode workspace.
    type Scratch;

    /// The workspace invariant.
    spec fn batch_scratch_valid(scratch: &Self::Scratch) -> bool;

    /// Why a decode is refused.
    spec fn decode_refusal(
        &self,
        symbols: Seq<(usize, &[u8])>,
        output: int,
        scratch: &Self::Scratch,
    ) -> Option<DecodeError>;

    /// Why a decode with a throwaway scratch is refused.
    spec fn decode_fault(&self, symbols: Seq<(usize, &[u8])>, output: int) -> Option<DecodeError>;

    /// A whole codeword can be addressed.
    proof fn codeword_fits(&self)
        requires
            self.valid(),
        ensures
            self.code().fits_memory(),
    ;

    /// A set of symbols is accepted exactly when there are `k` of them, at
    /// different codeword positions and of `symbol_len` bytes each, and the output
    /// has room for `k` such symbols. A refusal names what is wrong: a count, a
    /// length or an index that the request has.
    proof fn receipt_is_judged(&self, symbols: Seq<(usize, &[u8])>, output: int)
        requires
            self.valid(),
            0 <= output <= usize::MAX,
            symbols.len() <= usize::MAX,
        ensures
            self.decode_fault(symbols, output) is None <==> {
                &&& symbols.len() == self.code().k
                &&& output == self.code().k * self.code().symbol_len
                &&& forall|s: int|
                    0 <= s < symbols.len() ==> (#[trigger] symbols[s]).0
                        < self.code().k + self.code().m
                        && symbols[s].1@.len() == self.code().symbol_len
                &&& forall|s: int, t: int|
                    0 <= t < s < symbols.len() ==> (#[trigger] symbols[t]).0
                        != (#[trigger] symbols[s]).0
            },
            self.decode_fault(symbols, output) matches Some(e) ==> match e {
                DecodeError::WrongCount { expected, got } => expected == self.code().k && got
                    == symbols.len() && got != expected,
                DecodeError::WrongOutputLen { expected, got } => expected == self.code().k
                    * self.code().symbol_len && got == output && got != expected
                        && symbols.len() == self.code().k,
                DecodeError::IndexOutOfRange { index, n } => n == self.code().k + self.code().m
                    && index >= n
                    && symbols.len() == self.code().k && exists|s: int|
                    0 <= s < symbols.len() && (#[trigger] symbols[s]).0 == index,
                DecodeError::DuplicateIndex { index } => index < self.code().k + self.code().m
                    && symbols.len() == self.code().k && exists|s: int, t: int|
                    0 <= t < s < symbols.len() && (#[trigger] symbols[t]).0 == index
                        && (#[trigger] symbols[s]).0
                        == index,
                DecodeError::WrongPayloadLen { expected, got } => expected == self.code().symbol_len
                    && got != expected && symbols.len() == self.code().k && exists|s: int|
                    0 <= s < symbols.len() && (#[trigger] symbols[s]).1@.len() == got,
                _ => false,
            },
    ;

    /// A scratch only adds one reason to refuse: that it belongs elsewhere.
    proof fn scratch_is_judged(
        &self,
        symbols: Seq<(usize, &[u8])>,
        output: int,
        scratch: &Self::Scratch,
    )
        requires
            self.valid(),
            0 <= output <= usize::MAX,
            symbols.len() <= usize::MAX,
        ensures
            self.decode_refusal(symbols, output, scratch) == self.decode_fault(symbols, output)
                || self.decode_refusal(symbols, output, scratch) == Some(
                DecodeError::ScratchMismatch,
            ),
    ;

    /// Allocates scratch sized for this codec.
    fn scratch(&self) -> (r: Self::Scratch)
        requires
            self.valid(),
        ensures
            Self::batch_scratch_valid(&r),
            forall|symbols: Seq<(usize, &[u8])>, output: int| #[trigger]
                self.decode_refusal(symbols, output, &r) == self.decode_fault(symbols, output),
    ;

    /// Decodes into `out` using a throwaway scratch.
    fn decode_into(&mut self, symbols: &[(usize, &[u8])], out: &mut [u8]) -> (r: Result<
        (),
        DecodeError,
    >)
        requires
            old(self).valid(),
        ensures
            final(self).valid(),
            final(self).code() == old(self).code(),
            forall|symbols: Seq<(usize, &[u8])>, output: int| #[trigger]
                final(self).decode_fault(symbols, output) == old(self).decode_fault(
                    symbols,
                    output,
                ),
            decoded(
                old(self).code(),
                old(self).decode_fault(symbols@, old(out)@.len() as int),
                symbols@,
                old(out)@,
                final(out)@,
                r,
            ),
            r is Ok <==> {
                &&& symbols@.len() == old(self).code().k
                &&& old(out)@.len() == old(self).code().k * old(self).code().symbol_len
                &&& forall|s: int|
                    0 <= s < symbols@.len() ==> (#[trigger] symbols@[s]).0
                        < old(self).code().k + old(self).code().m
                        && symbols@[s].1@.len() == old(self).code().symbol_len
                &&& forall|s: int, t: int|
                    0 <= t < s < symbols@.len() ==> (#[trigger] symbols@[t]).0
                        != (#[trigger] symbols@[s]).0
            },
            r is Ok ==> {
                &&& final(out)@.len() == old(self).code().k * old(self).code().symbol_len
                &&& forall|s: int|
                    0 <= s < symbols@.len() ==> (#[trigger] symbols@[s]).1@
                        == (old(self).code().symbol)(
                        final(out)@,
                        symbols@[s].0 as int,
                    )
            },
            r is Err ==> final(out)@ == old(out)@,
            symbols@.len() != old(self).code().k <==> r matches Err(DecodeError::WrongCount { .. }),
            match r {
                Ok(_) => true,
                Err(DecodeError::WrongCount { expected, got }) => expected == old(self).code().k
                    && got
                    == symbols@.len() && got != expected,
                Err(DecodeError::WrongOutputLen { expected, got }) => expected == old(self).code().k
                    * old(self).code().symbol_len && got == old(out)@.len() && got != expected
                        && symbols@.len() == old(self).code().k,
                Err(DecodeError::IndexOutOfRange { index, n }) => n
                    == old(self).code().k + old(self).code().m && index >= n
                    && symbols@.len() == old(self).code().k && exists|s: int|
                    0 <= s < symbols@.len() && (#[trigger] symbols@[s]).0 == index,
                Err(DecodeError::DuplicateIndex { index }) => index
                    < old(self).code().k + old(self).code().m
                    && symbols@.len() == old(self).code().k && exists|s: int, t: int|
                    0 <= t < s < symbols@.len() && (#[trigger] symbols@[t]).0 == index
                        && (#[trigger] symbols@[s]).0
                        == index,
                Err(DecodeError::WrongPayloadLen { expected, got }) => expected
                    == old(self).code().symbol_len
                    && got != expected && symbols@.len() == old(self).code().k && exists|s: int|
                    0 <= s < symbols@.len() && (#[trigger] symbols@[s]).1@.len() == got,
                _ => false,
            },
    ;

    /// Decodes with caller-owned scratch and output. The scratch serves a later
    /// call as it served this one.
    fn decode_into_with(
        &mut self,
        symbols: &[(usize, &[u8])],
        out: &mut [u8],
        scratch: &mut Self::Scratch,
    ) -> (r: Result<(), DecodeError>)
        requires
            old(self).valid(),
            Self::batch_scratch_valid(old(scratch)),
        ensures
            final(self).valid(),
            final(self).code() == old(self).code(),
            Self::batch_scratch_valid(final(scratch)),
            forall|symbols: Seq<(usize, &[u8])>, output: int| #[trigger]
                final(self).decode_refusal(symbols, output, final(scratch)) == old(
                    self,
                ).decode_refusal(symbols, output, old(scratch)),
            decoded(
                old(self).code(),
                old(self).decode_refusal(symbols@, old(out)@.len() as int, old(scratch)),
                symbols@,
                old(out)@,
                final(out)@,
                r,
            ),
            r is Ok ==> {
                &&& symbols@.len() == old(self).code().k
                &&& old(out)@.len() == old(self).code().k * old(self).code().symbol_len
                &&& forall|s: int|
                    0 <= s < symbols@.len() ==> (#[trigger] symbols@[s]).0
                        < old(self).code().k + old(self).code().m
                        && symbols@[s].1@.len() == old(self).code().symbol_len
                &&& forall|s: int, t: int|
                    0 <= t < s < symbols@.len() ==> (#[trigger] symbols@[t]).0
                        != (#[trigger] symbols@[s]).0
            },
            (forall|list: Seq<(usize, &[u8])>, output: int| #[trigger]
                old(self).decode_refusal(list, output, old(scratch)) == old(self).decode_fault(
                    list,
                    output,
                )) && {
                &&& symbols@.len() == old(self).code().k
                &&& old(out)@.len() == old(self).code().k * old(self).code().symbol_len
                &&& forall|s: int|
                    0 <= s < symbols@.len() ==> (#[trigger] symbols@[s]).0
                        < old(self).code().k + old(self).code().m
                        && symbols@[s].1@.len() == old(self).code().symbol_len
                &&& forall|s: int, t: int|
                    0 <= t < s < symbols@.len() ==> (#[trigger] symbols@[t]).0
                        != (#[trigger] symbols@[s]).0
            } ==> r is Ok,
            (forall|list: Seq<(usize, &[u8])>, output: int| #[trigger]
                old(self).decode_refusal(list, output, old(scratch)) == old(self).decode_fault(
                    list,
                    output,
                )) ==> !(r matches Err(DecodeError::ScratchMismatch)),
            r is Ok ==> {
                &&& final(out)@.len() == old(self).code().k * old(self).code().symbol_len
                &&& forall|s: int|
                    0 <= s < symbols@.len() ==> (#[trigger] symbols@[s]).1@
                        == (old(self).code().symbol)(
                        final(out)@,
                        symbols@[s].0 as int,
                    )
            },
            r is Err ==> final(out)@ == old(out)@,
            match r {
                Ok(_) => true,
                Err(DecodeError::WrongCount { expected, got }) => expected == old(self).code().k
                    && got
                    == symbols@.len() && got != expected,
                Err(DecodeError::WrongOutputLen { expected, got }) => expected == old(self).code().k
                    * old(self).code().symbol_len && got == old(out)@.len() && got != expected
                        && symbols@.len() == old(self).code().k,
                Err(DecodeError::IndexOutOfRange { index, n }) => n
                    == old(self).code().k + old(self).code().m && index >= n
                    && symbols@.len() == old(self).code().k && exists|s: int|
                    0 <= s < symbols@.len() && (#[trigger] symbols@[s]).0 == index,
                Err(DecodeError::DuplicateIndex { index }) => index
                    < old(self).code().k + old(self).code().m
                    && symbols@.len() == old(self).code().k && exists|s: int, t: int|
                    0 <= t < s < symbols@.len() && (#[trigger] symbols@[t]).0 == index
                        && (#[trigger] symbols@[s]).0
                        == index,
                Err(DecodeError::WrongPayloadLen { expected, got }) => expected
                    == old(self).code().symbol_len
                    && got != expected && symbols@.len() == old(self).code().k && exists|s: int|
                    0 <= s < symbols@.len() && (#[trigger] symbols@[s]).1@.len() == got,
                Err(DecodeError::ScratchMismatch) => true,
                _ => false,
            },
    ;
}

/// The received symbols determine `block`.
pub open spec fn recovers(code: Code, block: Seq<u8>, stored: Map<int, Seq<u8>>) -> bool {
    &&& code.is_block(block)
    &&& forall|i: int|
        #[trigger] stored.contains_key(i) ==> stored[i] == (code.symbol)(block, i)
}

/// Why finalization is refused.
pub open spec fn finalize_fault(code: Code, rank: int, output: int) -> Option<DecodeError> {
    if rank < code.k {
        Some(DecodeError::InsufficientRank { rank: rank as usize, k: code.k as usize })
    } else if output != code.k * code.symbol_len {
        Some(
            DecodeError::WrongOutputLen {
                expected: (code.k * code.symbol_len) as usize,
                got: output as usize,
            },
        )
    } else {
        None
    }
}

/// Finalization is accepted exactly with `k` recorded symbols and room for `k`
/// symbols; a refusal names the rank, or the length that the output has and the
/// one that it should have.
pub proof fn finalization_is_judged(code: Code, rank: int, output: int)
    requires
        code.well_shaped(),
        code.fits_memory(),
        0 <= rank <= code.k,
        0 <= output <= usize::MAX,
    ensures
        finalize_fault(code, rank, output) is None <==> rank == code.k && output == code.k
            * code.symbol_len,
        finalize_fault(code, rank, output) matches Some(e) ==> match e {
            DecodeError::InsufficientRank { rank: had, k } => had == rank && k == code.k && had < k,
            DecodeError::WrongOutputLen { expected, got } => expected == code.k * code.symbol_len
                && got == output && got != expected && rank == code.k,
            _ => false,
        },
{
    block_sizes(code);
}

/// The outcome of finalization into a buffer.
pub open spec fn finalized(
    code: Code,
    fault: Option<DecodeError>,
    stored: Map<int, Seq<u8>>,
    before: Seq<u8>,
    after: Seq<u8>,
    r: Result<(), DecodeError>,
) -> bool {
    match fault {
        Some(e) => r == Err::<(), DecodeError>(e) && after == before,
        None => r == Ok::<(), DecodeError>(()) && recovers(code, after, stored),
    }
}

/// Lazy, payload-deferred streaming decoder. `push`, `is_complete` and
/// `finalize` come from [`SymbolSink`]; this trait adds progress accessors and
/// the reconstruct-into-buffer methods with a reusable scratch.
pub trait Decoder: SymbolSink {
    /// Reusable, caller-owned decode workspace.
    type Scratch;

    /// The workspace invariant.
    spec fn scratch_valid(scratch: &Self::Scratch) -> bool;

    /// Why finalization with this workspace is refused at `rank` recorded
    /// symbols, into `output` bytes.
    spec fn refusal(code: Code, rank: int, output: int, scratch: &Self::Scratch) -> Option<
        DecodeError,
    >;

    /// Finalization is refused for want of symbols, for the length of the output,
    /// or because the workspace belongs elsewhere.
    proof fn refusal_is_judged(code: Code, rank: int, output: int, scratch: &Self::Scratch)
        requires
            code.sound(),
            code.fits_memory(),
            0 <= rank <= code.k,
            0 <= output <= usize::MAX,
        ensures
            Self::refusal(code, rank, output, scratch) is None ==> rank == code.k && output
                == code.k * code.symbol_len,
            rank < code.k || output != code.k * code.symbol_len ==> Self::refusal(
                code,
                rank,
                output,
                scratch,
            ) is Some,
            Self::refusal(code, rank, output, scratch) matches Some(e) ==> match e {
                DecodeError::InsufficientRank { rank: had, k } => had == rank && k == code.k && had
                    < k,
                DecodeError::WrongOutputLen { expected, got } => expected == code.k
                    * code.symbol_len && got == output && got != expected && rank == code.k,
                DecodeError::ScratchMismatch => true,
                _ => false,
            },
    ;

    /// Allocates a scratch sized for this codec.
    fn scratch(&self) -> (r: Self::Scratch)
        requires
            self.valid(),
        ensures
            Self::scratch_valid(&r),
            Self::refusal(
                self.code(),
                self.code().k,
                self.code().k * self.code().symbol_len,
                &r,
            ) is None,
            forall|rank: int, output: int| #[trigger]
                Self::refusal(self.code(), rank, output, &r) == finalize_fault(
                    self.code(),
                    rank,
                    output,
                ),
    ;

    /// Distinct independent symbols received.
    fn rank(&self) -> (r: usize)
        requires
            self.valid(),
        ensures
            r == self.stored().len(),
    ;

    /// Total symbols received, including duplicates and dependents.
    fn received(&self) -> (r: usize)
        requires
            self.valid(),
        ensures
            r == self.received_total(),
    ;

    /// Clears receipt state for another block while retaining allocations.
    fn reset(&mut self)
        requires
            old(self).valid(),
        ensures
            final(self).valid(),
            final(self).code() == old(self).code(),
            final(self).stored() == Map::<int, Seq<u8>>::empty(),
            final(self).received_total() == 0,
    ;

    /// Reconstructs `k * symbol_len` bytes into `out`, using a throwaway
    /// scratch. The decoder remains usable.
    fn finalize_into(&mut self, out: &mut [u8]) -> (r: Result<(), DecodeError>)
        requires
            old(self).valid(),
        ensures
            final(self).valid(),
            final(self).code() == old(self).code(),
            final(self).stored() == old(self).stored(),
            final(self).received_total() == old(self).received_total(),
            finalized(
                old(self).code(),
                finalize_fault(
                    old(self).code(),
                    old(self).stored().len() as int,
                    old(out)@.len() as int,
                ),
                old(self).stored(),
                old(out)@,
                final(out)@,
                r,
            ),
            r is Ok <==> old(self).stored().len() >= old(self).code().k && old(out)@.len() == old(
                self,
            ).code().k * old(self).code().symbol_len,
            r is Ok ==> {
                &&& old(self).stored().len() == old(self).code().k
                &&& final(out)@.len() == old(self).code().k * old(self).code().symbol_len
                &&& forall|i: int| #[trigger]
                    old(self).stored().contains_key(i)
                        ==> old(self).stored()[i] == (old(self).code().symbol)(
                        final(out)@,
                        i,
                    )
            },
            r is Err ==> final(out)@ == old(out)@,
            match r {
                Ok(_) => true,
                Err(DecodeError::InsufficientRank { rank, k }) => rank == old(self).stored().len()
                    && k
                    == old(self).code().k && rank < k,
                Err(DecodeError::WrongOutputLen { expected, got }) => expected == old(self).code().k
                    * old(self).code().symbol_len && got == old(out)@.len() && got != expected
                        && old(
                    self,
                ).stored().len() == old(self).code().k,
                _ => false,
            },
    ;

    /// Reconstructs with a workspace the caller owns and reuses. It serves a later
    /// call as it served this one.
    fn finalize_into_with(&mut self, out: &mut [u8], scratch: &mut Self::Scratch) -> (r: Result<
        (),
        DecodeError,
    >)
        requires
            old(self).valid(),
            Self::scratch_valid(old(scratch)),
        ensures
            final(self).valid(),
            final(self).code() == old(self).code(),
            final(self).stored() == old(self).stored(),
            final(self).received_total() == old(self).received_total(),
            Self::scratch_valid(final(scratch)),
            forall|rank: int, output: int| #[trigger]
                Self::refusal(old(self).code(), rank, output, final(scratch)) == Self::refusal(
                    old(self).code(),
                    rank,
                    output,
                    old(scratch),
                ),
            finalized(
                old(self).code(),
                Self::refusal(
                    old(self).code(),
                    old(self).stored().len() as int,
                    old(out)@.len() as int,
                    old(scratch),
                ),
                old(self).stored(),
                old(out)@,
                final(out)@,
                r,
            ),
            Self::refusal(
                old(self).code(),
                old(self).code().k,
                old(self).code().k * old(self).code().symbol_len,
                old(scratch),
            ) is None ==> (r is Ok <==> old(self).stored().len() >= old(self).code().k && old(
                out,
            )@.len() == old(self).code().k * old(self).code().symbol_len),
            r is Ok ==> old(out)@.len() == old(self).code().k * old(self).code().symbol_len,
            r is Ok ==> {
                &&& old(self).stored().len() == old(self).code().k
                &&& final(out)@.len() == old(self).code().k * old(self).code().symbol_len
                &&& forall|i: int| #[trigger]
                    old(self).stored().contains_key(i)
                        ==> old(self).stored()[i] == (old(self).code().symbol)(
                        final(out)@,
                        i,
                    )
            },
            r is Err ==> final(out)@ == old(out)@,
            match r {
                Ok(_) => true,
                Err(DecodeError::InsufficientRank { rank, k }) => rank == old(self).stored().len()
                    && k
                    == old(self).code().k && rank < k,
                Err(DecodeError::WrongOutputLen { expected, got }) => expected == old(self).code().k
                    * old(self).code().symbol_len && got == old(out)@.len() && got != expected
                        && old(
                    self,
                ).stored().len() == old(self).code().k,
                Err(DecodeError::ScratchMismatch) => true,
                _ => false,
            },
    ;
}

/// A foreign workspace is reported after every other fault.
pub open spec fn finalize_refusal(fault: Option<DecodeError>, foreign: bool) -> Option<
    DecodeError,
> {
    match fault {
        Some(e) => Some(e),
        None => if foreign {
            Some(DecodeError::ScratchMismatch)
        } else {
            None
        },
    }
}

/// Why symbol `s` is refused: its index, its length, or an earlier symbol with
/// the same index.
pub open spec fn stream_symbol_fault(code: Code, symbols: Seq<(usize, &[u8])>, s: int) -> Option<
    DecodeError,
> {
    if symbols[s].0 >= code.k + code.m {
        Some(
            DecodeError::IndexOutOfRange { index: symbols[s].0, n: (code.k + code.m) as usize },
        )
    } else if symbols[s].1@.len() != code.symbol_len {
        Some(
            DecodeError::WrongPayloadLen {
                expected: code.symbol_len as usize,
                got: symbols[s].1@.len() as usize,
            },
        )
    } else if exists|t: int| 0 <= t < s && (#[trigger] symbols[t]).0 == symbols[s].0 {
        Some(DecodeError::DuplicateIndex { index: symbols[s].0 })
    } else {
        None
    }
}

/// The fault of the first refused symbol among the first `count`.
pub open spec fn first_stream_fault(
    code: Code,
    symbols: Seq<(usize, &[u8])>,
    count: int,
) -> Option<DecodeError>
    decreases count,
{
    if count <= 0 {
        None
    } else {
        match first_stream_fault(code, symbols, count - 1) {
            Some(e) => Some(e),
            None => stream_symbol_fault(code, symbols, count - 1),
        }
    }
}

/// The first fault stays the first fault of a longer prefix.
pub proof fn stream_fault_persists(
    code: Code,
    symbols: Seq<(usize, &[u8])>,
    count: int,
    whole: int,
)
    requires
        0 <= count <= whole,
        first_stream_fault(code, symbols, count) is Some,
    ensures
        first_stream_fault(code, symbols, whole) == first_stream_fault(code, symbols, count),
    decreases whole,
{
    if count < whole {
        stream_fault_persists(code, symbols, count, whole - 1);
    }
}

/// How many of the first `count` symbols come before the first refused one.
pub open spec fn taken(code: Code, symbols: Seq<(usize, &[u8])>, count: int) -> int
    decreases count,
{
    if count <= 0 {
        0
    } else if first_stream_fault(code, symbols, count - 1) is Some {
        taken(code, symbols, count - 1)
    } else if stream_symbol_fault(code, symbols, count - 1) is Some {
        count - 1
    } else {
        count
    }
}

/// Symbols after the first refused one are not taken.
proof fn taken_persists(code: Code, symbols: Seq<(usize, &[u8])>, count: int, whole: int)
    requires
        0 <= count <= whole,
        first_stream_fault(code, symbols, count) is Some,
    ensures
        taken(code, symbols, whole) == taken(code, symbols, count),
    decreases whole,
{
    if count < whole {
        stream_fault_persists(code, symbols, count, whole - 1);
        taken_persists(code, symbols, count, whole - 1);
    }
}

/// The first `count` symbols by their codeword positions.
pub open spec fn recorded_symbols(symbols: Seq<(usize, &[u8])>, count: int) -> Map<int, Seq<u8>>
    decreases count,
{
    if count <= 0 {
        Map::empty()
    } else {
        recorded_symbols(symbols, count - 1).insert(
            symbols[count - 1].0 as int,
            symbols[count - 1].1@,
        )
    }
}

/// What a streaming decoder has recorded, and how many symbols it has received,
/// after it was given `symbols` together: unchanged on a wrong count, else the
/// symbols before the first refused one. A repeated index counts as received.
pub open spec fn state_after(
    code: Code,
    symbols: Seq<(usize, &[u8])>,
    before: (Map<int, Seq<u8>>, int),
) -> (Map<int, Seq<u8>>, int) {
    if symbols.len() != code.k {
        before
    } else {
        let whole = symbols.len() as int;
        let count = taken(code, symbols, whole);
        let repeated = first_stream_fault(code, symbols, whole) matches Some(
            DecodeError::DuplicateIndex { .. },
        );
        (recorded_symbols(symbols, count), count + if repeated {
            1int
        } else {
            0
        })
    }
}

/// Without a fault the symbols have distinct indices in range.
pub proof fn no_stream_fault_selects(code: Code, symbols: Seq<(usize, &[u8])>, count: int)
    requires
        0 <= count <= symbols.len(),
        first_stream_fault(code, symbols, count) is None,
    ensures
        forall|s: int|
            0 <= s < count ==> (#[trigger] symbols[s]).0 < code.k + code.m && symbols[s].1@.len()
                == code.symbol_len,
        forall|s: int, t: int|
            0 <= t < s < count ==> (#[trigger] symbols[t]).0 != (#[trigger] symbols[s]).0,
    decreases count,
{
    if count > 0 {
        no_stream_fault_selects(code, symbols, count - 1);
    }
}

/// The symbols have no fault exactly when each is at a codeword position of its
/// own and has `symbol_len` bytes, and a fault names an index or a length that
/// one of them has.
pub proof fn stream_faults_are_judged(code: Code, symbols: Seq<(usize, &[u8])>, count: int)
    requires
        0 <= count <= symbols.len(),
        0 <= code.k + code.m <= usize::MAX,
        0 <= code.symbol_len <= usize::MAX,
    ensures
        first_stream_fault(code, symbols, count) is None <==> {
            &&& forall|s: int|
                0 <= s < count ==> (#[trigger] symbols[s]).0 < code.k + code.m
                    && symbols[s].1@.len() == code.symbol_len
            &&& forall|s: int, t: int|
                0 <= t < s < count ==> (#[trigger] symbols[t]).0 != (#[trigger] symbols[s]).0
        },
        first_stream_fault(code, symbols, count) matches Some(e) ==> match e {
            DecodeError::IndexOutOfRange { index, n } => n == code.k + code.m && index >= n
                && exists|s: int| 0 <= s < count && (#[trigger] symbols[s]).0 == index,
            DecodeError::WrongPayloadLen { expected, got } => expected == code.symbol_len && got
                != expected && exists|s: int|
                0 <= s < count && (#[trigger] symbols[s]).1@.len() == got,
            DecodeError::DuplicateIndex { index } => index < code.k + code.m && exists|
                s: int,
                t: int,
            |
                0 <= t < s < count && (#[trigger] symbols[t]).0 == index
                    && (#[trigger] symbols[s]).0
                    == index,
            _ => false,
        },
    decreases count,
{
    if count > 0 {
        stream_faults_are_judged(code, symbols, count - 1);
        let s = count - 1;
        assert(symbols[s].1.len() == symbols[s].1@.len());
        if first_stream_fault(code, symbols, count - 1) is None {
            if exists|t: int| 0 <= t < s && (#[trigger] symbols[t]).0 == symbols[s].0 {
                let t = choose|t: int| 0 <= t < s && (#[trigger] symbols[t]).0 == symbols[s].0;
                assert(symbols[t].0 == symbols[s].0);
            }
        }
    }
}

/// Of several faults the first symbol's is reported, and of one symbol first its
/// index, then its length, then that an earlier symbol has the same index.
pub proof fn first_stream_fault_is_reported(
    code: Code,
    symbols: Seq<(usize, &[u8])>,
    count: int,
    s: int,
)
    requires
        0 <= s < count <= symbols.len(),
        0 <= code.k + code.m <= usize::MAX,
        0 <= code.symbol_len <= usize::MAX,
        forall|t: int|
            0 <= t < s ==> (#[trigger] symbols[t]).0 < code.k + code.m && symbols[t].1@.len()
                == code.symbol_len,
        forall|t: int, u: int|
            0 <= t < u < s ==> (#[trigger] symbols[t]).0 != (#[trigger] symbols[u]).0,
    ensures
        symbols[s].0 >= code.k + code.m ==> first_stream_fault(code, symbols, count) == Some(
            DecodeError::IndexOutOfRange { index: symbols[s].0, n: (code.k + code.m) as usize },
        ),
        symbols[s].0 < code.k + code.m && symbols[s].1@.len() != code.symbol_len
            ==> first_stream_fault(code, symbols, count) == Some(
            DecodeError::WrongPayloadLen {
                expected: code.symbol_len as usize,
                got: symbols[s].1@.len() as usize,
            },
        ),
        symbols[s].0 < code.k + code.m && symbols[s].1@.len() == code.symbol_len && (exists|
            t: int,
        |
            0 <= t < s && (#[trigger] symbols[t]).0 == symbols[s].0) ==> first_stream_fault(
            code,
            symbols,
            count,
        ) == Some(DecodeError::DuplicateIndex { index: symbols[s].0 }),
{
    stream_faults_are_judged(code, symbols, s);
    if first_stream_fault(code, symbols, s + 1) is Some {
        stream_fault_persists(code, symbols, s + 1, count);
    }
}

/// Why decoding a set of symbols is refused: their number, the first refused
/// symbol, or the fault that remains once all are accepted.
pub open spec fn stream_decode_fault(
    code: Code,
    symbols: Seq<(usize, &[u8])>,
    last: Option<DecodeError>,
) -> Option<DecodeError> {
    if symbols.len() != code.k {
        Some(
            DecodeError::WrongCount { expected: code.k as usize, got: symbols.len() as usize },
        )
    } else {
        match first_stream_fault(code, symbols, symbols.len() as int) {
            Some(e) => Some(e),
            None => last,
        }
    }
}

/// What is recorded of symbols at different positions: each of them with its
/// payload, and nothing else.
pub proof fn recorded_symbols_are_those_given(symbols: Seq<(usize, &[u8])>, count: int)
    requires
        0 <= count <= symbols.len(),
        forall|s: int, t: int|
            0 <= t < s < count ==> (#[trigger] symbols[t]).0 != (#[trigger] symbols[s]).0,
    ensures
        recorded_symbols(symbols, count).dom().finite(),
        recorded_symbols(symbols, count).len() == count,
        forall|s: int|
            0 <= s < count ==> recorded_symbols(symbols, count).contains_key(
                (#[trigger] symbols[s]).0 as int,
            ) && recorded_symbols(symbols, count)[symbols[s].0 as int] == symbols[s].1@,
        forall|i: int| #[trigger]
            recorded_symbols(symbols, count).contains_key(i) ==> exists|s: int|
                0 <= s < count && (#[trigger] symbols[s]).0 == i,
    decreases count,
{
    if count > 0 {
        recorded_symbols_are_those_given(symbols, count - 1);
        let front = recorded_symbols(symbols, count - 1);
        let whole = recorded_symbols(symbols, count);
        let last = symbols[count - 1];
        assert(whole == front.insert(last.0 as int, last.1@));
        assert(!front.contains_key(last.0 as int));
        assert(whole.dom() =~= front.dom().insert(last.0 as int));
        assert forall|i: int| #[trigger] whole.contains_key(i) implies exists|s: int|
            0 <= s < count && (#[trigger] symbols[s]).0 == i by {
            if i == last.0 {
                assert(symbols[count - 1].0 == i);
            } else {
                assert(front.contains_key(i));
                let s = choose|s: int| 0 <= s < count - 1 && (#[trigger] symbols[s]).0 == i;
                assert(symbols[s].0 == i);
            }
        }
    } else {
        assert(recorded_symbols(symbols, count).dom() =~= Set::<int>::empty());
    }
}

/// A set of another number of symbols leaves a streaming decoder as it was; one
/// that is accepted leaves it with exactly the given symbols.
pub proof fn accepted_receipts_are_recorded(
    code: Code,
    symbols: Seq<(usize, &[u8])>,
    before: (Map<int, Seq<u8>>, int),
)
    requires
        0 <= code.k + code.m <= usize::MAX,
        0 <= code.symbol_len <= usize::MAX,
    ensures
        symbols.len() != code.k ==> state_after(code, symbols, before) == before,
        symbols.len() == code.k && (forall|s: int|
            0 <= s < symbols.len() ==> (#[trigger] symbols[s]).0 < code.k + code.m
                && symbols[s].1@.len() == code.symbol_len) && (forall|s: int, t: int|
            0 <= t < s < symbols.len() ==> (#[trigger] symbols[t]).0 != (#[trigger] symbols[s]).0)
            ==> state_after(code, symbols, before) == (
            recorded_symbols(symbols, code.k),
            code.k,
        ),
{
    if symbols.len() == code.k {
        stream_faults_are_judged(code, symbols, symbols.len() as int);
        if first_stream_fault(code, symbols, symbols.len() as int) is None {
            all_taken(code, symbols, symbols.len() as int);
        }
    }
}

/// Without a fault every symbol is taken.
proof fn all_taken(code: Code, symbols: Seq<(usize, &[u8])>, count: int)
    requires
        0 <= count,
        first_stream_fault(code, symbols, count) is None,
    ensures
        taken(code, symbols, count) == count,
    decreases count,
{
    if count > 0 {
        all_taken(code, symbols, count - 1);
    }
}

/// The first refused symbol ends a receipt: a streaming decoder is left with the
/// symbols before it, and counts it as received only if all that is wrong with it
/// is that its index came before.
pub proof fn refused_symbols_end_the_receipt(
    code: Code,
    symbols: Seq<(usize, &[u8])>,
    before: (Map<int, Seq<u8>>, int),
    s: int,
)
    requires
        symbols.len() == code.k,
        0 <= s < symbols.len(),
        0 <= code.k + code.m <= usize::MAX,
        0 <= code.symbol_len <= usize::MAX,
        forall|t: int|
            0 <= t < s ==> (#[trigger] symbols[t]).0 < code.k + code.m && symbols[t].1@.len()
                == code.symbol_len,
        forall|t: int, u: int|
            0 <= t < u < s ==> (#[trigger] symbols[t]).0 != (#[trigger] symbols[u]).0,
        symbols[s].0 >= code.k + code.m || symbols[s].1@.len() != code.symbol_len || exists|t: int|
            0 <= t < s && (#[trigger] symbols[t]).0 == symbols[s].0,
    ensures
        state_after(code, symbols, before).0 == recorded_symbols(symbols, s),
        symbols[s].0 < code.k + code.m && symbols[s].1@.len() == code.symbol_len ==> state_after(
            code,
            symbols,
            before,
        ).1 == s + 1,
        symbols[s].0 >= code.k + code.m || symbols[s].1@.len() != code.symbol_len ==> state_after(
            code,
            symbols,
            before,
        ).1 == s,
{
    stream_faults_are_judged(code, symbols, s);
    first_stream_fault_is_reported(code, symbols, symbols.len() as int, s);
    assert(first_stream_fault(code, symbols, s + 1) is Some);
    assert(taken(code, symbols, s + 1) == s);
    taken_persists(code, symbols, s + 1, symbols.len() as int);
}

impl<T: Decoder> BatchDecoder for T {
    type Scratch = <T as Decoder>::Scratch;

    open spec fn batch_scratch_valid(scratch: &Self::Scratch) -> bool {
        <T as Decoder>::scratch_valid(scratch)
    }

    open spec fn decode_refusal(
        &self,
        symbols: Seq<(usize, &[u8])>,
        output: int,
        scratch: &Self::Scratch,
    ) -> Option<DecodeError> {
        stream_decode_fault(
            self.code(),
            symbols,
            <T as Decoder>::refusal(self.code(), self.code().k, output, scratch),
        )
    }

    open spec fn decode_fault(&self, symbols: Seq<(usize, &[u8])>, output: int) -> Option<
        DecodeError,
    > {
        stream_decode_fault(
            self.code(),
            symbols,
            finalize_fault(self.code(), self.code().k, output),
        )
    }

    proof fn codeword_fits(&self) {
        self.stored_is_bounded();
    }

    proof fn receipt_is_judged(&self, symbols: Seq<(usize, &[u8])>, output: int) {
        self.code_is_sound();
        self.stored_is_bounded();
        let code = self.code();
        block_sizes(code);
        if symbols.len() == code.k {
            stream_faults_are_judged(code, symbols, symbols.len() as int);
        }
    }

    proof fn scratch_is_judged(
        &self,
        symbols: Seq<(usize, &[u8])>,
        output: int,
        scratch: &Self::Scratch,
    ) {
        self.code_is_sound();
        self.stored_is_bounded();
        let code = self.code();
        finalization_is_judged(code, code.k, output);
        <T as Decoder>::refusal_is_judged(code, code.k, output, scratch);
    }

    fn scratch(&self) -> (r: Self::Scratch) {
        Decoder::scratch(self)
    }

    fn decode_into(&mut self, symbols: &[(usize, &[u8])], out: &mut [u8]) -> (r: Result<
        (),
        DecodeError,
    >)
        ensures
            (final(self).stored(), final(self).received_total()) == state_after(
                old(self).code(),
                symbols@,
                (old(self).stored(), old(self).received_total()),
            ),
            symbols@.len() != old(self).code().k ==> final(self).stored() == old(self).stored()
                && final(self).received_total() == old(self).received_total(),
            r matches Err(DecodeError::WrongOutputLen { .. }) ==> (forall|s: int|
                0 <= s < symbols@.len() ==> (#[trigger] symbols@[s]).0
                    < old(self).code().k + old(self).code().m
                    && symbols@[s].1@.len() == old(self).code().symbol_len)
                        && (forall|s: int, t: int|
                0 <= t < s < symbols@.len() ==> (#[trigger] symbols@[t]).0
                    != (#[trigger] symbols@[s]).0),
            r is Ok ==> {
                &&& final(self).stored().len() == old(self).code().k
                &&& final(self).received_total() == old(self).code().k
                &&& forall|s: int|
                    0 <= s < symbols@.len() ==> final(self).stored().contains_key(
                        (#[trigger] symbols@[s]).0 as int,
                    ) && final(self).stored()[symbols@[s].0 as int] == symbols@[s].1@
            },
    {
        let mut scratch = Decoder::scratch(self);
        proof {
            assert(symbols.len() == symbols@.len());
            BatchDecoder::receipt_is_judged(self, symbols@, out.len() as int);
        }
        BatchDecoder::decode_into_with(self, symbols, out, &mut scratch)
    }

    fn decode_into_with(
        &mut self,
        symbols: &[(usize, &[u8])],
        out: &mut [u8],
        scratch: &mut Self::Scratch,
    ) -> (r: Result<(), DecodeError>)
        ensures
            (final(self).stored(), final(self).received_total()) == state_after(
                old(self).code(),
                symbols@,
                (old(self).stored(), old(self).received_total()),
            ),
            symbols@.len() != old(self).code().k ==> final(self).stored() == old(self).stored()
                && final(self).received_total() == old(self).received_total(),
            r matches Err(DecodeError::WrongOutputLen { .. }) ==> (forall|s: int|
                0 <= s < symbols@.len() ==> (#[trigger] symbols@[s]).0
                    < old(self).code().k + old(self).code().m
                    && symbols@[s].1@.len() == old(self).code().symbol_len)
                        && (forall|s: int, t: int|
                0 <= t < s < symbols@.len() ==> (#[trigger] symbols@[t]).0
                    != (#[trigger] symbols@[s]).0),
            r is Ok ==> {
                &&& final(self).stored().len() == old(self).code().k
                &&& final(self).received_total() == old(self).code().k
                &&& forall|s: int|
                    0 <= s < symbols@.len() ==> final(self).stored().contains_key(
                        (#[trigger] symbols@[s]).0 as int,
                    ) && final(self).stored()[symbols@[s].0 as int] == symbols@[s].1@
            },
            symbols@.len() != old(self).code().k ==> *final(self) == *old(self),
            symbols@.len() != old(self).code().k || first_stream_fault(
                old(self).code(),
                symbols@,
                symbols@.len() as int,
            ) is Some ==> *final(scratch) == *old(scratch),
    {
        let ghost code = self.code();
        proof {
            self.code_is_sound();
            assert(symbols.len() == symbols@.len());
            BatchDecoder::receipt_is_judged(self, symbols@, out.len() as int);
            BatchDecoder::scratch_is_judged(self, symbols@, out.len() as int, scratch);
        }
        let k: usize = self.k();
        if symbols.len() != k {
            return Err(DecodeError::WrongCount { expected: k, got: symbols.len() });
        }
        Decoder::reset(self);
        let mut s: usize = 0;
        while s < symbols.len()
            invariant
                s <= symbols@.len(),
                symbols@.len() == code.k == k,
                code.sound(),
                self.valid(),
                self.code() == code,
                old(self).code() == code,
                out@ == old(out)@,
                *scratch == *old(scratch),
                <T as Decoder>::scratch_valid(old(scratch)),
                self.received_total() == s,
                self.stored() == recorded_symbols(symbols@, s as int),
                self.stored().dom().finite(),
                self.stored().len() == s,
                first_stream_fault(code, symbols@, s as int) is None,
                forall|t: int|
                    0 <= t < s ==> self.stored().contains_key((#[trigger] symbols@[t]).0 as int)
                        && self.stored()[symbols@[t].0 as int] == symbols@[t].1@,
                forall|i: int|
                    #[trigger] self.stored().contains_key(i) ==> exists|t: int|
                        0 <= t < s && (#[trigger] symbols@[t]).0 == i,
            decreases symbols@.len() - s,
        {
            let index: usize = symbols[s].0;
            let ghost before = self.stored();
            proof {
                assert(symbols@[s as int].0 == index);
                if stream_symbol_fault(code, symbols@, s as int) is Some {
                    stream_fault_persists(code, symbols@, s + 1, k as int);
                    taken_persists(code, symbols@, s + 1, k as int);
                }
                if before.contains_key(index as int) {
                    let t = choose|t: int| 0 <= t < s && (#[trigger] symbols@[t]).0 == index;
                    assert(symbols@[t].0 == symbols@[s as int].0);
                }
            }
            match self.push(index, symbols[s].1) {
                Err(e) => {
                    return Err(e);
                },
                Ok(outcome) => {
                    if outcome == PushOutcome::Dependent {
                        return Err(DecodeError::DuplicateIndex { index });
                    }
                },
            }
            proof {
                assert(self.stored() == before.insert(index as int, symbols@[s as int].1@));
                assert(self.stored().dom() =~= before.dom().insert(index as int));
                assert forall|i: int| #[trigger] self.stored().contains_key(i) implies exists|
                    t: int,
                |
                    0 <= t < s + 1 && (#[trigger] symbols@[t]).0 == i by {
                    if i == index {
                        assert(symbols@[s as int].0 == i);
                    } else {
                        assert(before.contains_key(i));
                        let t = choose|t: int| 0 <= t < s && (#[trigger] symbols@[t]).0 == i;
                        assert(symbols@[t].0 == i);
                    }
                }
                assert forall|t: int| 0 <= t < s + 1 implies self.stored().contains_key(
                    (#[trigger] symbols@[t]).0 as int,
                ) && self.stored()[symbols@[t].0 as int] == symbols@[t].1@ by {
                    if t < s {
                        assert(before.contains_key(symbols@[t].0 as int));
                        assert(symbols@[t].0 != index);
                    }
                }
            }
            s += 1;
        }
        proof {
            no_stream_fault_selects(code, symbols@, symbols@.len() as int);
        }
        Decoder::finalize_into_with(self, out, scratch)
    }
}

} // verus!
