//! Streaming GF(256) encoder with incremental repair-symbol computation.
//!
//! For a systematic code the first `k` symbols are the data symbols themselves,
//! so each can be sent as soon as it is available. Repair symbols are updated
//! with every data symbol; when the last one arrives they are already finished.

use vstd::prelude::*;

use crate::algebra::gf256::GfElem;
use crate::codec::{
    config_fault, fed_total, feed_fault, with_symbol, zero_block, Code, Coded,
    IncrementalEncoder,
};
use crate::encoder::accumulator::RepairAccumulator;
use crate::error::{ConfigError, EncodeError};
use crate::matrices::coding_matrix::{point_code, point_code_is_sound};
use crate::matrices::good_cauchy::GoodCauchyView;

verus! {

/// A streaming encoder that computes repair symbols incrementally.
///
/// Each call to [`feed_data_symbol`](StreamingEncoder::feed_data_symbol) updates
/// all `m` repair buffers in place. Coefficients come from the Good Cauchy
/// matrix.
pub struct StreamingEncoder {
    repairs: RepairAccumulator<GfElem, GoodCauchyView>,
}

impl StreamingEncoder {
    /// Creates a streaming encoder for `(k, m)` with `symbol_len`-byte symbols.
    /// Only the repair symbols are held, so only they must fit in memory.
    pub fn new(k: usize, m: usize, symbol_len: usize) -> (r: Result<Self, ConfigError>)
        requires
            config_fault(k as int, m as int, symbol_len as int, 1, 255) is None ==> m * symbol_len
                <= usize::MAX,
        ensures
            match config_fault(k as int, m as int, symbol_len as int, 1, 255) {
                Some(e) => r == Err::<Self, ConfigError>(e),
                None => r is Ok,
            },
            r is Ok <==> k >= 1 && m >= 1 && symbol_len >= 1 && k + m <= 255,
            r == Err::<Self, ConfigError>(ConfigError::ZeroDimension) <==> k == 0 || m == 0,
            r == Err::<Self, ConfigError>(ConfigError::ZeroSymbolLen)
                <==> k != 0 && m != 0 && symbol_len == 0,
            r matches Err(e) ==> match e {
                ConfigError::ZeroDimension => true,
                ConfigError::ZeroSymbolLen => true,
                ConfigError::TooManySymbols { cap } => cap == 255 && k + m > 255,
                _ => false,
            },
            r matches Ok(encoder) ==> {
                &&& encoder.valid()
                &&& encoder.code() == point_code::<GfElem, GoodCauchyView>(
                    k as int,
                    m as int,
                    symbol_len as int,
                )
                &&& encoder.fed_block() == zero_block(k * symbol_len)
                &&& forall|i: int| 0 <= i < k ==> !(#[trigger] encoder.is_fed(i))
            },
    {
        if k == 0 || m == 0 {
            return Err(ConfigError::ZeroDimension);
        }
        if symbol_len == 0 {
            return Err(ConfigError::ZeroSymbolLen);
        }
        match GoodCauchyView::new(k, m) {
            None => Err(ConfigError::TooManySymbols { cap: 255 }),
            Some(matrix) => {
                let coeffs = matrix.coefficient_matrix();
                Ok(
                    StreamingEncoder {
                        repairs: RepairAccumulator::new(matrix, k, m, symbol_len, coeffs),
                    },
                )
            },
        }
    }

    /// Number of data symbols `k`.
    pub fn k(&self) -> (r: usize)
        ensures
            r == self.code().k,
    {
        self.repairs.k()
    }

    /// Number of repair symbols `m`.
    pub fn m(&self) -> (r: usize)
        ensures
            r == self.code().m,
    {
        self.repairs.m()
    }

    /// Total codeword length `n = k + m`.
    pub fn n(&self) -> (r: usize)
        requires
            self.valid(),
        ensures
            r == self.code().k + self.code().m,
    {
        proof {
            self.code_is_sound();
        }
        self.repairs.k() + self.repairs.m()
    }

    /// Per-symbol byte length.
    pub fn symbol_len(&self) -> (r: usize)
        ensures
            r == self.code().symbol_len,
    {
        self.repairs.symbol_len()
    }

    /// Number of distinct data symbols fed so far.
    pub fn fed_count(&self) -> (r: usize)
        requires
            self.valid(),
        ensures
            r == fed_total(|i: int| self.is_fed(i), self.code().k),
    {
        proof {
            crate::encoder::accumulator::fed_total_congruent(
                |i: int| self.is_fed(i),
                |i: int| self.repairs.is_fed(i),
                self.code().k,
            );
        }
        self.repairs.fed_count()
    }

    /// Feeds one data symbol; `idx` must be in `0..k` and the payload must have
    /// length `symbol_len`. Updates all `m` repair buffers.
    pub fn feed_data_symbol(&mut self, idx: usize, payload: &[u8]) -> (r: Result<(), EncodeError>)
        requires
            old(self).valid(),
        ensures
            final(self).valid(),
            final(self).code() == old(self).code(),
            match feed_fault(
                old(self).code(),
                old(self).is_fed(idx as int),
                idx as int,
                payload@.len() as int,
            ) {
                Some(e) => r == Err::<(), EncodeError>(e) && *final(self) == *old(self),
                None => r == Ok::<(), EncodeError>(()) && final(self).fed_block() == with_symbol(
                    old(self).fed_block(),
                    old(self).code().symbol_len,
                    idx as int,
                    payload@,
                ) && forall|i: int|
                    0 <= i < old(self).code().k ==> #[trigger] final(self).is_fed(i) == (i == idx
                        || old(self).is_fed(i)),
            },
            r is Ok <==> idx < old(self).code().k && payload@.len() == old(self).code().symbol_len
                && !old(self).is_fed(
                idx as int,
            ),
            idx >= old(self).code().k <==> r matches Err(EncodeError::IndexOutOfRange { .. }),
            r is Ok ==> final(self).is_fed(idx as int),
            r is Err ==> *final(self) == *old(self),
            match r {
                Ok(_) => true,
                Err(EncodeError::IndexOutOfRange { index: refused, n }) => refused == idx
                    && n == old(self).code().k
                    + old(self).code().m,
                Err(EncodeError::WrongPayloadLen { expected, got }) => expected
                    == old(self).code().symbol_len && got
                    == payload@.len() && got != expected && idx < old(self).code().k,
                Err(EncodeError::DuplicateData { index: refused }) => refused == idx
                    && old(self).is_fed(
                    idx as int,
                ) && payload@.len() == old(self).code().symbol_len,
                _ => false,
            },
    {
        let ghost before = *self;
        let r = self.repairs.feed(idx, payload);
        proof {
            assert forall|i: int| 0 <= i < before.code().k implies #[trigger] self.is_fed(i)
                == self.repairs.is_fed(i) by {
            }
        }
        r
    }

    /// Returns repair symbol `j` (`0..m`). It is valid even before all data
    /// symbols have been fed: it reflects the data symbols seen so far.
    pub fn repair_symbol(&self, j: usize) -> (r: Result<&[u8], EncodeError>)
        requires
            self.valid(),
        ensures
            j >= self.code().m ==> r == Err::<&[u8], EncodeError>(
                EncodeError::IndexOutOfRange {
                    index: j,
                    n: (self.code().k + self.code().m) as usize,
                },
            ),
            j < self.code().m ==> r is Ok && r->Ok_0@ == (self.code().symbol)(
                self.fed_block(),
                self.code().k + j,
            ),
    {
        self.repairs.repair(j)
    }

    /// Consumes the encoder and returns all repair symbols.
    pub fn into_repairs(self) -> (r: Vec<Vec<u8>>)
        requires
            self.valid(),
        ensures
            r@.len() == self.code().m,
            forall|j: int|
                0 <= j < r@.len() ==> (#[trigger] r@[j])@ == (self.code().symbol)(
                    self.fed_block(),
                    self.code().k + j,
                ),
    {
        self.repairs.into_repairs()
    }
}

impl Coded for StreamingEncoder {
    closed spec fn valid(&self) -> bool {
        &&& self.repairs.valid()
        &&& self.repairs.code() == point_code::<GfElem, GoodCauchyView>(
            self.repairs.code().k,
            self.repairs.code().m,
            self.repairs.code().symbol_len,
        )
        &&& self.repairs.code().well_shaped()
        &&& self.repairs.code().k + self.repairs.code().m <= 255
    }

    closed spec fn code(&self) -> Code {
        self.repairs.code()
    }

    proof fn code_is_sound(&self) {
        point_code_is_sound::<GfElem, GoodCauchyView>(
            self.repairs.code().k,
            self.repairs.code().m,
            self.repairs.code().symbol_len,
        );
    }

    fn k(&self) -> (r: usize) {
        self.repairs.k()
    }

    fn m(&self) -> (r: usize) {
        self.repairs.m()
    }

    fn symbol_len(&self) -> (r: usize) {
        self.repairs.symbol_len()
    }
}

impl IncrementalEncoder for StreamingEncoder {
    closed spec fn fed_block(&self) -> Seq<u8> {
        self.repairs.fed_block()
    }

    closed spec fn is_fed(&self, index: int) -> bool {
        self.repairs.is_fed(index)
    }

    fn feed(&mut self, index: usize, data: &[u8]) -> (r: Result<(), EncodeError>) {
        self.feed_data_symbol(index, data)
    }

    fn repair(&self, index: usize) -> (r: Result<&[u8], EncodeError>) {
        self.repair_symbol(index)
    }

    fn fed_count(&self) -> (r: usize) {
        StreamingEncoder::fed_count(self)
    }

    fn reset(&mut self) {
        self.repairs.reset();
        proof {
            assert forall|i: int| 0 <= i < self.code().k implies #[trigger] self.is_fed(i)
                == self.repairs.is_fed(i) by {
            }
        }
    }
}

} // verus!
