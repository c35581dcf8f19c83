//! Streaming tower encoder.

use vstd::prelude::*;

use crate::algebra::gf65536::GfElem;
use crate::codec::{
    fed_total, feed_fault, sized_fault, with_symbol, zero_block, Code, Coded, IncrementalEncoder,
};
use crate::encoder::accumulator::RepairAccumulator;
use crate::error::{ConfigError, EncodeError};
use crate::matrices::coding_matrix::{point_code, point_code_is_sound};
use crate::tower::cauchy::{TowerCauchyView, MAX_SYMBOLS};

verus! {

/// A streaming encoder over GF(65536): every data symbol updates all repair
/// symbols as it arrives.
pub struct StreamingEncoder {
    repairs: RepairAccumulator<GfElem, TowerCauchyView>,
}

impl StreamingEncoder {
    /// Creates a streaming encoder for `(k, m)` with `symbol_len`-byte symbols.
    ///
    /// Returns an error for zero dimensions, zero or odd symbol lengths, or a
    /// codeword beyond the tower capacity.
    pub fn new(k: usize, m: usize, symbol_len: usize) -> (r: Result<Self, ConfigError>)
        ensures
            match sized_fault(k as int, m as int, symbol_len as int, 2, MAX_SYMBOLS) {
                Some(e) => r == Err::<Self, ConfigError>(e),
                None => r is Ok,
            },
            r is Ok <==> k >= 1 && m >= 1 && symbol_len >= 1 && symbol_len % 2 == 0
                && k + m <= 65535 && (k
                + m) * symbol_len <= usize::MAX,
            r == Err::<Self, ConfigError>(ConfigError::ZeroDimension) <==> k == 0 || m == 0,
            r == Err::<Self, ConfigError>(ConfigError::ZeroSymbolLen)
                <==> k != 0 && m != 0 && symbol_len == 0,
            r == Err::<Self, ConfigError>(ConfigError::OddSymbolLen)
                <==> k != 0 && m != 0 && symbol_len % 2
                == 1,
            r matches Err(e) ==> match e {
                ConfigError::UnsupportedMode { .. } => false,
                ConfigError::TooManySymbols { cap } => cap == 65535 && (k + m > 65535
                    || (k + m) * symbol_len
                    > usize::MAX),
                _ => true,
            },
            r matches Ok(encoder) ==> {
                &&& encoder.valid()
                &&& encoder.code() == point_code::<GfElem, TowerCauchyView>(
                    k as int,
                    m as int,
                    symbol_len as int,
                )
                &&& encoder.fed_block() == zero_block(k * symbol_len)
                &&& forall|i: int| 0 <= i < k ==> !(#[trigger] encoder.is_fed(i))
            },
    {
        if k == 0 || m == 0 {
            return Err(ConfigError::ZeroDimension);
        }
        if symbol_len == 0 {
            return Err(ConfigError::ZeroSymbolLen);
        }
        if symbol_len % 2 != 0 {
            return Err(ConfigError::OddSymbolLen);
        }
        match TowerCauchyView::new(k, m) {
            None => Err(ConfigError::TooManySymbols { cap: MAX_SYMBOLS }),
            Some(matrix) => {
                let n: usize = k + m;
                match n.checked_mul(symbol_len) {
                    None => Err(ConfigError::TooManySymbols { cap: MAX_SYMBOLS }),
                    Some(_) => {
                        proof {
                            assert(m * symbol_len <= n * symbol_len) by (nonlinear_arith)
                                requires
                                    m <= n,
                                    0 <= symbol_len,
                            ;
                        }
                        let coeffs = matrix.coefficient_matrix();
                        Ok(
                            StreamingEncoder {
                                repairs: RepairAccumulator::new(matrix, k, m, symbol_len, coeffs),
                            },
                        )
                    },
                }
            },
        }
    }

    /// Number of data symbols `k`.
    pub fn k(&self) -> (r: usize)
        ensures
            r == self.code().k,
    {
        self.repairs.k()
    }

    /// Number of repair symbols `m`.
    pub fn m(&self) -> (r: usize)
        ensures
            r == self.code().m,
    {
        self.repairs.m()
    }

    /// Total codeword length `n = k + m`.
    pub fn n(&self) -> (r: usize)
        requires
            self.valid(),
        ensures
            r == self.code().k + self.code().m,
    {
        proof {
            self.code_is_sound();
        }
        self.repairs.k() + self.repairs.m()
    }

    /// Per-symbol byte length.
    pub fn symbol_len(&self) -> (r: usize)
        ensures
            r == self.code().symbol_len,
    {
        self.repairs.symbol_len()
    }

    /// Number of distinct data symbols fed so far.
    pub fn fed_count(&self) -> (r: usize)
        requires
            self.valid(),
        ensures
            r == fed_total(|i: int| self.is_fed(i), self.code().k),
    {
        proof {
            crate::encoder::accumulator::fed_total_congruent(
                |i: int| self.is_fed(i),
                |i: int| self.repairs.is_fed(i),
                self.code().k,
            );
        }
        self.repairs.fed_count()
    }

    /// Feeds one data symbol and updates all repair symbols.
    pub fn feed_data_symbol(&mut self, index: usize, symbol: &[u8]) -> (r: Result<
        (),
        EncodeError,
    >)
        requires
            old(self).valid(),
        ensures
            final(self).valid(),
            final(self).code() == old(self).code(),
            match feed_fault(
                old(self).code(),
                old(self).is_fed(index as int),
                index as int,
                symbol@.len() as int,
            ) {
                Some(e) => r == Err::<(), EncodeError>(e) && *final(self) == *old(self),
                None => r == Ok::<(), EncodeError>(()) && final(self).fed_block() == with_symbol(
                    old(self).fed_block(),
                    old(self).code().symbol_len,
                    index as int,
                    symbol@,
                ) && forall|i: int|
                    0 <= i < old(self).code().k ==> #[trigger] final(self).is_fed(i) == (i == index
                        || old(self).is_fed(i)),
            },
            r is Ok <==> index < old(self).code().k && symbol@.len() == old(self).code().symbol_len
                && !old(self).is_fed(
                index as int,
            ),
            index >= old(self).code().k <==> r matches Err(EncodeError::IndexOutOfRange { .. }),
            r is Ok ==> final(self).is_fed(index as int),
            r is Err ==> *final(self) == *old(self),
            match r {
                Ok(_) => true,
                Err(EncodeError::IndexOutOfRange { index: refused, n }) => refused == index
                    && n == old(self).code().k
                    + old(self).code().m,
                Err(EncodeError::WrongPayloadLen { expected, got }) => expected
                    == old(self).code().symbol_len && got
                    == symbol@.len() && got != expected && index < old(self).code().k,
                Err(EncodeError::DuplicateData { index: refused }) => refused == index
                    && old(self).is_fed(
                    index as int,
                ) && symbol@.len() == old(self).code().symbol_len,
                _ => false,
            },
    {
        let ghost before = *self;
        let r = self.repairs.feed(index, symbol);
        proof {
            assert forall|i: int| 0 <= i < before.code().k implies #[trigger] self.is_fed(i)
                == self.repairs.is_fed(i) by {
            }
        }
        r
    }

    /// Returns repair symbol `j` of the data seen so far.
    pub fn repair_symbol(&self, j: usize) -> (r: Result<&[u8], EncodeError>)
        requires
            self.valid(),
        ensures
            j >= self.code().m ==> r == Err::<&[u8], EncodeError>(
                EncodeError::IndexOutOfRange {
                    index: j,
                    n: (self.code().k + self.code().m) as usize,
                },
            ),
            j < self.code().m ==> r is Ok && r->Ok_0@ == (self.code().symbol)(
                self.fed_block(),
                self.code().k + j,
            ),
    {
        self.repairs.repair(j)
    }

    /// Consumes the encoder and returns all repair symbols.
    pub fn into_repairs(self) -> (r: Vec<Vec<u8>>)
        requires
            self.valid(),
        ensures
            r@.len() == self.code().m,
            forall|j: int|
                0 <= j < r@.len() ==> (#[trigger] r@[j])@ == (self.code().symbol)(
                    self.fed_block(),
                    self.code().k + j,
                ),
    {
        self.repairs.into_repairs()
    }
}

impl Coded for StreamingEncoder {
    closed spec fn valid(&self) -> bool {
        &&& self.repairs.valid()
        &&& self.repairs.code() == point_code::<GfElem, TowerCauchyView>(
            self.repairs.code().k,
            self.repairs.code().m,
            self.repairs.code().symbol_len,
        )
        &&& self.repairs.code().well_shaped()
        &&& self.repairs.code().k + self.repairs.code().m <= 65535
        &&& self.repairs.code().symbol_len % 2 == 0
    }

    closed spec fn code(&self) -> Code {
        self.repairs.code()
    }

    proof fn code_is_sound(&self) {
        point_code_is_sound::<GfElem, TowerCauchyView>(
            self.repairs.code().k,
            self.repairs.code().m,
            self.repairs.code().symbol_len,
        );
    }

    fn k(&self) -> (r: usize) {
        self.repairs.k()
    }

    fn m(&self) -> (r: usize) {
        self.repairs.m()
    }

    fn symbol_len(&self) -> (r: usize) {
        self.repairs.symbol_len()
    }
}

impl IncrementalEncoder for StreamingEncoder {
    closed spec fn fed_block(&self) -> Seq<u8> {
        self.repairs.fed_block()
    }

    closed spec fn is_fed(&self, index: int) -> bool {
        self.repairs.is_fed(index)
    }

    fn feed(&mut self, index: usize, data: &[u8]) -> (r: Result<(), EncodeError>) {
        self.feed_data_symbol(index, data)
    }

    fn repair(&self, index: usize) -> (r: Result<&[u8], EncodeError>) {
        self.repair_symbol(index)
    }

    fn fed_count(&self) -> (r: usize) {
        StreamingEncoder::fed_count(self)
    }

    fn reset(&mut self) {
        self.repairs.reset();
        proof {
            assert forall|i: int| 0 <= i < self.code().k implies #[trigger] self.is_fed(i)
                == self.repairs.is_fed(i) by {
            }
        }
    }
}

} // verus!
