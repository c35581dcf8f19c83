//! Systematic additive-transform encoder.

use vstd::prelude::*;

use crate::afft::code::{
    afft_code, afft_code_is_sound, afft_fault, field_size, padded, padded_dimension, shape_facts,
};
use crate::afft::field::Field;
use crate::afft::profile::{refusal, Profile};
use crate::afft::strip::StripEncoder;
use crate::afft::strip;
use crate::afft::transform::dimension_is_fault_free;
use crate::algebra::domains::span_size;
use crate::codec::{
    encode_fault, encode_lengths_are_judged, holds_repairs, BatchEncoder, Code, Coded,
};
use crate::error::{ConfigError, EncodeError};
use crate::payload::row_slice;
use crate::symbols::{row_bounds, row_of};

verus! {

/// Reusable scratch for encoding.
#[derive(Debug, Default)]
pub struct EncodeScratch {
    inner: strip::EncodeScratch,
}

impl EncodeScratch {
    /// Empty scratch that grows on first use.
    pub fn new() -> (r: Self)
        ensures
            r.bytes() == 0,
    {
        EncodeScratch { inner: strip::EncodeScratch::new() }
    }

    /// Bytes held.
    pub closed spec fn bytes(&self) -> int {
        self.inner.bytes()
    }
}

/// Block-systematic Reed-Solomon encoder using the additive transform.
///
/// Repair symbols occupy the evaluation points `k..k + m`, so construction
/// requires that `k + m` does not exceed the number of field elements.
#[derive(Debug)]
pub struct SystematicEncoder<F: Field> {
    profile: Profile,
    inner: StripEncoder<F>,
}

impl<F: Field> SystematicEncoder<F> {
    /// Constructs an encoder.
    ///
    /// Fails with [`ConfigError::ZeroDimension`] for zero `k` or `m`,
    /// [`ConfigError::ZeroSymbolLen`] or [`ConfigError::OddSymbolLen`] for a
    /// symbol length that is zero or holds a partial element, and
    /// [`ConfigError::TooManySymbols`] when the evaluation domain would exceed
    /// the field or its rows could not be addressed.
    pub fn new(k: usize, m: usize, symbol_len: usize) -> (r: Result<Self, ConfigError>)
        ensures
            match r {
                Ok(encoder) => afft_fault::<F>(k as int, m as int, symbol_len as int) is None
                    && encoder.valid() && encoder.code() == afft_code::<F>(
                    k as int,
                    m as int,
                    symbol_len as int,
                ),
                Err(e) => afft_fault::<F>(k as int, m as int, symbol_len as int) == Some(e),
            },
            r is Ok <==> k >= 1 && m >= 1 && symbol_len >= 1 && symbol_len as int % F::width() == 0
                && k + m
                <= span_size(F::bits()) && padded(k + m) * symbol_len <= usize::MAX,
            r == Err::<Self, ConfigError>(ConfigError::ZeroDimension) <==> k == 0 || m == 0,
            r == Err::<Self, ConfigError>(ConfigError::ZeroSymbolLen)
                <==> k != 0 && m != 0 && symbol_len == 0,
            r == Err::<Self, ConfigError>(ConfigError::OddSymbolLen)
                <==> k != 0 && m != 0 && symbol_len
                != 0 && symbol_len as int % F::width() != 0,
            r matches Err(e) ==> match e {
                ConfigError::UnsupportedMode { .. } => false,
                ConfigError::TooManySymbols { cap } => cap == span_size(F::bits()) && (k + m > cap
                    || padded(
                    k + m,
                ) * symbol_len > usize::MAX),
                _ => true,
            },
    {
        proof {
            field_size::<F>();
        }
        match Profile::new::<F>(k, m, symbol_len) {
            None => Err(refusal::<F>(k, m, symbol_len)),
            Some(profile) => {
                proof {
                    shape_facts::<F>(k as int, m as int, symbol_len as int);
                    dimension_is_fault_free(
                        padded(k as int),
                        F::bits(),
                        padded_dimension(k as int),
                    );
                    dimension_is_fault_free(padded(k + m), F::bits(), padded_dimension(k + m));
                }
                match StripEncoder::<F>::new(k, m, symbol_len) {
                    Ok(inner) => Ok(SystematicEncoder { profile, inner }),
                    Err(_) => Err(ConfigError::TooManySymbols { cap: F::max_transform_size() }),
                }
            },
        }
    }

    /// Number of systematic symbols.
    pub fn k(&self) -> (r: usize)
        ensures
            r == self.code().k,
    {
        self.profile.k
    }

    /// Number of repair symbols.
    pub fn m(&self) -> (r: usize)
        ensures
            r == self.code().m,
    {
        self.profile.m
    }

    /// Number of transmitted symbols, `k + m`.
    pub fn n(&self) -> (r: usize)
        requires
            self.valid(),
        ensures
            r == self.code().k + self.code().m,
    {
        self.profile.n
    }

    /// Per-symbol byte length.
    pub fn symbol_len(&self) -> (r: usize)
        ensures
            r == self.code().symbol_len,
    {
        self.profile.symbol_len
    }

    /// Power-of-two plan size used for the interpolation.
    pub fn padded_k(&self) -> (r: usize)
        requires
            self.valid(),
        ensures
            r == padded(self.code().k),
    {
        self.profile.padded_k
    }

    /// Power-of-two size of the whole evaluation domain.
    pub fn transform_size(&self) -> (r: usize)
        requires
            self.valid(),
        ensures
            r == padded(self.code().k + self.code().m),
    {
        self.profile.transform_size
    }

    /// Encodes a flat `k * symbol_len` systematic block and returns `m` repairs.
    ///
    /// The input bytes are the systematic symbols on the wire and are never
    /// modified or reserialized.
    pub fn encode(&self, data: &[u8]) -> (r: Result<Vec<Vec<u8>>, EncodeError>)
        requires
            self.valid(),
        ensures
            match r {
                Ok(repairs) => self.code().is_block(data@) && repairs@.len() == self.code().m
                    && forall|j: int|
                    0 <= j < self.code().m ==> (#[trigger] repairs@[j])@ == (self.code().symbol)(
                        data@,
                        self.code().k + j,
                    ),
                Err(e) => !self.code().is_block(data@) && e == (EncodeError::WrongInputLen {
                    expected: (self.code().k * self.code().symbol_len) as usize,
                    got: data@.len() as usize,
                }),
            },
            r is Ok <==> data@.len() == self.code().k * self.code().symbol_len,
    {
        let m: usize = self.profile.m;
        let symbol_len: usize = self.profile.symbol_len;
        proof {
            shape_facts::<F>(self.profile.k as int, m as int, symbol_len as int);
        }
        let mut flat: Vec<u8> = vec![0u8; m * symbol_len];
        match self.encode_into(data, flat.as_mut_slice()) {
            Err(e) => Err(e),
            Ok(()) => {
                let mut repairs: Vec<Vec<u8>> = Vec::new();
                let mut j: usize = 0;
                while j < m
                    invariant
                        j <= m,
                        m == self.code().m,
                        symbol_len == self.code().symbol_len,
                        holds_repairs(self.code(), data@, flat@),
                        repairs@.len() == j,
                        forall|i: int|
                            0 <= i < j ==> (#[trigger] repairs@[i])@ == (self.code().symbol)(
                                data@,
                                self.code().k + i,
                            ),
                    decreases m - j,
                {
                    proof {
                        row_bounds(j as int, m as int, symbol_len as int);
                        assert(row_of(flat@, self.code().symbol_len, j as int) == (
                        self.code().symbol)(data@, self.code().k + j));
                    }
                    repairs.push(
                        vstd::slice::slice_to_vec(row_slice(flat.as_slice(), j, symbol_len)),
                    );
                    j += 1;
                }
                Ok(repairs)
            },
        }
    }

    /// Working set of one symbol-column strip.
    pub closed spec fn strip_bytes(&self) -> int {
        self.inner.strip_bytes()
    }

    /// Allocates scratch sized for one symbol-column strip of this encoder.
    pub fn encode_scratch(&self) -> (r: EncodeScratch)
        requires
            self.valid(),
        ensures
            r.bytes() == self.strip_bytes(),
    {
        EncodeScratch { inner: self.inner.scratch() }
    }
}

impl<F: Field> Coded for SystematicEncoder<F> {
    closed spec fn valid(&self) -> bool {
        &&& self.profile.valid::<F>()
        &&& self.inner.valid()
        &&& self.inner.data_rows() == self.profile.k
        &&& self.inner.repair_rows() == self.profile.m
        &&& self.inner.row_bytes() == self.profile.symbol_len
    }

    closed spec fn code(&self) -> Code {
        afft_code::<F>(
            self.profile.k as int,
            self.profile.m as int,
            self.profile.symbol_len as int,
        )
    }

    proof fn code_is_sound(&self) {
        afft_code_is_sound::<F>(
            self.profile.k as int,
            self.profile.m as int,
            self.profile.symbol_len as int,
        );
    }

    fn k(&self) -> (r: usize) {
        self.profile.k
    }

    fn m(&self) -> (r: usize) {
        self.profile.m
    }

    fn symbol_len(&self) -> (r: usize) {
        self.profile.symbol_len
    }
}

impl<F: Field> BatchEncoder for SystematicEncoder<F> {
    type Scratch = EncodeScratch;

    open spec fn scratch_valid(scratch: &EncodeScratch) -> bool {
        true
    }

    open spec fn encode_refusal(
        &self,
        input: int,
        output: int,
        scratch: &EncodeScratch,
    ) -> Option<EncodeError> {
        encode_fault(self.code(), input, output)
    }

    proof fn codeword_fits(&self) {
        shape_facts::<F>(
            self.profile.k as int,
            self.profile.m as int,
            self.profile.symbol_len as int,
        );
    }

    proof fn encode_is_judged(&self, input: int, output: int, scratch: &EncodeScratch) {
        BatchEncoder::codeword_fits(self);
        self.code_is_sound();
        encode_lengths_are_judged(self.code(), input, output);
    }

    fn scratch(&self) -> (r: EncodeScratch)
        ensures
            r.bytes() == self.strip_bytes(),
    {
        self.encode_scratch()
    }

    fn encode_into(&self, data: &[u8], repairs: &mut [u8]) -> (r: Result<(), EncodeError>) {
        proof {
            BatchEncoder::codeword_fits(self);
            self.code_is_sound();
            encode_lengths_are_judged(self.code(), data.len() as int, repairs.len() as int);
        }
        let mut scratch = self.encode_scratch();
        self.encode_into_with(data, repairs, &mut scratch)
    }

    fn encode_into_with(
        &self,
        data: &[u8],
        repairs: &mut [u8],
        scratch: &mut EncodeScratch,
    ) -> (r: Result<(), EncodeError>) {
        proof {
            shape_facts::<F>(
                self.profile.k as int,
                self.profile.m as int,
                self.profile.symbol_len as int,
            );
            self.code_is_sound();
            encode_lengths_are_judged(self.code(), data.len() as int, repairs.len() as int);
        }
        let expected_data: usize = self.profile.k * self.profile.symbol_len;
        if data.len() != expected_data {
            return Err(EncodeError::WrongInputLen { expected: expected_data, got: data.len() });
        }
        let expected_repairs: usize = self.profile.m * self.profile.symbol_len;
        if repairs.len() != expected_repairs {
            return Err(
                EncodeError::WrongOutputLen { expected: expected_repairs, got: repairs.len() },
            );
        }
        let _ = self.inner.encode(data, repairs, &mut scratch.inner);
        Ok(())
    }
}

} // verus!
