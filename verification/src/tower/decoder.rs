//! Payload-lazy reduced Tower Cauchy decoder.

use vstd::prelude::*;

use crate::afft::profile::zeroed_bytes;
use crate::algebra::field::FieldElement;
use crate::algebra::gf65536::GfElem;
use crate::codec::{
    finalization_is_judged, finalize_fault, finalize_refusal, finalized, recovers, sized_fault,
    Code, Coded, Decoder,
};
use crate::decoder::pattern::{Bitmap, SymbolSet};
use crate::decoder::rebuild::rebuild;
use crate::decoder::reduced::{
    fused_coefficients, ints, is_fused_table,
};
use crate::decoder::store::{
    missing_marks, present_marks, repair_marks, SymbolStore,
};
use crate::error::{ConfigError, DecodeError};
use crate::matrices::coding_matrix::{data_point, point_code, point_code_is_sound};
use crate::stream::{push_fault, push_outcome, stored_after, PushOutcome, SymbolSink};
use crate::tower::cauchy::{TowerCauchyView, MAX_SYMBOLS};

verus! {

/// Lazy streaming decoder for the GF(65536) Tower Cauchy code.
///
/// `push_symbol` validates, copies, and marks receipt in a bitmap. Once any `k`
/// distinct symbols have arrived, finalization reconstructs only the `r` missing
/// systematic symbols through an `r` by `r` Cauchy inverse.
pub struct LazyDecoderState {
    k: usize,
    m: usize,
    symbol_len: usize,
    cauchy: TowerCauchyView,
    store: SymbolStore<Bitmap>,
}

/// Reusable metadata workspace for tower reconstruction.
#[derive(Debug)]
pub struct DecodeScratch {
    k: usize,
    m: usize,
    symbol_len: usize,
    missing_data: Vec<usize>,
    present_data: Vec<usize>,
    repair_columns: Vec<usize>,
    source_coefficients: Vec<GfElem>,
}

impl DecodeScratch {
    /// The scratch was sized for this geometry.
    pub closed spec fn fits(&self, k: int, m: int, symbol_len: int) -> bool {
        self.k == k && self.m == m && self.symbol_len == symbol_len
    }

    /// A scratch serves one geometry.
    pub proof fn fits_one_geometry(
        &self,
        first: (int, int, int),
        second: (int, int, int),
    )
        requires
            self.fits(first.0, first.1, first.2),
        ensures
            self.fits(second.0, second.1, second.2) <==> second == first,
    {
    }

    fn new(k: usize, m: usize, symbol_len: usize) -> (r: Self)
        ensures
            r.fits(k as int, m as int, symbol_len as int),
    {
        DecodeScratch {
            k,
            m,
            symbol_len,
            missing_data: Vec::new(),
            present_data: Vec::new(),
            repair_columns: Vec::new(),
            source_coefficients: Vec::new(),
        }
    }
}

impl LazyDecoderState {
    /// Constructs a decoder.
    ///
    /// Returns [`ConfigError`] for zero dimensions, zero or odd symbol lengths,
    /// or a codeword length exceeding the tower capacity; a codeword the
    /// allocator refuses to hold, as it does beyond `isize::MAX` bytes, is
    /// reported as exceeding the capacity too.
    pub fn new(k: usize, m: usize, symbol_len: usize) -> (r: Result<Self, ConfigError>)
        ensures
            match sized_fault(k as int, m as int, symbol_len as int, 2, MAX_SYMBOLS) {
                Some(e) => r == Err::<Self, ConfigError>(e),
                None => {
                    &&& r matches Err(e) ==> e == (ConfigError::TooManySymbols {
                        cap: MAX_SYMBOLS,
                    })
                    &&& (k + m) * symbol_len > isize::MAX ==> r is Err
                },
            },
            r is Err && k >= 1 && m >= 1 && symbol_len >= 1 && symbol_len % 2 == 0 && k + m <= 65535
                && (k + m) * symbol_len <= usize::MAX ==> call_ensures(
                zeroed_bytes,
                (((k + m) * symbol_len) as usize,),
                None::<Vec<u8>>,
            ),
            r is Ok ==> k >= 1 && m >= 1 && symbol_len >= 1 && symbol_len % 2 == 0
                && k + m <= 65535 && (k
                + m) * symbol_len <= isize::MAX,
            r == Err::<Self, ConfigError>(ConfigError::ZeroDimension) <==> k == 0 || m == 0,
            r == Err::<Self, ConfigError>(ConfigError::ZeroSymbolLen)
                <==> k != 0 && m != 0 && symbol_len == 0,
            r == Err::<Self, ConfigError>(ConfigError::OddSymbolLen)
                <==> k != 0 && m != 0 && symbol_len % 2
                == 1,
            r matches Err(e) ==> match e {
                ConfigError::UnsupportedMode { .. } => false,
                ConfigError::TooManySymbols { cap } => cap == 65535,
                _ => true,
            },
            r matches Ok(decoder) ==> {
                &&& decoder.valid()
                &&& decoder.code() == point_code::<GfElem, TowerCauchyView>(
                    k as int,
                    m as int,
                    symbol_len as int,
                )
                &&& decoder.stored() == Map::<int, Seq<u8>>::empty()
                &&& decoder.received_total() == 0
            },
    {
        if k == 0 || m == 0 {
            return Err(ConfigError::ZeroDimension);
        }
        if symbol_len == 0 {
            return Err(ConfigError::ZeroSymbolLen);
        }
        if symbol_len % 2 != 0 {
            return Err(ConfigError::OddSymbolLen);
        }
        if k > MAX_SYMBOLS || m > MAX_SYMBOLS - k {
            return Err(ConfigError::TooManySymbols { cap: MAX_SYMBOLS });
        }
        match (k + m).checked_mul(symbol_len) {
            None => Err(ConfigError::TooManySymbols { cap: MAX_SYMBOLS }),
            Some(payload_len) => {
                let storage = zeroed_bytes(payload_len);
                assert(call_ensures(zeroed_bytes, (payload_len,), storage));
                Self::with_storage(k, m, symbol_len, storage)
            },
        }
    }

    /// Constructs a decoder on payload storage of `(k + m) * symbol_len` bytes.
    pub fn with_storage(
        k: usize,
        m: usize,
        symbol_len: usize,
        storage: Option<Vec<u8>>,
    ) -> (r: Result<Self, ConfigError>)
        requires
            sized_fault(k as int, m as int, symbol_len as int, 2, MAX_SYMBOLS) is None,
            storage matches Some(bytes) ==> bytes@.len() == (k + m) * symbol_len,
        ensures
            r is Ok <==> storage is Some,
            r matches Err(e) ==> e == (ConfigError::TooManySymbols { cap: MAX_SYMBOLS }),
            r matches Ok(decoder) ==> {
                &&& decoder.valid()
                &&& decoder.code() == point_code::<GfElem, TowerCauchyView>(
                    k as int,
                    m as int,
                    symbol_len as int,
                )
                &&& decoder.stored() == Map::<int, Seq<u8>>::empty()
                &&& decoder.received_total() == 0
            },
    {
        match (storage, TowerCauchyView::new(k, m)) {
            (Some(payloads), Some(cauchy)) => {
                let n: usize = k + m;
                let marks = Bitmap::new(n);
                let store = SymbolStore::new(k, n, symbol_len, payloads, marks);
                Ok(LazyDecoderState { k, m, symbol_len, cauchy, store })
            },
            _ => Err(ConfigError::TooManySymbols { cap: MAX_SYMBOLS }),
        }
    }

    /// Number of systematic data symbols.
    pub fn k(&self) -> (r: usize)
        ensures
            r == self.code().k,
    {
        self.k
    }

    /// Number of repair symbols.
    pub fn m(&self) -> (r: usize)
        ensures
            r == self.code().m,
    {
        self.m
    }

    /// Total codeword length.
    pub fn n(&self) -> (r: usize)
        requires
            self.valid(),
        ensures
            r == self.code().k + self.code().m,
    {
        self.k + self.m
    }

    /// Per-symbol byte length.
    pub fn symbol_len(&self) -> (r: usize)
        ensures
            r == self.code().symbol_len,
    {
        self.symbol_len
    }

    /// Number of distinct accepted symbols, capped at `k`.
    pub fn rank(&self) -> (r: usize)
        requires
            self.valid(),
        ensures
            r == self.stored().len(),
    {
        self.store.rank()
    }

    /// Number of pushes, including duplicates accepted before the cap.
    pub fn received(&self) -> (r: usize)
        ensures
            r == self.received_total(),
    {
        self.store.received()
    }

    /// Whether codeword position `index` has been accepted.
    pub fn has_symbol(&self, index: usize) -> (r: bool)
        requires
            self.valid(),
        ensures
            r == self.stored().contains_key(index as int),
    {
        self.store.has_symbol(index)
    }

    /// Clears receipt state for another block while retaining allocations.
    pub fn reset(&mut self)
        requires
            old(self).valid(),
        ensures
            final(self).valid(),
            final(self).code() == old(self).code(),
            final(self).stored() == Map::<int, Seq<u8>>::empty(),
            final(self).received_total() == 0,
    {
        self.store.reset();
    }

    /// Validates and records one codeword symbol.
    pub fn push_symbol(&mut self, index: usize, symbol: &[u8]) -> (r: Result<
        PushOutcome,
        DecodeError,
    >)
        requires
            old(self).valid(),
        ensures
            final(self).valid(),
            final(self).code() == old(self).code(),
            match push_fault(
                old(self).code(),
                old(self).received_total(),
                index as int,
                symbol@.len() as int,
            ) {
                Some(e) => r == Err::<PushOutcome, DecodeError>(e) && *final(self) == *old(self),
                None => r == Ok::<PushOutcome, DecodeError>(
                    push_outcome(
                        old(self).code(),
                        old(self).stored(),
                        old(self).received_total(),
                        index as int,
                    ),
                ) && final(self).stored() == stored_after(
                    old(self).code(),
                    old(self).stored(),
                    index as int,
                    symbol@,
                ) && final(self).received_total() == old(self).received_total() + 1,
            },
            r is Ok <==> index < old(self).code().k + old(self).code().m
                && symbol@.len() == old(self).code().symbol_len
                && old(self).received_total() < old(self).code().k + old(self).code().m,
            r matches Ok(PushOutcome::Advanced { rank, received }) ==> {
                &&& rank == final(self).stored().len()
                &&& rank == old(self).stored().len() + 1
                &&& rank < old(self).code().k
                &&& received == final(self).received_total()
            },
            r matches Ok(PushOutcome::Complete) ==> {
                &&& final(self).stored().len() == old(self).code().k
                &&& old(self).stored().len() + 1 == old(self).code().k
            },
            r matches Ok(PushOutcome::Dependent)
                <==> r is Ok && (old(self).stored().len() >= old(self).code().k
                || old(self).stored().contains_key(index as int)),
            r matches Ok(PushOutcome::Dependent) ==> final(self).stored() == old(self).stored(),
            r matches Ok(outcome) ==> {
                &&& final(self).received_total() == old(self).received_total() + 1
                &&& outcome != PushOutcome::Dependent
                    ==> final(self).stored() == old(self).stored().insert(index as int, symbol@)
            },
            r is Err ==> final(self).stored() == old(self).stored()
                && final(self).received_total() == old(self).received_total(),
            index >= old(self).code().k + old(self).code().m
                <==> r matches Err(DecodeError::IndexOutOfRange { .. }),
            index < old(self).code().k + old(self).code().m
                && symbol@.len() != old(self).code().symbol_len
                <==> r matches Err(DecodeError::WrongPayloadLen { .. }),
            r matches Err(DecodeError::IndexOutOfRange { index: refused, n })
                ==> refused == index && n == old(self).code().k + old(self).code().m,
            r matches Err(DecodeError::WrongPayloadLen { expected, got })
                ==> expected == old(self).code().symbol_len && got == symbol@.len(),
            r is Err && index < old(self).code().k + old(self).code().m
                && symbol@.len() == old(self).code().symbol_len
                ==> (r matches Err(DecodeError::TooManySymbols { cap, received })
                && cap == old(self).code().k + old(self).code().m
                && received == old(self).received_total()),
    {
        let ghost code = self.code();
        self.store.push(index, symbol, Ghost(code))
    }

    /// Allocates reusable decode metadata for this geometry.
    pub fn decode_scratch(&self) -> (r: DecodeScratch)
        ensures
            r.fits(self.code().k, self.code().m, self.code().symbol_len),
    {
        DecodeScratch::new(self.k, self.m, self.symbol_len)
    }

    /// Sizes that follow from the invariant.
    proof fn sizes(&self)
        requires
            self.valid(),
        ensures
            0 <= self.k * self.symbol_len <= usize::MAX,
            self.code().well_shaped(),
    {
        let k = self.k as int;
        let m = self.m as int;
        let l = self.symbol_len as int;
        assert(0 <= k * l <= (k + m) * l) by (nonlinear_arith)
            requires
                0 <= k,
                0 <= m,
                0 <= l,
        ;
    }

    /// Reconstructs all systematic data without consuming the decoder.
    pub fn finalize_ref(&self) -> (r: Result<Vec<u8>, DecodeError>)
        requires
            self.valid(),
        ensures
            match r {
                Ok(out) => self.stored().len() >= self.code().k && recovers(
                    self.code(),
                    out@,
                    self.stored(),
                ),
                Err(e) => self.stored().len() < self.code().k && e
                    == (DecodeError::InsufficientRank {
                    rank: self.stored().len() as usize,
                    k: self.code().k as usize,
                }),
            },
    {
        proof {
            self.sizes();
        }
        let mut output: Vec<u8> = vec![0u8; self.k * self.symbol_len];
        let mut scratch = self.decode_scratch();
        match self.finalize_into_with_scratch(&mut output, &mut scratch) {
            Ok(_) => Ok(output),
            Err(e) => Err(e),
        }
    }

    /// Checks that `k` distinct symbols have been recorded.
    fn ensure_complete(&self) -> (r: Result<(), DecodeError>)
        requires
            self.valid(),
        ensures
            r == if self.stored().len() < self.code().k {
                Err::<(), DecodeError>(
                    DecodeError::InsufficientRank {
                        rank: self.stored().len() as usize,
                        k: self.code().k as usize,
                    },
                )
            } else {
                Ok(())
            },
    {
        let rank: usize = self.store.rank();
        if rank < self.k {
            return Err(DecodeError::InsufficientRank { rank, k: self.k });
        }
        Ok(())
    }

    fn finalize_into_with_scratch(&self, output: &mut [u8], scratch: &mut DecodeScratch) -> (r:
        Result<(), DecodeError>)
        requires
            self.valid(),
        ensures
            forall|k: int, m: int, symbol_len: int| #[trigger]
                final(scratch).fits(k, m, symbol_len) == old(scratch).fits(k, m, symbol_len),
            finalized(
                self.code(),
                finalize_refusal(
                    finalize_fault(
                        self.code(),
                        self.stored().len() as int,
                        old(output)@.len() as int,
                    ),
                    !old(scratch).fits(self.code().k, self.code().m, self.code().symbol_len),
                ),
                self.stored(),
                old(output)@,
                final(output)@,
                r,
            ),
    {
        proof {
            self.sizes();
        }
        match self.ensure_complete() {
            Err(e) => Err(e),
            Ok(_) => {
                let expected: usize = self.k * self.symbol_len;
                if output.len() != expected {
                    return Err(DecodeError::WrongOutputLen { expected, got: output.len() });
                }
                match self.build_recipe_into(scratch) {
                    Err(e) => Err(e),
                    Ok(_) => {
                        self.apply_recipe_into(scratch, output);
                        Ok(())
                    },
                }
            },
        }
    }

    /// The scratch holds the recipe for the current receipt.
    closed spec fn holds_recipe(&self, scratch: &DecodeScratch) -> bool {
        let k = self.k as int;
        &&& ints(scratch.missing_data@) == missing_marks(self.store.pattern(), k)
        &&& ints(scratch.present_data@) == present_marks(self.store.pattern(), k)
        &&& ints(scratch.repair_columns@) == repair_marks(self.store.pattern(), k, self.m as int)
        &&& is_fused_table(
            data_point::<GfElem, TowerCauchyView>(),
            k,
            ints(scratch.missing_data@),
            ints(scratch.present_data@),
            ints(scratch.repair_columns@),
            scratch.source_coefficients@,
        )
    }

    /// Splits the receipt and computes one coefficient per source and missing
    /// output.
    fn build_recipe_into(&self, scratch: &mut DecodeScratch) -> (r: Result<(), DecodeError>)
        requires
            self.valid(),
            self.stored().len() >= self.code().k,
        ensures
            r is Ok <==> old(scratch).fits(self.code().k, self.code().m, self.code().symbol_len),
            r matches Err(e) ==> e == DecodeError::ScratchMismatch,
            r is Ok ==> self.holds_recipe(final(scratch)),
            forall|k: int, m: int, symbol_len: int| #[trigger]
                final(scratch).fits(k, m, symbol_len) == old(scratch).fits(k, m, symbol_len),
    {
        if scratch.k != self.k || scratch.m != self.m || scratch.symbol_len != self.symbol_len {
            return Err(DecodeError::ScratchMismatch);
        }
        let (missing, present, repairs) = self.store.split();
        proof {
            self.store.split_is_valid(self.code());
        }
        let table = fused_coefficients::<GfElem, TowerCauchyView>(
            self.k,
            self.m,
            &missing,
            &present,
            &repairs,
        );
        scratch.missing_data = missing;
        scratch.present_data = present;
        scratch.repair_columns = repairs;
        scratch.source_coefficients = table;
        Ok(())
    }

    /// Copies the present rows and rebuilds the missing ones.
    fn apply_recipe_into(&self, scratch: &DecodeScratch, output: &mut [u8])
        requires
            self.valid(),
            self.stored().len() >= self.code().k,
            self.holds_recipe(scratch),
            old(output)@.len() == self.k * self.symbol_len,
        ensures
            recovers(self.code(), final(output)@, self.stored()),
    {
        proof {
            self.sizes();
        }
        let _ = rebuild::<GfElem, TowerCauchyView, Bitmap>(
            &self.store,
            self.k,
            self.m,
            self.symbol_len,
            &scratch.missing_data,
            &scratch.present_data,
            &scratch.repair_columns,
            &scratch.source_coefficients,
            output,
        );
    }
}

impl Coded for LazyDecoderState {
    closed spec fn valid(&self) -> bool {
        &&& 1 <= self.k
        &&& 1 <= self.m
        &&& self.k + self.m <= 65535
        &&& 1 <= self.symbol_len
        &&& self.symbol_len % 2 == 0
        &&& (self.k + self.m) * self.symbol_len <= usize::MAX
        &&& self.store.valid()
        &&& self.store.shaped(self.code())
    }

    closed spec fn code(&self) -> Code {
        point_code::<GfElem, TowerCauchyView>(
            self.k as int,
            self.m as int,
            self.symbol_len as int,
        )
    }

    proof fn code_is_sound(&self) {
        point_code_is_sound::<GfElem, TowerCauchyView>(
            self.k as int,
            self.m as int,
            self.symbol_len as int,
        );
    }

    fn k(&self) -> (r: usize) {
        self.k
    }

    fn m(&self) -> (r: usize) {
        self.m
    }

    fn symbol_len(&self) -> (r: usize) {
        self.symbol_len
    }
}

impl SymbolSink for LazyDecoderState {
    closed spec fn stored(&self) -> Map<int, Seq<u8>> {
        self.store.stored()
    }

    closed spec fn received_total(&self) -> int {
        self.store.received_total()
    }

    proof fn stored_is_bounded(&self) {
        self.store.stored_facts(self.code());
    }

    fn push(&mut self, idx: usize, payload: &[u8]) -> (r: Result<PushOutcome, DecodeError>) {
        self.push_symbol(idx, payload)
    }

    fn is_complete(&self) -> (r: bool) {
        self.store.rank() >= self.k
    }

    fn finalize(self) -> (r: Result<Vec<u8>, DecodeError>) {
        self.finalize_ref()
    }
}

impl Decoder for LazyDecoderState {
    type Scratch = DecodeScratch;

    open spec fn scratch_valid(scratch: &DecodeScratch) -> bool {
        true
    }

    open spec fn refusal(code: Code, rank: int, output: int, scratch: &DecodeScratch) -> Option<
        DecodeError,
    > {
        finalize_refusal(
            finalize_fault(code, rank, output),
            !scratch.fits(code.k, code.m, code.symbol_len),
        )
    }

    proof fn refusal_is_judged(code: Code, rank: int, output: int, scratch: &DecodeScratch) {
        finalization_is_judged(code, rank, output);
    }

    fn scratch(&self) -> (r: DecodeScratch) {
        self.decode_scratch()
    }

    fn rank(&self) -> (r: usize) {
        self.store.rank()
    }

    fn received(&self) -> (r: usize) {
        self.store.received()
    }

    fn reset(&mut self) {
        self.store.reset();
    }

    fn finalize_into(&mut self, out: &mut [u8]) -> (r: Result<(), DecodeError>) {
        proof {
            self.code_is_sound();
            self.stored_is_bounded();
            finalization_is_judged(self.code(), self.stored().len() as int, out.len() as int);
        }
        let mut scratch = self.decode_scratch();
        self.finalize_into_with_scratch(out, &mut scratch)
    }

    fn finalize_into_with(&mut self, out: &mut [u8], scratch: &mut DecodeScratch) -> (r: Result<
        (),
        DecodeError,
    >)
        ensures
            r matches Err(DecodeError::ScratchMismatch) ==> old(self).stored().len() == old(
                self,
            ).code().k && old(out)@.len() == old(self).code().k * old(self).code().symbol_len,
            !old(scratch).fits(
                old(self).code().k,
                old(self).code().m,
                old(self).code().symbol_len,
            ) ==> r is Err,
    {
        proof {
            self.code_is_sound();
            self.stored_is_bounded();
            finalization_is_judged(self.code(), self.stored().len() as int, out.len() as int);
        }
        self.finalize_into_with_scratch(out, scratch)
    }
}

} // verus!
