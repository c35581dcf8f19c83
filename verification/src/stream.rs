//! Streaming traits for symbol-level transport.
//!
//! The decoders implement [`SymbolSink`] and consume symbols one at a time. They
//! know nothing about where symbols come from or how they are framed.

use vstd::prelude::*;

use crate::codec::{recovers, Code, Coded};
use crate::error::DecodeError;

verus! {

/// Outcome of pushing one symbol into a [`SymbolSink`].
#[derive(Debug, Clone, Copy, PartialEq, Eq, Structural)]
pub enum PushOutcome {
    /// The symbol advanced the decoder's rank but more independent symbols are
    /// still needed.
    Advanced {
        /// The new rank after processing this symbol.
        rank: usize,
        /// Total symbols received so far (including this one and any rejected).
        received: usize,
    },
    /// The symbol brought the decoder to full rank (`k`). The original data is
    /// now recoverable via [`SymbolSink::finalize`].
    Complete,
    /// The symbol was linearly dependent on prior symbols and was rejected. The
    /// recorded symbols are unchanged.
    Dependent,
}

/// Error returned by streaming decode operations.
pub type StreamError = DecodeError;

/// Why a symbol is refused.
pub open spec fn push_fault(code: Code, received: int, index: int, len: int) -> Option<
    DecodeError,
> {
    if index >= code.k + code.m {
        Some(
            DecodeError::IndexOutOfRange { index: index as usize, n: (code.k + code.m) as usize },
        )
    } else if len != code.symbol_len {
        Some(
            DecodeError::WrongPayloadLen {
                expected: code.symbol_len as usize,
                got: len as usize,
            },
        )
    } else if received >= code.k + code.m {
        Some(
            DecodeError::TooManySymbols {
                cap: (code.k + code.m) as usize,
                received: received as usize,
            },
        )
    } else {
        None
    }
}

/// Whether a symbol adds nothing: the decoder is complete or has it already.
pub open spec fn is_dependent(code: Code, stored: Map<int, Seq<u8>>, index: int) -> bool {
    stored.len() >= code.k || stored.contains_key(index)
}

/// The outcome of a push that is not refused.
pub open spec fn push_outcome(
    code: Code,
    stored: Map<int, Seq<u8>>,
    received: int,
    index: int,
) -> PushOutcome {
    if is_dependent(code, stored, index) {
        PushOutcome::Dependent
    } else if stored.len() + 1 >= code.k {
        PushOutcome::Complete
    } else {
        PushOutcome::Advanced {
            rank: (stored.len() + 1) as usize,
            received: (received + 1) as usize,
        }
    }
}

/// The symbols recorded after a push that is not refused.
pub open spec fn stored_after(
    code: Code,
    stored: Map<int, Seq<u8>>,
    index: int,
    payload: Seq<u8>,
) -> Map<int, Seq<u8>> {
    if is_dependent(code, stored, index) {
        stored
    } else {
        stored.insert(index, payload)
    }
}

/// What a push reports is what the decoder then holds: the rank is the number of
/// recorded symbols and one more than before, the count is the number of accepted
/// pushes, completion means that the `k`th symbol has just been recorded, and a
/// dependent symbol leaves the recorded ones as they were. A push is refused
/// exactly for a position outside the codeword, a payload of another length, or
/// once as many pushes were accepted as the codeword has positions.
pub proof fn push_reports_what_is_recorded(
    code: Code,
    stored: Map<int, Seq<u8>>,
    received: int,
    index: int,
    payload: Seq<u8>,
)
    requires
        stored.dom().finite(),
        stored.len() <= code.k,
        stored.len() <= received <= code.k + code.m <= usize::MAX,
        0 <= index,
    ensures
        push_fault(code, received, index, payload.len() as int) is None <==> index < code.k
            + code.m && payload.len() == code.symbol_len && received < code.k + code.m,
        received < code.k + code.m ==> {
            let after = stored_after(code, stored, index, payload);
            match push_outcome(code, stored, received, index) {
                PushOutcome::Advanced { rank, received: count } => {
                    &&& rank == after.len()
                    &&& rank == stored.len() + 1
                    &&& rank < code.k
                    &&& count == received + 1
                    &&& after == stored.insert(index, payload)
                },
                PushOutcome::Complete => {
                    &&& after.len() == code.k
                    &&& stored.len() + 1 == code.k
                    &&& after == stored.insert(index, payload)
                },
                PushOutcome::Dependent => {
                    &&& after == stored
                    &&& stored.len() == code.k || stored.contains_key(index)
                },
            }
        },
        received < code.k + code.m && stored.len() < code.k && !stored.contains_key(index)
            ==> push_outcome(code, stored, received, index) != PushOutcome::Dependent,
{
    broadcast use vstd::map::group_map_axioms;

    if !is_dependent(code, stored, index) {
        assert(stored.insert(index, payload).dom() =~= stored.dom().insert(index));
    }
}

/// A sink that consumes coded symbols one at a time and tracks decode state.
///
/// The caller only needs to know which codeword position each symbol belongs to
/// and provide its payload bytes.
pub trait SymbolSink: Coded {
    /// The recorded symbols.
    spec fn stored(&self) -> Map<int, Seq<u8>>;

    /// Pushes that were not refused.
    spec fn received_total(&self) -> int;

    /// At most `k` symbols of `symbol_len` bytes are recorded, each at a codeword
    /// position and each from a push that was not refused; a whole codeword can
    /// be addressed.
    proof fn stored_is_bounded(&self)
        requires
            self.valid(),
        ensures
            self.code().fits_memory(),
            self.stored().dom().finite(),
            self.stored().len() <= self.code().k,
            self.stored().len() <= self.received_total() <= self.code().k + self.code().m,
            forall|i: int| #[trigger]
                self.stored().contains_key(i) ==> 0 <= i < self.code().k + self.code().m
                    && self.stored()[i].len() == self.code().symbol_len,
    ;

    /// Pushes one symbol: `idx` identifies its position in the codeword
    /// (`0..n`), `payload` is its `symbol_len` bytes.
    fn push(&mut self, idx: usize, payload: &[u8]) -> (r: Result<PushOutcome, DecodeError>)
        requires
            old(self).valid(),
        ensures
            final(self).valid(),
            final(self).code() == old(self).code(),
            match push_fault(
                old(self).code(),
                old(self).received_total(),
                idx as int,
                payload@.len() as int,
            ) {
                Some(e) => r == Err::<PushOutcome, DecodeError>(e) && final(self).stored() == old(
                    self,
                ).stored() && final(self).received_total() == old(self).received_total(),
                None => r == Ok::<PushOutcome, DecodeError>(
                    push_outcome(
                        old(self).code(),
                        old(self).stored(),
                        old(self).received_total(),
                        idx as int,
                    ),
                ) && final(self).stored() == stored_after(
                    old(self).code(),
                    old(self).stored(),
                    idx as int,
                    payload@,
                ) && final(self).received_total() == old(self).received_total() + 1,
            },
            r is Ok <==> idx < old(self).code().k + old(self).code().m
                && payload@.len() == old(self).code().symbol_len
                && old(self).received_total() < old(self).code().k + old(self).code().m,
            r matches Ok(PushOutcome::Advanced { rank, received }) ==> {
                &&& rank == final(self).stored().len()
                &&& rank == old(self).stored().len() + 1
                &&& rank < old(self).code().k
                &&& received == final(self).received_total()
            },
            r matches Ok(PushOutcome::Complete) ==> {
                &&& final(self).stored().len() == old(self).code().k
                &&& old(self).stored().len() + 1 == old(self).code().k
            },
            r matches Ok(PushOutcome::Dependent)
                <==> r is Ok && (old(self).stored().len() >= old(self).code().k
                || old(self).stored().contains_key(idx as int)),
            r matches Ok(PushOutcome::Dependent) ==> final(self).stored() == old(self).stored(),
            r matches Ok(outcome) ==> {
                &&& final(self).received_total() == old(self).received_total() + 1
                &&& outcome != PushOutcome::Dependent
                    ==> final(self).stored() == old(self).stored().insert(idx as int, payload@)
            },
            r is Err ==> final(self).stored() == old(self).stored()
                && final(self).received_total() == old(self).received_total(),
            idx >= old(self).code().k + old(self).code().m
                <==> r matches Err(DecodeError::IndexOutOfRange { .. }),
            idx < old(self).code().k + old(self).code().m
                && payload@.len() != old(self).code().symbol_len
                <==> r matches Err(DecodeError::WrongPayloadLen { .. }),
            r matches Err(DecodeError::IndexOutOfRange { index: refused, n })
                ==> refused == idx && n == old(self).code().k + old(self).code().m,
            r matches Err(DecodeError::WrongPayloadLen { expected, got })
                ==> expected == old(self).code().symbol_len && got == payload@.len(),
            r is Err && idx < old(self).code().k + old(self).code().m
                && payload@.len() == old(self).code().symbol_len
                ==> (r matches Err(DecodeError::TooManySymbols { cap, received })
                && cap == old(self).code().k + old(self).code().m
                && received == old(self).received_total()),
    ;

    /// Returns `true` once `k` independent symbols have been received and the
    /// original data is recoverable via [`finalize`](SymbolSink::finalize).
    fn is_complete(&self) -> (r: bool)
        requires
            self.valid(),
        ensures
            r == (self.stored().len() >= self.code().k),
    ;

    /// Consumes the decoder and returns the recovered `k * symbol_len` bytes.
    fn finalize(self) -> (r: Result<Vec<u8>, DecodeError>)
        requires
            self.valid(),
        ensures
            match r {
                Ok(out) => self.stored().len() >= self.code().k && recovers(
                    self.code(),
                    out@,
                    self.stored(),
                ),
                Err(e) => self.stored().len() < self.code().k && e
                    == (DecodeError::InsufficientRank {
                    rank: self.stored().len() as usize,
                    k: self.code().k as usize,
                }),
            },
    ;
}

} // verus!
