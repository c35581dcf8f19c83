//! Payload-lazy additive-transform erasure decoder.

use vstd::prelude::*;

use crate::afft::code::{
    afft_code, afft_code_is_sound, afft_fault, field_size, padded, padded_dimension, shape_facts,
};
use crate::afft::domain::{
    keeps_located, keeps_rest, order_fits, rebuild_block, shows_rebuild, targeted_capacity,
    targeted_limit, Domain, Workspace,
};
use crate::afft::field::{pattern_basis, Field};
use crate::afft::generator::systematic_pattern;
use crate::afft::locator::{ErasureLocator, LocatorScratch};
use crate::afft::profile::{refusal, zeroed_bytes, Profile};
use crate::afft::reconstruct::{plans, solve_congruent};
use crate::afft::recovery::RecoveryScratch;
use crate::afft::transform::TransformPlan;
use crate::algebra::domains::span_size;
use crate::algebra::index_lists::{indices_where, indices_where_congruent, indices_where_facts};
use crate::codec::{
    finalization_is_judged, finalize_fault, finalize_refusal, finalized, recovers, zero_block,
    Code, Coded, Decoder,
};
use crate::decoder::pattern::{word_bit, Bitmap, SymbolSet};
use crate::decoder::rebuild::stored_sources;
use crate::decoder::reduced::{ints, term_index};
use crate::decoder::store::{missing_marks, present_marks, repair_marks, SymbolStore};
use crate::decoder::streaming::unrecorded;
use crate::error::{ConfigError, DecodeError};
use crate::stream::{push_fault, push_outcome, stored_after, PushOutcome, SymbolSink};
use crate::symbols::row_of;

verus! {

/// Lazy erasure decoder for the additive-transform encoder.
///
/// Receipt processing only validates, copies, and marks a bitmap. All transform
/// work is deferred to finalization, which takes one of two paths: a dense solve
/// against the received repair rows for few erasures, recovery over the whole
/// evaluation domain otherwise.
#[derive(Clone, Debug)]
pub struct LazyDecoderState<F: Field> {
    profile: Profile,
    domain: Domain<F>,
    store: SymbolStore<Bitmap>,
}

/// Reusable workspace for decoding.
#[derive(Clone, Debug)]
pub struct DecodeScratch<F: Field> {
    k: usize,
    m: usize,
    symbol_len: usize,
    transform_size: usize,
    workspace: Workspace<F>,
}

/// `sized` is the workspace that a decode with `scratch` starts from: its own, or
/// an untouched one for the geometry if it was not sized yet.
pub open spec fn starts_from<F: Field>(
    scratch: &DecodeScratch<F>,
    k: int,
    m: int,
    symbol_len: int,
    sized: Workspace<F>,
) -> bool {
    if scratch.unsized_yet() {
        sized.untouched(padded(k + m)) && sized.limit() == targeted_limit::<F>(k, m, symbol_len)
    } else {
        sized == scratch.workspace_state()
    }
}

/// What a finalization of the recorded symbols leaves in the scratch. `received`
/// is the payload storage.
pub open spec fn shows_finalization<F: Field>(
    scratch: &DecodeScratch<F>,
    code: Code,
    stored: Map<int, Seq<u8>>,
    received: Seq<u8>,
    out: Seq<u8>,
) -> bool {
    let present = indices_where(|i: int| stored.contains_key(i), code.k);
    let repairs = indices_where(|j: int| stored.contains_key(code.k + j), code.m);
    shows_rebuild(
        &scratch.workspace_state(),
        pattern_basis::<F>(padded_dimension(code.k + code.m)),
        code.k,
        code.symbol_len,
        unrecorded(stored, code.k),
        present,
        repairs,
        |t: int| stored[term_index(code.k, present, repairs, t)],
        received,
        out,
    )
}

/// After a finalization the scratch lists the data positions that were not
/// recorded, in ascending order, and holds their rows of the output in that order.
pub proof fn finalizations_show_the_missing_rows<F: Field>(
    scratch: &DecodeScratch<F>,
    code: Code,
    stored: Map<int, Seq<u8>>,
    received: Seq<u8>,
    out: Seq<u8>,
)
    requires
        shows_finalization(scratch, code, stored, received, out),
        code.well_shaped(),
    ensures
        forall|i: int|
            0 <= i < code.k ==> (#[trigger] ints(
                scratch.workspace_state().missing_list(),
            ).contains(i) <==> !stored.contains_key(i)),
        forall|a: int, b: int|
            0 <= a < b < scratch.workspace_state().missing_list().len() ==> (
            #[trigger] scratch.workspace_state().missing_list()[a])
                < (#[trigger] scratch.workspace_state().missing_list()[b]),
        forall|a: int|
            0 <= a < scratch.workspace_state().missing_list().len() ==> row_of(
                scratch.workspace_state().recovered_rows(),
                code.symbol_len,
                a,
            ) == row_of(
                out,
                code.symbol_len,
                (#[trigger] scratch.workspace_state().missing_list()[a]) as int,
            ),
{
    let lacks = |i: int| !stored.contains_key(i);
    indices_where_facts(lacks, code.k);
    let missing = unrecorded(stored, code.k);
    let listed = scratch.workspace_state().missing_list();
    assert(missing == indices_where(lacks, code.k));
    assert(ints(listed) == missing);
    assert forall|i: int| 0 <= i < code.k implies (#[trigger] ints(listed).contains(i)
        <==> !stored.contains_key(i)) by {
        assert(missing.contains(i) <==> lacks(i));
    }
    assert forall|a: int, b: int| 0 <= a < b < listed.len() implies (#[trigger] listed[a]) < (
    #[trigger] listed[b]) by {
        assert(missing[a] < missing[b]);
    }
    assert forall|a: int| 0 <= a < listed.len() implies row_of(
        scratch.workspace_state().recovered_rows(),
        code.symbol_len,
        a,
    ) == row_of(out, code.symbol_len, (#[trigger] listed[a]) as int) by {
        assert(missing[a] == listed[a]);
    }
}

impl<F: Field> DecodeScratch<F> {
    /// The scratch has not been sized yet.
    pub open spec fn unsized_yet(&self) -> bool {
        self.geometry().0 == 0
    }

    /// The scratch was sized for this geometry.
    pub open spec fn fits(&self, k: int, m: int, symbol_len: int) -> bool {
        self.geometry() == (k, m, symbol_len)
    }

    /// `k`, `m` and `symbol_len` of the decoder that the scratch was sized for.
    pub closed spec fn geometry(&self) -> (int, int, int) {
        (self.k as int, self.m as int, self.symbol_len as int)
    }

    /// The buffers belong to the geometry.
    pub closed spec fn valid(&self) -> bool {
        &&& self.workspace.valid()
        &&& self.transform_size == if self.k == 0 {
            0
        } else {
            padded(self.k + self.m)
        }
    }

    /// Largest erasure count of the dense solve.
    pub open spec fn limit(&self) -> int {
        self.workspace_state().limit()
    }

    /// The workspace of both recovery paths.
    pub closed spec fn workspace_state(&self) -> Workspace<F> {
        self.workspace
    }

    /// Empty scratch that is sized on first use.
    pub fn new() -> (r: Self)
        ensures
            r.valid(),
            r.unsized_yet(),
            r.geometry() == (0int, 0int, 0int),
            r.limit() == 0,
            r.workspace_state().untouched(0),
    {
        DecodeScratch {
            k: 0,
            m: 0,
            symbol_len: 0,
            transform_size: 0,
            workspace: Workspace::new(0, 0),
        }
    }

    /// Scratch for a geometry.
    pub fn for_profile(profile: &Profile) -> (r: Self)
        requires
            profile.valid::<F>(),
        ensures
            r.valid(),
            !r.unsized_yet(),
            r.fits(profile.k as int, profile.m as int, profile.symbol_len as int),
            r.limit() == targeted_limit::<F>(
                profile.k as int,
                profile.m as int,
                profile.symbol_len as int,
            ),
            r.workspace_state().untouched(profile.transform_size as int),
    {
        let order: usize = targeted_capacity::<F>(profile);
        proof {
            field_size::<F>();
            order_fits(profile.k as int, profile.m as int, order as int);
        }
        DecodeScratch {
            k: profile.k,
            m: profile.m,
            symbol_len: profile.symbol_len,
            transform_size: profile.transform_size,
            workspace: Workspace::new(profile.transform_size, order),
        }
    }

    /// Sizes the scratch on first use, or rejects one built for another
    /// geometry.
    pub fn ensure(&mut self, profile: &Profile) -> (r: Result<(), DecodeError>)
        requires
            old(self).valid(),
            profile.valid::<F>(),
        ensures
            final(self).valid(),
            r is Ok <==> old(self).unsized_yet() || old(self).fits(
                profile.k as int,
                profile.m as int,
                profile.symbol_len as int,
            ),
            r matches Err(e) ==> e == DecodeError::ScratchMismatch && *final(self) == *old(self),
            r is Ok ==> final(self).fits(
                profile.k as int,
                profile.m as int,
                profile.symbol_len as int,
            ),
            r is Ok && old(self).unsized_yet() ==> final(self).workspace_state().untouched(
                profile.transform_size as int,
            ) && final(self).limit() == targeted_limit::<F>(
                profile.k as int,
                profile.m as int,
                profile.symbol_len as int,
            ),
            !old(self).unsized_yet() ==> *final(self) == *old(self),
    {
        if self.k == 0 {
            *self = Self::for_profile(profile);
            return Ok(());
        }
        if self.k != profile.k || self.m != profile.m || self.symbol_len != profile.symbol_len
            || self.transform_size != profile.transform_size {
            return Err(DecodeError::ScratchMismatch);
        }
        Ok(())
    }

    /// Systematic dimension this scratch is sized for; zero before it is sized.
    pub fn k(&self) -> (r: usize)
        ensures
            r == self.geometry().0,
    {
        self.k
    }

    /// Repair count this scratch is sized for.
    pub fn m(&self) -> (r: usize)
        ensures
            r == self.geometry().1,
    {
        self.m
    }

    /// Per-symbol byte length this scratch is sized for.
    pub fn symbol_len(&self) -> (r: usize)
        ensures
            r == self.geometry().2,
    {
        self.symbol_len
    }

    /// Evaluation-domain size this scratch is sized for.
    pub fn transform_size(&self) -> (r: usize)
        requires
            self.valid(),
        ensures
            !self.unsized_yet() ==> r == padded(self.geometry().0 + self.geometry().1),
            self.unsized_yet() ==> r == 0,
    {
        self.transform_size
    }

    /// The workspace of both recovery paths.
    pub fn workspace_mut(&mut self) -> (r: &mut Workspace<F>)
        requires
            old(self).valid(),
        ensures
            r.valid(),
            *r == old(self).workspace_state(),
            final(r).valid() ==> final(self).valid(),
            final(self).workspace_state() == *final(r),
            final(self).geometry() == old(self).geometry(),
    {
        &mut self.workspace
    }

    /// Largest erasure count of the dense solve.
    pub fn targeted_max(&self) -> (r: usize)
        ensures
            r == self.limit(),
    {
        self.workspace.limit_value()
    }

    /// Data positions that the last finalization reconstructed, ascending.
    #[must_use]
    pub fn missing_data(&self) -> (r: &[usize])
        ensures
            r@ == self.workspace_state().missing_list(),
    {
        self.workspace.missing_data()
    }

    /// The list of missing positions, to be changed.
    pub fn missing_data_mut(&mut self) -> (r: &mut Vec<usize>)
        ensures
            r@ == old(self).workspace_state().missing_list(),
            final(self).workspace_state().missing_list() == final(r)@,
            final(self).valid() == old(self).valid(),
            final(self).geometry() == old(self).geometry(),
            final(self).limit() == old(self).limit(),
            final(self).workspace_state().recovered_rows() == old(
                self,
            ).workspace_state().recovered_rows(),
            final(self).workspace_state().solve_tables() == old(
                self,
            ).workspace_state().solve_tables(),
            final(self).workspace_state().augmented_table() == old(
                self,
            ).workspace_state().augmented_table(),
            keeps_located(&old(self).workspace_state(), &final(self).workspace_state()),
    {
        self.workspace.missing_data_mut()
    }

    /// Erasure map of the last recovery over the whole domain, by evaluation
    /// point: `true` means that the row was received.
    #[must_use]
    pub fn known(&self) -> (r: &[bool])
        ensures
            r@ == self.workspace_state().known_marks(),
    {
        self.workspace.known()
    }

    /// The erasure locator of that map.
    #[must_use]
    pub fn locator(&self) -> (r: &ErasureLocator<F>)
        ensures
            *r == self.workspace_state().locator_state(),
    {
        self.workspace.locator()
    }

    /// Workspace that the locator's computation borrows.
    #[must_use]
    pub fn locator_scratch(&self) -> (r: &LocatorScratch)
        ensures
            *r == self.workspace_state().locator_scratch_state(),
    {
        self.workspace.locator_scratch()
    }

    /// Workspace that the row recovery borrows; grown on first use.
    #[must_use]
    pub fn recovery(&self) -> (r: &RecoveryScratch)
        ensures
            *r == self.workspace_state().recovery_state(),
    {
        self.workspace.recovery()
    }

    /// Rows reconstructed by the last finalization that missed any, in the order
    /// of the missing positions.
    #[must_use]
    pub fn recovered(&self) -> (r: &[u8])
        ensures
            r@ == self.workspace_state().recovered_rows(),
    {
        self.workspace.recovered()
    }

    /// Dense solve: codeword positions of the received repairs.
    #[must_use]
    pub fn repair_indices(&self) -> (r: &[usize])
        ensures
            r@ == self.workspace_state().solve_tables().repair_indices@,
    {
        self.workspace.solve().repair_indices.as_slice()
    }

    /// Dense solve: generator rows of those repairs, row by row.
    #[must_use]
    pub fn generator(&self) -> (r: &[F])
        ensures
            r@ == self.workspace_state().solve_tables().generator@,
    {
        self.workspace.solve().generator.as_slice()
    }

    /// Dense solve: the generator at the missing columns.
    #[must_use]
    pub fn system(&self) -> (r: &[F])
        ensures
            r@ == self.workspace_state().solve_tables().system@,
    {
        self.workspace.solve().system.as_slice()
    }

    /// Dense solve: the inverse of the system.
    #[must_use]
    pub fn inverse(&self) -> (r: &[F])
        ensures
            r@ == self.workspace_state().solve_tables().inverse@,
    {
        self.workspace.solve().inverse.as_slice()
    }

    /// Dense solve: what the square inversion works on, the system as the leading
    /// block of an identity.
    #[must_use]
    pub fn augmented(&self) -> (r: &[F])
        ensures
            r@ == self.workspace_state().augmented_table(),
    {
        self.workspace.augmented()
    }

    /// Dense solve: the scalars of the last row combination.
    #[must_use]
    pub fn coefficients(&self) -> (r: &[F])
        ensures
            r@ == self.workspace_state().solve_tables().coefficients@,
    {
        self.workspace.solve().coefficients.as_slice()
    }

    /// Dense solve: the repair rows with the present data folded out.
    #[must_use]
    pub fn residuals(&self) -> (r: &[u8])
        ensures
            r@ == self.workspace_state().solve_tables().residuals@,
    {
        self.workspace.solve().residuals.as_slice()
    }
}

impl<F: Field> Default for DecodeScratch<F> {
    fn default() -> (r: Self)
        ensures
            r.valid(),
            r.unsized_yet(),
    {
        Self::new()
    }
}

impl<F: Field> LazyDecoderState<F> {
    /// Constructs a decoder matching an additive-transform encoder.
    ///
    /// Fails with the same [`ConfigError`] variants as the encoder; payload
    /// storage that the allocator refuses, as it does beyond `isize::MAX` bytes,
    /// is reported as exceeding the capacity too.
    pub fn new(k: usize, m: usize, symbol_len: usize) -> (r: Result<Self, ConfigError>)
        ensures
            match afft_fault::<F>(k as int, m as int, symbol_len as int) {
                Some(e) => r == Err::<Self, ConfigError>(e),
                None => {
                    &&& r matches Err(e) ==> e == (ConfigError::TooManySymbols {
                        cap: span_size(F::bits()) as usize,
                    })
                    &&& padded(k + m) * symbol_len > isize::MAX ==> r is Err
                },
            },
            r is Err && k >= 1 && m >= 1 && symbol_len >= 1 && symbol_len as int % F::width() == 0
                && k + m <= span_size(F::bits()) && padded(k + m) * symbol_len <= usize::MAX
                ==> call_ensures(
                zeroed_bytes,
                ((padded(k + m) * symbol_len) as usize,),
                None::<Vec<u8>>,
            ),
            r is Ok ==> k >= 1 && m >= 1 && symbol_len >= 1 && symbol_len as int % F::width() == 0
                && k + m
                <= span_size(F::bits()) && padded(k + m) * symbol_len <= isize::MAX,
            r == Err::<Self, ConfigError>(ConfigError::ZeroDimension) <==> k == 0 || m == 0,
            r == Err::<Self, ConfigError>(ConfigError::ZeroSymbolLen)
                <==> k != 0 && m != 0 && symbol_len == 0,
            r == Err::<Self, ConfigError>(ConfigError::OddSymbolLen)
                <==> k != 0 && m != 0 && symbol_len
                != 0 && symbol_len as int % F::width() != 0,
            r matches Err(e) ==> match e {
                ConfigError::UnsupportedMode { .. } => false,
                ConfigError::TooManySymbols { cap } => cap == span_size(F::bits()),
                _ => true,
            },
            r matches Ok(decoder) ==> {
                &&& decoder.valid()
                &&& decoder.code() == afft_code::<F>(k as int, m as int, symbol_len as int)
                &&& decoder.stored() == Map::<int, Seq<u8>>::empty()
                &&& decoder.received_total() == 0
            },
    {
        proof {
            field_size::<F>();
        }
        match Profile::new::<F>(k, m, symbol_len) {
            None => Err(refusal::<F>(k, m, symbol_len)),
            Some(profile) => {
                proof {
                    shape_facts::<F>(k as int, m as int, symbol_len as int);
                    assert(0 <= profile.transform_size * symbol_len) by (nonlinear_arith);
                }
                let payload_len: usize = profile.transform_size * symbol_len;
                let storage = zeroed_bytes(payload_len);
                assert(call_ensures(zeroed_bytes, (payload_len,), storage));
                Self::with_storage(profile, storage)
            },
        }
    }

    /// Constructs a decoder on payload storage for the whole evaluation domain.
    pub fn with_storage(profile: Profile, storage: Option<Vec<u8>>) -> (r: Result<
        Self,
        ConfigError,
    >)
        requires
            profile.valid::<F>(),
            storage matches Some(bytes) ==> bytes@.len() == profile.transform_size
                * profile.symbol_len,
        ensures
            r is Ok <==> storage is Some,
            r matches Err(e) ==> e == (ConfigError::TooManySymbols {
                cap: span_size(F::bits()) as usize,
            }),
            r matches Ok(decoder) ==> {
                &&& decoder.valid()
                &&& decoder.code() == afft_code::<F>(
                    profile.k as int,
                    profile.m as int,
                    profile.symbol_len as int,
                )
                &&& decoder.stored() == Map::<int, Seq<u8>>::empty()
                &&& decoder.received_total() == 0
            },
    {
        let cap: usize = F::max_transform_size();
        proof {
            shape_facts::<F>(profile.k as int, profile.m as int, profile.symbol_len as int);
        }
        match (storage, Domain::<F>::new(&profile)) {
            (Some(payloads), Ok(domain)) => {
                let marks = Bitmap::new(profile.n);
                let store = SymbolStore::new(
                    profile.k,
                    profile.n,
                    profile.symbol_len,
                    payloads,
                    marks,
                );
                Ok(LazyDecoderState { profile, domain, store })
            },
            _ => Err(ConfigError::TooManySymbols { cap }),
        }
    }

    /// Geometry this decoder was constructed for.
    #[must_use]
    pub fn profile(&self) -> (r: &Profile)
        requires
            self.valid(),
        ensures
            r.k == self.code().k,
            r.m == self.code().m,
            r.symbol_len == self.code().symbol_len,
            r.valid::<F>(),
    {
        &self.profile
    }

    /// The plan of the whole evaluation domain.
    #[must_use]
    pub fn plan(&self) -> (r: &TransformPlan<F>)
        requires
            self.valid(),
        ensures
            plans(r, self.code().k, self.code().m),
    {
        self.domain.plan()
    }

    /// The payload storage.
    pub closed spec fn payload_rows(&self) -> Seq<u8> {
        self.store.row_bytes()
    }

    /// The locator of this geometry's systematic points, computed once when the
    /// decoder is built.
    #[must_use]
    pub fn systematic_locator_cache(&self) -> (r: Option<&ErasureLocator<F>>)
        requires
            self.valid(),
        ensures
            r matches Some(locator) && locator.locates(
                pattern_basis::<F>(padded_dimension(self.code().k + self.code().m)),
                systematic_pattern(self.code().k),
            ),
    {
        Some(self.domain.systematic())
    }

    /// Receipt bitmap over the codeword positions, 64 per word.
    #[must_use]
    pub fn received_bits(&self) -> (r: &[u64])
        requires
            self.valid(),
        ensures
            r@.len() == (self.code().k + self.code().m + 63) / 64,
            forall|i: int|
                0 <= i < 64 * r@.len() ==> (#[trigger] self.stored().contains_key(i) <==> word_bit(
                    r@[i / 64],
                    (i % 64) as u64,
                )),
    {
        proof {
            self.store.stored_facts(self.code());
        }
        self.store.marks().words()
    }

    /// Accepted payloads at their codeword positions. Only positions of recorded
    /// symbols hold received bytes.
    #[must_use]
    pub fn payloads(&self) -> (r: &[u8])
        requires
            self.valid(),
        ensures
            r@ == self.payload_rows(),
            r@.len() == padded(self.code().k + self.code().m) * self.code().symbol_len,
            forall|i: int| #[trigger]
                self.stored().contains_key(i) ==> self.stored()[i] == row_of(
                    r@,
                    self.code().symbol_len,
                    i,
                ),
    {
        self.store.rows()
    }

    /// Number of systematic symbols.
    pub fn k(&self) -> (r: usize)
        ensures
            r == self.code().k,
    {
        self.profile.k
    }

    /// Number of repair symbols.
    pub fn m(&self) -> (r: usize)
        ensures
            r == self.code().m,
    {
        self.profile.m
    }

    /// Number of transmitted symbols.
    pub fn n(&self) -> (r: usize)
        requires
            self.valid(),
        ensures
            r == self.code().k + self.code().m,
    {
        self.profile.n
    }

    /// Per-symbol byte length.
    pub fn symbol_len(&self) -> (r: usize)
        ensures
            r == self.code().symbol_len,
    {
        self.profile.symbol_len
    }

    /// Power-of-two plan size used for the interpolation.
    pub fn padded_k(&self) -> (r: usize)
        requires
            self.valid(),
        ensures
            r == padded(self.code().k),
    {
        self.profile.padded_k
    }

    /// Power-of-two size of the whole evaluation domain.
    pub fn transform_size(&self) -> (r: usize)
        requires
            self.valid(),
        ensures
            r == padded(self.code().k + self.code().m),
    {
        self.profile.transform_size
    }

    /// Number of distinct accepted symbols, capped at `k`.
    pub fn rank(&self) -> (r: usize)
        requires
            self.valid(),
        ensures
            r == self.stored().len(),
    {
        self.store.rank()
    }

    /// Total pushes, including duplicates.
    pub fn received(&self) -> (r: usize)
        ensures
            r == self.received_total(),
    {
        self.store.received()
    }

    /// Whether a transmitted codeword position has been accepted.
    pub fn has_symbol(&self, index: usize) -> (r: bool)
        requires
            self.valid(),
        ensures
            r == self.stored().contains_key(index as int),
    {
        self.store.has_symbol(index)
    }

    /// Clears receipt state for another block while retaining allocations.
    pub fn reset(&mut self)
        requires
            old(self).valid(),
        ensures
            final(self).valid(),
            final(self).code() == old(self).code(),
            final(self).stored() == Map::<int, Seq<u8>>::empty(),
            final(self).received_total() == 0,
    {
        self.store.reset();
    }

    /// Validates and records one systematic or repair symbol.
    pub fn push_symbol(&mut self, index: usize, symbol: &[u8]) -> (r: Result<
        PushOutcome,
        DecodeError,
    >)
        requires
            old(self).valid(),
        ensures
            final(self).valid(),
            final(self).code() == old(self).code(),
            match push_fault(
                old(self).code(),
                old(self).received_total(),
                index as int,
                symbol@.len() as int,
            ) {
                Some(e) => r == Err::<PushOutcome, DecodeError>(e) && *final(self) == *old(self),
                None => r == Ok::<PushOutcome, DecodeError>(
                    push_outcome(
                        old(self).code(),
                        old(self).stored(),
                        old(self).received_total(),
                        index as int,
                    ),
                ) && final(self).stored() == stored_after(
                    old(self).code(),
                    old(self).stored(),
                    index as int,
                    symbol@,
                ) && final(self).received_total() == old(self).received_total() + 1,
            },
            r is Ok <==> index < old(self).code().k + old(self).code().m
                && symbol@.len() == old(self).code().symbol_len
                && old(self).received_total() < old(self).code().k + old(self).code().m,
            r matches Ok(PushOutcome::Advanced { rank, received }) ==> {
                &&& rank == final(self).stored().len()
                &&& rank == old(self).stored().len() + 1
                &&& rank < old(self).code().k
                &&& received == final(self).received_total()
            },
            r matches Ok(PushOutcome::Complete) ==> {
                &&& final(self).stored().len() == old(self).code().k
                &&& old(self).stored().len() + 1 == old(self).code().k
            },
            r matches Ok(PushOutcome::Dependent)
                <==> r is Ok && (old(self).stored().len() >= old(self).code().k
                || old(self).stored().contains_key(index as int)),
            r matches Ok(PushOutcome::Dependent) ==> final(self).stored() == old(self).stored(),
            r matches Ok(outcome) ==> {
                &&& final(self).received_total() == old(self).received_total() + 1
                &&& outcome != PushOutcome::Dependent
                    ==> final(self).stored() == old(self).stored().insert(index as int, symbol@)
            },
            r is Err ==> final(self).stored() == old(self).stored()
                && final(self).received_total() == old(self).received_total(),
            index >= old(self).code().k + old(self).code().m
                <==> r matches Err(DecodeError::IndexOutOfRange { .. }),
            index < old(self).code().k + old(self).code().m
                && symbol@.len() != old(self).code().symbol_len
                <==> r matches Err(DecodeError::WrongPayloadLen { .. }),
            r matches Err(DecodeError::IndexOutOfRange { index: refused, n })
                ==> refused == index && n == old(self).code().k + old(self).code().m,
            r matches Err(DecodeError::WrongPayloadLen { expected, got })
                ==> expected == old(self).code().symbol_len && got == symbol@.len(),
            r is Err && index < old(self).code().k + old(self).code().m
                && symbol@.len() == old(self).code().symbol_len
                ==> (r matches Err(DecodeError::TooManySymbols { cap, received })
                && cap == old(self).code().k + old(self).code().m
                && received == old(self).received_total()),
    {
        let ghost code = self.code();
        self.store.push(index, symbol, Ghost(code))
    }

    /// Reconstructs every systematic symbol without consuming the decoder.
    pub fn finalize_ref(&self) -> (r: Result<Vec<u8>, DecodeError>)
        requires
            self.valid(),
        ensures
            match r {
                Ok(out) => self.stored().len() >= self.code().k && recovers(
                    self.code(),
                    out@,
                    self.stored(),
                ),
                Err(e) => self.stored().len() < self.code().k && e
                    == (DecodeError::InsufficientRank {
                    rank: self.stored().len() as usize,
                    k: self.code().k as usize,
                }),
            },
    {
        proof {
            shape_facts::<F>(
                self.profile.k as int,
                self.profile.m as int,
                self.profile.symbol_len as int,
            );
        }
        match self.ensure_complete() {
            Err(e) => Err(e),
            Ok(()) => {
                let mut output: Vec<u8> = vec![0u8; self.profile.k * self.profile.symbol_len];
                let mut scratch = self.decode_scratch();
                match self.finalize_complete_into(output.as_mut_slice(), &mut scratch) {
                    Ok(()) => Ok(output),
                    Err(e) => Err(e),
                }
            },
        }
    }

    /// Allocates reusable decode scratch.
    pub fn decode_scratch(&self) -> (r: DecodeScratch<F>)
        requires
            self.valid(),
        ensures
            r.valid(),
            !r.unsized_yet(),
            r.fits(self.code().k, self.code().m, self.code().symbol_len),
            r.limit() == targeted_limit::<F>(
                self.code().k,
                self.code().m,
                self.code().symbol_len,
            ),
    {
        DecodeScratch::for_profile(&self.profile)
    }

    /// Rejects finalization until `k` distinct symbols have been accepted.
    fn ensure_complete(&self) -> (r: Result<(), DecodeError>)
        requires
            self.valid(),
        ensures
            r == if self.stored().len() < self.code().k {
                Err::<(), DecodeError>(
                    DecodeError::InsufficientRank {
                        rank: self.stored().len() as usize,
                        k: self.code().k as usize,
                    },
                )
            } else {
                Ok(())
            },
    {
        let rank: usize = self.store.rank();
        if rank < self.profile.k {
            Err(DecodeError::InsufficientRank { rank, k: self.profile.k })
        } else {
            Ok(())
        }
    }

    /// Reconstructs every systematic symbol into `output`, picking the path.
    fn finalize_complete_into(&self, output: &mut [u8], scratch: &mut DecodeScratch<F>) -> (r:
        Result<(), DecodeError>)
        requires
            self.valid(),
            self.stored().len() >= self.code().k,
            old(output)@.len() == self.code().k * self.code().symbol_len,
            old(scratch).valid(),
        ensures
            final(scratch).valid(),
            scratch_foreign(self.code(), final(scratch)) == scratch_foreign(
                self.code(),
                old(scratch),
            ),
            r is Err ==> *final(scratch) == *old(scratch),
            r is Ok ==> shows_finalization(
                final(scratch),
                self.code(),
                self.stored(),
                self.payload_rows(),
                final(output)@,
            ),
            r is Ok ==> exists|sized: Workspace<F>| #[trigger]
                starts_from(
                    old(scratch),
                    self.code().k,
                    self.code().m,
                    self.code().symbol_len,
                    sized,
                ) && keeps_rest(&sized, &final(scratch).workspace_state()),
            if scratch_foreign(self.code(), old(scratch)) {
                r == Err::<(), DecodeError>(DecodeError::ScratchMismatch) && final(output)@ == old(
                    output,
                )@
            } else {
                r == Ok::<(), DecodeError>(()) && recovers(
                    self.code(),
                    final(output)@,
                    self.stored(),
                )
            },
    {
        let ghost k = self.profile.k as int;
        let ghost m = self.profile.m as int;
        let ghost l = self.profile.symbol_len as int;
        let ghost code = self.code();
        match scratch.ensure(&self.profile) {
            Err(e) => {
                return Err(e);
            },
            Ok(()) => {},
        }
        let ghost sized = scratch.workspace_state();
        let (missing, present, repairs) = self.store.split();
        let ghost lost = ints(missing@);
        let ghost kept = ints(present@);
        let ghost used = ints(repairs@);
        proof {
            shape_facts::<F>(k, m, l);
            self.store.split_is_valid(code);
            self.store.stored_facts(code);
            assert forall|t: int| 0 <= t < present@.len() implies self.store.stored().contains_key(
                #[trigger] present@[t] as int,
            ) by {
                assert(kept[t] == present@[t]);
            }
            assert forall|t: int| 0 <= t < repairs@.len() implies #[trigger] repairs@[t] <= 65536
                && self.store.stored().contains_key(self.profile.k + repairs@[t]) by {
                assert(used[t] == repairs@[t]);
            }
        }
        let sources = stored_sources(
            &self.store,
            self.profile.k,
            present.as_slice(),
            repairs.as_slice(),
        );
        let rows = self.store.rows();
        proof {
            assert forall|t: int| 0 <= t < sources@.len() implies (#[trigger] sources@[t])@.len()
                == l && row_of(rows@, l, term_index(k, kept, used, t)) == sources@[t]@ by {
                let i = term_index(k, kept, used, t);
                if t < used.len() {
                    assert(self.store.stored().contains_key(k + used[t]));
                } else {
                    assert(self.store.stored().contains_key(kept[t - used.len()]));
                }
                assert(self.store.shaped(code) && self.store.stored().contains_key(i));
                assert(self.store.stored()[i].len() == code.symbol_len);
            }
            let lacks = |i: int| !self.store.pattern().has_index(i);
            indices_where_facts(lacks, k);
            assert(lost == missing_marks(self.store.pattern(), k));
            assert forall|s: int, t: int|
                0 <= s < t < missing@.len() implies #[trigger] missing@[s]
                < #[trigger] missing@[t] by {
                assert(lost[s] < lost[t]);
            }
        }
        rebuild_block(
            &self.domain,
            scratch.workspace_mut(),
            self.profile.k,
            self.profile.m,
            self.profile.symbol_len,
            missing.as_slice(),
            present.as_slice(),
            repairs.as_slice(),
            sources.as_slice(),
            rows,
            output,
        );
        proof {
            assert forall|i: int| #[trigger] self.store.stored().contains_key(
                i,
            ) implies self.store.stored()[i] == (code.symbol)(output@, i) by {
                if kept.contains(i) {
                    let p = choose|p: int| 0 <= p < kept.len() && kept[p] == i;
                    let t = used.len() + p;
                    assert(term_index(k, kept, used, t) == i);
                    assert(sources@[t]@ == self.store.stored()[i]);
                } else {
                    let b = choose|b: int| 0 <= b < used.len() && used[b] == i - k;
                    assert(term_index(k, kept, used, b) == i);
                    assert(sources@[b]@ == self.store.stored()[i]);
                }
            }
            assert(starts_from(old(scratch), k, m, l, sized));
            self.finalization_is_shown(scratch, sources@, output@);
        }
        Ok(())
    }

    /// What the rebuild of the recorded symbols shows.
    proof fn finalization_is_shown(
        &self,
        scratch: &DecodeScratch<F>,
        sources: Seq<&[u8]>,
        out: Seq<u8>,
    )
        requires
            self.valid(),
            self.stored().len() >= self.code().k,
            sources.len() == self.code().k,
            forall|t: int|
                0 <= t < sources.len() ==> (#[trigger] sources[t])@ == self.stored()[term_index(
                    self.code().k,
                    present_marks(self.store.pattern(), self.code().k),
                    repair_marks(self.store.pattern(), self.code().k, self.code().m),
                    t,
                )],
            shows_rebuild(
                &scratch.workspace_state(),
                pattern_basis::<F>(padded_dimension(self.code().k + self.code().m)),
                self.code().k,
                self.code().symbol_len,
                missing_marks(self.store.pattern(), self.code().k),
                present_marks(self.store.pattern(), self.code().k),
                repair_marks(self.store.pattern(), self.code().k, self.code().m),
                |t: int| sources[t]@,
                self.payload_rows(),
                out,
            ),
        ensures
            shows_finalization(scratch, self.code(), self.stored(), self.payload_rows(), out),
    {
        let code = self.code();
        let stored = self.stored();
        let marks = self.store.pattern();
        self.store.stored_facts(code);
        self.store.split_is_valid(code);
        indices_where_congruent(
            |i: int| !marks.has_index(i),
            |i: int| !stored.contains_key(i),
            code.k,
        );
        indices_where_congruent(
            |i: int| marks.has_index(i),
            |i: int| stored.contains_key(i),
            code.k,
        );
        indices_where_congruent(
            |j: int| marks.has_index(code.k + j),
            |j: int| stored.contains_key(code.k + j),
            code.m,
        );
        let missing = unrecorded(stored, code.k);
        let present = indices_where(|i: int| stored.contains_key(i), code.k);
        let repairs = indices_where(|j: int| stored.contains_key(code.k + j), code.m);
        let payload = |t: int| sources[t]@;
        let other = |t: int| stored[term_index(code.k, present, repairs, t)];
        let workspace = scratch.workspace_state();
        assert forall|t: int| 0 <= t < repairs.len() + present.len() implies #[trigger] other(t)
            == payload(t) by {
            assert(sources[t]@ == stored[term_index(code.k, present, repairs, t)]);
        }
        if 0 < missing.len() <= workspace.limit() {
            solve_congruent(
                workspace.solve_tables(),
                code.k,
                code.symbol_len,
                missing,
                present,
                repairs,
                payload,
                other,
            );
        }
    }

    fn finalize_into_with_scratch(&self, output: &mut [u8], scratch: &mut DecodeScratch<F>) -> (r:
        Result<(), DecodeError>)
        requires
            self.valid(),
            old(scratch).valid(),
        ensures
            final(scratch).valid(),
            scratch_foreign(self.code(), final(scratch)) == scratch_foreign(
                self.code(),
                old(scratch),
            ),
            r is Err ==> *final(scratch) == *old(scratch),
            r is Ok ==> shows_finalization(
                final(scratch),
                self.code(),
                self.stored(),
                self.payload_rows(),
                final(output)@,
            ),
            r is Ok ==> exists|sized: Workspace<F>| #[trigger]
                starts_from(
                    old(scratch),
                    self.code().k,
                    self.code().m,
                    self.code().symbol_len,
                    sized,
                ) && keeps_rest(&sized, &final(scratch).workspace_state()),
            finalized(
                self.code(),
                finalize_refusal(
                    finalize_fault(
                        self.code(),
                        self.stored().len() as int,
                        old(output)@.len() as int,
                    ),
                    scratch_foreign(self.code(), old(scratch)),
                ),
                self.stored(),
                old(output)@,
                final(output)@,
                r,
            ),
    {
        proof {
            shape_facts::<F>(
                self.profile.k as int,
                self.profile.m as int,
                self.profile.symbol_len as int,
            );
        }
        match self.ensure_complete() {
            Err(e) => Err(e),
            Ok(()) => {
                let expected: usize = self.profile.k * self.profile.symbol_len;
                if output.len() != expected {
                    return Err(DecodeError::WrongOutputLen { expected, got: output.len() });
                }
                self.finalize_complete_into(output, scratch)
            },
        }
    }
}

/// A scratch that was sized belongs to one geometry; one that was not belongs to
/// any.
pub proof fn foreign_to_other_geometries<F: Field>(code: Code, scratch: &DecodeScratch<F>)
    ensures
        scratch_foreign(code, scratch) <==> scratch.geometry().0 != 0 && scratch.geometry() != (
            code.k,
            code.m,
            code.symbol_len,
        ),
{
}

/// The scratch was sized for another geometry.
pub open spec fn scratch_foreign<F: Field>(code: Code, scratch: &DecodeScratch<F>) -> bool {
    !scratch.unsized_yet() && !scratch.fits(code.k, code.m, code.symbol_len)
}

impl<F: Field> Coded for LazyDecoderState<F> {
    closed spec fn valid(&self) -> bool {
        &&& self.profile.valid::<F>()
        &&& self.domain.prepared(self.profile.k as int, self.profile.m as int)
        &&& self.store.valid()
        &&& self.store.shaped(self.code())
        &&& self.store.storage() == self.profile.transform_size * self.profile.symbol_len
    }

    closed spec fn code(&self) -> Code {
        afft_code::<F>(
            self.profile.k as int,
            self.profile.m as int,
            self.profile.symbol_len as int,
        )
    }

    proof fn code_is_sound(&self) {
        afft_code_is_sound::<F>(
            self.profile.k as int,
            self.profile.m as int,
            self.profile.symbol_len as int,
        );
    }

    fn k(&self) -> (r: usize) {
        self.profile.k
    }

    fn m(&self) -> (r: usize) {
        self.profile.m
    }

    fn symbol_len(&self) -> (r: usize) {
        self.profile.symbol_len
    }
}

impl<F: Field> SymbolSink for LazyDecoderState<F> {
    closed spec fn stored(&self) -> Map<int, Seq<u8>> {
        self.store.stored()
    }

    closed spec fn received_total(&self) -> int {
        self.store.received_total()
    }

    proof fn stored_is_bounded(&self) {
        shape_facts::<F>(
            self.profile.k as int,
            self.profile.m as int,
            self.profile.symbol_len as int,
        );
        self.store.stored_facts(self.code());
    }

    fn push(&mut self, idx: usize, payload: &[u8]) -> (r: Result<PushOutcome, DecodeError>) {
        self.push_symbol(idx, payload)
    }

    fn is_complete(&self) -> (r: bool) {
        self.store.rank() >= self.profile.k
    }

    fn finalize(self) -> (r: Result<Vec<u8>, DecodeError>) {
        self.finalize_ref()
    }
}

impl<F: Field> Decoder for LazyDecoderState<F> {
    type Scratch = DecodeScratch<F>;

    open spec fn scratch_valid(scratch: &DecodeScratch<F>) -> bool {
        scratch.valid()
    }

    open spec fn refusal(
        code: Code,
        rank: int,
        output: int,
        scratch: &DecodeScratch<F>,
    ) -> Option<DecodeError> {
        finalize_refusal(finalize_fault(code, rank, output), scratch_foreign(code, scratch))
    }

    proof fn refusal_is_judged(code: Code, rank: int, output: int, scratch: &DecodeScratch<F>) {
        finalization_is_judged(code, rank, output);
    }

    fn scratch(&self) -> (r: DecodeScratch<F>)
        ensures
            r.fits(self.code().k, self.code().m, self.code().symbol_len),
            r.limit() == targeted_limit::<F>(
                self.code().k,
                self.code().m,
                self.code().symbol_len,
            ),
    {
        self.decode_scratch()
    }

    fn rank(&self) -> (r: usize) {
        self.store.rank()
    }

    fn received(&self) -> (r: usize) {
        self.store.received()
    }

    fn reset(&mut self) {
        self.store.reset();
    }

    fn finalize_into(&mut self, out: &mut [u8]) -> (r: Result<(), DecodeError>) {
        proof {
            self.code_is_sound();
            self.stored_is_bounded();
            finalization_is_judged(self.code(), self.stored().len() as int, out.len() as int);
        }
        let mut scratch = self.decode_scratch();
        self.finalize_into_with_scratch(out, &mut scratch)
    }

    fn finalize_into_with(&mut self, out: &mut [u8], scratch: &mut DecodeScratch<F>) -> (r: Result<
        (),
        DecodeError,
    >)
        ensures
            *final(self) == *old(self),
            r is Err ==> *final(scratch) == *old(scratch),
            r matches Err(DecodeError::ScratchMismatch) ==> old(self).stored().len() == old(
                self,
            ).code().k && old(out)@.len() == old(self).code().k * old(self).code().symbol_len,
            old(scratch).geometry().0 != 0 && old(scratch).geometry() != (
                old(self).code().k,
                old(self).code().m,
                old(self).code().symbol_len,
            ) ==> r is Err,
            r is Ok ==> shows_finalization(
                final(scratch),
                old(self).code(),
                old(self).stored(),
                old(self).payload_rows(),
                final(out)@,
            ),
            r is Ok ==> exists|sized: Workspace<F>| #[trigger]
                starts_from(
                    old(scratch),
                    old(self).code().k,
                    old(self).code().m,
                    old(self).code().symbol_len,
                    sized,
                ) && keeps_rest(&sized, &final(scratch).workspace_state()),
    {
        proof {
            self.code_is_sound();
            self.stored_is_bounded();
            finalization_is_judged(self.code(), self.stored().len() as int, out.len() as int);
        }
        self.finalize_into_with_scratch(out, scratch)
    }
}

/// Resizes `buffer` to exactly `len` zero bytes, reusing its capacity.
pub fn fit(buffer: &mut Vec<u8>, len: usize) -> (r: &mut [u8])
    ensures
        r@ == zero_block(len as int),
        final(buffer)@ == final(r)@,
{
    buffer.clear();
    buffer.resize(len, 0);
    proof {
        assert(buffer@ =~= zero_block(len as int));
    }
    buffer.as_mut_slice()
}

} // verus!
