//! Lazy GF(256) decoder.
//!
//! - `push` only validates, records a 256-bit receipt pattern, and copies the
//!   raw payload into a codeword buffer.
//! - `finalize` solves only the reduced `r` by `r` system for the `r` missing
//!   data symbols. Payload bytes are combined once, in the final pass.

use std::sync::Arc;

use vstd::prelude::*;

use crate::algebra::gf256::GfElem;
use crate::algebra::index_lists::{indices_where, indices_where_congruent, indices_where_facts};
use crate::batch::plan::holds_rows;
use crate::codec::{
    addressable, config_fault, finalization_is_judged, finalize_fault, recovers, Code, Coded,
    Decoder, Engine,
};
use crate::decoder::cache::{served, RecipeCache};
use crate::decoder::pattern::{PatternKey, SymbolSet};
use crate::decoder::rebuild::rebuild;
use crate::decoder::recipe::{
    recipe_for, share, RecipeKey, ReconstructionRecipe, SourceTerm,
};
use crate::decoder::reduced::{
    fused_coefficients, ints, is_fused_table, source_coefficient, term_index, valid_split,
};
use crate::decoder::store::{
    missing_marks, present_marks, repair_marks, SymbolStore,
};
use crate::error::{ConfigError, DecodeError};
use crate::matrices::coding_matrix::{
    data_point, engine_points, fits_points, point_code, point_code_is_sound, CodingMatrix,
};
use crate::stream::{push_fault, push_outcome, stored_after, PushOutcome, SymbolSink};
use crate::symbols::{row_bounds, row_of};

verus! {

/// Lazy, payload-deferred streaming decoder.
///
/// The encoder and decoder must use the same matrix type `C`. Every distinct
/// received symbol is independent, so the decoder becomes complete after any `k`
/// distinct symbols.
pub struct LazyDecoderState<C: CodingMatrix> {
    k: usize,
    m: usize,
    symbol_len: usize,
    cauchy: C,
    store: SymbolStore<PatternKey>,
    /// Rows rebuilt by the last finalization that missed more than one.
    staging: Vec<u8>,
}

/// Data positions that are not recorded, ascending.
pub open spec fn unrecorded(stored: Map<int, Seq<u8>>, k: int) -> Seq<int> {
    indices_where(|i: int| !stored.contains_key(i), k)
}

/// What a finalization into `out` leaves in the staging rows: the missing rows in
/// ascending order, unless at most one was missing, which needs no staging.
pub open spec fn staging_after(
    symbol_len: int,
    missing: Seq<int>,
    before: Seq<u8>,
    after: Seq<u8>,
    out: Seq<u8>,
) -> bool {
    if missing.len() < 2 {
        after == before
    } else {
        holds_rows(symbol_len, out, missing, after)
    }
}

/// A finalization stages the rows of the data positions that are not recorded, in
/// ascending order, if there are at least two; otherwise the staging rows stay as
/// they were.
pub proof fn staging_holds_the_missing_rows(
    symbol_len: int,
    stored: Map<int, Seq<u8>>,
    k: int,
    before: Seq<u8>,
    after: Seq<u8>,
    out: Seq<u8>,
)
    requires
        k >= 0,
        staging_after(symbol_len, unrecorded(stored, k), before, after, out),
    ensures
        forall|i: int|
            0 <= i < k ==> (#[trigger] unrecorded(stored, k).contains(i)
                <==> !stored.contains_key(i)),
        forall|a: int, b: int|
            0 <= a < b < unrecorded(stored, k).len() ==> #[trigger] unrecorded(stored, k)[a]
                < #[trigger] unrecorded(stored, k)[b],
        unrecorded(stored, k).len() < 2 ==> after == before,
        unrecorded(stored, k).len() >= 2 ==> after.len() == unrecorded(stored, k).len() * symbol_len
            && forall|a: int|
            0 <= a < unrecorded(stored, k).len() ==> row_of(after, symbol_len, a) == row_of(
                out,
                symbol_len,
                #[trigger] unrecorded(stored, k)[a],
            ),
{
    let lacks = |i: int| !stored.contains_key(i);
    indices_where_facts(lacks, k);
    let missing = unrecorded(stored, k);
    assert(missing == indices_where(lacks, k));
    assert forall|i: int| 0 <= i < k implies (#[trigger] missing.contains(i)
        <==> !stored.contains_key(i)) by {
        assert(missing.contains(i) <==> lacks(i));
    }
}

/// The coefficients of all terms, term by term.
fn flatten(terms: &Vec<SourceTerm>, count: usize) -> (r: Vec<GfElem>)
    requires
        forall|s: int|
            0 <= s < terms@.len() ==> (#[trigger] terms@[s]).coefficients@.len() == count,
    ensures
        r@.len() == terms@.len() * count,
        forall|s: int, a: int|
            0 <= s < terms@.len() && 0 <= a < count ==> #[trigger] r@[s * count + a]
                == terms@[s].coefficients@[a],
{
    let mut table: Vec<GfElem> = Vec::new();
    let mut t: usize = 0;
    while t < terms.len()
        invariant
            t <= terms@.len(),
            forall|s: int|
                0 <= s < terms@.len() ==> (#[trigger] terms@[s]).coefficients@.len() == count,
            table@.len() == t * count,
            forall|s: int, a: int|
                0 <= s < t && 0 <= a < count ==> #[trigger] table@[s * count + a]
                    == terms@[s].coefficients@[a],
        decreases terms@.len() - t,
    {
        let ghost before = table@;
        table.extend_from_slice(&terms[t].coefficients);
        proof {
            let row = terms@[t as int].coefficients@;
            assert(table@ =~= before + row);
            row_bounds(t as int, t + 1, count as int);
            assert forall|s: int, a: int| 0 <= s < t + 1 && 0 <= a < count implies #[trigger]
            table@[s * count + a] == terms@[s].coefficients@[a] by {
                if s < t {
                    row_bounds(s, t as int, count as int);
                    assert(s * count + a < t * count);
                    assert(table@[s * count + a] == before[s * count + a]);
                } else {
                    assert(table@[t * count + a] == row[a]);
                }
            }
        }
        t += 1;
    }
    table
}

impl<C: CodingMatrix> LazyDecoderState<C> {
    /// Creates a decoder for `(k, m)` with `symbol_len`-byte symbols.
    ///
    /// Standard Cauchy can use `k + m <= 256`, while Good Cauchy is limited to
    /// `k + m <= 255`.
    pub fn new(k: usize, m: usize, symbol_len: usize) -> (r: Result<Self, ConfigError>)
        requires
            addressable(
                k as int,
                m as int,
                symbol_len as int,
                1,
                C::engine_spec().capacity_spec(),
            ),
        ensures
            match config_fault(
                k as int,
                m as int,
                symbol_len as int,
                1,
                C::engine_spec().capacity_spec(),
            ) {
                Some(e) => r == Err::<Self, ConfigError>(e),
                None => r is Ok,
            },
            C::engine_spec() == Engine::GoodCauchy ==> (r is Ok
                <==> k >= 1 && m >= 1 && symbol_len >= 1
                && k + m <= 255),
            C::engine_spec() == Engine::StandardCauchy ==> (r is Ok
                <==> k >= 1 && m >= 1 && symbol_len >= 1
                && k + m <= 256),
            r == Err::<Self, ConfigError>(ConfigError::ZeroDimension) <==> k == 0 || m == 0,
            r == Err::<Self, ConfigError>(ConfigError::ZeroSymbolLen)
                <==> k != 0 && m != 0 && symbol_len == 0,
            r matches Err(e) ==> match e {
                ConfigError::ZeroDimension => true,
                ConfigError::ZeroSymbolLen => true,
                ConfigError::TooManySymbols { cap } => k + m > cap && {
                    &&& C::engine_spec() == Engine::GoodCauchy ==> cap == 255
                    &&& C::engine_spec() == Engine::StandardCauchy ==> cap == 256
                },
                _ => false,
            },
            r matches Ok(decoder) ==> {
                &&& decoder.valid()
                &&& decoder.code() == point_code::<GfElem, C>(
                    k as int,
                    m as int,
                    symbol_len as int,
                )
                &&& decoder.stored() == Map::<int, Seq<u8>>::empty()
                &&& decoder.received_total() == 0
                &&& decoder.staged_rows().len() == 0
            },
    {
        proof {
            C::capacity_is_point_count();
        }
        if k == 0 || m == 0 {
            return Err(ConfigError::ZeroDimension);
        }
        if symbol_len == 0 {
            return Err(ConfigError::ZeroSymbolLen);
        }
        match C::new(k, m) {
            None => Err(ConfigError::TooManySymbols { cap: C::capacity() }),
            Some(cauchy) => {
                let n: usize = k + m;
                proof {
                    assert(0 <= n * symbol_len) by (nonlinear_arith);
                }
                let payloads: Vec<u8> = vec![0u8; n * symbol_len];
                let marks = PatternKey::empty();
                proof {
                    assert forall|i: int| 0 <= i < 256 implies !(#[trigger] marks.has_index(i)) by {
                        assert(!marks.bit(i));
                    }
                }
                let store = SymbolStore::new(k, n, symbol_len, payloads, marks);
                Ok(LazyDecoderState { k, m, symbol_len, cauchy, store, staging: Vec::new() })
            },
        }
    }

    /// Number of data symbols `k`.
    pub fn k(&self) -> (r: usize)
        ensures
            r == self.code().k,
    {
        self.k
    }

    /// Number of repair symbols `m`.
    pub fn m(&self) -> (r: usize)
        ensures
            r == self.code().m,
    {
        self.m
    }

    /// Total codeword length `n = k + m`.
    pub fn n(&self) -> (r: usize)
        requires
            self.valid(),
        ensures
            r == self.code().k + self.code().m,
    {
        proof {
            C::capacity_is_point_count();
        }
        self.k + self.m
    }

    /// Per-symbol byte length.
    pub fn symbol_len(&self) -> (r: usize)
        ensures
            r == self.code().symbol_len,
    {
        self.symbol_len
    }

    /// Number of distinct symbols received, capped by `k` for completion.
    pub fn rank(&self) -> (r: usize)
        requires
            self.valid(),
        ensures
            r == self.stored().len(),
    {
        self.store.rank()
    }

    /// Total symbols received, including duplicates and dependent symbols.
    pub fn received(&self) -> (r: usize)
        ensures
            r == self.received_total(),
    {
        self.store.received()
    }

    /// The current 256-bit receipt pattern.
    pub fn pattern_key(&self) -> (r: PatternKey)
        requires
            self.valid(),
        ensures
            r == self.key().pattern,
            forall|i: int|
                0 <= i < 256 ==> #[trigger] r.bit(i) == self.stored().contains_key(i),
    {
        let r = *self.store.marks();
        proof {
            self.key_facts();
            assert forall|i: int| 0 <= i < 256 implies #[trigger] r.bit(i)
                == self.stored().contains_key(i) by {
                assert(self.key().pattern.bit(i) == self.stored().contains_key(i));
            }
        }
        r
    }

    /// The staging rows.
    pub closed spec fn staged_rows(&self) -> Seq<u8> {
        self.staging@
    }

    /// The key of the recipe for the current receipt.
    pub closed spec fn key(&self) -> RecipeKey {
        RecipeKey {
            k: self.k,
            m: self.m,
            engine: C::engine_spec(),
            pattern: self.store.pattern(),
        }
    }

    /// The key holds the geometry, the construction and the recorded positions.
    pub proof fn key_facts(&self)
        requires
            self.valid(),
        ensures
            self.key().k == self.code().k,
            self.key().m == self.code().m,
            self.key().engine == self.code().engine,
            forall|i: int|
                0 <= i < 256 ==> #[trigger] self.key().pattern.bit(i)
                    == self.stored().contains_key(i),
    {
        self.store.stored_facts(self.code());
        assert forall|i: int| 0 <= i < 256 implies #[trigger] self.key().pattern.bit(i)
            == self.stored().contains_key(i) by {
            assert(self.store.pattern().has_index(i) == self.store.stored().contains_key(i));
        }
    }

    /// Clears receipt state for another block while retaining payload storage.
    pub fn reset(&mut self)
        requires
            old(self).valid(),
        ensures
            final(self).valid(),
            final(self).code() == old(self).code(),
            final(self).staged_rows() == old(self).staged_rows(),
            final(self).stored() == Map::<int, Seq<u8>>::empty(),
            final(self).received_total() == 0,
    {
        self.store.reset();
    }

    /// Pushes one symbol.
    pub fn push_symbol(&mut self, idx: usize, payload: &[u8]) -> (r: Result<
        PushOutcome,
        DecodeError,
    >)
        requires
            old(self).valid(),
        ensures
            final(self).valid(),
            final(self).code() == old(self).code(),
            final(self).staged_rows() == old(self).staged_rows(),
            match push_fault(
                old(self).code(),
                old(self).received_total(),
                idx as int,
                payload@.len() as int,
            ) {
                Some(e) => r == Err::<PushOutcome, DecodeError>(e) && *final(self) == *old(self),
                None => r == Ok::<PushOutcome, DecodeError>(
                    push_outcome(
                        old(self).code(),
                        old(self).stored(),
                        old(self).received_total(),
                        idx as int,
                    ),
                ) && final(self).stored() == stored_after(
                    old(self).code(),
                    old(self).stored(),
                    idx as int,
                    payload@,
                ) && final(self).received_total() == old(self).received_total() + 1,
            },
            r is Ok <==> idx < old(self).code().k + old(self).code().m
                && payload@.len() == old(self).code().symbol_len
                && old(self).received_total() < old(self).code().k + old(self).code().m,
            r matches Ok(PushOutcome::Advanced { rank, received }) ==> {
                &&& rank == final(self).stored().len()
                &&& rank == old(self).stored().len() + 1
                &&& rank < old(self).code().k
                &&& received == final(self).received_total()
            },
            r matches Ok(PushOutcome::Complete) ==> {
                &&& final(self).stored().len() == old(self).code().k
                &&& old(self).stored().len() + 1 == old(self).code().k
            },
            r matches Ok(PushOutcome::Dependent)
                <==> r is Ok && (old(self).stored().len() >= old(self).code().k
                || old(self).stored().contains_key(idx as int)),
            r matches Ok(PushOutcome::Dependent) ==> final(self).stored() == old(self).stored(),
            r matches Ok(outcome) ==> {
                &&& final(self).received_total() == old(self).received_total() + 1
                &&& outcome != PushOutcome::Dependent
                    ==> final(self).stored() == old(self).stored().insert(idx as int, payload@)
            },
            r is Err ==> final(self).stored() == old(self).stored()
                && final(self).received_total() == old(self).received_total(),
            idx >= old(self).code().k + old(self).code().m
                <==> r matches Err(DecodeError::IndexOutOfRange { .. }),
            idx < old(self).code().k + old(self).code().m
                && payload@.len() != old(self).code().symbol_len
                <==> r matches Err(DecodeError::WrongPayloadLen { .. }),
            r matches Err(DecodeError::IndexOutOfRange { index: refused, n })
                ==> refused == idx && n == old(self).code().k + old(self).code().m,
            r matches Err(DecodeError::WrongPayloadLen { expected, got })
                ==> expected == old(self).code().symbol_len && got == payload@.len(),
            r is Err && idx < old(self).code().k + old(self).code().m
                && payload@.len() == old(self).code().symbol_len
                ==> (r matches Err(DecodeError::TooManySymbols { cap, received })
                && cap == old(self).code().k + old(self).code().m
                && received == old(self).received_total()),
    {
        let ghost code = self.code();
        self.store.push(idx, payload, Ghost(code))
    }

    /// Sizes that follow from the invariant.
    proof fn sizes(&self)
        requires
            self.valid(),
        ensures
            self.k + self.m <= 256,
            0 <= self.k * self.symbol_len <= usize::MAX,
            self.code().well_shaped(),
            data_point::<GfElem, C>() == engine_points(C::engine_spec()),
    {
        C::capacity_is_point_count();
        C::points_follow_engine();
        let k = self.k as int;
        let m = self.m as int;
        let l = self.symbol_len as int;
        assert(0 <= k * l <= (k + m) * l) by (nonlinear_arith)
            requires
                0 <= k,
                0 <= m,
                0 <= l,
        ;
    }

    /// The positions without a mark are those not recorded.
    proof fn missing_is_unrecorded(&self)
        requires
            self.valid(),
        ensures
            missing_marks(self.store.pattern(), self.k as int) == unrecorded(
                self.stored(),
                self.code().k,
            ),
    {
        self.store.stored_facts(self.code());
        indices_where_congruent(
            |i: int| !self.store.pattern().has_index(i),
            |i: int| !self.stored().contains_key(i),
            self.k as int,
        );
    }

    /// Non-consuming finalization returning an owned buffer.
    pub fn finalize_ref(&mut self) -> (r: Result<Vec<u8>, DecodeError>)
        requires
            old(self).valid(),
        ensures
            final(self).valid(),
            final(self).code() == old(self).code(),
            final(self).stored() == old(self).stored(),
            final(self).received_total() == old(self).received_total(),
            match r {
                Ok(out) => old(self).stored().len() >= old(self).code().k && recovers(
                    old(self).code(),
                    out@,
                    old(self).stored(),
                ) && staging_after(
                    old(self).code().symbol_len,
                    unrecorded(old(self).stored(), old(self).code().k),
                    old(self).staged_rows(),
                    final(self).staged_rows(),
                    out@,
                ),
                Err(e) => old(self).stored().len() < old(self).code().k && e
                    == (DecodeError::InsufficientRank {
                    rank: old(self).stored().len() as usize,
                    k: old(self).code().k as usize,
                }) && *final(self) == *old(self),
            },
    {
        proof {
            self.sizes();
        }
        match self.ensure_complete() {
            Err(e) => Err(e),
            Ok(_) => {
                let recipe = self.build_recipe();
                let mut out: Vec<u8> = vec![0u8; self.k * self.symbol_len];
                self.apply_recipe_into(&recipe, &mut out);
                Ok(out)
            },
        }
    }

    /// Checks that `k` distinct symbols have been recorded.
    pub fn ensure_complete(&self) -> (r: Result<(), DecodeError>)
        requires
            self.valid(),
        ensures
            r == if self.stored().len() < self.code().k {
                Err::<(), DecodeError>(
                    DecodeError::InsufficientRank {
                        rank: self.stored().len() as usize,
                        k: self.code().k as usize,
                    },
                )
            } else {
                Ok(())
            },
    {
        let rank: usize = self.store.rank();
        if rank < self.k {
            return Err(DecodeError::InsufficientRank { rank, k: self.k });
        }
        Ok(())
    }

    /// Derives the reconstruction plan for the current receipt pattern. No
    /// payload byte is read.
    pub fn build_recipe(&self) -> (r: ReconstructionRecipe)
        requires
            self.valid(),
            self.stored().len() >= self.code().k,
        ensures
            recipe_for(self.key(), &r),
    {
        proof {
            self.sizes();
            self.store.split_is_valid(self.code());
        }
        let (missing_data, present_data, repair_cols) = self.store.split();
        let count: usize = missing_data.len();
        let mut source_terms: Vec<SourceTerm> = Vec::new();
        if count == 0 {
            return ReconstructionRecipe { missing_data, present_data, source_terms };
        }
        let table = fused_coefficients::<GfElem, C>(
            self.k,
            self.m,
            &missing_data,
            &present_data,
            &repair_cols,
        );
        let ghost lost = ints(missing_data@);
        let ghost kept = ints(present_data@);
        let ghost used = ints(repair_cols@);
        let mut t: usize = 0;
        while t < self.k
            invariant
                t <= self.k,
                self.k + self.m <= 256,
                count == lost.len(),
                lost == ints(missing_data@),
                kept == ints(present_data@),
                used == ints(repair_cols@),
                valid_split(self.k as int, self.m as int, lost, kept, used),
                is_fused_table(
                    engine_points(C::engine_spec()),
                    self.k as int,
                    lost,
                    kept,
                    used,
                    table@,
                ),
                source_terms@.len() == t,
                forall|s: int|
                    0 <= s < t ==> (#[trigger] source_terms@[s]).source_idx == term_index(
                        self.k as int,
                        kept,
                        used,
                        s,
                    ) && source_terms@[s].coefficients@.len() == count,
                forall|s: int, a: int|
                    0 <= s < t && 0 <= a < count ==> source_terms@[s].coefficients@[a]
                        == #[trigger] source_coefficient(
                        engine_points(C::engine_spec()),
                        self.k as int,
                        lost,
                        kept,
                        used,
                        s,
                        a,
                    ),
            decreases self.k - t,
        {
            let available: usize = table.len();
            proof {
                row_bounds(t as int, self.k as int, count as int);
            }
            let start: usize = t * count;
            let coefficients = vstd::slice::slice_to_vec(
                vstd::slice::slice_subrange(&table, start, start + count),
            );
            let source_idx: usize = if t < repair_cols.len() {
                proof {
                    assert(used[t as int] == repair_cols@[t as int]);
                }
                self.k + repair_cols[t]
            } else {
                proof {
                    assert(kept[t - used.len()] == present_data@[t - used.len()]);
                }
                present_data[t - repair_cols.len()]
            };
            let ghost before = source_terms@;
            source_terms.push(SourceTerm { source_idx, coefficients });
            proof {
                assert forall|s: int, a: int|
                    0 <= s < t + 1 && 0 <= a < count implies source_terms@[s].coefficients@[a]
                    == #[trigger] source_coefficient(
                    engine_points(C::engine_spec()),
                    self.k as int,
                    lost,
                    kept,
                    used,
                    s,
                    a,
                ) by {
                    if s < t {
                        assert(source_terms@[s] == before[s]);
                    } else {
                        assert(coefficients@[a] == table@[t * count + a]);
                    }
                }
            }
            t += 1;
        }
        ReconstructionRecipe { missing_data, present_data, source_terms }
    }

    /// The coefficients of a recipe, term by term.
    fn recipe_table(&self, recipe: &ReconstructionRecipe) -> (r: Vec<GfElem>)
        requires
            self.valid(),
            self.stored().len() >= self.code().k,
            recipe_for(self.key(), recipe),
        ensures
            is_fused_table(
                engine_points(C::engine_spec()),
                self.k as int,
                missing_marks(self.store.pattern(), self.k as int),
                present_marks(self.store.pattern(), self.k as int),
                repair_marks(self.store.pattern(), self.k as int, self.m as int),
                r@,
            ),
    {
        proof {
            self.store.split_is_valid(self.code());
        }
        let ghost k = self.k as int;
        let ghost lost = missing_marks(self.store.pattern(), k);
        let ghost kept = present_marks(self.store.pattern(), k);
        let ghost used = repair_marks(self.store.pattern(), k, self.m as int);
        let count: usize = recipe.missing_data.len();
        let mut table: Vec<GfElem> = Vec::new();
        proof {
            assert(recipe.missing_data@.len() == ints(recipe.missing_data@).len());
        }
        if count > 0 {
            table = flatten(&recipe.source_terms, count);
            proof {
                assert forall|s: int, a: int|
                    0 <= s < k && 0 <= a < count implies table@[s * count + a]
                    == #[trigger] source_coefficient(
                    engine_points(C::engine_spec()),
                    k,
                    lost,
                    kept,
                    used,
                    s,
                    a,
                ) by {
                    assert(table@[s * count + a] == recipe.source_terms@[s].coefficients@[a]);
                }
            }
        }
        table
    }

    /// Applies a reconstruction recipe into `out` (`k * symbol_len` bytes).
    ///
    /// Present rows are copied straight through; missing rows are rebuilt from
    /// the recipe's source terms.
    pub fn apply_recipe_into(&mut self, recipe: &ReconstructionRecipe, out: &mut [u8])
        requires
            old(self).valid(),
            old(self).stored().len() >= old(self).code().k,
            recipe_for(old(self).key(), recipe),
            old(out)@.len() == old(self).code().k * old(self).code().symbol_len,
        ensures
            final(self).valid(),
            final(self).code() == old(self).code(),
            final(self).stored() == old(self).stored(),
            final(self).received_total() == old(self).received_total(),
            final(self).key() == old(self).key(),
            recovers(old(self).code(), final(out)@, old(self).stored()),
            staging_after(
                old(self).code().symbol_len,
                unrecorded(old(self).stored(), old(self).code().k),
                old(self).staged_rows(),
                final(self).staged_rows(),
                final(out)@,
            ),
    {
        proof {
            self.missing_is_unrecorded();
            self.sizes();
            self.store.split_is_valid(self.code());
        }
        let count: usize = recipe.missing_data.len();
        let (_, _, repair_cols) = self.store.split();
        let table = self.recipe_table(recipe);
        proof {
            assert(recipe.missing_data@.len() == ints(recipe.missing_data@).len());
        }
        let rows = rebuild::<GfElem, C, PatternKey>(
            &self.store,
            self.k,
            self.m,
            self.symbol_len,
            &recipe.missing_data,
            &recipe.present_data,
            &repair_cols,
            &table,
            out,
        );
        if count > 1 {
            self.staging = rows;
        }
    }

    /// Contiguous rows of the last finalization that rebuilt more than one: the
    /// missing rows in ascending order. Empty until then.
    #[must_use]
    pub fn staging(&self) -> (r: &[u8])
        ensures
            r@ == self.staged_rows(),
    {
        self.staging.as_slice()
    }

    /// Reuses a memoized recipe for the current receipt pattern, building and
    /// caching one on a miss.
    pub fn recipe_from_cache(&self, cache: &mut RecipeCache) -> (r: Arc<ReconstructionRecipe>)
        requires
            self.valid(),
            self.stored().len() >= self.code().k,
            old(cache).sound(),
        ensures
            final(cache).sound(),
            recipe_for(self.key(), &*r),
            served(old(cache), final(cache), self.key(), r),
    {
        let key = RecipeKey {
            k: self.k,
            m: self.m,
            engine: C::engine(),
            pattern: *self.store.marks(),
        };
        match cache.get(key) {
            Some(recipe) => recipe,
            None => {
                let recipe = Arc::new(self.build_recipe());
                cache.insert(key, share(&recipe));
                recipe
            },
        }
    }

    /// Accepted payloads at their codeword positions. Only positions of recorded
    /// symbols hold received bytes.
    #[must_use]
    pub fn payloads(&self) -> (r: &[u8])
        requires
            self.valid(),
        ensures
            r@.len() == (self.code().k + self.code().m) * self.code().symbol_len,
            forall|i: int| #[trigger]
                self.stored().contains_key(i) ==> self.stored()[i] == row_of(
                    r@,
                    self.code().symbol_len,
                    i,
                ),
    {
        self.store.rows()
    }

    /// Coding-matrix view whose points define the reduced Cauchy system.
    pub fn cauchy(&self) -> (r: &C)
        requires
            self.valid(),
        ensures
            r.data_symbols() == self.code().k,
            r.repair_symbols() == self.code().m,
    {
        &self.cauchy
    }
}

impl<C: CodingMatrix> Coded for LazyDecoderState<C> {
    closed spec fn valid(&self) -> bool {
        &&& fits_points(self.k as int, self.m as int, C::point_count())
        &&& self.cauchy.data_symbols() == self.k
        &&& self.cauchy.repair_symbols() == self.m
        &&& 1 <= self.symbol_len
        &&& (self.k + self.m) * self.symbol_len <= usize::MAX
        &&& self.store.valid()
        &&& self.store.shaped(self.code())
        &&& self.store.storage() == (self.k + self.m) * self.symbol_len
    }

    closed spec fn code(&self) -> Code {
        point_code::<GfElem, C>(self.k as int, self.m as int, self.symbol_len as int)
    }

    proof fn code_is_sound(&self) {
        C::capacity_is_point_count();
        point_code_is_sound::<GfElem, C>(self.k as int, self.m as int, self.symbol_len as int);
    }

    fn k(&self) -> (r: usize) {
        self.k
    }

    fn m(&self) -> (r: usize) {
        self.m
    }

    fn symbol_len(&self) -> (r: usize) {
        self.symbol_len
    }
}

impl<C: CodingMatrix> SymbolSink for LazyDecoderState<C> {
    closed spec fn stored(&self) -> Map<int, Seq<u8>> {
        self.store.stored()
    }

    closed spec fn received_total(&self) -> int {
        self.store.received_total()
    }

    proof fn stored_is_bounded(&self) {
        self.store.stored_facts(self.code());
    }

    fn push(&mut self, idx: usize, payload: &[u8]) -> (r: Result<PushOutcome, DecodeError>) {
        self.push_symbol(idx, payload)
    }

    fn is_complete(&self) -> (r: bool) {
        self.store.rank() >= self.k
    }

    fn finalize(self) -> (r: Result<Vec<u8>, DecodeError>) {
        let mut decoder = self;
        decoder.finalize_ref()
    }
}

impl<C: CodingMatrix> Decoder for LazyDecoderState<C> {
    type Scratch = RecipeCache;

    open spec fn scratch_valid(scratch: &RecipeCache) -> bool {
        scratch.sound()
    }

    open spec fn refusal(code: Code, rank: int, output: int, scratch: &RecipeCache) -> Option<
        DecodeError,
    > {
        finalize_fault(code, rank, output)
    }

    proof fn refusal_is_judged(code: Code, rank: int, output: int, scratch: &RecipeCache) {
        finalization_is_judged(code, rank, output);
    }

    fn scratch(&self) -> (r: RecipeCache)
        ensures
            r.limit() == 16,
            r.listed().len() == 0,
            r.hit_total() == 0,
            r.miss_total() == 0,
    {
        RecipeCache::new(16)
    }

    fn rank(&self) -> (r: usize) {
        self.store.rank()
    }

    fn received(&self) -> (r: usize) {
        self.store.received()
    }

    fn reset(&mut self) {
        self.store.reset();
    }

    fn finalize_into(&mut self, out: &mut [u8]) -> (r: Result<(), DecodeError>)
        ensures
            r is Err ==> *final(self) == *old(self),
            r is Ok ==> staging_after(
                old(self).code().symbol_len,
                unrecorded(old(self).stored(), old(self).code().k),
                old(self).staged_rows(),
                final(self).staged_rows(),
                final(out)@,
            ),
    {
        proof {
            self.sizes();
            self.code_is_sound();
            self.stored_is_bounded();
            finalization_is_judged(self.code(), self.stored().len() as int, out.len() as int);
        }
        match self.ensure_complete() {
            Err(e) => Err(e),
            Ok(_) => {
                let expected: usize = self.k * self.symbol_len;
                if out.len() != expected {
                    return Err(DecodeError::WrongOutputLen { expected, got: out.len() });
                }
                let recipe = self.build_recipe();
                self.apply_recipe_into(&recipe, out);
                Ok(())
            },
        }
    }

    fn finalize_into_with(&mut self, out: &mut [u8], scratch: &mut RecipeCache) -> (r: Result<
        (),
        DecodeError,
    >)
        ensures
            r is Err ==> *final(self) == *old(self),
            r is Ok ==> staging_after(
                old(self).code().symbol_len,
                unrecorded(old(self).stored(), old(self).code().k),
                old(self).staged_rows(),
                final(self).staged_rows(),
                final(out)@,
            ),
            r is Err ==> *final(scratch) == *old(scratch),
            r is Ok ==> exists|recipe: Arc<ReconstructionRecipe>|
                recipe_for(old(self).key(), &*recipe) && #[trigger] served(
                    old(scratch),
                    final(scratch),
                    old(self).key(),
                    recipe,
                ),
    {
        proof {
            self.sizes();
            self.code_is_sound();
            self.stored_is_bounded();
            finalization_is_judged(self.code(), self.stored().len() as int, out.len() as int);
        }
        match self.ensure_complete() {
            Err(e) => Err(e),
            Ok(_) => {
                let expected: usize = self.k * self.symbol_len;
                if out.len() != expected {
                    return Err(DecodeError::WrongOutputLen { expected, got: out.len() });
                }
                let recipe = self.recipe_from_cache(scratch);
                self.apply_recipe_into(&recipe, out);
                Ok(())
            },
        }
    }
}

} // verus!
