//! Block-final additive-transform erasure decoder.

use vstd::prelude::*;

use crate::afft::code::{
    afft_code, afft_code_is_sound, afft_fault, field_size, padded, padded_dimension, shape_facts,
};
use crate::afft::decoder::{scratch_foreign, starts_from, DecodeScratch};
use crate::afft::domain::{
    keeps_rest, rebuild_block, shows_rebuild, stage_rows, staged, targeted_limit, Domain, Workspace,
};
use crate::afft::field::{pattern_basis, Field};
use crate::afft::profile::{refusal, Profile};
use crate::algebra::domains::span_size;
use crate::algebra::index_lists::{indices_where, indices_where_facts};
use crate::algebra::linear_code::missing_positions;
use crate::batch::receipt::{
    data_in_order, first_symbol_fault, partition_symbols, repairs_in_order, sourced, symbol_fault,
    Receipt,
};
use crate::codec::{
    block_sizes, decoded, finalize_fault, first_stream_fault, indices_of, no_stream_fault_selects,
    stream_decode_fault, stream_fault_persists, stream_faults_are_judged, stream_symbol_fault,
    BatchDecoder as BlockDecoder, Code, Coded,
};
use crate::decoder::reduced::{ints, term_index};
use crate::error::{ConfigError, DecodeError};
use crate::symbols::row_of;

verus! {

/// Block-final additive-transform decoder.
///
/// Unlike the lazy decoder this type keeps no receipt state. Each decode
/// validates the borrowed rows, copies surviving systematic rows to the output,
/// and rebuilds the missing ones.
#[derive(Clone, Debug)]
pub struct BatchDecoder<F: Field> {
    profile: Profile,
    domain: Domain<F>,
}

/// Reusable workspace for block-final decoding.
#[derive(Clone, Debug)]
pub struct BatchDecodeScratch<F: Field> {
    inner: DecodeScratch<F>,
}

impl<F: Field> BatchDecodeScratch<F> {
    /// The buffers belong to the geometry they were sized for.
    pub closed spec fn valid(&self) -> bool {
        self.inner.valid()
    }

    /// The scratch was sized for another geometry.
    pub closed spec fn foreign(&self, code: Code) -> bool {
        scratch_foreign(code, &self.inner)
    }

    /// A scratch that was sized belongs to one geometry; one that was not belongs
    /// to any.
    pub proof fn foreign_to_other_geometries(&self, code: Code)
        ensures
            self.foreign(code) <==> self.geometry().0 != 0 && self.geometry() != (
                code.k,
                code.m,
                code.symbol_len,
            ),
    {
    }

    /// Empty scratch that is sized on first use.
    pub fn new() -> (r: Self)
        ensures
            r.valid(),
            forall|code: Code| !(#[trigger] r.foreign(code)),
            r.geometry() == (0int, 0int, 0int),
            r.workspace_state().untouched(0),
    {
        BatchDecodeScratch { inner: DecodeScratch::new() }
    }

    /// `k`, `m` and `symbol_len` of the decoder that the scratch was sized for,
    /// all zero before it is sized.
    pub closed spec fn geometry(&self) -> (int, int, int) {
        self.inner.geometry()
    }

    /// Largest erasure count of the dense solve.
    pub closed spec fn limit(&self) -> int {
        self.inner.limit()
    }

    /// The workspace of both recovery paths.
    pub closed spec fn workspace_state(&self) -> Workspace<F> {
        self.inner.workspace_state()
    }

    /// `sized` is the workspace that a decode with this scratch starts from.
    pub closed spec fn starts_from(&self, code: Code, sized: Workspace<F>) -> bool {
        starts_from(&self.inner, code.k, code.m, code.symbol_len, sized)
    }

    /// A sized scratch starts from its own workspace, another from an untouched
    /// one.
    pub proof fn start_facts(&self, code: Code, sized: Workspace<F>)
        requires
            self.starts_from(code, sized),
        ensures
            self.geometry().0 == 0 ==> sized.untouched(padded(code.k + code.m)) && sized.limit()
                == targeted_limit::<F>(code.k, code.m, code.symbol_len),
            self.geometry().0 != 0 ==> sized == self.workspace_state(),
    {
    }

    /// Missing data positions of the last decode, ascending.
    #[must_use]
    pub fn missing_data(&self) -> (r: &[usize])
        ensures
            r@ == self.workspace_state().missing_list(),
    {
        self.inner.missing_data()
    }

    /// Receipt map over the evaluation domain of the last recovery over the whole
    /// domain.
    #[must_use]
    pub fn known(&self) -> (r: &[bool])
        ensures
            r@ == self.workspace_state().known_marks(),
    {
        self.inner.known()
    }

    /// Product of codeword and locator of that recovery.
    #[must_use]
    pub fn product(&self) -> (r: &[u8])
        ensures
            r@ == self.workspace_state().recovery_state().product_rows(),
    {
        self.inner.recovery().product()
    }

    /// Its formal derivative.
    #[must_use]
    pub fn derivative(&self) -> (r: &[u8])
        ensures
            r@ == self.workspace_state().recovery_state().derivative_rows(),
    {
        self.inner.recovery().derivative()
    }

    /// Systematic dimension this scratch is sized for; zero before it is sized.
    pub fn k(&self) -> (r: usize)
        ensures
            r == self.geometry().0,
    {
        self.inner.k()
    }

    /// Repair count this scratch is sized for.
    pub fn m(&self) -> (r: usize)
        ensures
            r == self.geometry().1,
    {
        self.inner.m()
    }

    /// Per-symbol byte length this scratch is sized for.
    pub fn symbol_len(&self) -> (r: usize)
        ensures
            r == self.geometry().2,
    {
        self.inner.symbol_len()
    }

    /// Evaluation-domain size this scratch is sized for.
    pub fn transform_size(&self) -> (r: usize)
        requires
            self.valid(),
        ensures
            r == if self.geometry().0 == 0 {
                0
            } else {
                padded(self.geometry().0 + self.geometry().1)
            },
    {
        self.inner.transform_size()
    }
}

impl<F: Field> Default for BatchDecodeScratch<F> {
    fn default() -> (r: Self)
        ensures
            r.valid(),
            forall|code: Code| !(#[trigger] r.foreign(code)),
    {
        Self::new()
    }
}

/// Why a decode is refused: a foreign scratch first, then the symbols, then the
/// output length.
pub open spec fn batch_fault(
    code: Code,
    symbols: Seq<(usize, &[u8])>,
    output: int,
    foreign: bool,
) -> Option<DecodeError> {
    if foreign {
        Some(DecodeError::ScratchMismatch)
    } else {
        stream_decode_fault(code, symbols, finalize_fault(code, code.k, output))
    }
}

/// Symbols without a fault in one order of checks have none in the other.
proof fn faultless_symbols(code: Code, symbols: Seq<(usize, &[u8])>, count: int)
    requires
        0 <= count <= symbols.len(),
        first_stream_fault(code, symbols, symbols.len() as int) is None,
    ensures
        first_symbol_fault(code.k + code.m, code.symbol_len, symbols, count) is None,
    decreases count,
{
    if count > 0 {
        faultless_symbols(code, symbols, count - 1);
        no_stream_fault_selects(code, symbols, symbols.len() as int);
        let s = count - 1;
        assert(symbols[s].0 < code.k + code.m && symbols[s].1@.len() == code.symbol_len);
        assert(symbol_fault(code.k + code.m, code.symbol_len, symbols, s) is None);
    }
}

/// The rows of the domain hold the sources, if more are missing than the dense
/// solve takes.
pub open spec fn staged_if(
    missing: int,
    limit: int,
    code: Code,
    present: Seq<int>,
    repairs: Seq<int>,
    sources: Seq<&[u8]>,
    rows: Seq<u8>,
) -> bool {
    missing > limit ==> staged(code.k, code.symbol_len, present, repairs, sources, rows)
}

/// What a decode of `symbols` leaves in its workspace: the missing positions and
/// their rows, and the tables of the recovery path it took, for the symbols in the
/// order given.
pub open spec fn shows_decode<F: Field>(
    workspace: &Workspace<F>,
    code: Code,
    symbols: Seq<(usize, &[u8])>,
    out: Seq<u8>,
) -> bool {
    let indices = indices_of(symbols);
    let present = data_in_order(indices, code.k, code.k);
    let repairs = repairs_in_order(indices, code.k, code.k);
    exists|sources: Seq<&[u8]>, rows: Seq<u8>|
        {
            &&& sources.len() == code.k
            &&& #[trigger] sourced(code.k, symbols, present, repairs, sources)
            &&& #[trigger] staged_if(
                missing_positions(indices, code.k).len() as int,
                workspace.limit(),
                code,
                present,
                repairs,
                sources,
                rows,
            )
            &&& shows_rebuild(
                workspace,
                pattern_basis::<F>(padded_dimension(code.k + code.m)),
                code.k,
                code.symbol_len,
                missing_positions(indices, code.k),
                present,
                repairs,
                |t: int| sources[t]@,
                rows,
                out,
            )
        }
}

/// After a decode the scratch lists the data positions that did not arrive, each
/// once and in ascending order, and holds their rows of the output in that order.
pub proof fn decodes_show_the_missing_rows<F: Field>(
    workspace: &Workspace<F>,
    code: Code,
    symbols: Seq<(usize, &[u8])>,
    out: Seq<u8>,
)
    requires
        shows_decode(workspace, code, symbols, out),
        code.well_shaped(),
    ensures
        forall|i: int|
            0 <= i < code.k ==> (#[trigger] ints(workspace.missing_list()).contains(i) <==> forall|
                s: int,
            |
                0 <= s < symbols.len() ==> (#[trigger] symbols[s]).0 != i),
        forall|a: int, b: int|
            0 <= a < b < workspace.missing_list().len() ==> (#[trigger] workspace.missing_list()[a])
                < (#[trigger] workspace.missing_list()[b]),
        forall|a: int|
            0 <= a < workspace.missing_list().len() ==> (#[trigger] workspace.missing_list()[a])
                < code.k && row_of(workspace.recovered_rows(), code.symbol_len, a) == row_of(
                out,
                code.symbol_len,
                workspace.missing_list()[a] as int,
            ),
{
    let indices = indices_of(symbols);
    let lacks = |i: int| !indices.contains(i);
    let missing = missing_positions(indices, code.k);
    indices_where_facts(lacks, code.k);
    assert(missing =~= indices_where(lacks, code.k));
    assert(ints(workspace.missing_list()) == missing);
    assert forall|a: int, b: int| 0 <= a < b < workspace.missing_list().len() implies (
    #[trigger] workspace.missing_list()[a]) < (#[trigger] workspace.missing_list()[b]) by {
        assert(missing[a] < missing[b]);
    }
    assert forall|a: int| 0 <= a < workspace.missing_list().len() implies (
    #[trigger] workspace.missing_list()[a]) < code.k && row_of(
        workspace.recovered_rows(),
        code.symbol_len,
        a,
    ) == row_of(out, code.symbol_len, workspace.missing_list()[a] as int) by {
        assert(missing[a] == workspace.missing_list()[a]);
    }
    assert forall|i: int| 0 <= i < code.k implies (#[trigger] ints(
        workspace.missing_list(),
    ).contains(i) <==> forall|s: int|
        0 <= s < symbols.len() ==> (#[trigger] symbols[s]).0 != i) by {
        assert(missing.contains(i) <==> lacks(i));
        if indices.contains(i) {
            let s = choose|s: int| 0 <= s < indices.len() && indices[s] == i;
            assert(symbols[s].0 == i);
        } else {
            assert forall|s: int| 0 <= s < symbols.len() implies (#[trigger] symbols[s]).0 != i by {
                assert(indices[s] == symbols[s].0);
            }
        }
    }
}

impl<F: Field> BatchDecoder<F> {
    /// Constructs a block-final decoder matching an encoder geometry.
    pub fn new(k: usize, m: usize, symbol_len: usize) -> (r: Result<Self, ConfigError>)
        ensures
            match r {
                Ok(decoder) => afft_fault::<F>(k as int, m as int, symbol_len as int) is None
                    && decoder.valid() && decoder.code() == afft_code::<F>(
                    k as int,
                    m as int,
                    symbol_len as int,
                ),
                Err(e) => afft_fault::<F>(k as int, m as int, symbol_len as int) == Some(e),
            },
            r is Ok <==> k >= 1 && m >= 1 && symbol_len >= 1 && symbol_len as int % F::width() == 0
                && k + m
                <= span_size(F::bits()) && padded(k + m) * symbol_len <= usize::MAX,
            r == Err::<Self, ConfigError>(ConfigError::ZeroDimension) <==> k == 0 || m == 0,
            r == Err::<Self, ConfigError>(ConfigError::ZeroSymbolLen)
                <==> k != 0 && m != 0 && symbol_len == 0,
            r == Err::<Self, ConfigError>(ConfigError::OddSymbolLen)
                <==> k != 0 && m != 0 && symbol_len
                != 0 && symbol_len as int % F::width() != 0,
            r matches Err(e) ==> match e {
                ConfigError::UnsupportedMode { .. } => false,
                ConfigError::TooManySymbols { cap } => cap == span_size(F::bits()) && (k + m > cap
                    || padded(
                    k + m,
                ) * symbol_len > usize::MAX),
                _ => true,
            },
    {
        proof {
            field_size::<F>();
        }
        match Profile::new::<F>(k, m, symbol_len) {
            None => Err(refusal::<F>(k, m, symbol_len)),
            Some(profile) => match Domain::<F>::new(&profile) {
                Ok(domain) => Ok(BatchDecoder { profile, domain }),
                Err(_) => Err(ConfigError::TooManySymbols { cap: F::max_transform_size() }),
            },
        }
    }

    /// Number of systematic symbols.
    pub fn k(&self) -> (r: usize)
        ensures
            r == self.code().k,
    {
        self.profile.k
    }

    /// Number of repair symbols.
    pub fn m(&self) -> (r: usize)
        ensures
            r == self.code().m,
    {
        self.profile.m
    }

    /// Number of transmitted symbols.
    pub fn n(&self) -> (r: usize)
        requires
            self.valid(),
        ensures
            r == self.code().k + self.code().m,
    {
        self.profile.n
    }

    /// Per-symbol byte length.
    pub fn symbol_len(&self) -> (r: usize)
        ensures
            r == self.code().symbol_len,
    {
        self.profile.symbol_len
    }

    /// Power-of-two transform domain size.
    pub fn transform_size(&self) -> (r: usize)
        requires
            self.valid(),
        ensures
            r == padded(self.code().k + self.code().m),
    {
        self.profile.transform_size
    }

    /// Allocates sized reusable decode scratch.
    pub fn decode_scratch(&self) -> (r: BatchDecodeScratch<F>)
        requires
            self.valid(),
        ensures
            r.valid(),
            r.geometry() == (self.code().k, self.code().m, self.code().symbol_len),
            r.limit() == targeted_limit::<F>(
                self.code().k,
                self.code().m,
                self.code().symbol_len,
            ),
            !r.foreign(self.code()),
            r.workspace_state().untouched(padded(self.code().k + self.code().m)),
    {
        BatchDecodeScratch { inner: DecodeScratch::for_profile(&self.profile) }
    }

    /// Validates `symbols` one by one.
    fn validate_symbols(&self, symbols: &[(usize, &[u8])]) -> (r: Result<(), DecodeError>)
        requires
            self.valid(),
        ensures
            r == if symbols@.len() != self.code().k {
                Err::<(), DecodeError>(
                    DecodeError::WrongCount {
                        expected: self.code().k as usize,
                        got: symbols@.len() as usize,
                    },
                )
            } else {
                match first_stream_fault(self.code(), symbols@, symbols@.len() as int) {
                    Some(e) => Err::<(), DecodeError>(e),
                    None => Ok(()),
                }
            },
    {
        let ghost code = self.code();
        let n: usize = self.profile.n;
        if symbols.len() != self.profile.k {
            return Err(
                DecodeError::WrongCount { expected: self.profile.k, got: symbols.len() },
            );
        }
        let mut known: Vec<bool> = vec![false; n];
        let mut s: usize = 0;
        while s < symbols.len()
            invariant
                s <= symbols@.len(),
                self.valid(),
                code == self.code(),
                n == code.k + code.m,
                symbols@.len() == code.k,
                known@.len() == n,
                first_stream_fault(code, symbols@, s as int) is None,
                forall|i: int|
                    0 <= i < n ==> (#[trigger] known@[i] == exists|t: int|
                        0 <= t < s && (#[trigger] symbols@[t]).0 == i),
            decreases symbols@.len() - s,
        {
            let index: usize = symbols[s].0;
            proof {
                if stream_symbol_fault(code, symbols@, s as int) is Some {
                    stream_fault_persists(code, symbols@, s + 1, symbols@.len() as int);
                }
            }
            if index >= n {
                return Err(DecodeError::IndexOutOfRange { index, n });
            }
            if symbols[s].1.len() != self.profile.symbol_len {
                return Err(
                    DecodeError::WrongPayloadLen {
                        expected: self.profile.symbol_len,
                        got: symbols[s].1.len(),
                    },
                );
            }
            if known[index] {
                return Err(DecodeError::DuplicateIndex { index });
            }
            let ghost before = known@;
            known.set(index, true);
            proof {
                assert forall|i: int| 0 <= i < n implies (#[trigger] known@[i] == exists|t: int|
                    0 <= t < s + 1 && (#[trigger] symbols@[t]).0 == i) by {
                    assert(before[i] == exists|t: int|
                        0 <= t < s && (#[trigger] symbols@[t]).0 == i);
                    if i == index {
                        assert(symbols@[s as int].0 == i);
                    }
                }
            }
            s += 1;
        }
        Ok(())
    }

    fn decode_complete_into(
        &self,
        symbols: &[(usize, &[u8])],
        output: &mut [u8],
        scratch: &mut BatchDecodeScratch<F>,
    ) -> (r: Result<(), DecodeError>)
        requires
            self.valid(),
            old(scratch).valid(),
        ensures
            final(scratch).valid(),
            final(scratch).foreign(self.code()) == old(scratch).foreign(self.code()),
            old(scratch).foreign(self.code()) ==> *final(scratch) == *old(scratch),
            r is Err && !old(scratch).foreign(self.code()) ==> old(scratch).starts_from(
                self.code(),
                final(scratch).workspace_state(),
            ),
            r is Ok ==> exists|sized: Workspace<F>| #[trigger]
                old(scratch).starts_from(self.code(), sized) && keeps_rest(
                    &sized,
                    &final(scratch).workspace_state(),
                ),
            r is Ok ==> shows_decode(
                &final(scratch).workspace_state(),
                self.code(),
                symbols@,
                final(output)@,
            ),
            decoded(
                self.code(),
                batch_fault(
                    self.code(),
                    symbols@,
                    old(output)@.len() as int,
                    old(scratch).foreign(self.code()),
                ),
                symbols@,
                old(output)@,
                final(output)@,
                r,
            ),
    {
        let ghost code = self.code();
        let k: usize = self.profile.k;
        let m: usize = self.profile.m;
        let symbol_len: usize = self.profile.symbol_len;
        proof {
            shape_facts::<F>(k as int, m as int, symbol_len as int);
        }
        match scratch.inner.ensure(&self.profile) {
            Err(e) => {
                return Err(e);
            },
            Ok(()) => {},
        }
        let ghost sized = scratch.workspace_state();
        proof {
            assert(old(scratch).starts_from(code, sized));
        }
        match self.validate_symbols(symbols) {
            Err(e) => {
                return Err(e);
            },
            Ok(()) => {},
        }
        let expected: usize = k * symbol_len;
        if output.len() != expected {
            return Err(DecodeError::WrongOutputLen { expected, got: output.len() });
        }
        proof {
            faultless_symbols(code, symbols@, k as int);
        }
        match partition_symbols(k, m, symbol_len, symbols) {
            Err(e) => Err(e),
            Ok(receipt) => {
                let ghost limit = scratch.limit();
                self.rebuild(&receipt, output, scratch);
                proof {
                    let kept = ints(receipt.present@);
                    let used = ints(receipt.repairs@);
                    let rows = choose|rows: Seq<u8>|
                        #[trigger] staged_if(
                            receipt.missing@.len() as int,
                            limit,
                            code,
                            kept,
                            used,
                            receipt.sources@,
                            rows,
                        ) && shows_rebuild(
                            &scratch.workspace_state(),
                            pattern_basis::<F>(padded_dimension(k + m)),
                            k as int,
                            symbol_len as int,
                            ints(receipt.missing@),
                            kept,
                            used,
                            |t: int| receipt.sources@[t]@,
                            rows,
                            output@,
                        );
                    assert(sourced(k as int, symbols@, kept, used, receipt.sources@));
                    assert(staged_if(
                        receipt.missing@.len() as int,
                        limit,
                        code,
                        kept,
                        used,
                        receipt.sources@,
                        rows,
                    ));
                    assert(shows_decode(&scratch.workspace_state(), code, symbols@, output@));
                    assert forall|s: int| 0 <= s < symbols@.len() implies (
                    #[trigger] symbols@[s]).1@ == (code.symbol)(output@, symbols@[s].0 as int) by {
                        if symbols@[s].0 < k {
                            let p = choose|p: int|
                                0 <= p < kept.len() && #[trigger] kept[p] == symbols@[s].0
                                    && receipt.sources@[used.len() + p]@ == symbols@[s].1@;
                            let t = used.len() + p;
                            assert(term_index(k as int, kept, used, t) == symbols@[s].0);
                            assert(receipt.sources@[t]@ == symbols@[s].1@);
                        } else {
                            let b = choose|b: int|
                                0 <= b < used.len() && #[trigger] used[b] == symbols@[s].0 - k
                                    && receipt.sources@[b]@ == symbols@[s].1@;
                            assert(term_index(k as int, kept, used, b) == symbols@[s].0);
                            assert(receipt.sources@[b]@ == symbols@[s].1@);
                        }
                    }
                }
                Ok(())
            },
        }
    }

    /// Writes the block that a validated receipt determines.
    fn rebuild(&self, receipt: &Receipt, output: &mut [u8], scratch: &mut BatchDecodeScratch<F>)
        requires
            self.valid(),
            old(scratch).valid(),
            crate::decoder::reduced::valid_split(
                self.code().k,
                self.code().m,
                ints(receipt.missing@),
                ints(receipt.present@),
                ints(receipt.repairs@),
            ),
            exists|indices: Seq<int>|
                ints(receipt.missing@) == #[trigger] missing_positions(indices, self.code().k),
            receipt.sources@.len() == self.code().k,
            forall|t: int|
                0 <= t < self.code().k ==> (#[trigger] receipt.sources@[t])@.len()
                    == self.code().symbol_len,
            old(output)@.len() == self.code().k * self.code().symbol_len,
        ensures
            final(scratch).valid(),
            final(scratch).limit() == old(scratch).limit(),
            final(scratch).foreign(self.code()) == old(scratch).foreign(self.code()),
            keeps_rest(&old(scratch).workspace_state(), &final(scratch).workspace_state()),
            exists|rows: Seq<u8>|
                #[trigger] staged_if(
                    receipt.missing@.len() as int,
                    old(scratch).limit(),
                    self.code(),
                    ints(receipt.present@),
                    ints(receipt.repairs@),
                    receipt.sources@,
                    rows,
                ) && shows_rebuild(
                    &final(scratch).workspace_state(),
                    pattern_basis::<F>(padded_dimension(self.code().k + self.code().m)),
                    self.code().k,
                    self.code().symbol_len,
                    ints(receipt.missing@),
                    ints(receipt.present@),
                    ints(receipt.repairs@),
                    |t: int| receipt.sources@[t]@,
                    rows,
                    final(output)@,
                ),
            final(output)@.len() == old(output)@.len(),
            crate::afft::reconstruct::sources_encoded::<F>(
                self.code().k,
                self.code().symbol_len,
                ints(receipt.present@),
                ints(receipt.repairs@),
                receipt.sources@,
                final(output)@,
            ),
    {
        let k: usize = self.profile.k;
        let m: usize = self.profile.m;
        let symbol_len: usize = self.profile.symbol_len;
        let ghost lost = ints(receipt.missing@);
        let ghost kept = ints(receipt.present@);
        let ghost used = ints(receipt.repairs@);
        proof {
            shape_facts::<F>(k as int, m as int, symbol_len as int);
            let indices = choose|indices: Seq<int>|
                lost == #[trigger] missing_positions(indices, k as int);
            let lacks = |i: int| !indices.contains(i);
            indices_where_facts(lacks, k as int);
            assert forall|s: int, t: int|
                0 <= s < t < receipt.missing@.len() implies #[trigger] receipt.missing@[s]
                < #[trigger] receipt.missing@[t] by {
                assert(lost[s] < lost[t]);
            }
            assert forall|t: int| 0 <= t < receipt.present@.len() implies #[trigger]
                receipt.present@[t] < k by {
                assert(kept[t] == receipt.present@[t]);
            }
            assert forall|t: int| 0 <= t < receipt.repairs@.len() implies k + #[trigger]
                receipt.repairs@[t] < self.profile.transform_size by {
                assert(used[t] == receipt.repairs@[t]);
            }
            assert forall|s: int, t: int|
                0 <= s < k && 0 <= t < k && s != t implies #[trigger] term_index(
                k as int,
                kept,
                used,
                s,
            ) != #[trigger] term_index(k as int, kept, used, t) by {
                let r = used.len() as int;
                if s < r && t < r {
                    assert(used[s] != used[t]);
                } else if s >= r && t >= r {
                    assert(kept[s - r] != kept[t - r]);
                } else if s < r {
                    assert(0 <= used[s]);
                    assert(kept[t - r] < k);
                } else {
                    assert(0 <= used[t]);
                    assert(kept[s - r] < k);
                }
            }
        }
        let ghost limit = scratch.limit();
        let rows: Vec<u8> = if receipt.missing.len() > scratch.inner.targeted_max() {
            stage_rows(
                self.profile.transform_size,
                k,
                symbol_len,
                receipt.present.as_slice(),
                receipt.repairs.as_slice(),
                receipt.sources.as_slice(),
            )
        } else {
            Vec::new()
        };
        rebuild_block(
            &self.domain,
            scratch.inner.workspace_mut(),
            k,
            m,
            symbol_len,
            receipt.missing.as_slice(),
            receipt.present.as_slice(),
            receipt.repairs.as_slice(),
            receipt.sources.as_slice(),
            rows.as_slice(),
            output,
        );
        proof {
            assert(staged_if(
                receipt.missing@.len() as int,
                limit,
                self.code(),
                kept,
                used,
                receipt.sources@,
                rows@,
            ));
        }
    }
}

impl<F: Field> Coded for BatchDecoder<F> {
    closed spec fn valid(&self) -> bool {
        &&& self.profile.valid::<F>()
        &&& self.domain.prepared(self.profile.k as int, self.profile.m as int)
    }

    closed spec fn code(&self) -> Code {
        afft_code::<F>(
            self.profile.k as int,
            self.profile.m as int,
            self.profile.symbol_len as int,
        )
    }

    proof fn code_is_sound(&self) {
        afft_code_is_sound::<F>(
            self.profile.k as int,
            self.profile.m as int,
            self.profile.symbol_len as int,
        );
    }

    fn k(&self) -> (r: usize) {
        self.profile.k
    }

    fn m(&self) -> (r: usize) {
        self.profile.m
    }

    fn symbol_len(&self) -> (r: usize) {
        self.profile.symbol_len
    }
}

impl<F: Field> BlockDecoder for BatchDecoder<F> {
    type Scratch = BatchDecodeScratch<F>;

    open spec fn batch_scratch_valid(scratch: &BatchDecodeScratch<F>) -> bool {
        scratch.valid()
    }

    open spec fn decode_refusal(
        &self,
        symbols: Seq<(usize, &[u8])>,
        output: int,
        scratch: &BatchDecodeScratch<F>,
    ) -> Option<DecodeError> {
        batch_fault(self.code(), symbols, output, scratch.foreign(self.code()))
    }

    open spec fn decode_fault(&self, symbols: Seq<(usize, &[u8])>, output: int) -> Option<
        DecodeError,
    > {
        batch_fault(self.code(), symbols, output, false)
    }

    proof fn codeword_fits(&self) {
        shape_facts::<F>(
            self.profile.k as int,
            self.profile.m as int,
            self.profile.symbol_len as int,
        );
    }

    proof fn receipt_is_judged(&self, symbols: Seq<(usize, &[u8])>, output: int) {
        self.code_is_sound();
        BlockDecoder::codeword_fits(self);
        block_sizes(self.code());
        if symbols.len() == self.code().k {
            stream_faults_are_judged(self.code(), symbols, symbols.len() as int);
        }
    }

    proof fn scratch_is_judged(
        &self,
        symbols: Seq<(usize, &[u8])>,
        output: int,
        scratch: &BatchDecodeScratch<F>,
    ) {
    }

    fn scratch(&self) -> (r: BatchDecodeScratch<F>)
        ensures
            r.geometry() == (self.code().k, self.code().m, self.code().symbol_len),
            r.limit() == targeted_limit::<F>(
                self.code().k,
                self.code().m,
                self.code().symbol_len,
            ),
    {
        self.decode_scratch()
    }

    fn decode_into(&mut self, symbols: &[(usize, &[u8])], out: &mut [u8]) -> (r: Result<
        (),
        DecodeError,
    >)
        ensures
            *final(self) == *old(self),
            r matches Err(DecodeError::WrongOutputLen { .. }) ==> (forall|s: int|
                0 <= s < symbols@.len() ==> (#[trigger] symbols@[s]).0
                    < old(self).code().k + old(self).code().m
                    && symbols@[s].1@.len() == old(self).code().symbol_len)
                        && (forall|s: int, t: int|
                0 <= t < s < symbols@.len() ==> (#[trigger] symbols@[t]).0
                    != (#[trigger] symbols@[s]).0),
    {
        proof {
            assert(symbols.len() == symbols@.len());
            BlockDecoder::receipt_is_judged(self, symbols@, out.len() as int);
            self.code_is_sound();
            BlockDecoder::codeword_fits(self);
            block_sizes(self.code());
            stream_faults_are_judged(self.code(), symbols@, symbols@.len() as int);
        }
        let mut scratch = BatchDecodeScratch::new();
        self.decode_complete_into(symbols, out, &mut scratch)
    }

    fn decode_into_with(
        &mut self,
        symbols: &[(usize, &[u8])],
        out: &mut [u8],
        scratch: &mut BatchDecodeScratch<F>,
    ) -> (r: Result<(), DecodeError>)
        ensures
            *final(self) == *old(self),
            r matches Err(DecodeError::ScratchMismatch) <==> old(scratch).geometry().0 != 0 && old(
                scratch,
            ).geometry() != (
                old(self).code().k,
                old(self).code().m,
                old(self).code().symbol_len,
            ),
            r matches Err(DecodeError::WrongOutputLen { .. }) ==> (forall|s: int|
                0 <= s < symbols@.len() ==> (#[trigger] symbols@[s]).0
                    < old(self).code().k + old(self).code().m
                    && symbols@[s].1@.len() == old(self).code().symbol_len)
                        && (forall|s: int, t: int|
                0 <= t < s < symbols@.len() ==> (#[trigger] symbols@[t]).0
                    != (#[trigger] symbols@[s]).0),
            old(scratch).foreign(old(self).code()) ==> *final(scratch) == *old(scratch),
            r is Err && !old(scratch).foreign(old(self).code()) ==> old(scratch).starts_from(
                old(self).code(),
                final(scratch).workspace_state(),
            ),
            r is Ok ==> exists|sized: Workspace<F>| #[trigger]
                old(scratch).starts_from(old(self).code(), sized) && keeps_rest(
                    &sized,
                    &final(scratch).workspace_state(),
                ),
            r is Ok ==> shows_decode(
                &final(scratch).workspace_state(),
                old(self).code(),
                symbols@,
                final(out)@,
            ),
    {
        proof {
            assert(symbols.len() == symbols@.len());
            BlockDecoder::receipt_is_judged(self, symbols@, out.len() as int);
            self.code_is_sound();
            BlockDecoder::codeword_fits(self);
            block_sizes(self.code());
            stream_faults_are_judged(self.code(), symbols@, symbols@.len() as int);
            BlockDecoder::scratch_is_judged(self, symbols@, out.len() as int, scratch);
            scratch.foreign_to_other_geometries(self.code());
        }
        self.decode_complete_into(symbols, out, scratch)
    }
}

} // verus!
