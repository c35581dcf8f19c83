//! Prepared decode plans.

use vstd::prelude::*;

use crate::algebra::gf256::GfElem;
use crate::algebra::index_lists::{
    distinct_list_count, indices_where, indices_where_complement, indices_where_facts,
};
use crate::algebra::interpolation::distinct;
use crate::algebra::linear_code::cauchy_points;
use crate::batch::receipt::occurs_before;
use crate::codec::{block_sizes, decoded, explains, Code, Engine};
use crate::decoder::pattern::PatternKey;
use crate::decoder::reduced::{
    assemble, assembled_block, assembled_block_agrees, combine_sources, holds_combined, ints, is_fused_table,
    term_index, valid_split,
};
use crate::error::DecodeError;
use crate::matrices::coding_matrix::{coef_of_points, engine_points, shifted};
use crate::symbols::{coefficient_code, row_of};

verus! {

/// A prepared batch decode plan for one erasure pattern.
///
/// Built by [`BatchCodec::prepare_decode`](crate::batch::BatchCodec::prepare_decode).
/// The plan owns the fused reconstruction coefficients and the receipt-pattern
/// membership test, so applying it costs symbol validation plus payload
/// arithmetic - no coefficient construction, no partitioning.
#[derive(Clone, Debug)]
pub struct DecodePlan {
    k: usize,
    m: usize,
    symbol_len: usize,
    engine: Engine,
    missing: Vec<usize>,
    present: Vec<usize>,
    repairs: Vec<usize>,
    /// Coefficient-row ordinal of every codeword index in the prepared receipt;
    /// `u16::MAX` for every other index.
    term_of: [u16; 256],
    /// One row per source term (repair terms first, then present terms).
    coefficients: Vec<GfElem>,
}

/// The prepared receipt holds every index with its ordinal.
pub open spec fn maps_terms(
    k: int,
    m: int,
    present: Seq<int>,
    repairs: Seq<int>,
    term_of: Seq<u16>,
) -> bool {
    &&& term_of.len() == 256
    &&& forall|t: int|
        0 <= t < k ==> term_of[#[trigger] term_index(k, present, repairs, t)] == t
    &&& forall|i: int|
        0 <= i < 256 && #[trigger] term_of[i] != u16::MAX ==> i < k + m && term_of[i] < k
            && term_index(k, present, repairs, term_of[i] as int) == i
}

/// Why symbol `s` is refused by a plan.
pub open spec fn plan_symbol_fault(
    n: int,
    symbol_len: int,
    expected: spec_fn(int) -> bool,
    symbols: Seq<(usize, &[u8])>,
    s: int,
) -> Option<DecodeError> {
    if symbols[s].0 >= n {
        Some(DecodeError::IndexOutOfRange { index: symbols[s].0, n: n as usize })
    } else if !expected(symbols[s].0 as int) {
        Some(DecodeError::UnexpectedIndex { index: symbols[s].0 })
    } else if occurs_before(symbols, s) {
        Some(DecodeError::DuplicateIndex { index: symbols[s].0 })
    } else if symbols[s].1@.len() != symbol_len {
        Some(
            DecodeError::WrongPayloadLen {
                expected: symbol_len as usize,
                got: symbols[s].1@.len() as usize,
            },
        )
    } else {
        None
    }
}

/// The fault of the first refused symbol among the first `count`.
pub open spec fn first_plan_fault(
    n: int,
    symbol_len: int,
    expected: spec_fn(int) -> bool,
    symbols: Seq<(usize, &[u8])>,
    count: int,
) -> Option<DecodeError>
    decreases count,
{
    if count <= 0 {
        None
    } else {
        match first_plan_fault(n, symbol_len, expected, symbols, count - 1) {
            Some(e) => Some(e),
            None => plan_symbol_fault(n, symbol_len, expected, symbols, count - 1),
        }
    }
}

/// The symbols have no fault exactly when each is expected, at a position below
/// `n` of its own, and of `symbol_len` bytes, and a fault names an index or a
/// length that one of them has.
proof fn plan_faults_are_judged(
    n: int,
    symbol_len: int,
    expected: spec_fn(int) -> bool,
    symbols: Seq<(usize, &[u8])>,
    count: int,
)
    requires
        0 <= count <= symbols.len(),
        0 <= n <= usize::MAX,
        0 <= symbol_len <= usize::MAX,
    ensures
        first_plan_fault(n, symbol_len, expected, symbols, count) is None <==> {
            &&& forall|s: int|
                0 <= s < count ==> (#[trigger] symbols[s]).0 < n && symbols[s].1@.len()
                    == symbol_len && expected(symbols[s].0 as int)
            &&& forall|s: int, t: int|
                0 <= t < s < count ==> (#[trigger] symbols[t]).0 != (#[trigger] symbols[s]).0
        },
        first_plan_fault(n, symbol_len, expected, symbols, count) matches Some(e) ==> match e {
            DecodeError::IndexOutOfRange { index, n: limit } => limit == n && index >= n && exists|
                s: int,
            |
                0 <= s < count && (#[trigger] symbols[s]).0 == index,
            DecodeError::UnexpectedIndex { index } => index < n && !expected(index as int)
                && exists|s: int| 0 <= s < count && (#[trigger] symbols[s]).0 == index,
            DecodeError::DuplicateIndex { index } => index < n && exists|s: int, t: int|
                0 <= t < s < count && (#[trigger] symbols[t]).0 == index
                    && (#[trigger] symbols[s]).0
                    == index,
            DecodeError::WrongPayloadLen { expected: wanted, got } => wanted == symbol_len && got
                != wanted && exists|s: int|
                0 <= s < count && (#[trigger] symbols[s]).1@.len() == got,
            _ => false,
        },
    decreases count,
{
    if count > 0 {
        plan_faults_are_judged(n, symbol_len, expected, symbols, count - 1);
        let s = count - 1;
        assert(symbols[s].1.len() == symbols[s].1@.len());
        if first_plan_fault(n, symbol_len, expected, symbols, count - 1) is None && occurs_before(
            symbols,
            s,
        ) {
            let t = choose|t: int| 0 <= t < s && (#[trigger] symbols[t]).0 == symbols[s].0;
            assert(symbols[t].0 == symbols[s].0);
        }
    }
}

/// Of several faults the first symbol's is reported, and of one symbol first its
/// index, then that the plan does not expect it, then that an earlier symbol has
/// the same index, then its length.
pub proof fn first_plan_fault_is_reported(
    n: int,
    symbol_len: int,
    expected: spec_fn(int) -> bool,
    symbols: Seq<(usize, &[u8])>,
    count: int,
    s: int,
)
    requires
        0 <= s < count <= symbols.len(),
        0 <= n <= usize::MAX,
        0 <= symbol_len <= usize::MAX,
        forall|t: int|
            0 <= t < s ==> (#[trigger] symbols[t]).0 < n && symbols[t].1@.len() == symbol_len
                && expected(symbols[t].0 as int),
        forall|t: int, u: int|
            0 <= t < u < s ==> (#[trigger] symbols[t]).0 != (#[trigger] symbols[u]).0,
    ensures
        symbols[s].0 >= n ==> first_plan_fault(n, symbol_len, expected, symbols, count) == Some(
            DecodeError::IndexOutOfRange { index: symbols[s].0, n: n as usize },
        ),
        symbols[s].0 < n && !expected(symbols[s].0 as int) ==> first_plan_fault(
            n,
            symbol_len,
            expected,
            symbols,
            count,
        ) == Some(DecodeError::UnexpectedIndex { index: symbols[s].0 }),
        symbols[s].0 < n && expected(symbols[s].0 as int) && (exists|t: int|
            0 <= t < s && (#[trigger] symbols[t]).0 == symbols[s].0) ==> first_plan_fault(
            n,
            symbol_len,
            expected,
            symbols,
            count,
        ) == Some(DecodeError::DuplicateIndex { index: symbols[s].0 }),
        symbols[s].0 < n && expected(symbols[s].0 as int) && symbols[s].1@.len() != symbol_len && (
        forall|t: int| 0 <= t < s ==> (#[trigger] symbols[t]).0 != symbols[s].0)
            ==> first_plan_fault(n, symbol_len, expected, symbols, count) == Some(
            DecodeError::WrongPayloadLen {
                expected: symbol_len as usize,
                got: symbols[s].1@.len() as usize,
            },
        ),
{
    plan_faults_are_judged(n, symbol_len, expected, symbols, s);
    if first_plan_fault(n, symbol_len, expected, symbols, s + 1) is Some {
        plan_fault_persists(n, symbol_len, expected, symbols, s + 1, count);
    }
}

proof fn plan_fault_persists(
    n: int,
    symbol_len: int,
    expected: spec_fn(int) -> bool,
    symbols: Seq<(usize, &[u8])>,
    count: int,
    whole: int,
)
    requires
        0 <= count <= whole,
        first_plan_fault(n, symbol_len, expected, symbols, count) is Some,
    ensures
        first_plan_fault(n, symbol_len, expected, symbols, whole) == first_plan_fault(
            n,
            symbol_len,
            expected,
            symbols,
            count,
        ),
    decreases whole,
{
    if count < whole {
        plan_fault_persists(n, symbol_len, expected, symbols, count, whole - 1);
    }
}

/// A list of `n` distinct values below `n` holds every one of them.
proof fn full_list_covers(list: Seq<int>, n: int, x: int)
    requires
        n >= 0,
        list.len() == n,
        distinct(list),
        forall|t: int| 0 <= t < list.len() ==> 0 <= #[trigger] list[t] < n,
        0 <= x < n,
    ensures
        list.contains(x),
{
    let holds = |i: int| list.contains(i);
    let lacks = |i: int| !holds(i);
    distinct_list_count(list, n);
    indices_where_complement(holds, n);
    indices_where_facts(lacks, n);
    if !list.contains(x) {
        assert(lacks(x));
        assert(indices_where(lacks, n).contains(x));
    }
}

/// `rows` holds the rows of `block` listed in `missing`.
pub open spec fn holds_rows(
    symbol_len: int,
    block: Seq<u8>,
    missing: Seq<int>,
    rows: Seq<u8>,
) -> bool {
    &&& rows.len() == missing.len() * symbol_len
    &&& forall|a: int|
        0 <= a < missing.len() ==> row_of(rows, symbol_len, a) == row_of(
            block,
            symbol_len,
            #[trigger] missing[a],
        )
}

/// The outcome of reconstructing only the missing data symbols.
pub open spec fn reconstructed(
    code: Code,
    fault: Option<DecodeError>,
    symbols: Seq<(usize, &[u8])>,
    missing: Seq<int>,
    before: Seq<u8>,
    after: Seq<u8>,
    r: Result<(), DecodeError>,
) -> bool {
    match fault {
        Some(e) => r == Err::<(), DecodeError>(e) && after == before,
        None => r == Ok::<(), DecodeError>(()) && exists|block: Seq<u8>|
            code.is_block(block) && #[trigger] explains(code, block, symbols) && holds_rows(
                code.symbol_len,
                block,
                missing,
                after,
            ),
    }
}

impl DecodePlan {
    /// The plan's invariant.
    pub closed spec fn valid(&self) -> bool {
        &&& self.code().sound()
        &&& self.code().fits_memory()
        &&& self.k + self.m <= 256
        &&& cauchy_points(
            engine_points(self.engine),
            shifted(engine_points(self.engine), self.k as int),
            self.k as int,
            self.m as int,
        )
        &&& valid_split(
            self.k as int,
            self.m as int,
            ints(self.missing@),
            ints(self.present@),
            ints(self.repairs@),
        )
        &&& maps_terms(
            self.k as int,
            self.m as int,
            ints(self.present@),
            ints(self.repairs@),
            self.term_of@,
        )
        &&& is_fused_table(
            engine_points(self.engine),
            self.k as int,
            ints(self.missing@),
            ints(self.present@),
            ints(self.repairs@),
            self.coefficients@,
        )
    }

    /// The code the plan decodes.
    pub closed spec fn code(&self) -> Code {
        coefficient_code(
            self.engine,
            coef_of_points(engine_points(self.engine), self.k as int),
            self.k as int,
            self.m as int,
            self.symbol_len as int,
        )
    }

    /// Whether `index` is part of the prepared receipt.
    pub closed spec fn expects(&self, index: int) -> bool {
        self.term_of@[index] != u16::MAX
    }

    /// Ascending data indices the plan reconstructs.
    pub closed spec fn missing_list(&self) -> Seq<int> {
        ints(self.missing@)
    }

    /// Why applying the plan is refused.
    pub open spec fn fault(&self, symbols: Seq<(usize, &[u8])>, output: int, wanted: int) -> Option<
        DecodeError,
    > {
        if symbols.len() != self.code().k {
            Some(
                DecodeError::WrongCount {
                    expected: self.code().k as usize,
                    got: symbols.len() as usize,
                },
            )
        } else if output != wanted {
            Some(DecodeError::WrongOutputLen { expected: wanted as usize, got: output as usize })
        } else {
            first_plan_fault(
                self.code().k + self.code().m,
                self.code().symbol_len,
                |i: int| self.expects(i),
                symbols,
                symbols.len() as int,
            )
        }
    }

    /// A plan takes exactly the `k` symbols that it was prepared for, each once and
    /// of `symbol_len` bytes, with an output of the wanted length. A refusal names
    /// what the request has: first the count, then the output, then the symbols.
    pub proof fn requests_are_judged(
        &self,
        symbols: Seq<(usize, &[u8])>,
        output: int,
        wanted: int,
    )
        requires
            self.valid(),
            0 <= output <= usize::MAX,
            0 <= wanted <= usize::MAX,
            symbols.len() <= usize::MAX,
        ensures
            self.fault(symbols, output, wanted) is None <==> {
                &&& symbols.len() == self.code().k
                &&& output == wanted
                &&& forall|s: int|
                    0 <= s < symbols.len() ==> (#[trigger] symbols[s]).0
                        < self.code().k + self.code().m
                        && symbols[s].1@.len() == self.code().symbol_len && self.expects(
                        symbols[s].0 as int,
                    )
                &&& forall|s: int, t: int|
                    0 <= t < s < symbols.len() ==> (#[trigger] symbols[t]).0
                        != (#[trigger] symbols[s]).0
            },
            self.fault(symbols, output, wanted) matches Some(e) ==> match e {
                DecodeError::WrongCount { expected, got } => expected == self.code().k && got
                    == symbols.len() && got != expected,
                DecodeError::WrongOutputLen { expected, got } => expected == wanted && got
                    == output && got != expected && symbols.len() == self.code().k,
                DecodeError::IndexOutOfRange { index, n } => n == self.code().k + self.code().m
                    && index >= n
                    && symbols.len() == self.code().k && exists|s: int|
                    0 <= s < symbols.len() && (#[trigger] symbols[s]).0 == index,
                DecodeError::DuplicateIndex { index } => index < self.code().k + self.code().m
                    && symbols.len() == self.code().k && exists|s: int, t: int|
                    0 <= t < s < symbols.len() && (#[trigger] symbols[t]).0 == index
                        && (#[trigger] symbols[s]).0
                        == index,
                DecodeError::WrongPayloadLen { expected, got } => expected == self.code().symbol_len
                    && got != expected && symbols.len() == self.code().k && exists|s: int|
                    0 <= s < symbols.len() && (#[trigger] symbols[s]).1@.len() == got,
                DecodeError::UnexpectedIndex { index } => index < self.code().k + self.code().m
                    && !self.expects(index as int) && symbols.len() == self.code().k
                        && exists|s: int|
                    0 <= s < symbols.len() && (#[trigger] symbols[s]).0 == index,
                _ => false,
            },
            symbols.len() == self.code().k && output != wanted <==> self.fault(
                symbols,
                output,
                wanted,
            ) matches Some(DecodeError::WrongOutputLen { .. }),
    {
        block_sizes(self.code());
        if symbols.len() == self.code().k {
            plan_faults_are_judged(
                self.code().k + self.code().m,
                self.code().symbol_len,
                |i: int| self.expects(i),
                symbols,
                symbols.len() as int,
            );
        }
    }

    /// Assembles a plan from a validated split and its coefficients.
    pub(crate) fn from_parts(
        k: usize,
        m: usize,
        symbol_len: usize,
        engine: Engine,
        missing: Vec<usize>,
        present: Vec<usize>,
        repairs: Vec<usize>,
        coefficients: Vec<GfElem>,
    ) -> (r: Self)
        requires
            k + m <= 256,
            cauchy_points(
                engine_points(engine),
                shifted(engine_points(engine), k as int),
                k as int,
                m as int,
            ),
            coefficient_code(
                engine,
                coef_of_points(engine_points(engine), k as int),
                k as int,
                m as int,
                symbol_len as int,
            ).sound(),
            (k + m) * symbol_len <= usize::MAX,
            valid_split(
                k as int,
                m as int,
                ints(missing@),
                ints(present@),
                ints(repairs@),
            ),
            is_fused_table(
                engine_points(engine),
                k as int,
                ints(missing@),
                ints(present@),
                ints(repairs@),
                coefficients@,
            ),
        ensures
            r.valid(),
            r.code() == coefficient_code(
                engine,
                coef_of_points(engine_points(engine), k as int),
                k as int,
                m as int,
                symbol_len as int,
            ),
            r.missing_list() == ints(missing@),
            r.present_list() == ints(present@),
            r.repair_list() == ints(repairs@),
            forall|i: int|
                0 <= i < k + m ==> #[trigger] r.expects(i) == (ints(present@).contains(i) || ints(
                    repairs@,
                ).contains(i - k)),
    {
        let ghost kept = ints(present@);
        let ghost used = ints(repairs@);
        let n: usize = k + m;
        let mut term_of: [u16; 256] = [u16::MAX; 256];
        let mut t: usize = 0;
        while t < k
            invariant
                t <= k,
                n == k + m,
                k + m <= 256,
                kept == ints(present@),
                used == ints(repairs@),
                valid_split(k as int, m as int, ints(missing@), kept, used),
                forall|s: int|
                    0 <= s < t ==> term_of@[#[trigger] term_index(k as int, kept, used, s)] == s,
                forall|j: int|
                    0 <= j < 256 && #[trigger] term_of@[j] != u16::MAX ==> j < n && term_of@[j] < t
                        && term_index(k as int, kept, used, term_of@[j] as int) == j,
            decreases k - t,
        {
            let ghost before = term_of@;
            let index: usize = if t < repairs.len() {
                proof {
                    assert(used[t as int] == repairs@[t as int]);
                }
                k + repairs[t]
            } else {
                proof {
                    assert(kept[t - used.len()] == present@[t - used.len()]);
                }
                present[t - repairs.len()]
            };
            term_of[index] = t as u16;
            proof {
                assert(term_index(k as int, kept, used, t as int) == index);
                assert forall|s: int| 0 <= s < t + 1 implies term_of@[#[trigger] term_index(
                    k as int,
                    kept,
                    used,
                    s,
                )] == s by {
                    if s < t {
                        term_indices_differ(
                            k as int,
                            m as int,
                            ints(missing@),
                            kept,
                            used,
                            s,
                            t as int,
                        );
                        assert(before[term_index(k as int, kept, used, s)] == s);
                    }
                }
            }
            t += 1;
        }
        let r = DecodePlan {
            k,
            m,
            symbol_len,
            engine,
            missing,
            present,
            repairs,
            term_of,
            coefficients,
        };
        proof {
            assert forall|i: int| 0 <= i < k + m implies #[trigger] r.expects(i) == (
            kept.contains(i) || used.contains(i - k)) by {
                if r.expects(i) {
                    let t = r.term_of@[i] as int;
                    if t < used.len() {
                        assert(used[t] == i - k);
                    } else {
                        assert(kept[t - used.len()] == i);
                    }
                }
                if kept.contains(i) {
                    let p = choose|p: int| 0 <= p < kept.len() && kept[p] == i;
                    assert(term_index(k as int, kept, used, used.len() + p) == i);
                }
                if used.contains(i - k) {
                    let b = choose|b: int| 0 <= b < used.len() && used[b] == i - k;
                    assert(term_index(k as int, kept, used, b) == i);
                }
            }
        }
        r
    }

    /// Data indices of the prepared receipt, in the order they were given.
    pub closed spec fn present_list(&self) -> Seq<int> {
        ints(self.present@)
    }

    /// Repair numbers of the prepared receipt, in the order they were given.
    pub closed spec fn repair_list(&self) -> Seq<int> {
        ints(self.repairs@)
    }

    /// Fused coefficients, one row per received symbol, repairs before data.
    #[must_use]
    pub fn coefficients(&self) -> (r: &[GfElem])
        requires
            self.valid(),
        ensures
            is_fused_table(
                engine_points(self.code().engine),
                self.code().k,
                self.missing_list(),
                self.present_list(),
                self.repair_list(),
                r@,
            ),
    {
        self.coefficients.as_slice()
    }

    /// The receipt pattern this plan was prepared for.
    #[must_use]
    pub fn pattern(&self) -> (r: PatternKey)
        requires
            self.valid(),
        ensures
            forall|i: int|
                0 <= i < 256 ==> (#[trigger] r.bit(i) <==> i < self.code().k + self.code().m
                    && self.expects(i)),
    {
        let mut pattern = PatternKey::empty();
        let mut index: usize = 0;
        while index < 256
            invariant
                self.valid(),
                index <= 256,
                forall|i: int|
                    0 <= i < 256 ==> (#[trigger] pattern.bit(i) <==> i < index && self.expects(i)),
            decreases 256 - index,
        {
            if self.term_of[index] != u16::MAX {
                pattern.set(index);
            }
            index += 1;
        }
        pattern
    }

    /// Coefficient-row ordinal of each codeword index; `u16::MAX` marks symbols
    /// outside the prepared receipt.
    #[must_use]
    pub fn term_ordinals(&self) -> (r: &[u16; 256])
        requires
            self.valid(),
        ensures
            forall|i: int|
                0 <= i < 256 ==> (#[trigger] r@[i] != u16::MAX <==> i < self.code().k
                    + self.code().m && self.expects(i)) && (r@[i] != u16::MAX ==> r@[i]
                    < self.code().k && term_index(
                    self.code().k,
                    self.present_list(),
                    self.repair_list(),
                    r@[i] as int,
                ) == i),
    {
        &self.term_of
    }

    /// Data-symbol count of the geometry this plan was built for.
    pub fn k(&self) -> (r: usize)
        ensures
            r == self.code().k,
    {
        self.k
    }

    /// Repair-symbol count of the geometry this plan was built for.
    pub fn m(&self) -> (r: usize)
        ensures
            r == self.code().m,
    {
        self.m
    }

    /// Per-symbol byte length.
    pub fn symbol_len(&self) -> (r: usize)
        ensures
            r == self.code().symbol_len,
    {
        self.symbol_len
    }

    /// Number of erased data symbols this plan reconstructs.
    pub fn erasure_count(&self) -> (r: usize)
        ensures
            r == self.missing_list().len(),
    {
        self.missing.len()
    }

    /// Ascending data indices reconstructed by this plan.
    pub fn missing_indices(&self) -> (r: &[usize])
        ensures
            ints(r@) == self.missing_list(),
    {
        self.missing.as_slice()
    }

    /// Validates the symbols against the prepared pattern and returns their
    /// payloads in term order.
    fn ordered_sources<'a>(&self, symbols: &[(usize, &'a [u8])]) -> (r: Result<
        Vec<&'a [u8]>,
        DecodeError,
    >)
        requires
            self.valid(),
            symbols@.len() == self.k,
        ensures
            match first_plan_fault(
                self.k + self.m,
                self.symbol_len as int,
                |i: int| self.expects(i),
                symbols@,
                self.k as int,
            ) {
                Some(e) => r == Err::<Vec<&'a [u8]>, DecodeError>(e),
                None => r is Ok,
            },
            r matches Ok(sources) ==> {
                &&& sources@.len() == self.k
                &&& forall|t: int|
                    0 <= t < self.k ==> (#[trigger] sources@[t])@.len() == self.symbol_len
                &&& forall|s: int|
                    0 <= s < symbols@.len() ==> (#[trigger] symbols@[s]).0 < self.k + self.m
                        && self.term_of@[symbols@[s].0 as int] != u16::MAX
                        && sources@[self.term_of@[symbols@[s].0 as int] as int]@
                        == symbols@[s].1@
            },
    {
        let n: usize = self.k + self.m;
        let k: usize = self.k;
        let ghost l = self.symbol_len as int;
        let ghost expected = |i: int| self.expects(i);
        let mut seen: Vec<bool> = vec![false; n];
        let mut order: Vec<usize> = vec![0usize; k];
        let ghost mut ordinals: Seq<int> = Seq::empty();
        let mut s: usize = 0;
        while s < symbols.len()
            invariant
                s <= symbols@.len(),
                symbols@.len() == k,
                self.valid(),
                n == self.k + self.m,
                k == self.k,
                l == self.symbol_len,
                expected == (|i: int| self.expects(i)),
                seen@.len() == n,
                order@.len() == k,
                ordinals.len() == s,
                first_plan_fault(n as int, l, expected, symbols@, s as int) is None,
                forall|i: int|
                    0 <= i < n ==> #[trigger] seen@[i] == exists|t: int|
                        0 <= t < s && (#[trigger] symbols@[t]).0 == i,
                distinct(ordinals),
                forall|t: int|
                    0 <= t < s ==> (#[trigger] symbols@[t]).0 < n && symbols@[t].1@.len() == l
                        && self.term_of@[symbols@[t].0 as int] != u16::MAX,
                forall|t: int|
                    0 <= t < s ==> 0 <= #[trigger] ordinals[t] < k && ordinals[t]
                        == self.term_of@[symbols@[t].0 as int],
                forall|t: int| 0 <= t < s ==> order@[#[trigger] ordinals[t]] == t,
            decreases symbols@.len() - s,
        {
            let index: usize = symbols[s].0;
            proof {
                assert(symbols@[s as int].0 == index);
                if plan_symbol_fault(n as int, l, expected, symbols@, s as int) is Some {
                    plan_fault_persists(n as int, l, expected, symbols@, s + 1, k as int);
                }
            }
            if index >= n {
                return Err(DecodeError::IndexOutOfRange { index, n });
            }
            proof {
                assert(expected(index as int) == self.expects(index as int));
            }
            let entry: u16 = self.term_of[index];
            if entry == u16::MAX {
                return Err(DecodeError::UnexpectedIndex { index });
            }
            let ordinal: usize = entry as usize;
            proof {
                assert(seen@[index as int] == occurs_before(symbols@, s as int));
            }
            if seen[index] {
                return Err(DecodeError::DuplicateIndex { index });
            }
            if symbols[s].1.len() != self.symbol_len {
                return Err(
                    DecodeError::WrongPayloadLen {
                        expected: self.symbol_len,
                        got: symbols[s].1.len(),
                    },
                );
            }
            let ghost old_seen = seen@;
            let ghost old_ordinals = ordinals;
            let ghost old_order = order@;
            seen[index] = true;
            order[ordinal] = s;
            proof {
                ordinals = old_ordinals.push(ordinal as int);
                assert forall|i: int| 0 <= i < n implies #[trigger] seen@[i] == exists|
                    t: int,
                |
                    0 <= t < s + 1 && (#[trigger] symbols@[t]).0 == i by {
                    if i == index {
                        assert(symbols@[s as int].0 == i);
                    } else {
                        assert(old_seen[i] == exists|t: int|
                            0 <= t < s && (#[trigger] symbols@[t]).0 == i);
                    }
                }
                assert forall|t: int| 0 <= t < s implies old_ordinals[t] != ordinal by {
                    if old_ordinals[t] == ordinal {
                        assert(symbols@[t].0 < n);
                        assert(self.term_of@[symbols@[t].0 as int] == ordinal);
                        assert(symbols@[t].0 == index);
                        assert(old_seen[index as int]);
                    }
                }
                assert forall|t: int| 0 <= t < s + 1 implies order@[#[trigger] ordinals[t]]
                    == t by {
                    if t < s {
                        assert(ordinals[t] == old_ordinals[t]);
                        assert(old_order[old_ordinals[t]] == t);
                    }
                }
            }
            s += 1;
        }
        proof {
            assert forall|t: int| 0 <= t < k implies 0 <= #[trigger] order@[t] < k
                && self.term_of@[symbols@[order@[t] as int].0 as int] == t by {
                full_list_covers(ordinals, k as int, t);
                let s = choose|s: int| 0 <= s < ordinals.len() && ordinals[s] == t;
                assert(order@[ordinals[s]] == s);
            }
        }
        let mut sources: Vec<&'a [u8]> = Vec::new();
        let mut t: usize = 0;
        while t < k
            invariant
                t <= k,
                order@.len() == k,
                symbols@.len() == k,
                forall|t: int| 0 <= t < k ==> 0 <= #[trigger] order@[t] < k,
                sources@.len() == t,
                forall|q: int|
                    0 <= q < t ==> #[trigger] sources@[q] == symbols@[order@[q] as int].1,
            decreases k - t,
        {
            sources.push(symbols[order[t]].1);
            t += 1;
        }
        proof {
            assert forall|t: int| 0 <= t < k implies (#[trigger] sources@[t])@.len() == l by {
                assert(0 <= order@[t] < k);
                assert(symbols@[order@[t] as int].1@.len() == l);
            }
            assert forall|s: int| 0 <= s < symbols@.len() implies (#[trigger] symbols@[s]).0 < n
                && self.term_of@[symbols@[s].0 as int] != u16::MAX
                && sources@[self.term_of@[symbols@[s].0 as int] as int]@
                == symbols@[s].1@ by {
                assert(order@[ordinals[s]] == s);
            }
        }
        Ok(sources)
    }

    /// The block assembled from the sources explains the symbols.
    proof fn assembled_explains(
        &self,
        symbols: Seq<(usize, &[u8])>,
        sources: Seq<&[u8]>,
        rows: Seq<u8>,
        block: Seq<u8>,
    )
        requires
            self.valid(),
            sources.len() == self.k,
            forall|t: int|
                0 <= t < self.k ==> (#[trigger] sources[t])@.len() == self.symbol_len,
            holds_combined(
                self.coefficients@,
                sources,
                self.missing@.len() as int,
                self.symbol_len as int,
                rows,
            ),
            block.len() == self.k * self.symbol_len,
            forall|p: int|
                0 <= p < self.present@.len() ==> row_of(
                    block,
                    self.symbol_len as int,
                    #[trigger] ints(self.present@)[p],
                ) == sources[self.missing@.len() + p]@,
            forall|a: int|
                0 <= a < self.missing@.len() ==> row_of(
                    block,
                    self.symbol_len as int,
                    #[trigger] ints(self.missing@)[a],
                ) == row_of(rows, self.symbol_len as int, a),
            forall|s: int|
                0 <= s < symbols.len() ==> (#[trigger] symbols[s]).0 < self.k + self.m
                    && self.term_of@[symbols[s].0 as int] != u16::MAX
                    && sources[self.term_of@[symbols[s].0 as int] as int]@
                    == symbols[s].1@,
        ensures
            explains(self.code(), block, symbols),
    {
        assembled_block_agrees(
            engine_points(self.engine),
            self.k as int,
            self.m as int,
            self.symbol_len as int,
            ints(self.missing@),
            ints(self.present@),
            ints(self.repairs@),
            self.coefficients@,
            sources,
            rows,
            block,
        );
        assert forall|s: int| 0 <= s < symbols.len() implies (#[trigger] symbols[s]).1@ == (
        self.code().symbol)(block, symbols[s].0 as int) by {
            let t = self.term_of@[symbols[s].0 as int] as int;
            assert(sources[t]@ == symbols[s].1@);
        }
    }

    /// Reconstructs only the missing data symbols into `missing_out`
    /// (`erasure_count * symbol_len` bytes, ascending data-index order).
    ///
    /// `symbols` must be exactly the `k` received symbols the plan was prepared
    /// for, in any order.
    pub fn reconstruct_missing_into(
        &self,
        symbols: &[(usize, &[u8])],
        missing_out: &mut [u8],
    ) -> (r: Result<(), DecodeError>)
        requires
            self.valid(),
        ensures
            reconstructed(
                self.code(),
                self.fault(
                    symbols@,
                    old(missing_out)@.len() as int,
                    self.missing_list().len() * self.code().symbol_len,
                ),
                symbols@,
                self.missing_list(),
                old(missing_out)@,
                final(missing_out)@,
                r,
            ),
            r is Ok <==> {
                &&& symbols@.len() == self.code().k
                &&& old(missing_out)@.len() == self.missing_list().len() * self.code().symbol_len
                &&& forall|s: int|
                    0 <= s < symbols@.len() ==> (#[trigger] symbols@[s]).0
                        < self.code().k + self.code().m
                        && symbols@[s].1@.len() == self.code().symbol_len && self.expects(
                        symbols@[s].0 as int,
                    )
                &&& forall|s: int, t: int|
                    0 <= t < s < symbols@.len() ==> (#[trigger] symbols@[t]).0
                        != (#[trigger] symbols@[s]).0
            },
            r is Err ==> final(missing_out)@ == old(missing_out)@,
            match r {
                Ok(_) => true,
                Err(DecodeError::WrongCount { expected, got }) => expected == self.code().k && got
                    == symbols@.len() && got != expected,
                Err(DecodeError::WrongOutputLen { expected, got }) => expected
                    == self.missing_list().len() * self.code().symbol_len && got
                    == old(missing_out)@.len() && got != expected
                        && symbols@.len() == self.code().k,
                Err(DecodeError::IndexOutOfRange { index, n }) => n
                    == self.code().k + self.code().m && index >= n
                    && symbols@.len() == self.code().k && exists|s: int|
                    0 <= s < symbols@.len() && (#[trigger] symbols@[s]).0 == index,
                Err(DecodeError::DuplicateIndex { index }) => index < self.code().k + self.code().m
                    && symbols@.len() == self.code().k && exists|s: int, t: int|
                    0 <= t < s < symbols@.len() && (#[trigger] symbols@[t]).0 == index
                        && (#[trigger] symbols@[s]).0
                        == index,
                Err(DecodeError::WrongPayloadLen { expected, got }) => expected
                    == self.code().symbol_len
                    && got != expected && symbols@.len() == self.code().k && exists|s: int|
                    0 <= s < symbols@.len() && (#[trigger] symbols@[s]).1@.len() == got,
                Err(DecodeError::UnexpectedIndex { index }) => index < self.code().k + self.code().m
                    && !self.expects(index as int) && symbols@.len() == self.code().k
                        && exists|s: int|
                    0 <= s < symbols@.len() && (#[trigger] symbols@[s]).0 == index,
                _ => false,
            },
            symbols@.len() == self.code().k
                && old(missing_out)@.len() != self.missing_list().len() * self.code().symbol_len
                <==> r matches Err(DecodeError::WrongOutputLen { .. }),
    {
        let count: usize = self.missing.len();
        proof {
            split_fits(
                self.k as int,
                self.m as int,
                self.symbol_len as int,
                ints(self.missing@),
                ints(self.present@),
            );
            assert(symbols.len() == symbols@.len());
            self.requests_are_judged(symbols@, missing_out.len() as int, count * self.symbol_len);
        }
        if symbols.len() != self.k {
            return Err(DecodeError::WrongCount { expected: self.k, got: symbols.len() });
        }
        let expected: usize = count * self.symbol_len;
        if missing_out.len() != expected {
            return Err(DecodeError::WrongOutputLen { expected, got: missing_out.len() });
        }
        match self.ordered_sources(symbols) {
            Err(e) => Err(e),
            Ok(sources) => {
                combine_sources(
                    &self.coefficients,
                    &sources,
                    count,
                    self.symbol_len,
                    missing_out,
                );
                proof {
                    let block = assembled_block(
                        self.k as int,
                        self.symbol_len as int,
                        ints(self.missing@),
                        ints(self.present@),
                        sources@,
                        missing_out@,
                    );
                    self.assembled_explains(symbols@, sources@, missing_out@, block);
                }
                Ok(())
            },
        }
    }

    /// Decodes all `k` data symbols into `out` (`k * symbol_len` bytes):
    /// surviving rows are copied, missing rows reconstructed.
    ///
    /// `symbols` must be exactly the `k` received symbols the plan was prepared
    /// for, in any order.
    pub fn decode_into(&self, symbols: &[(usize, &[u8])], out: &mut [u8]) -> (r: Result<
        (),
        DecodeError,
    >)
        requires
            self.valid(),
        ensures
            decoded(
                self.code(),
                self.fault(
                    symbols@,
                    old(out)@.len() as int,
                    self.code().k * self.code().symbol_len,
                ),
                symbols@,
                old(out)@,
                final(out)@,
                r,
            ),
            r is Ok <==> {
                &&& symbols@.len() == self.code().k
                &&& old(out)@.len() == self.code().k * self.code().symbol_len
                &&& forall|s: int|
                    0 <= s < symbols@.len() ==> (#[trigger] symbols@[s]).0
                        < self.code().k + self.code().m
                        && symbols@[s].1@.len() == self.code().symbol_len && self.expects(
                        symbols@[s].0 as int,
                    )
                &&& forall|s: int, t: int|
                    0 <= t < s < symbols@.len() ==> (#[trigger] symbols@[t]).0
                        != (#[trigger] symbols@[s]).0
            },
            r is Err ==> final(out)@ == old(out)@,
            match r {
                Ok(_) => true,
                Err(DecodeError::WrongCount { expected, got }) => expected == self.code().k && got
                    == symbols@.len() && got != expected,
                Err(DecodeError::WrongOutputLen { expected, got }) => expected
                    == self.code().k * self.code().symbol_len && got
                    == old(out)@.len() && got != expected && symbols@.len() == self.code().k,
                Err(DecodeError::IndexOutOfRange { index, n }) => n
                    == self.code().k + self.code().m && index >= n
                    && symbols@.len() == self.code().k && exists|s: int|
                    0 <= s < symbols@.len() && (#[trigger] symbols@[s]).0 == index,
                Err(DecodeError::DuplicateIndex { index }) => index < self.code().k + self.code().m
                    && symbols@.len() == self.code().k && exists|s: int, t: int|
                    0 <= t < s < symbols@.len() && (#[trigger] symbols@[t]).0 == index
                        && (#[trigger] symbols@[s]).0
                        == index,
                Err(DecodeError::WrongPayloadLen { expected, got }) => expected
                    == self.code().symbol_len
                    && got != expected && symbols@.len() == self.code().k && exists|s: int|
                    0 <= s < symbols@.len() && (#[trigger] symbols@[s]).1@.len() == got,
                Err(DecodeError::UnexpectedIndex { index }) => index < self.code().k + self.code().m
                    && !self.expects(index as int) && symbols@.len() == self.code().k
                        && exists|s: int|
                    0 <= s < symbols@.len() && (#[trigger] symbols@[s]).0 == index,
                _ => false,
            },
            symbols@.len() == self.code().k
                && old(out)@.len() != self.code().k * self.code().symbol_len
                <==> r matches Err(DecodeError::WrongOutputLen { .. }),
    {
        let count: usize = self.missing.len();
        proof {
            split_fits(
                self.k as int,
                self.m as int,
                self.symbol_len as int,
                ints(self.missing@),
                ints(self.present@),
            );
            assert(symbols.len() == symbols@.len());
            self.requests_are_judged(symbols@, out.len() as int, self.k * self.symbol_len);
        }
        if symbols.len() != self.k {
            return Err(DecodeError::WrongCount { expected: self.k, got: symbols.len() });
        }
        let expected: usize = self.k * self.symbol_len;
        if out.len() != expected {
            return Err(DecodeError::WrongOutputLen { expected, got: out.len() });
        }
        match self.ordered_sources(symbols) {
            Err(e) => Err(e),
            Ok(sources) => {
                let mut staging: Vec<u8> = vec![0u8; count * self.symbol_len];
                combine_sources(
                    &self.coefficients,
                    &sources,
                    count,
                    self.symbol_len,
                    &mut staging,
                );
                assemble(
                    self.k,
                    self.symbol_len,
                    &self.missing,
                    &self.present,
                    &sources,
                    &staging,
                    out,
                );
                proof {
                    self.assembled_explains(symbols@, sources@, staging@, out@);
                }
                Ok(())
            },
        }
    }
}

/// Different sources have different codeword indices.
proof fn term_indices_differ(
    k: int,
    m: int,
    missing: Seq<int>,
    present: Seq<int>,
    repairs: Seq<int>,
    s: int,
    t: int,
)
    requires
        valid_split(k, m, missing, present, repairs),
        0 <= s < t < k,
    ensures
        term_index(k, present, repairs, s) != term_index(k, present, repairs, t),
{
    let r = repairs.len() as int;
    if t < r {
        assert(repairs[s] != repairs[t]);
    } else if s < r {
        assert(0 <= repairs[s]);
        assert(present[t - r] < k);
    } else {
        assert(present[s - r] != present[t - r]);
    }
}

/// Missing rows and the whole block fit in memory when a codeword does.
pub proof fn split_fits(k: int, m: int, symbol_len: int, missing: Seq<int>, present: Seq<int>)
    requires
        1 <= symbol_len,
        0 <= m,
        missing.len() + present.len() == k,
        (k + m) * symbol_len <= usize::MAX,
    ensures
        0 <= missing.len() * symbol_len <= usize::MAX,
        0 <= k * symbol_len <= usize::MAX,
{
    let r = missing.len() as int;
    assert(0 <= r * symbol_len <= (k + m) * symbol_len && 0 <= k * symbol_len <= (k + m)
        * symbol_len) by (nonlinear_arith)
        requires
            1 <= symbol_len,
            0 <= m,
            0 <= r <= k,
    ;
}

} // verus!
