//! What the decoders prepare once per geometry, and how they rebuild a block.

use vstd::prelude::*;

use crate::afft::code::{afft_coef, field_size, padded, padded_dimension, shape_facts};
use crate::afft::crossover::{
    cost_fits, crossover, crossover_breaks_even, small_costs_fit, targeted_max_missing,
};
use crate::afft::field::{pattern_basis, Field};
use crate::afft::generator::systematic_pattern;
use crate::afft::locator::{known_in, ErasureLocator, LocatorScratch};
use crate::afft::profile::Profile;
use crate::afft::reconstruct::{
    holds_solve, marks_sources, plans, rebuild_located, rebuild_targeted, rebuildable,
    sources_encoded, TargetedTables,
};
use crate::afft::recovery::{holds_product, holds_slopes, RecoveryScratch};
use crate::afft::systematic::systematic_locator_with;
use crate::afft::tables::LogExpTables;
use crate::afft::targeted::{embeds, TargetedInverse};
use crate::afft::transform::{dimension_is_fault_free, PlanError, TransformPlan};
use crate::algebra::domains::{span_size, span_size_is_injective};
use crate::batch::plan::holds_rows;
use crate::decoder::reduced::{assemble, ints, term_index};
use crate::payload::copy_row;
use crate::symbols::{codeword_symbol, row_bounds, row_of, systematic_symbol};

verus! {

/// The plan of the whole evaluation domain with the tables and the locator of
/// the systematic points.
#[derive(Clone, Debug)]
pub struct Domain<F: Field> {
    plan: TransformPlan<F>,
    tables: LogExpTables<F>,
    systematic: ErasureLocator<F>,
}

/// Largest erasure count of the dense solve in a geometry.
pub open spec fn targeted_limit<F: Field>(k: int, m: int, symbol_len: int) -> int {
    let limit = crossover(
        k,
        padded_dimension(k + m),
        symbol_len / F::width(),
        F::width(),
    );
    if limit <= m {
        limit
    } else {
        m
    }
}

/// The dense solve takes at least one erasure and no more than there are data or
/// repair symbols; within that it takes a count exactly as long as it is no dearer
/// than the passes over the domain.
pub proof fn dense_solves_break_even<F: Field>(k: int, m: int, symbol_len: int)
    requires
        k >= 1,
        m >= 1,
        symbol_len >= 0,
        F::width() == 1 || F::width() == 2,
    ensures
        ({
            let limit = targeted_limit::<F>(k, m, symbol_len);
            let elements = symbol_len / F::width();
            let dimension = padded_dimension(k + m);
            let passes = 27 * (span_size(dimension) * dimension) * (elements + 32);
            let row = if F::width() == 1 {
                8 * (elements + 512)
            } else {
                20 * (elements + 512)
            };
            &&& 1 <= limit <= k
            &&& limit <= m
            &&& limit > 1 ==> limit * (k + limit) * row <= passes
            &&& limit < k && limit < m ==> (limit + 1) * (k + limit + 1) * row > passes
        }),
{
    let elements = symbol_len / F::width();
    assert(elements >= 0) by (nonlinear_arith)
        requires
            elements == symbol_len / F::width(),
            symbol_len >= 0,
            F::width() >= 1,
    ;
    let dimension = padded_dimension(k + m);
    crossover_breaks_even(k, dimension, elements, F::width());
    let limit = targeted_limit::<F>(k, m, symbol_len);
    let most = crossover(k, dimension, elements, F::width());
    let passes = 27 * (span_size(dimension) * dimension) * (elements + 32);
    let row = if F::width() == 1 {
        8 * (elements + 512)
    } else {
        20 * (elements + 512)
    };
    if limit > 1 {
        assert(limit * (k + limit) * row <= most * (k + most) * row) by (nonlinear_arith)
            requires
                1 <= limit <= most,
                k >= 1,
                row >= 1,
        ;
    }
}

/// Largest erasure count of the dense solve in a geometry.
pub fn targeted_capacity<F: Field>(profile: &Profile) -> (r: usize)
    requires
        profile.valid::<F>(),
    ensures
        r == targeted_limit::<F>(
            profile.k as int,
            profile.m as int,
            profile.symbol_len as int,
        ),
        1 <= r <= profile.k,
        r <= profile.m,
{
    proof {
        shape_facts::<F>(profile.k as int, profile.m as int, profile.symbol_len as int);
        assert(profile.transform_size == span_size(padded_dimension(profile.n as int)));
        field_size::<F>();
        F::width_is_positive();
        let elements = profile.symbol_len as int / F::width();
        assert(0 <= elements <= profile.symbol_len) by (nonlinear_arith)
            requires
                elements == profile.symbol_len as int / F::width(),
                F::width() >= 1,
                profile.symbol_len >= 0,
        ;
        assert forall|dimension: nat|
            profile.transform_size == #[trigger] span_size(dimension) implies cost_fits(
            profile.k as int,
            dimension,
            elements,
            F::width(),
        ) by {
            small_costs_fit(profile.k as int, dimension, elements, F::width());
        }
    }
    let limit: usize = targeted_max_missing::<F>(
        profile.k,
        profile.transform_size,
        profile.symbol_len,
    );
    if limit <= profile.m {
        limit
    } else {
        profile.m
    }
}

impl<F: Field> Domain<F> {
    /// Everything belongs to the geometry.
    pub closed spec fn prepared(&self, k: int, m: int) -> bool {
        &&& plans(&self.plan, k, m)
        &&& self.tables.valid()
        &&& self.systematic.locates(self.plan.ordered_basis(), systematic_pattern(k))
    }

    /// The plan of the whole evaluation domain.
    pub fn plan(&self) -> (r: &TransformPlan<F>)
        ensures
            forall|k: int, m: int| #[trigger] self.prepared(k, m) ==> plans(r, k, m),
    {
        &self.plan
    }

    /// The locator of the systematic points.
    pub fn systematic(&self) -> (r: &ErasureLocator<F>)
        ensures
            forall|k: int, m: int| #[trigger]
                self.prepared(k, m) ==> r.locates(
                    pattern_basis::<F>(padded_dimension(k + m)),
                    systematic_pattern(k),
                ),
    {
        &self.systematic
    }

    /// Prepares the domain of a geometry.
    pub fn new(profile: &Profile) -> (r: Result<Self, PlanError>)
        requires
            profile.valid::<F>(),
        ensures
            r matches Ok(domain) && domain.prepared(profile.k as int, profile.m as int),
    {
        let ghost dimension = padded_dimension(profile.n as int);
        proof {
            shape_facts::<F>(profile.k as int, profile.m as int, profile.symbol_len as int);
            dimension_is_fault_free(padded(profile.n as int), F::bits(), dimension);
        }
        match TransformPlan::<F>::new(profile.transform_size) {
            Ok(plan) => {
                proof {
                    span_size_is_injective(plan.ordered_basis().len(), dimension);
                }
                let tables = LogExpTables::<F>::build();
                let systematic = systematic_locator_with(&plan, &tables, profile.k);
                Ok(Domain { plan, tables, systematic })
            },
            Err(error) => Err(error),
        }
    }
}

/// Workspace of both recovery paths.
#[derive(Clone, Debug)]
pub struct Workspace<F: Field> {
    missing_data: Vec<usize>,
    known: Vec<bool>,
    locator: ErasureLocator<F>,
    locator_scratch: LocatorScratch,
    recovery: RecoveryScratch,
    inverse: TargetedInverse<F>,
    solve: TargetedTables<F>,
    recovered: Vec<u8>,
}

impl<F: Field> Workspace<F> {
    /// The dense solve is allowed up to the capacity of its workspace.
    pub closed spec fn valid(&self) -> bool {
        self.inverse.valid()
    }

    /// Largest erasure count of the dense solve.
    pub closed spec fn limit(&self) -> int {
        self.inverse.capacity()
    }

    /// Data positions of the last rebuild.
    pub closed spec fn missing_list(&self) -> Seq<usize> {
        self.missing_data@
    }

    /// Receipt map over the domain of the last rebuild over the whole domain.
    pub closed spec fn known_marks(&self) -> Seq<bool> {
        self.known@
    }

    /// The erasure locator of that map.
    pub closed spec fn locator_state(&self) -> ErasureLocator<F> {
        self.locator
    }

    /// Workspace of the locator's computation.
    pub closed spec fn locator_scratch_state(&self) -> LocatorScratch {
        self.locator_scratch
    }

    /// Workspace of the row recovery.
    pub closed spec fn recovery_state(&self) -> RecoveryScratch {
        self.recovery
    }

    /// Tables of the last dense solve.
    pub closed spec fn solve_tables(&self) -> TargetedTables<F> {
        self.solve
    }

    /// The system of the last dense solve, as the leading block of an identity.
    pub closed spec fn augmented_table(&self) -> Seq<F> {
        self.inverse.embedded_table()
    }

    /// Missing rows of the last rebuild that had any.
    pub closed spec fn recovered_rows(&self) -> Seq<u8> {
        self.recovered@
    }

    /// Nothing has been rebuilt yet over a domain of `size` points.
    pub open spec fn untouched(&self, size: int) -> bool {
        &&& self.missing_list().len() == 0
        &&& self.known_marks() == Seq::new(size as nat, |i: int| false)
        &&& self.locator_state().value_table() == Seq::new(size as nat, |i: int| F::zero_elem())
        &&& self.locator_state().derivative_table() == Seq::new(
            size as nat,
            |i: int| F::zero_elem(),
        )
        &&& self.locator_scratch_state().domain() == size
        &&& self.recovery_state().bytes() == 0
        &&& self.recovery_state().derivative_rows().len() == 0
        &&& self.solve_tables().repair_indices@.len() == 0
        &&& self.solve_tables().generator@.len() == 0
        &&& self.solve_tables().system@.len() == 0
        &&& self.solve_tables().inverse@.len() == 0
        &&& self.solve_tables().coefficients@.len() == 0
        &&& self.solve_tables().residuals@.len() == 0
        &&& self.augmented_table().len() == 0
        &&& self.recovered_rows().len() == 0
    }

    /// Data positions of the last rebuild.
    pub fn missing_data(&self) -> (r: &[usize])
        ensures
            r@ == self.missing_list(),
    {
        self.missing_data.as_slice()
    }

    /// Data positions of the last rebuild, to be changed.
    pub fn missing_data_mut(&mut self) -> (r: &mut Vec<usize>)
        ensures
            r@ == old(self).missing_list(),
            final(self).missing_list() == final(r)@,
            final(self).valid() == old(self).valid(),
            final(self).limit() == old(self).limit(),
            final(self).recovered_rows() == old(self).recovered_rows(),
            final(self).solve_tables() == old(self).solve_tables(),
            final(self).augmented_table() == old(self).augmented_table(),
            keeps_located(old(self), final(self)),
    {
        &mut self.missing_data
    }

    /// Receipt map over the domain.
    pub fn known(&self) -> (r: &[bool])
        ensures
            r@ == self.known_marks(),
    {
        self.known.as_slice()
    }

    /// The erasure locator.
    pub fn locator(&self) -> (r: &ErasureLocator<F>)
        ensures
            *r == self.locator_state(),
    {
        &self.locator
    }

    /// Workspace of the locator's computation.
    pub fn locator_scratch(&self) -> (r: &LocatorScratch)
        ensures
            *r == self.locator_scratch_state(),
    {
        &self.locator_scratch
    }

    /// Workspace of the row recovery.
    pub fn recovery(&self) -> (r: &RecoveryScratch)
        ensures
            *r == self.recovery_state(),
    {
        &self.recovery
    }

    /// Tables of the last dense solve.
    pub fn solve(&self) -> (r: &TargetedTables<F>)
        ensures
            *r == self.solve_tables(),
    {
        &self.solve
    }

    /// The system of the last dense solve, as the leading block of an identity.
    pub fn augmented(&self) -> (r: &[F])
        ensures
            r@ == self.augmented_table(),
    {
        self.inverse.embedded()
    }

    /// Missing rows of the last rebuild that had any.
    pub fn recovered(&self) -> (r: &[u8])
        ensures
            r@ == self.recovered_rows(),
    {
        self.recovered.as_slice()
    }

    /// Largest erasure count of the dense solve.
    pub fn limit_value(&self) -> (r: usize)
        ensures
            r == self.limit(),
    {
        self.inverse.capacity_value()
    }

    /// A workspace for a domain of `size` points and dense solves of up to
    /// `order` unknowns.
    pub fn new(size: usize, order: usize) -> (r: Self)
        requires
            order <= 65536,
            order * order <= usize::MAX,
        ensures
            r.valid(),
            r.limit() == order,
            r.untouched(size as int),
    {
        let r = Workspace {
            missing_data: Vec::new(),
            known: vec![false; size],
            locator: ErasureLocator::for_domain(size),
            locator_scratch: LocatorScratch::for_domain(size),
            recovery: RecoveryScratch::new(),
            inverse: TargetedInverse::new(order),
            solve: TargetedTables::new(),
            recovered: Vec::new(),
        };
        proof {
            assert(r.known_marks() =~= Seq::new(size as nat, |i: int| false));
        }
        r
    }
}

/// What the rebuild over the whole domain uses is unchanged.
pub open spec fn keeps_located<F: Field>(before: &Workspace<F>, after: &Workspace<F>) -> bool {
    &&& after.known_marks() == before.known_marks()
    &&& after.locator_state() == before.locator_state()
    &&& after.locator_scratch_state() == before.locator_scratch_state()
    &&& after.recovery_state() == before.recovery_state()
}

/// What a rebuild leaves alone: without missing rows everything but their list,
/// with them the workspace of the path it did not take.
pub open spec fn keeps_rest<F: Field>(before: &Workspace<F>, after: &Workspace<F>) -> bool {
    let count = after.missing_list().len();
    &&& count == 0 ==> after.recovered_rows() == before.recovered_rows()
    &&& count <= before.limit() ==> keeps_located(before, after)
    &&& count == 0 || count > before.limit() ==> after.solve_tables() == before.solve_tables()
        && after.augmented_table() == before.augmented_table()
}

/// A rebuild without missing rows changes no table and no rows; one that solves
/// leaves what the other path computed, and one over the whole domain leaves the
/// tables of the last solve.
pub proof fn rebuilds_leave_the_other_path_alone<F: Field>(
    before: &Workspace<F>,
    after: &Workspace<F>,
)
    requires
        keeps_rest(before, after),
        before.limit() >= 0,
    ensures
        after.missing_list().len() == 0 ==> {
            &&& after.recovered_rows() == before.recovered_rows()
            &&& after.solve_tables() == before.solve_tables()
            &&& after.augmented_table() == before.augmented_table()
        },
        after.missing_list().len() <= before.limit() ==> {
            &&& after.known_marks() == before.known_marks()
            &&& after.locator_state() == before.locator_state()
            &&& after.locator_scratch_state() == before.locator_scratch_state()
            &&& after.recovery_state() == before.recovery_state()
        },
        after.missing_list().len() > before.limit() ==> {
            &&& after.solve_tables() == before.solve_tables()
            &&& after.augmented_table() == before.augmented_table()
        },
{
}

/// A workspace that has rebuilt nothing lists no positions and holds no rows, marks
/// no point of its domain as known, and has no tables.
pub proof fn untouched_workspaces_are_empty<F: Field>(workspace: &Workspace<F>, size: int)
    requires
        workspace.untouched(size),
        size >= 0,
    ensures
        workspace.missing_list().len() == 0,
        workspace.recovered_rows().len() == 0,
        workspace.known_marks().len() == size,
        forall|i: int| 0 <= i < size ==> !(#[trigger] workspace.known_marks()[i]),
        workspace.locator_state().value_table().len() == size,
        workspace.locator_state().derivative_table().len() == size,
        forall|i: int|
            0 <= i < size ==> #[trigger] workspace.locator_state().value_table()[i]
                == F::zero_elem(),
        forall|i: int|
            0 <= i < size ==> #[trigger] workspace.locator_state().derivative_table()[i]
                == F::zero_elem(),
        workspace.locator_scratch_state().domain() == size,
        workspace.recovery_state().bytes() == 0,
        workspace.recovery_state().derivative_rows().len() == 0,
        workspace.solve_tables().repair_indices@.len() == 0,
        workspace.solve_tables().generator@.len() == 0,
        workspace.solve_tables().system@.len() == 0,
        workspace.solve_tables().inverse@.len() == 0,
        workspace.solve_tables().coefficients@.len() == 0,
        workspace.solve_tables().residuals@.len() == 0,
        workspace.augmented_table().len() == 0,
{
}

/// What a rebuild shows of itself: the missing positions and their rows, and the
/// tables of the path it took. `payload` gives the repairs, then the present data
/// symbols; `received` the rows of the domain.
pub open spec fn shows_rebuild<F: Field>(
    workspace: &Workspace<F>,
    basis: Seq<F>,
    k: int,
    symbol_len: int,
    missing: Seq<int>,
    present: Seq<int>,
    repairs: Seq<int>,
    payload: spec_fn(int) -> Seq<u8>,
    received: Seq<u8>,
    out: Seq<u8>,
) -> bool {
    let count = missing.len() as int;
    let known = known_in(workspace.known_marks());
    let locator = workspace.locator_state();
    &&& ints(workspace.missing_list()) == missing
    &&& count > 0 ==> holds_rows(symbol_len, out, missing, workspace.recovered_rows())
    &&& 0 < count <= workspace.limit() ==> holds_solve(
        workspace.solve_tables(),
        k,
        symbol_len,
        missing,
        present,
        repairs,
        payload,
    ) && embeds(
        workspace.augmented_table(),
        workspace.limit(),
        workspace.solve_tables().system@,
        count,
    )
    &&& count > 0 && count > workspace.limit() ==> {
        &&& workspace.known_marks().len() == span_size(basis.len())
        &&& marks_sources(k, present, repairs, workspace.known_marks())
        &&& locator.locates(basis, known)
        &&& holds_product(
            basis,
            &locator,
            received,
            symbol_len,
            workspace.recovery_state().product_rows(),
        )
        &&& holds_slopes(
            basis,
            known,
            &locator,
            received,
            symbol_len,
            workspace.missing_list(),
            workspace.recovery_state().derivative_rows(),
        )
    }
}

/// A square of at most half the field's points can be addressed.
pub proof fn order_fits(k: int, m: int, order: int)
    requires
        0 <= order <= k,
        order <= m,
        k + m <= 65536,
    ensures
        order <= 32768,
        order * order <= usize::MAX,
{
    assert(order * order <= 32768 * 32768) by (nonlinear_arith)
        requires
            0 <= order <= 32768,
    ;
}

/// Marks the positions of the sources in the domain.
pub fn mark_known(size: usize, k: usize, present: &[usize], repairs: &[usize]) -> (r: Vec<bool>)
    requires
        forall|t: int| 0 <= t < present@.len() ==> #[trigger] present@[t] < k,
        forall|t: int| 0 <= t < repairs@.len() ==> k + #[trigger] repairs@[t] < size,
        k <= size,
    ensures
        r@.len() == size,
        marks_sources(k as int, ints(present@), ints(repairs@), r@),
{
    let ghost kept = ints(present@);
    let ghost used = ints(repairs@);
    let mut known: Vec<bool> = vec![false; size];
    let mut p: usize = 0;
    while p < present.len()
        invariant
            p <= present@.len(),
            k <= size,
            known@.len() == size,
            forall|t: int| 0 <= t < present@.len() ==> #[trigger] present@[t] < k,
            forall|i: int|
                0 <= i < size ==> (#[trigger] known@[i] == exists|t: int|
                    0 <= t < p && #[trigger] present@[t] == i),
        decreases present@.len() - p,
    {
        let ghost before = known@;
        let index: usize = present[p];
        known.set(index, true);
        proof {
            assert forall|i: int| 0 <= i < size implies (#[trigger] known@[i] == exists|t: int|
                0 <= t < p + 1 && #[trigger] present@[t] == i) by {
                assert(before[i] == exists|t: int| 0 <= t < p && #[trigger] present@[t] == i);
                if i == index {
                    assert(present@[p as int] == i);
                }
            }
        }
        p += 1;
    }
    proof {
        assert forall|i: int| 0 <= i < size implies (#[trigger] known@[i] == (kept.contains(i) && i
            < k)) by {
            if kept.contains(i) {
                let t = choose|t: int| 0 <= t < kept.len() && kept[t] == i;
                assert(present@[t] == i);
            }
            if known@[i] {
                let t = choose|t: int| 0 <= t < present@.len() && #[trigger] present@[t] == i;
                assert(kept[t] == i);
            }
        }
    }
    let mut b: usize = 0;
    while b < repairs.len()
        invariant
            b <= repairs@.len(),
            k <= size,
            known@.len() == size,
            kept == ints(present@),
            used == ints(repairs@),
            forall|t: int| 0 <= t < repairs@.len() ==> k + #[trigger] repairs@[t] < size,
            forall|i: int|
                0 <= i < size ==> (#[trigger] known@[i] == (kept.contains(i) && i < k
                    || exists|t: int| 0 <= t < b && k + #[trigger] repairs@[t] == i)),
        decreases repairs@.len() - b,
    {
        let ghost before = known@;
        let index: usize = k + repairs[b];
        known.set(index, true);
        proof {
            assert forall|i: int| 0 <= i < size implies (#[trigger] known@[i] == (kept.contains(i)
                && i < k || exists|t: int| 0 <= t < b + 1 && k + #[trigger] repairs@[t] == i)) by {
                assert(before[i] == (kept.contains(i) && i < k || exists|t: int|
                    0 <= t < b && k + #[trigger] repairs@[t] == i));
                if i == index {
                    assert(k + repairs@[b as int] == i);
                }
            }
        }
        b += 1;
    }
    proof {
        assert forall|i: int| 0 <= i < known@.len() implies (#[trigger] known@[i] == (kept.contains(
            i,
        ) && i < k || used.contains(i - k) && i >= k)) by {
            if used.contains(i - k) && i >= k {
                let t = choose|t: int| 0 <= t < used.len() && used[t] == i - k;
                assert(k + repairs@[t] == i);
            }
            if exists|t: int| 0 <= t < repairs@.len() && k + #[trigger] repairs@[t] == i {
                let t = choose|t: int| 0 <= t < repairs@.len() && k + #[trigger] repairs@[t] == i;
                assert(used[t] == i - k);
            }
        }
    }
    known
}

/// The sources stand at their positions in the domain rows.
pub open spec fn staged(
    k: int,
    symbol_len: int,
    present: Seq<int>,
    repairs: Seq<int>,
    sources: Seq<&[u8]>,
    rows: Seq<u8>,
) -> bool {
    forall|t: int|
        0 <= t < k ==> row_of(rows, symbol_len, term_index(k, present, repairs, t))
            == (#[trigger] sources[t])@
}

/// Writes the block that encodes to every source, by the dense solve up to the
/// workspace's limit and over the whole domain beyond.
pub fn rebuild_block<F: Field>(
    domain: &Domain<F>,
    workspace: &mut Workspace<F>,
    k: usize,
    m: usize,
    symbol_len: usize,
    missing: &[usize],
    present: &[usize],
    repairs: &[usize],
    sources: &[&[u8]],
    rows: &[u8],
    out: &mut [u8],
)
    requires
        domain.prepared(k as int, m as int),
        old(workspace).valid(),
        rebuildable::<F>(
            k as int,
            m as int,
            symbol_len as int,
            missing@,
            present@,
            repairs@,
            sources@,
        ),
        forall|s: int, t: int|
            0 <= s < t < missing@.len() ==> #[trigger] missing@[s] < #[trigger] missing@[t],
        missing@.len() > old(workspace).limit() ==> rows@.len() == padded(k + m) * symbol_len
            && staged(
            k as int,
            symbol_len as int,
            ints(present@),
            ints(repairs@),
            sources@,
            rows@,
        ),
        old(out)@.len() == k * symbol_len,
    ensures
        final(workspace).valid(),
        final(workspace).limit() == old(workspace).limit(),
        keeps_rest(old(workspace), final(workspace)),
        shows_rebuild(
            final(workspace),
            pattern_basis::<F>(padded_dimension(k + m)),
            k as int,
            symbol_len as int,
            ints(missing@),
            ints(present@),
            ints(repairs@),
            |t: int| sources@[t]@,
            rows@,
            final(out)@,
        ),
        final(out)@.len() == k * symbol_len,
        sources_encoded::<F>(
            k as int,
            symbol_len as int,
            ints(present@),
            ints(repairs@),
            sources@,
            final(out)@,
        ),
{
    let ghost kept = ints(present@);
    let ghost used = ints(repairs@);
    let ghost l = symbol_len as int;
    proof {
        shape_facts::<F>(k as int, m as int, l);
    }
    workspace.missing_data = vstd::slice::slice_to_vec(missing);
    if missing.len() == 0 {
        proof {
            assert(0 * symbol_len == 0) by (nonlinear_arith);
        }
        let nothing: Vec<u8> = Vec::new();
        assemble(k, symbol_len, missing, present, sources, nothing.as_slice(), out);
        proof {
            assert forall|t: int| 0 <= t < k implies (#[trigger] sources@[t])@ == codeword_symbol(
                afft_coef::<F>(k as int),
                k as int,
                l,
                out@,
                term_index(k as int, kept, used, t),
            ) by {
                assert(row_of(out@, l, kept[t]) == sources@[missing@.len() + t]@);
                assert(0 <= kept[t] < k);
                systematic_symbol(afft_coef::<F>(k as int), k as int, l, out@, kept[t]);
            }
        }
    } else if missing.len() <= workspace.inverse.capacity_value() {
        rebuild_targeted(
            &domain.plan,
            &domain.tables,
            &domain.systematic,
            &mut workspace.inverse,
            k,
            m,
            symbol_len,
            missing,
            present,
            repairs,
            sources,
            &mut workspace.solve,
            &mut workspace.recovered,
            out,
        );
    } else {
        proof {
            assert forall|t: int| 0 <= t < present@.len() implies #[trigger] present@[t] < k by {
                assert(kept[t] == present@[t]);
            }
            assert forall|t: int| 0 <= t < repairs@.len() implies k + #[trigger] repairs@[t]
                < padded(k + m) by {
                assert(used[t] == repairs@[t]);
            }
        }
        workspace.known = mark_known(domain.plan.size(), k, present, repairs);
        rebuild_located(
            &domain.plan,
            &domain.tables,
            &mut workspace.locator,
            &mut workspace.locator_scratch,
            &mut workspace.recovery,
            k,
            m,
            symbol_len,
            missing,
            present,
            repairs,
            sources,
            rows,
            workspace.known.as_slice(),
            &mut workspace.recovered,
            out,
        );
    }
}

/// Lays the sources out at their positions in the rows of the whole domain.
pub fn stage_rows(
    size: usize,
    k: usize,
    symbol_len: usize,
    present: &[usize],
    repairs: &[usize],
    sources: &[&[u8]],
) -> (r: Vec<u8>)
    requires
        size * symbol_len <= usize::MAX,
        sources@.len() == k,
        repairs@.len() + present@.len() == k,
        k <= size,
        forall|t: int| 0 <= t < sources@.len() ==> (#[trigger] sources@[t])@.len() == symbol_len,
        forall|t: int| 0 <= t < present@.len() ==> #[trigger] present@[t] < k,
        forall|t: int| 0 <= t < repairs@.len() ==> k + #[trigger] repairs@[t] < size,
        forall|s: int, t: int|
            0 <= s < k && 0 <= t < k && s != t ==> #[trigger] term_index(
                k as int,
                ints(present@),
                ints(repairs@),
                s,
            ) != #[trigger] term_index(k as int, ints(present@), ints(repairs@), t),
    ensures
        r@.len() == size * symbol_len,
        staged(
            k as int,
            symbol_len as int,
            ints(present@),
            ints(repairs@),
            sources@,
            r@,
        ),
{
    let ghost l = symbol_len as int;
    let ghost kept = ints(present@);
    let ghost used = ints(repairs@);
    proof {
        assert(0 <= size * symbol_len) by (nonlinear_arith);
    }
    let mut rows: Vec<u8> = vec![0u8; size * symbol_len];
    let count: usize = repairs.len();
    let mut t: usize = 0;
    while t < k
        invariant
            t <= k,
            l == symbol_len,
            kept == ints(present@),
            used == ints(repairs@),
            count == repairs@.len(),
            repairs@.len() + present@.len() == k,
            sources@.len() == k,
            k <= size,
            rows@.len() == size * symbol_len,
            forall|t: int|
                0 <= t < sources@.len() ==> (#[trigger] sources@[t])@.len() == symbol_len,
            forall|t: int| 0 <= t < present@.len() ==> #[trigger] present@[t] < k,
            forall|t: int| 0 <= t < repairs@.len() ==> k + #[trigger] repairs@[t] < size,
            forall|s: int, t: int|
                0 <= s < k && 0 <= t < k && s != t ==> #[trigger] term_index(
                    k as int,
                    kept,
                    used,
                    s,
                ) != #[trigger] term_index(k as int, kept, used, t),
            forall|s: int|
                0 <= s < t ==> row_of(rows@, l, term_index(k as int, kept, used, s))
                    == (#[trigger] sources@[s])@,
        decreases k - t,
    {
        let index: usize = if t < count {
            k + repairs[t]
        } else {
            present[t - count]
        };
        let ghost before = rows@;
        proof {
            assert(index == term_index(k as int, kept, used, t as int));
            row_bounds(index as int, size as int, l);
        }
        copy_row(rows.as_mut_slice(), index, symbol_len, sources[t]);
        proof {
            assert forall|s: int| 0 <= s < t + 1 implies row_of(
                rows@,
                l,
                term_index(k as int, kept, used, s),
            ) == (#[trigger] sources@[s])@ by {
                if s < t {
                    let other = term_index(k as int, kept, used, s);
                    assert(other != term_index(k as int, kept, used, t as int));
                    assert(0 <= other < size) by {
                        if s < used.len() {
                            assert(k + repairs@[s] < size);
                        } else {
                            assert(present@[s - used.len()] < k);
                        }
                    }
                    row_bounds(other, size as int, l);
                    assert(row_of(before, l, other) == sources@[s]@);
                }
            }
        }
        t += 1;
    }
    rows
}

} // verus!
