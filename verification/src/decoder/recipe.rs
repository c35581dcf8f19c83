//! Recipe types for decoder memoization and reconstruction.

use std::sync::Arc;

use vstd::layout::size_of;
use vstd::prelude::*;

use crate::algebra::gf256::GfElem;
use crate::algebra::index_lists::{indices_where, indices_where_facts};
use crate::codec::Engine;
use crate::decoder::pattern::{equal_keys, PatternKey, SymbolSet};
use crate::decoder::reduced::{ints, source_coefficient, term_index};
use crate::decoder::store::{missing_marks, present_marks, repair_marks};
use crate::matrices::coding_matrix::engine_points;

verus! {

/// Key used by [`RecipeCache`](crate::decoder::RecipeCache).
#[derive(Debug, Clone, Copy, PartialEq, Eq, Hash)]
pub struct RecipeKey {
    pub k: usize,
    pub m: usize,
    /// Construction that produced the coefficients.
    pub engine: Engine,
    pub pattern: PatternKey,
}

/// Both keys name the same recipe.
pub open spec fn same_key(a: RecipeKey, b: RecipeKey) -> bool {
    &&& a.k == b.k
    &&& a.m == b.m
    &&& a.engine == b.engine
    &&& a.pattern.0@ == b.pattern.0@
}

impl RecipeKey {
    /// Whether both keys name the same recipe.
    pub fn same(&self, other: &RecipeKey) -> (r: bool)
        ensures
            r == same_key(*self, *other),
            r <==> self.k == other.k && self.m == other.m && self.engine == other.engine && forall|
                i: int,
            |
                0 <= i < 256 ==> #[trigger] self.pattern.bit(i) == other.pattern.bit(i),
    {
        proof {
            equal_keys(self.pattern, other.pattern);
        }
        self.k == other.k && self.m == other.m && self.engine == other.engine && self.pattern.same(
            &other.pattern,
        )
    }
}

/// One received symbol and its coefficients for every missing output.
#[derive(Clone, Debug)]
pub struct SourceTerm {
    /// Codeword index in the decoder payload buffer.
    pub source_idx: usize,
    /// Coefficients in the order of [`ReconstructionRecipe::missing_data`].
    pub coefficients: Vec<GfElem>,
}

/// A reconstruction plan for a single erasure pattern.
///
/// Terms are stored in source-major order; `coefficients[missing_pos]` is the
/// source's coefficient for `missing_data[missing_pos]`.
#[derive(Clone, Debug)]
pub struct ReconstructionRecipe {
    pub missing_data: Vec<usize>,
    pub present_data: Vec<usize>,
    pub source_terms: Vec<SourceTerm>,
}

/// `recipe` rebuilds the data missing from the key's pattern.
pub open spec fn recipe_for(key: RecipeKey, recipe: &ReconstructionRecipe) -> bool {
    let k = key.k as int;
    let missing = missing_marks(key.pattern, k);
    let present = present_marks(key.pattern, k);
    let repairs = repair_marks(key.pattern, k, key.m as int);
    &&& ints(recipe.missing_data@) == missing
    &&& ints(recipe.present_data@) == present
    &&& missing.len() > 0 ==> recipe.source_terms@.len() == k
    &&& forall|t: int|
        0 <= t < k && missing.len() > 0 ==> (#[trigger] recipe.source_terms@[t]).source_idx
            == term_index(k, present, repairs, t)
            && recipe.source_terms@[t].coefficients@.len() == missing.len()
    &&& forall|t: int, a: int|
        0 <= t < k && 0 <= a < missing.len() ==> recipe.source_terms@[t].coefficients@[a]
            == #[trigger] source_coefficient(
            engine_points(key.engine),
            k,
            missing,
            present,
            repairs,
            t,
            a,
        )
}

/// A recipe lists the data positions that the pattern lacks and those that it has,
/// each in ascending order.
pub proof fn recipes_list_the_pattern(key: RecipeKey, recipe: &ReconstructionRecipe, i: int)
    requires
        recipe_for(key, recipe),
        0 <= i < key.k,
    ensures
        ints(recipe.missing_data@).contains(i) <==> !key.pattern.has_index(i),
        ints(recipe.present_data@).contains(i) <==> key.pattern.has_index(i),
        forall|a: int, b: int|
            0 <= a < b < recipe.missing_data@.len() ==> #[trigger] recipe.missing_data@[a]
                < #[trigger] recipe.missing_data@[b],
        forall|a: int, b: int|
            0 <= a < b < recipe.present_data@.len() ==> #[trigger] recipe.present_data@[a]
                < #[trigger] recipe.present_data@[b],
        forall|a: int|
            0 <= a < recipe.missing_data@.len() ==> #[trigger] recipe.missing_data@[a] < key.k,
        forall|a: int|
            0 <= a < recipe.present_data@.len() ==> #[trigger] recipe.present_data@[a] < key.k,
{
    let k = key.k as int;
    let lacks = |i: int| !key.pattern.has_index(i);
    let has = |i: int| key.pattern.has_index(i);
    indices_where_facts(lacks, k);
    indices_where_facts(has, k);
    let missing = missing_marks(key.pattern, k);
    let present = present_marks(key.pattern, k);
    assert(missing == indices_where(lacks, k));
    assert(present == indices_where(has, k));
    assert(missing.contains(i) <==> lacks(i));
    assert(present.contains(i) <==> has(i));
    assert forall|a: int, b: int| 0 <= a < b < recipe.missing_data@.len() implies
        #[trigger] recipe.missing_data@[a] < #[trigger] recipe.missing_data@[b] by {
        assert(missing[a] < missing[b]);
    }
    assert forall|a: int, b: int| 0 <= a < b < recipe.present_data@.len() implies
        #[trigger] recipe.present_data@[a] < #[trigger] recipe.present_data@[b] by {
        assert(present[a] < present[b]);
    }
    assert forall|a: int| 0 <= a < recipe.missing_data@.len() implies
        #[trigger] recipe.missing_data@[a] < key.k by {
        assert(missing[a] == recipe.missing_data@[a]);
    }
    assert forall|a: int| 0 <= a < recipe.present_data@.len() implies
        #[trigger] recipe.present_data@[a] < key.k by {
        assert(present[a] == recipe.present_data@[a]);
    }
}

/// A recipe depends on the key's indices only.
pub proof fn recipe_for_same_key(a: RecipeKey, b: RecipeKey, recipe: &ReconstructionRecipe)
    requires
        same_key(a, b),
        recipe_for(a, recipe),
    ensures
        recipe_for(b, recipe),
{
    assert forall|i: int| #[trigger] a.pattern.has_index(i) == b.pattern.has_index(i) by {
    }
    let k = a.k as int;
    crate::algebra::index_lists::indices_where_congruent(
        |i: int| !a.pattern.has_index(i),
        |i: int| !b.pattern.has_index(i),
        k,
    );
    crate::algebra::index_lists::indices_where_congruent(
        |i: int| a.pattern.has_index(i),
        |i: int| b.pattern.has_index(i),
        k,
    );
    crate::algebra::index_lists::indices_where_congruent(
        |j: int| a.pattern.has_index(k + j),
        |j: int| b.pattern.has_index(k + j),
        a.m as int,
    );
}

/// `x`, or the largest representable size.
pub open spec fn capped(x: int) -> int {
    if x <= usize::MAX {
        x
    } else {
        usize::MAX as int
    }
}

/// `a * b`, or the largest representable size.
pub fn capped_product(a: usize, b: usize) -> (r: usize)
    ensures
        r == capped(a * b),
        a * b <= usize::MAX ==> r == a * b,
        a * b > usize::MAX ==> r == usize::MAX,
{
    match a.checked_mul(b) {
        Some(product) => product,
        None => usize::MAX,
    }
}

/// Bytes of a recipe with the given vector capacities.
pub open spec fn recipe_size(missing: int, present: int, terms: int, coefficients: int) -> int {
    size_of::<ReconstructionRecipe>() + missing * size_of::<usize>() + present * size_of::<usize>()
        + terms * size_of::<SourceTerm>() + coefficients * size_of::<GfElem>()
}

/// Bytes of a recipe with the given vector capacities, or the largest
/// representable size.
pub fn recipe_storage(missing: usize, present: usize, terms: usize, coefficients: usize) -> (r:
    usize)
    ensures
        r == capped(
            recipe_size(missing as int, present as int, terms as int, coefficients as int),
        ),
        ({
            let whole = size_of::<ReconstructionRecipe>() + (missing + present) * size_of::<usize>()
                + terms * size_of::<SourceTerm>() + coefficients * size_of::<GfElem>();
            if whole <= usize::MAX {
                r == whole
            } else {
                r == usize::MAX
            }
        }),
{
    let own: usize = core::mem::size_of::<ReconstructionRecipe>();
    let index: usize = core::mem::size_of::<usize>();
    let term: usize = core::mem::size_of::<SourceTerm>();
    let element: usize = core::mem::size_of::<GfElem>();
    proof {
        assert(0 <= missing * index && 0 <= present * index && 0 <= terms * term && 0
            <= coefficients * element) by (nonlinear_arith);
        assert((missing + present) * index == missing * index + present * index)
            by (nonlinear_arith);
    }
    own.saturating_add(capped_product(missing, index)).saturating_add(
        capped_product(present, index),
    ).saturating_add(capped_product(terms, term)).saturating_add(
        capped_product(coefficients, element),
    )
}

/// Calls `Vec::capacity`: the number of elements the vector can hold without
/// reallocating, never less than its length. How much more depends on the
/// allocator.
#[verifier::external_body]
fn held_capacity<T>(vec: &Vec<T>) -> (r: usize)
    ensures
        r >= vec@.len(),
{
    vec.capacity()
}

/// Coefficients in the first `count` terms.
pub open spec fn coefficient_total(terms: Seq<SourceTerm>, count: int) -> int
    decreases count,
{
    if count <= 0 {
        0
    } else {
        coefficient_total(terms, count - 1) + terms[count - 1].coefficients@.len()
    }
}

/// Sum of the first `count` counts.
pub open spec fn count_total(counts: Seq<usize>, count: int) -> int
    decreases count,
{
    if count <= 0 {
        0
    } else {
        count_total(counts, count - 1) + counts[count - 1]
    }
}

/// Sum of `counts`, or the largest representable size.
pub fn capped_total(counts: &[usize]) -> (r: usize)
    ensures
        r == capped(count_total(counts@, counts@.len() as int)),
{
    let mut total: usize = 0;
    let mut i: usize = 0;
    while i < counts.len()
        invariant
            i <= counts@.len(),
            total == capped(count_total(counts@, i as int)),
            0 <= count_total(counts@, i as int),
        decreases counts@.len() - i,
    {
        total = total.saturating_add(counts[i]);
        i += 1;
    }
    total
}

/// Totals add up: the counts of two lists together are those of each, and one
/// count is its own total.
pub proof fn totals_add_up(first: Seq<usize>, second: Seq<usize>)
    ensures
        count_total(first + second, (first + second).len() as int) == count_total(
            first,
            first.len() as int,
        ) + count_total(second, second.len() as int),
        second.len() == 1 ==> count_total(second, 1) == second[0],
    decreases second.len(),
{
    reveal_with_fuel(count_total, 2);
    let whole = first + second;
    if second.len() == 0 {
        assert(whole =~= first);
    } else {
        let front = second.drop_last();
        totals_add_up(first, front);
        same_total(whole, first + front, whole.len() - 1);
        same_total(second, front, second.len() - 1);
    }
}

/// A total depends on the counted numbers alone.
proof fn same_total(a: Seq<usize>, b: Seq<usize>, count: int)
    requires
        0 <= count <= a.len(),
        count <= b.len(),
        forall|t: int| 0 <= t < count ==> #[trigger] a[t] == b[t],
    ensures
        count_total(a, count) == count_total(b, count),
    decreases count,
{
    if count > 0 {
        same_total(a, b, count - 1);
        assert(a[count - 1] == b[count - 1]);
    }
}

/// Capacities that the vectors of a recipe may have: none below the length.
/// `coefficients` lists those of the source terms.
pub open spec fn capacities_hold(
    recipe: ReconstructionRecipe,
    missing: usize,
    present: usize,
    terms: usize,
    coefficients: Seq<usize>,
) -> bool {
    &&& missing >= recipe.missing_data@.len()
    &&& present >= recipe.present_data@.len()
    &&& terms >= recipe.source_terms@.len()
    &&& coefficients.len() == recipe.source_terms@.len()
    &&& forall|t: int|
        0 <= t < coefficients.len() ==> #[trigger] coefficients[t]
            >= recipe.source_terms@[t].coefficients@.len()
}

/// The vectors of the recipe report these capacities.
pub closed spec fn capacities_reported(
    recipe: ReconstructionRecipe,
    missing: usize,
    present: usize,
    terms: usize,
    coefficients: Seq<usize>,
) -> bool {
    &&& call_ensures(held_capacity::<usize>, (&recipe.missing_data,), missing)
    &&& call_ensures(held_capacity::<usize>, (&recipe.present_data,), present)
    &&& call_ensures(held_capacity::<SourceTerm>, (&recipe.source_terms,), terms)
    &&& forall|t: int|
        0 <= t < coefficients.len() ==> call_ensures(
            held_capacity::<GfElem>,
            (&recipe.source_terms@[t].coefficients,),
            #[trigger] coefficients[t],
        )
}

/// Bytes of a recipe at its lengths: what it takes at least.
pub open spec fn least_bytes(recipe: ReconstructionRecipe) -> int {
    recipe_size(
        recipe.missing_data@.len() as int,
        recipe.present_data@.len() as int,
        recipe.source_terms@.len() as int,
        coefficient_total(recipe.source_terms@, recipe.source_terms@.len() as int),
    )
}

/// `bytes` is what a recipe takes at the capacities that its vectors report.
pub open spec fn may_take(recipe: ReconstructionRecipe, bytes: int) -> bool {
    exists|missing: usize, present: usize, terms: usize, coefficients: Seq<usize>| #[trigger]
        capacities_hold(recipe, missing, present, terms, coefficients) && capacities_reported(
            recipe,
            missing,
            present,
            terms,
            coefficients,
        ) && bytes == capped(
            recipe_size(
                missing as int,
                present as int,
                terms as int,
                count_total(coefficients, coefficients.len() as int),
            ),
        )
}

impl ReconstructionRecipe {
    /// Estimated bytes allocated: recipe and vector storage and coefficient
    /// capacity, without allocator bookkeeping.
    pub fn allocated_bytes(&self) -> (r: usize)
        ensures
            may_take(*self, r as int),
            r >= capped(least_bytes(*self)),
    {
        let mut coefficients: Vec<usize> = Vec::new();
        let mut t: usize = 0;
        while t < self.source_terms.len()
            invariant
                t <= self.source_terms@.len(),
                coefficients@.len() == t,
                forall|s: int|
                    0 <= s < t ==> #[trigger] coefficients@[s]
                        >= self.source_terms@[s].coefficients@.len(),
                forall|s: int|
                    0 <= s < t ==> call_ensures(
                        held_capacity::<GfElem>,
                        (&self.source_terms@[s].coefficients,),
                        #[trigger] coefficients@[s],
                    ),
            decreases self.source_terms@.len() - t,
        {
            coefficients.push(held_capacity(&self.source_terms[t].coefficients));
            t += 1;
        }
        let missing: usize = held_capacity(&self.missing_data);
        let present: usize = held_capacity(&self.present_data);
        let terms: usize = held_capacity(&self.source_terms);
        let held: usize = capped_total(&coefficients);
        proof {
            let least = coefficient_total(self.source_terms@, t as int);
            let total = count_total(coefficients@, t as int);
            counts_cover_coefficients(self.source_terms@, coefficients@, t as int);
            recipe_size_monotone(
                self.missing_data@.len() as int,
                missing as int,
                self.present_data@.len() as int,
                present as int,
                self.source_terms@.len() as int,
                terms as int,
                least,
                held as int,
            );
            recipe_size_monotone(
                missing as int,
                missing as int,
                present as int,
                present as int,
                terms as int,
                terms as int,
                total,
                held as int,
            );
            recipe_size_monotone(
                missing as int,
                missing as int,
                present as int,
                present as int,
                terms as int,
                terms as int,
                held as int,
                total,
            );
            assert(capacities_hold(*self, missing, present, terms, coefficients@));
            assert(capacities_reported(*self, missing, present, terms, coefficients@));
        }
        recipe_storage(missing, present, terms, held)
    }
}

/// Counts that are not below the lengths add up to no less.
proof fn counts_cover_coefficients(terms: Seq<SourceTerm>, counts: Seq<usize>, count: int)
    requires
        0 <= count <= terms.len(),
        counts.len() == terms.len(),
        forall|t: int|
            0 <= t < counts.len() ==> #[trigger] counts[t] >= terms[t].coefficients@.len(),
    ensures
        0 <= coefficient_total(terms, count) <= count_total(counts, count),
    decreases count,
{
    if count > 0 {
        counts_cover_coefficients(terms, counts, count - 1);
        assert(counts[count - 1] >= terms[count - 1].coefficients@.len());
    }
}

/// Larger capacities take more bytes.
proof fn recipe_size_monotone(
    missing: int,
    missing_held: int,
    present: int,
    present_held: int,
    terms: int,
    terms_held: int,
    coefficients: int,
    coefficients_held: int,
)
    requires
        0 <= missing <= missing_held,
        0 <= present <= present_held,
        0 <= terms <= terms_held,
        0 <= coefficients,
        capped(coefficients) <= coefficients_held,
    ensures
        capped(recipe_size(missing, present, terms, coefficients)) <= capped(
            recipe_size(missing_held, present_held, terms_held, coefficients_held),
        ),
{
    let index = size_of::<usize>() as int;
    let term = size_of::<SourceTerm>() as int;
    let element = size_of::<GfElem>() as int;
    assert(missing * index <= missing_held * index && present * index <= present_held * index
        && terms * term <= terms_held * term && 0 <= missing * index && 0 <= present * index && 0
        <= terms * term) by (nonlinear_arith)
        requires
            0 <= missing <= missing_held,
            0 <= present <= present_held,
            0 <= terms <= terms_held,
            0 <= index,
            0 <= term,
    ;
    if coefficients <= coefficients_held || element == 0 {
        assert(coefficients * element <= coefficients_held * element) by (nonlinear_arith)
            requires
                0 <= coefficients <= coefficients_held || element == 0,
                0 <= element,
        ;
    } else {
        assert(coefficients_held >= usize::MAX);
        assert(coefficients_held * element >= usize::MAX) by (nonlinear_arith)
            requires
                coefficients_held >= usize::MAX,
                1 <= element,
        ;
    }
}

/// Calls `Arc::clone`: another pointer to the same value.
#[verifier::external_body]
pub(crate) fn share<T>(shared: &Arc<T>) -> (r: Arc<T>)
    ensures
        r == *shared,
{
    Arc::clone(shared)
}

} // verus!
