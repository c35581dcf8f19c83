//! Reconstruction-recipe cache.

use std::sync::Arc;

use vstd::prelude::*;

use crate::decoder::recency::{next_use, CacheUse};
use crate::decoder::recipe::{
    capped, capped_total, count_total, least_bytes, may_take, recipe_for, recipe_for_same_key,
    same_key, share, RecipeKey, ReconstructionRecipe,
};

verus! {

/// Fixed-capacity LRU cache for reconstruction recipes.
///
/// The cache key includes `(engine, k, m, pattern)` so one cache can safely be
/// shared across decoder configurations and Cauchy constructions. Entries are
/// stored in most-recently-used order; expected capacities are small, so lookup
/// is linear.
pub struct RecipeCache {
    capacity: usize,
    entries: Vec<(RecipeKey, Arc<ReconstructionRecipe>)>,
    hits: usize,
    misses: usize,
}

/// Position of the first entry with `key` at or after `from`, or the number of
/// entries.
pub open spec fn position(
    entries: Seq<(RecipeKey, Arc<ReconstructionRecipe>)>,
    key: RecipeKey,
    from: int,
) -> int
    decreases entries.len() - from,
{
    if from >= entries.len() || same_key(entries[from].0, key) {
        from
    } else {
        position(entries, key, from + 1)
    }
}

/// The first matching position is in range, matches, and nothing before it does.
pub proof fn position_facts(
    entries: Seq<(RecipeKey, Arc<ReconstructionRecipe>)>,
    key: RecipeKey,
    from: int,
)
    requires
        0 <= from <= entries.len(),
    ensures
        from <= position(entries, key, from) <= entries.len(),
        position(entries, key, from) < entries.len() ==> same_key(
            entries[position(entries, key, from)].0,
            key,
        ),
        forall|i: int|
            from <= i < position(entries, key, from) ==> !same_key((#[trigger] entries[i]).0, key),
    decreases entries.len() - from,
{
    if from < entries.len() && !same_key(entries[from].0, key) {
        position_facts(entries, key, from + 1);
    }
}

/// `entries` with the first entry for `key` removed.
pub open spec fn without(
    entries: Seq<(RecipeKey, Arc<ReconstructionRecipe>)>,
    key: RecipeKey,
) -> Seq<(RecipeKey, Arc<ReconstructionRecipe>)> {
    let at = position(entries, key, 0);
    if at < entries.len() {
        entries.remove(at)
    } else {
        entries
    }
}

/// `entries` cut to at most `capacity`, most recently used first.
pub open spec fn trimmed(
    entries: Seq<(RecipeKey, Arc<ReconstructionRecipe>)>,
    capacity: int,
) -> Seq<(RecipeKey, Arc<ReconstructionRecipe>)> {
    if entries.len() > capacity {
        entries.drop_last()
    } else {
        entries
    }
}

/// Every entry holds the recipe its key names.
pub open spec fn sound_entries(entries: Seq<(RecipeKey, Arc<ReconstructionRecipe>)>) -> bool {
    forall|i: int|
        0 <= i < entries.len() ==> recipe_for((#[trigger] entries[i]).0, &*entries[i].1)
}

/// How a cache serves `recipe` for `key`: a hit returns the cached recipe and
/// makes it the most recently used one, a miss adds `recipe`.
pub open spec fn served(
    before: &RecipeCache,
    after: &RecipeCache,
    key: RecipeKey,
    recipe: Arc<ReconstructionRecipe>,
) -> bool {
    let at = position(before.listed(), key, 0);
    &&& after.limit() == before.limit()
    &&& if at < before.listed().len() {
        &&& recipe == before.listed()[at].1
        &&& after.listed() == without(before.listed(), key).insert(0, before.listed()[at])
        &&& after.hit_total() == capped(before.hit_total() + 1)
        &&& after.miss_total() == before.miss_total()
    } else {
        &&& after.listed() == if before.limit() == 0 {
            before.listed()
        } else {
            trimmed(
                without(before.listed(), key).insert(0, (key, recipe)),
                before.limit(),
            )
        }
        &&& after.hit_total() == before.hit_total()
        &&& after.miss_total() == capped(before.miss_total() + 1)
    }
}

/// Serving counts once: exactly one of hits and misses goes up by one until it
/// reaches the largest representable count, the served recipe is the most
/// recently used one if anything is kept at all, and the cache outgrows neither
/// its limit nor its size by more than one.
pub proof fn serving_counts_once(
    before: &RecipeCache,
    after: &RecipeCache,
    key: RecipeKey,
    recipe: Arc<ReconstructionRecipe>,
)
    requires
        served(before, after, key, recipe),
        0 <= before.hit_total() < usize::MAX,
        0 <= before.miss_total() < usize::MAX,
        0 <= before.limit(),
        before.listed().len() <= before.limit(),
    ensures
        after.hit_total() + after.miss_total() == before.hit_total() + before.miss_total() + 1,
        after.hit_total() == before.hit_total() + 1 <==> exists|i: int|
            0 <= i < before.listed().len() && same_key((#[trigger] before.listed()[i]).0, key),
        after.hit_total() == before.hit_total() + 1 ==> after.listed().len()
            == before.listed().len(),
        before.limit() >= 1 ==> after.listed().len() >= 1 && same_key(after.listed()[0].0, key)
            && after.listed()[0].1 == recipe,
        after.listed().len() <= before.limit(),
        after.listed().len() <= before.listed().len() + 1,
{
    position_facts(before.listed(), key, 0);
    let at = position(before.listed(), key, 0);
    if at < before.listed().len() {
        assert(same_key(before.listed()[at].0, key));
    } else {
        assert(same_key(key, key));
    }
}

/// A pattern that was served is a hit when it is asked for next, with the same
/// recipe.
pub proof fn served_patterns_hit(
    first: &RecipeCache,
    second: &RecipeCache,
    third: &RecipeCache,
    key: RecipeKey,
    recipe: Arc<ReconstructionRecipe>,
    again: Arc<ReconstructionRecipe>,
)
    requires
        served(first, second, key, recipe),
        served(second, third, key, again),
        first.limit() >= 1,
        first.listed().len() <= first.limit(),
        0 <= first.hit_total() < usize::MAX,
        0 <= first.miss_total() < usize::MAX,
        0 <= second.hit_total() < usize::MAX,
        0 <= second.miss_total() < usize::MAX,
    ensures
        again == recipe,
        third.hit_total() == second.hit_total() + 1,
        third.miss_total() == second.miss_total(),
        third.listed() == second.listed(),
{
    serving_counts_once(first, second, key, recipe);
    position_facts(second.listed(), key, 0);
    assert(position(second.listed(), key, 0) == 0);
    assert(second.listed().remove(0).insert(0, second.listed()[0]) =~= second.listed());
}

impl RecipeCache {
    /// The entries, most recently used first.
    pub closed spec fn listed(&self) -> Seq<(RecipeKey, Arc<ReconstructionRecipe>)> {
        self.entries@
    }

    /// The number of recipes the cache may hold.
    pub closed spec fn limit(&self) -> int {
        self.capacity as int
    }

    /// Lookups that found their recipe.
    pub closed spec fn hit_total(&self) -> int {
        self.hits as int
    }

    /// Insertions.
    pub closed spec fn miss_total(&self) -> int {
        self.misses as int
    }

    /// Every cached recipe is the one its key names.
    pub open spec fn sound(&self) -> bool {
        sound_entries(self.listed())
    }

    /// Creates an LRU cache that stores up to `capacity` recipes.
    pub fn new(capacity: usize) -> (r: Self)
        ensures
            r.listed().len() == 0,
            r.limit() == capacity,
            r.hit_total() == 0,
            r.miss_total() == 0,
            r.sound(),
            r.reached_by(Seq::empty()),
    {
        RecipeCache { capacity, entries: Vec::new(), hits: 0, misses: 0 }
    }

    /// Number of recipes currently cached.
    pub fn len(&self) -> (r: usize)
        ensures
            r == self.listed().len(),
    {
        self.entries.len()
    }

    /// Returns `true` when the cache contains no recipes.
    pub fn is_empty(&self) -> (r: bool)
        ensures
            r == (self.listed().len() == 0),
    {
        self.entries.len() == 0
    }

    /// Number of cache hits since construction.
    pub fn hits(&self) -> (r: usize)
        ensures
            r == self.hit_total(),
    {
        self.hits
    }

    /// Number of cache misses since construction.
    pub fn misses(&self) -> (r: usize)
        ensures
            r == self.miss_total(),
    {
        self.misses
    }

    /// Estimated bytes allocated for cached recipe payloads.
    ///
    /// This includes recipe and vector storage and coefficient capacity, but
    /// excludes allocator bookkeeping and the control block of each entry.
    pub fn recipe_bytes(&self) -> (r: usize)
        ensures
            self.listed().len() == 0 ==> r == 0,
            exists|counts: Seq<usize>| #[trigger]
                counts_held(self.listed(), counts) && r == capped(
                    count_total(counts, counts.len() as int),
                ),
            r >= capped(listed_size(self.listed(), self.listed().len() as int)),
    {
        let mut counts: Vec<usize> = Vec::new();
        let mut i: usize = 0;
        while i < self.entries.len()
            invariant
                i <= self.entries@.len(),
                counts@.len() == i,
                forall|j: int|
                    0 <= j < i ==> may_take(
                        *self.entries@[j].1,
                        (#[trigger] counts@[j]) as int,
                    ) && counts@[j] >= capped(least_bytes(*self.entries@[j].1)),
            decreases self.entries@.len() - i,
        {
            counts.push(self.entries[i].1.allocated_bytes());
            i += 1;
        }
        proof {
            assert(counts_held(self.listed(), counts@));
            counts_cover_entries(self.entries@, counts@, i as int);
        }
        capped_total(&counts)
    }

    /// Position of the entry for `key`, or the number of entries.
    fn find(&self, key: &RecipeKey) -> (r: usize)
        ensures
            r == position(self.listed(), *key, 0),
            r <= self.listed().len(),
    {
        proof {
            position_facts(self.entries@, *key, 0);
        }
        let mut i: usize = 0;
        while i < self.entries.len() && !self.entries[i].0.same(key)
            invariant
                i <= self.entries@.len(),
                position(self.entries@, *key, 0) == position(self.entries@, *key, i as int),
            decreases self.entries@.len() - i,
        {
            i += 1;
        }
        i
    }

    /// Looks up a recipe and makes it the most recently used one.
    pub fn get(&mut self, key: RecipeKey) -> (r: Option<Arc<ReconstructionRecipe>>)
        ensures
            final(self).limit() == old(self).limit(),
            final(self).miss_total() == old(self).miss_total(),
            old(self).sound() ==> final(self).sound(),
            match r {
                None => position(old(self).listed(), key, 0) == old(self).listed().len()
                    && final(self).listed() == old(self).listed() && final(self).hit_total() == old(
                    self,
                ).hit_total(),
                Some(recipe) => {
                    let at = position(old(self).listed(), key, 0);
                    &&& at < old(self).listed().len()
                    &&& recipe == old(self).listed()[at].1
                    &&& final(self).listed() == without(old(self).listed(), key).insert(
                        0,
                        old(self).listed()[at],
                    )
                    &&& final(self).hit_total() == capped(old(self).hit_total() + 1)
                    &&& old(self).sound() ==> recipe_for(key, &*recipe)
                },
            },
            forall|calls: Seq<CacheUse>| #[trigger]
                old(self).reached_by(calls) ==> final(self).reached_by(
                    calls.push(CacheUse::Get { key }),
                ),
    {
        let at: usize = self.find(&key);
        let ghost before = self.entries@;
        let ghost call = CacheUse::Get { key };
        if at >= self.entries.len() {
            proof {
                assert forall|calls: Seq<CacheUse>| #[trigger]
                    old(self).reached_by(calls) implies self.reached_by(calls.push(call)) by {
                    next_use(old(self), self, calls, call);
                }
            }
            return None;
        }
        proof {
            position_facts(before, key, 0);
        }
        self.hits = self.hits.saturating_add(1);
        let entry = self.entries.remove(at);
        let recipe = share(&entry.1);
        self.entries.insert(0, entry);
        proof {
            assert(self.entries@ =~= without(before, key).insert(0, before[at as int]));
            if sound_entries(before) {
                recipe_for_same_key(before[at as int].0, key, &*before[at as int].1);
                assert forall|i: int| 0 <= i < self.entries@.len() implies recipe_for(
                    (#[trigger] self.entries@[i]).0,
                    &*self.entries@[i].1,
                ) by {
                    if i == 0 {
                        assert(self.entries@[0] == before[at as int]);
                    } else if i <= at {
                        assert(self.entries@[i] == before[i - 1]);
                    } else {
                        assert(self.entries@[i] == before[i]);
                    }
                }
            }
            assert forall|calls: Seq<CacheUse>| #[trigger]
                old(self).reached_by(calls) implies self.reached_by(calls.push(call)) by {
                next_use(old(self), self, calls, call);
            }
        }
        Some(recipe)
    }

    /// Adds a recipe as the most recently used one; beyond the capacity the
    /// least recently used one is dropped.
    pub fn insert(&mut self, key: RecipeKey, recipe: Arc<ReconstructionRecipe>)
        ensures
            final(self).limit() == old(self).limit(),
            final(self).hit_total() == old(self).hit_total(),
            final(self).miss_total() == capped(old(self).miss_total() + 1),
            final(self).listed() == if old(self).limit() == 0 {
                old(self).listed()
            } else {
                trimmed(
                    without(old(self).listed(), key).insert(0, (key, recipe)),
                    old(self).limit(),
                )
            },
            old(self).sound() && recipe_for(key, &*recipe) ==> final(self).sound(),
            forall|calls: Seq<CacheUse>| #[trigger]
                old(self).reached_by(calls) ==> final(self).reached_by(
                    calls.push(CacheUse::Insert { key, recipe }),
                ),
    {
        self.misses = self.misses.saturating_add(1);
        let ghost call = CacheUse::Insert { key, recipe };
        if self.capacity == 0 {
            proof {
                assert forall|calls: Seq<CacheUse>| #[trigger]
                    old(self).reached_by(calls) implies self.reached_by(calls.push(call)) by {
                    next_use(old(self), self, calls, call);
                }
            }
            return ;
        }
        let ghost before = self.entries@;
        proof {
            position_facts(before, key, 0);
        }
        let at: usize = self.find(&key);
        if at < self.entries.len() {
            let _ = self.entries.remove(at);
        }
        self.entries.insert(0, (key, recipe));
        if self.entries.len() > self.capacity {
            let _ = self.entries.pop();
        }
        proof {
            let kept = without(before, key);
            let whole = kept.insert(0, (key, recipe));
            assert(self.entries@ =~= trimmed(whole, self.capacity as int));
            if sound_entries(before) && recipe_for(key, &*recipe) {
                assert forall|i: int| 0 <= i < self.entries@.len() implies recipe_for(
                    (#[trigger] self.entries@[i]).0,
                    &*self.entries@[i].1,
                ) by {
                    if i > 0 {
                        assert(self.entries@[i] == kept[i - 1]);
                        if i - 1 < at {
                            assert(kept[i - 1] == before[i - 1]);
                        } else {
                            assert(kept[i - 1] == before[i]);
                        }
                    }
                }
            }
            assert forall|calls: Seq<CacheUse>| #[trigger]
                old(self).reached_by(calls) implies self.reached_by(calls.push(call)) by {
                next_use(old(self), self, calls, call);
            }
        }
    }

    /// Maximum number of retained recipes.
    pub fn capacity(&self) -> (r: usize)
        ensures
            r == self.limit(),
    {
        self.capacity
    }

    /// Sets the maximum number of retained recipes without evicting entries.
    pub fn set_capacity(&mut self, capacity: usize)
        ensures
            final(self).limit() == capacity,
            final(self).listed() == old(self).listed(),
            final(self).hit_total() == old(self).hit_total(),
            final(self).miss_total() == old(self).miss_total(),
    {
        self.capacity = capacity;
    }

    /// Entries in most-recently-used order.
    pub fn entries(&self) -> (r: &[(RecipeKey, Arc<ReconstructionRecipe>)])
        ensures
            r@ == self.listed(),
    {
        self.entries.as_slice()
    }

    /// Mutable entries in most-recently-used order.
    pub fn entries_mut(&mut self) -> (r: &mut Vec<(RecipeKey, Arc<ReconstructionRecipe>)>)
        ensures
            r@ == old(self).listed(),
            final(self).listed() == final(r)@,
            final(self).limit() == old(self).limit(),
            final(self).hit_total() == old(self).hit_total(),
            final(self).miss_total() == old(self).miss_total(),
    {
        &mut self.entries
    }
}

/// Bytes of the first `count` recipes at their lengths.
pub open spec fn listed_size(
    entries: Seq<(RecipeKey, Arc<ReconstructionRecipe>)>,
    count: int,
) -> int
    decreases count,
{
    if count <= 0 {
        0
    } else {
        listed_size(entries, count - 1) + least_bytes(*entries[count - 1].1)
    }
}

/// One byte count per entry: what its recipe takes at capacities that its vectors
/// may have, so never less than its lengths take.
pub open spec fn counts_held(
    entries: Seq<(RecipeKey, Arc<ReconstructionRecipe>)>,
    counts: Seq<usize>,
) -> bool {
    &&& counts.len() == entries.len()
    &&& forall|i: int|
        0 <= i < counts.len() ==> may_take(*entries[i].1, (#[trigger] counts[i]) as int)
            && counts[i] >= capped(least_bytes(*entries[i].1))
}

/// The counts add up to no less than the lengths of the entries.
proof fn counts_cover_entries(
    entries: Seq<(RecipeKey, Arc<ReconstructionRecipe>)>,
    counts: Seq<usize>,
    count: int,
)
    requires
        0 <= count <= entries.len(),
        counts_held(entries, counts),
    ensures
        0 <= count_total(counts, count),
        capped(listed_size(entries, count)) <= capped(count_total(counts, count)),
    decreases count,
{
    if count > 0 {
        counts_cover_entries(entries, counts, count - 1);
        assert(counts[count - 1] >= capped(least_bytes(*entries[count - 1].1)));
    }
}

/// A cache never holds more recipes than its capacity once it holds no more:
/// inserting keeps the bound.
pub proof fn insertion_respects_capacity(
    entries: Seq<(RecipeKey, Arc<ReconstructionRecipe>)>,
    key: RecipeKey,
    recipe: Arc<ReconstructionRecipe>,
    capacity: int,
)
    requires
        0 < capacity,
        entries.len() <= capacity,
    ensures
        trimmed(without(entries, key).insert(0, (key, recipe)), capacity).len() <= capacity,
        trimmed(without(entries, key).insert(0, (key, recipe)), capacity)[0] == (key, recipe),
{
    position_facts(entries, key, 0);
}

} // verus!
