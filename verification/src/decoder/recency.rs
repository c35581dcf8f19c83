//! Which recipes a cache holds after any sequence of insertions and lookups.

use std::sync::Arc;

use vstd::prelude::*;

use crate::decoder::cache::{position, position_facts, trimmed, without, RecipeCache};
use crate::decoder::recipe::{capped, same_key, RecipeKey, ReconstructionRecipe};

verus! {

/// One call that uses a cache.
pub enum CacheUse {
    /// [`RecipeCache::insert`].
    Insert { key: RecipeKey, recipe: Arc<ReconstructionRecipe> },
    /// [`RecipeCache::get`].
    Get { key: RecipeKey },
}

/// Whether `key` has an entry.
pub open spec fn holds(
    entries: Seq<(RecipeKey, Arc<ReconstructionRecipe>)>,
    key: RecipeKey,
) -> bool {
    position(entries, key, 0) < entries.len()
}

/// The entries after one use.
pub open spec fn entries_after_use(
    entries: Seq<(RecipeKey, Arc<ReconstructionRecipe>)>,
    capacity: int,
    call: CacheUse,
) -> Seq<(RecipeKey, Arc<ReconstructionRecipe>)> {
    match call {
        CacheUse::Insert { key, recipe } => if capacity == 0 {
            entries
        } else {
            trimmed(without(entries, key).insert(0, (key, recipe)), capacity)
        },
        CacheUse::Get { key } => if holds(entries, key) {
            without(entries, key).insert(0, entries[position(entries, key, 0)])
        } else {
            entries
        },
    }
}

/// The entries of an empty cache after `calls`.
pub open spec fn entries_after(calls: Seq<CacheUse>, capacity: int) -> Seq<
    (RecipeKey, Arc<ReconstructionRecipe>),
>
    decreases calls.len(),
{
    if calls.len() == 0 {
        Seq::empty()
    } else {
        entries_after_use(entries_after(calls.drop_last(), capacity), capacity, calls.last())
    }
}

/// Whether a use is a lookup that finds its recipe.
pub open spec fn is_hit(
    entries: Seq<(RecipeKey, Arc<ReconstructionRecipe>)>,
    call: CacheUse,
) -> bool {
    call matches CacheUse::Get { key } && holds(entries, key)
}

/// How many of `calls` are lookups that find their recipe.
pub open spec fn hits_after(calls: Seq<CacheUse>, capacity: int) -> int
    decreases calls.len(),
{
    if calls.len() == 0 {
        0
    } else {
        let front = calls.drop_last();
        hits_after(front, capacity) + if is_hit(entries_after(front, capacity), calls.last()) {
            1int
        } else {
            0
        }
    }
}

/// The keys inserted, in order.
pub open spec fn inserted_keys(calls: Seq<CacheUse>) -> Seq<RecipeKey>
    decreases calls.len(),
{
    if calls.len() == 0 {
        Seq::empty()
    } else {
        match calls.last() {
            CacheUse::Insert { key, .. } => inserted_keys(calls.drop_last()).push(key),
            CacheUse::Get { .. } => inserted_keys(calls.drop_last()),
        }
    }
}

/// The keys used, in order: a key is used when it is inserted and when a lookup
/// finds it.
pub open spec fn used_keys(calls: Seq<CacheUse>, capacity: int) -> Seq<RecipeKey>
    decreases calls.len(),
{
    if calls.len() == 0 {
        Seq::empty()
    } else {
        let front = calls.drop_last();
        match calls.last() {
            CacheUse::Insert { key, .. } => used_keys(front, capacity).push(key),
            CacheUse::Get { key } => if holds(entries_after(front, capacity), key) {
                used_keys(front, capacity).push(key)
            } else {
                used_keys(front, capacity)
            },
        }
    }
}

/// The distinct keys among `keys`, the one that occurs last first.
pub open spec fn most_recent(keys: Seq<RecipeKey>) -> Seq<RecipeKey>
    decreases keys.len(),
{
    if keys.len() == 0 {
        Seq::empty()
    } else {
        most_recent(keys.drop_last()).remove_value(keys.last()).insert(0, keys.last())
    }
}

/// The first `count` of `keys`, or all of them.
pub open spec fn first_keys(keys: Seq<RecipeKey>, count: int) -> Seq<RecipeKey> {
    if keys.len() <= count {
        keys
    } else {
        keys.take(count)
    }
}

/// The recipe last inserted under `key`.
pub open spec fn last_inserted(calls: Seq<CacheUse>, key: RecipeKey) -> Option<
    Arc<ReconstructionRecipe>,
>
    decreases calls.len(),
{
    if calls.len() == 0 {
        None
    } else {
        match calls.last() {
            CacheUse::Insert { key: inserted, recipe } => if same_key(inserted, key) {
                Some(recipe)
            } else {
                last_inserted(calls.drop_last(), key)
            },
            CacheUse::Get { .. } => last_inserted(calls.drop_last(), key),
        }
    }
}

/// The keys of the entries.
pub open spec fn entry_keys(entries: Seq<(RecipeKey, Arc<ReconstructionRecipe>)>) -> Seq<
    RecipeKey,
> {
    Seq::new(entries.len(), |i: int| entries[i].0)
}

impl RecipeCache {
    /// The cache is what `calls` make of a new one.
    pub open spec fn reached_by(&self, calls: Seq<CacheUse>) -> bool {
        &&& 0 <= self.limit()
        &&& self.listed() == entries_after(calls, self.limit())
        &&& self.hit_total() == capped(hits_after(calls, self.limit()))
        &&& self.miss_total() == capped(inserted_keys(calls).len() as int)
    }
}

/// One more use of a cache.
pub proof fn next_use(
    before: &RecipeCache,
    after: &RecipeCache,
    calls: Seq<CacheUse>,
    call: CacheUse,
)
    requires
        before.reached_by(calls),
        after.limit() == before.limit(),
        after.listed() == entries_after_use(before.listed(), before.limit(), call),
        after.hit_total() == if is_hit(before.listed(), call) {
            capped(before.hit_total() + 1)
        } else {
            before.hit_total()
        },
        after.miss_total() == if call is Insert {
            capped(before.miss_total() + 1)
        } else {
            before.miss_total()
        },
    ensures
        after.reached_by(calls.push(call)),
{
    assert(calls.push(call).drop_last() =~= calls);
}

/// Keys that name the same recipe are equal.
proof fn same_keys_are_equal(a: RecipeKey, b: RecipeKey)
    ensures
        same_key(a, b) <==> a == b,
{
    if same_key(a, b) {
        assert(a.pattern.0 =~= b.pattern.0);
    }
}

/// The position of a key is its position among the keys.
proof fn position_in_keys(
    entries: Seq<(RecipeKey, Arc<ReconstructionRecipe>)>,
    key: RecipeKey,
)
    ensures
        0 <= position(entries, key, 0) <= entries.len(),
        holds(entries, key) <==> entry_keys(entries).contains(key),
        holds(entries, key) ==> entries[position(entries, key, 0)].0 == key,
{
    let at = position(entries, key, 0);
    position_facts(entries, key, 0);
    if at < entries.len() {
        same_keys_are_equal(entries[at].0, key);
        assert(entry_keys(entries)[at] == key);
    } else if entry_keys(entries).contains(key) {
        let i = choose|i: int| 0 <= i < entries.len() && entry_keys(entries)[i] == key;
        assert(same_key(entries[i].0, key));
    }
}

/// Moving a value to the front of a list without duplicates adds only that value.
proof fn moved_to_front<A>(list: Seq<A>, value: A)
    requires
        list.no_duplicates(),
    ensures
        list.remove_value(value).insert(0, value).no_duplicates(),
        forall|x: A| #[trigger]
            list.remove_value(value).insert(0, value).contains(x) == (x == value || list.contains(
                x,
            )),
{
    let moved = list.remove_value(value).insert(0, value);
    list.index_of_first_ensures(value);
    let at = match list.index_of_first(value) {
        Some(at) => at,
        None => list.len() as int,
    };
    let shift = |i: int|
        if i < at {
            i + 1
        } else {
            i
        };
    assert(moved[0] == value);
    assert forall|i: int| 0 <= i < list.len() && i != at implies #[trigger] list[i]
        == moved[shift(i)] && 0 < shift(i) < moved.len() by {
    }
    assert forall|i: int| 0 < i < moved.len() implies #[trigger] moved[i] == list[if i <= at {
        i - 1
    } else {
        i
    }] && moved[i] != value by {
    }
    assert forall|x: A| #[trigger] moved.contains(x) == (x == value || list.contains(x)) by {
        if moved.contains(x) && x != value {
            let i = choose|i: int| 0 <= i < moved.len() && moved[i] == x;
            assert(list.contains(moved[i]));
        }
        if list.contains(x) && x != value {
            let i = choose|i: int| 0 <= i < list.len() && list[i] == x;
            assert(moved[shift(i)] == x);
        }
    }
}

/// Each key occurs once among the most recent ones, and each of those occurs.
proof fn most_recent_facts(keys: Seq<RecipeKey>)
    ensures
        most_recent(keys).no_duplicates(),
        forall|key: RecipeKey| #[trigger] most_recent(keys).contains(key) == keys.contains(key),
    decreases keys.len(),
{
    if keys.len() > 0 {
        let front = keys.drop_last();
        let key = keys.last();
        most_recent_facts(front);
        moved_to_front(most_recent(front), key);
        pushed_contains(front, key);
        assert(keys =~= front.push(key));
    }
}

/// A use keeps the keys of the entries the first ones of the most recent keys.
proof fn use_keeps_recency(
    entries: Seq<(RecipeKey, Arc<ReconstructionRecipe>)>,
    keys: Seq<RecipeKey>,
    capacity: int,
    key: RecipeKey,
    recipe: Arc<ReconstructionRecipe>,
)
    requires
        0 < capacity,
        entry_keys(entries) == first_keys(most_recent(keys), capacity),
    ensures
        entry_keys(trimmed(without(entries, key).insert(0, (key, recipe)), capacity))
            == first_keys(most_recent(keys.push(key)), capacity),
{
    let before = most_recent(keys);
    let after = most_recent(keys.push(key));
    assert(keys.push(key).drop_last() =~= keys);
    assert(after == before.remove_value(key).insert(0, key));
    most_recent_facts(keys);
    before.index_of_first_ensures(key);
    position_facts(entries, key, 0);
    position_in_keys(entries, key);
    let at = position(entries, key, 0);
    let whole = without(entries, key).insert(0, (key, recipe));
    let result = trimmed(whole, capacity);
    if at < entries.len() {
        assert(entry_keys(entries)[at] == before[at]);
        assert(before.index_of_first(key) == Some(at));
    } else {
        assert forall|i: int| 0 <= i < entries.len() implies before[i] != key by {
            assert(entry_keys(entries)[i] == before[i]);
            assert(!entry_keys(entries).contains(key));
        }
    }
    assert forall|i: int| 0 <= i < result.len() implies #[trigger] entry_keys(result)[i]
        == first_keys(after, capacity)[i] by {
        if i > 0 {
            if at < entries.len() && i > at {
                assert(entry_keys(entries)[i] == before[i]);
            } else {
                assert(entry_keys(entries)[i - 1] == before[i - 1]);
            }
        }
    }
    assert(entry_keys(entries).len() == entries.len());
    assert(entry_keys(result) =~= first_keys(after, capacity));
}

/// The cached keys are the most recently used distinct ones, as many as the
/// capacity allows, most recently used first.
pub proof fn cached_keys_are_the_most_recent(calls: Seq<CacheUse>, capacity: int)
    requires
        0 <= capacity,
    ensures
        entry_keys(entries_after(calls, capacity)) == first_keys(
            most_recent(used_keys(calls, capacity)),
            capacity,
        ),
    decreases calls.len(),
{
    if calls.len() == 0 {
        assert(entry_keys(entries_after(calls, capacity)) =~= first_keys(
            most_recent(used_keys(calls, capacity)),
            capacity,
        ));
    } else {
        let front = calls.drop_last();
        cached_keys_are_the_most_recent(front, capacity);
        let entries = entries_after(front, capacity);
        let keys = used_keys(front, capacity);
        if capacity == 0 {
            assert(entries.len() == entry_keys(entries).len() == 0);
            assert(entries_after(calls, capacity) =~= entries);
            assert(first_keys(most_recent(used_keys(calls, capacity)), capacity).len() == 0);
            assert(entry_keys(entries_after(calls, capacity)) =~= first_keys(
                most_recent(used_keys(calls, capacity)),
                capacity,
            ));
        } else {
            match calls.last() {
                CacheUse::Insert { key, recipe } => {
                    use_keeps_recency(entries, keys, capacity, key, recipe);
                },
                CacheUse::Get { key } => {
                    position_in_keys(entries, key);
                    if holds(entries, key) {
                        let entry = entries[position(entries, key, 0)];
                        use_keeps_recency(entries, keys, capacity, key, entry.1);
                        assert(entries.len() == entry_keys(entries).len());
                        assert(entry == (key, entry.1));
                    }
                },
            }
        }
    }
}

/// Used keys are the inserted ones.
proof fn used_keys_are_inserted(calls: Seq<CacheUse>, capacity: int)
    requires
        0 <= capacity,
    ensures
        used_keys(calls, capacity).to_set() == inserted_keys(calls).to_set(),
    decreases calls.len(),
{
    let used = used_keys(calls, capacity);
    let inserted = inserted_keys(calls);
    if calls.len() == 0 {
        assert(used.to_set() =~= inserted.to_set());
    } else {
        let front = calls.drop_last();
        used_keys_are_inserted(front, capacity);
        let old_used = used_keys(front, capacity);
        let old_inserted = inserted_keys(front);
        assert forall|x: RecipeKey| old_used.contains(x) == #[trigger] old_inserted.contains(x) by {
            assert(old_used.to_set().contains(x) == old_inserted.to_set().contains(x));
        }
        match calls.last() {
            CacheUse::Insert { key, .. } => {
                pushed_contains(old_used, key);
                pushed_contains(old_inserted, key);
            },
            CacheUse::Get { key } => {
                let entries = entries_after(front, capacity);
                if holds(entries, key) {
                    pushed_contains(old_used, key);
                    position_in_keys(entries, key);
                    cached_keys_are_the_most_recent(front, capacity);
                    most_recent_facts(old_used);
                    let i = choose|i: int| 0 <= i < entries.len() && entry_keys(entries)[i] == key;
                    assert(most_recent(old_used)[i] == key);
                    assert(most_recent(old_used).contains(key));
                    assert(old_inserted.contains(key));
                }
            },
        }
        assert(used.to_set() =~= inserted.to_set());
    }
}

/// A key added at the end is one more member.
proof fn pushed_contains(keys: Seq<RecipeKey>, key: RecipeKey)
    ensures
        forall|x: RecipeKey| #[trigger]
            keys.push(key).contains(x) == (x == key || keys.contains(x)),
{
    assert forall|x: RecipeKey| #[trigger]
        keys.push(key).contains(x) == (x == key || keys.contains(x)) by {
        if x == key {
            assert(keys.push(key)[keys.len() as int] == x);
        } else if keys.contains(x) {
            let i = choose|i: int| 0 <= i < keys.len() && keys[i] == x;
            assert(keys.push(key)[i] == x);
        }
    }
}

/// A cache holds as many recipes as distinct keys were ever inserted, but never
/// more than its capacity; so inserting a cached key again, and looking anything
/// up, leaves the number as it is, and a cache of capacity zero stays empty.
pub proof fn length_counts_the_inserted_keys(cache: &RecipeCache, calls: Seq<CacheUse>)
    requires
        cache.reached_by(calls),
    ensures
        cache.listed().len() == if inserted_keys(calls).to_set().len() <= cache.limit() {
            inserted_keys(calls).to_set().len() as int
        } else {
            cache.limit()
        },
{
    let capacity = cache.limit();
    let used = used_keys(calls, capacity);
    cached_keys_are_the_most_recent(calls, capacity);
    used_keys_are_inserted(calls, capacity);
    most_recent_facts(used);
    let recent = most_recent(used);
    recent.unique_seq_to_set();
    assert(recent.to_set() =~= used.to_set());
    assert(entry_keys(cache.listed()).len() == cache.listed().len());
}

/// Inserting a key that is cached, and any lookup, leaves the number of cached
/// recipes unchanged.
pub proof fn reuse_keeps_the_length(
    entries: Seq<(RecipeKey, Arc<ReconstructionRecipe>)>,
    capacity: int,
    call: CacheUse,
)
    requires
        entries.len() <= capacity,
        call matches CacheUse::Insert { key, .. } ==> holds(entries, key),
    ensures
        entries_after_use(entries, capacity, call).len() == entries.len(),
{
    match call {
        CacheUse::Insert { key, .. } => position_facts(entries, key, 0),
        CacheUse::Get { key } => position_facts(entries, key, 0),
    }
}

/// The recipe of every entry is the one last inserted under its key.
proof fn entries_hold_the_last_inserted(calls: Seq<CacheUse>, capacity: int)
    requires
        0 <= capacity,
    ensures
        forall|i: int|
            0 <= i < entries_after(calls, capacity).len() ==> last_inserted(
                calls,
                (#[trigger] entries_after(calls, capacity)[i]).0,
            ) == Some(entries_after(calls, capacity)[i].1),
    decreases calls.len(),
{
    if calls.len() > 0 {
        let front = calls.drop_last();
        entries_hold_the_last_inserted(front, capacity);
        let entries = entries_after(front, capacity);
        let after = entries_after(calls, capacity);
        cached_keys_are_the_most_recent(front, capacity);
        most_recent_facts(used_keys(front, capacity));
        let recent = most_recent(used_keys(front, capacity));
        assert(entry_keys(entries).len() == entries.len());
        assert forall|i: int| 0 <= i < after.len() implies last_inserted(
            calls,
            (#[trigger] after[i]).0,
        ) == Some(after[i].1) by {
            match calls.last() {
                CacheUse::Insert { key, recipe } => {
                    position_in_keys(entries, key);
                    let at = position(entries, key, 0);
                    if capacity > 0 && i > 0 {
                        let from = if at < entries.len() && i > at {
                            i
                        } else {
                            i - 1
                        };
                        assert(after[i] == entries[from]);
                        same_keys_are_equal(key, entries[from].0);
                        assert(entry_keys(entries)[from] == recent[from]);
                        if at < entries.len() {
                            assert(entry_keys(entries)[at] == recent[at]);
                        } else if entries[from].0 == key {
                            assert(entry_keys(entries).contains(key));
                        }
                    } else if capacity == 0 {
                        assert(entries.len() == 0);
                    }
                },
                CacheUse::Get { key } => {
                    position_in_keys(entries, key);
                    let at = position(entries, key, 0);
                    if at < entries.len() {
                        if i == 0 {
                            assert(after[0] == entries[at]);
                        } else if i > at {
                            assert(after[i] == entries[i]);
                        } else {
                            assert(after[i] == entries[i - 1]);
                        }
                    }
                },
            }
        }
    }
}

/// A lookup finds a recipe exactly when its key is among the most recently used
/// distinct keys, as many as the capacity allows, and then it finds the recipe
/// last inserted under the key. The cache counts the lookups that found one.
pub proof fn lookups_find_the_most_recent_keys(
    cache: &RecipeCache,
    calls: Seq<CacheUse>,
    key: RecipeKey,
)
    requires
        cache.reached_by(calls),
    ensures
        holds(cache.listed(), key) <==> first_keys(
            most_recent(used_keys(calls, cache.limit())),
            cache.limit(),
        ).contains(key),
        holds(cache.listed(), key) ==> Some(cache.listed()[position(cache.listed(), key, 0)].1)
            == last_inserted(calls, key),
        cache.hit_total() == capped(hits_after(calls, cache.limit())),
{
    let capacity = cache.limit();
    cached_keys_are_the_most_recent(calls, capacity);
    position_in_keys(cache.listed(), key);
    entries_hold_the_last_inserted(calls, capacity);
}

} // verus!
