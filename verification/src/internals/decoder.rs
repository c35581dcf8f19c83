//! Recipe-cache internals.

use std::sync::Arc;

use vstd::prelude::*;

use crate::decoder::cache::{position, trimmed, without, RecipeCache};
use crate::decoder::recipe::{RecipeKey, ReconstructionRecipe};

verus! {

/// Access to mutable recipe-cache implementation details.
pub trait RecipeCacheExt {
    /// The entries, most recently used first.
    spec fn kept(&self) -> Seq<(RecipeKey, Arc<ReconstructionRecipe>)>;

    /// The number of recipes the cache may hold.
    spec fn bound(&self) -> int;

    /// Maximum number of retained recipes.
    fn capacity(&self) -> (r: usize)
        ensures
            r == self.bound(),
    ;

    /// Sets the maximum number of retained recipes without evicting entries.
    fn set_capacity(&mut self, capacity: usize)
        ensures
            final(self).bound() == capacity,
            final(self).kept() == old(self).kept(),
    ;

    /// Entries in most-recently-used order.
    fn entries(&self) -> (r: &[(RecipeKey, Arc<ReconstructionRecipe>)])
        ensures
            r@ == self.kept(),
    ;

    /// Mutable entries in most-recently-used order.
    fn entries_mut(&mut self) -> (r: &mut Vec<(RecipeKey, Arc<ReconstructionRecipe>)>)
        ensures
            r@ == old(self).kept(),
            final(self).kept() == final(r)@,
            final(self).bound() == old(self).bound(),
    ;

    /// Looks up and promotes a reconstruction recipe.
    fn get(&mut self, key: RecipeKey) -> (r: Option<Arc<ReconstructionRecipe>>)
        ensures
            final(self).bound() == old(self).bound(),
            match r {
                None => position(old(self).kept(), key, 0) == old(self).kept().len()
                    && final(self).kept() == old(self).kept(),
                Some(recipe) => {
                    let at = position(old(self).kept(), key, 0);
                    &&& at < old(self).kept().len()
                    &&& recipe == old(self).kept()[at].1
                    &&& final(self).kept() == without(old(self).kept(), key).insert(
                        0,
                        old(self).kept()[at],
                    )
                },
            },
    ;

    /// Inserts a reconstruction recipe.
    fn insert(&mut self, key: RecipeKey, recipe: Arc<ReconstructionRecipe>)
        ensures
            final(self).bound() == old(self).bound(),
            final(self).kept() == if old(self).bound() == 0 {
                old(self).kept()
            } else {
                trimmed(without(old(self).kept(), key).insert(0, (key, recipe)), old(self).bound())
            },
    ;
}

impl RecipeCacheExt for RecipeCache {
    open spec fn kept(&self) -> Seq<(RecipeKey, Arc<ReconstructionRecipe>)> {
        self.listed()
    }

    open spec fn bound(&self) -> int {
        self.limit()
    }

    fn capacity(&self) -> (r: usize) {
        RecipeCache::capacity(self)
    }

    fn set_capacity(&mut self, capacity: usize) {
        RecipeCache::set_capacity(self, capacity);
    }

    fn entries(&self) -> (r: &[(RecipeKey, Arc<ReconstructionRecipe>)]) {
        RecipeCache::entries(self)
    }

    fn entries_mut(&mut self) -> (r: &mut Vec<(RecipeKey, Arc<ReconstructionRecipe>)>) {
        RecipeCache::entries_mut(self)
    }

    fn get(&mut self, key: RecipeKey) -> (r: Option<Arc<ReconstructionRecipe>>) {
        RecipeCache::get(self, key)
    }

    fn insert(&mut self, key: RecipeKey, recipe: Arc<ReconstructionRecipe>) {
        RecipeCache::insert(self, key, recipe);
    }
}

} // verus!
