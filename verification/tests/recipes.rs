use srs::batch::BatchCodec;
use srs::decoder::recipe::{
    capped_total, recipe_storage, RecipeKey, ReconstructionRecipe, SourceTerm,
};
use srs::decoder::{LazyDecoderState, RecipeCache};
use srs::gf256::GfElem;
use srs::good_cauchy::GoodCauchyView;
use srs::pattern_key::PatternKey;
use srs::simd::ScaleTable;
use srs::stream::SymbolSink;
use srs::{Decoder, Engine};
use std::sync::Arc;

#[test]
fn cache_hits_share_recipe_allocation() {
    let key = RecipeKey {
        k: 4,
        m: 3,
        engine: Engine::StandardCauchy,
        pattern: PatternKey::empty(),
    };
    let recipe = Arc::new(ReconstructionRecipe {
        missing_data: vec![0, 1],
        present_data: vec![2, 3],
        source_terms: vec![SourceTerm {
            source_idx: 4,
            coefficients: vec![GfElem(2), GfElem(3)],
        }],
    });
    let mut cache = RecipeCache::new(1);
    cache.insert(key, Arc::clone(&recipe));

    let first = cache.get(key).unwrap();
    let second = cache.get(key).unwrap();
    assert!(Arc::ptr_eq(&recipe, &first));
    assert!(Arc::ptr_eq(&first, &second));
    assert_eq!(cache.hits(), 2);
}

fn synthetic_recipe(k: usize, r: usize) -> Arc<ReconstructionRecipe> {
    Arc::new(ReconstructionRecipe {
        missing_data: (0..r).collect(),
        present_data: (r..k).collect(),
        source_terms: (0..k)
            .map(|source_idx| SourceTerm {
                source_idx,
                coefficients: vec![GfElem(0x53); r],
            })
            .collect(),
    })
}

#[test]
fn compact_coefficients_are_materially_smaller_than_embedded_tables() {
    let (k, r) = (128, 64);
    let mut cache = RecipeCache::new(1);
    cache.insert(
        RecipeKey {
            k,
            m: 64,
            engine: Engine::StandardCauchy,
            pattern: PatternKey::empty(),
        },
        synthetic_recipe(k, r),
    );

    let embedded_table_bytes = k * r * core::mem::size_of::<ScaleTable>();
    assert_eq!(cache.recipe_bytes(), 13_384);
    assert!(cache.recipe_bytes() * 20 < embedded_table_bytes);
}

#[test]
fn recipe_memory_stays_bounded_across_cache_working_sets() {
    let (k, r) = (128, 127);
    for capacity in [16, 64, 256] {
        let mut cache = RecipeCache::new(capacity);
        for pattern_number in 0..=capacity {
            let mut pattern = PatternKey::empty();
            pattern.set(pattern_number % 256);
            cache.insert(
                RecipeKey {
                    k,
                    m: 127,
                    engine: Engine::StandardCauchy,
                    pattern,
                },
                synthetic_recipe(k, r),
            );
        }
        assert_eq!(cache.len(), capacity);
        assert!(cache.recipe_bytes() <= capacity * 21_500);
    }
}

fn pattern_key(number: usize) -> RecipeKey {
    let mut pattern = PatternKey::empty();
    pattern.set(number);
    RecipeKey {
        k: 4,
        m: 3,
        engine: Engine::GoodCauchy,
        pattern,
    }
}

#[test]
fn cache_length_counts_distinct_inserted_keys() {
    let mut cache = RecipeCache::new(3);
    assert!(cache.is_empty());
    for (number, len) in [(0, 1), (1, 2), (0, 2), (2, 3), (3, 3), (0, 3)] {
        cache.insert(pattern_key(number), synthetic_recipe(4, 1));
        assert_eq!(cache.len(), len);
        let _ = cache.get(pattern_key(9));
        let _ = cache.get(pattern_key(number));
        assert_eq!(cache.len(), len);
        assert!(!cache.is_empty());
    }
    assert_eq!(cache.misses(), 6);

    let mut nothing = RecipeCache::new(0);
    nothing.insert(pattern_key(0), synthetic_recipe(4, 1));
    assert_eq!(nothing.len(), 0);
    assert!(nothing.get(pattern_key(0)).is_none());
    assert_eq!((nothing.hits(), nothing.misses()), (0, 1));
}

#[test]
fn lookups_find_the_most_recently_used_keys() {
    let recipes: Vec<Arc<ReconstructionRecipe>> =
        (0..4).map(|r| synthetic_recipe(4, r)).collect();
    let mut cache = RecipeCache::new(2);
    cache.insert(pattern_key(0), Arc::clone(&recipes[0]));
    cache.insert(pattern_key(1), Arc::clone(&recipes[1]));
    // A lookup uses its key, so key 1 is the one that leaves.
    assert!(Arc::ptr_eq(&cache.get(pattern_key(0)).unwrap(), &recipes[0]));
    cache.insert(pattern_key(2), Arc::clone(&recipes[2]));
    assert!(cache.get(pattern_key(1)).is_none());
    assert!(Arc::ptr_eq(&cache.get(pattern_key(0)).unwrap(), &recipes[0]));
    assert!(Arc::ptr_eq(&cache.get(pattern_key(2)).unwrap(), &recipes[2]));
    // The recipe last inserted under a key is the one found.
    cache.insert(pattern_key(2), Arc::clone(&recipes[3]));
    assert!(Arc::ptr_eq(&cache.get(pattern_key(2)).unwrap(), &recipes[3]));
    assert_eq!(cache.hits(), 4);
}

#[test]
fn finalization_serves_recipes_from_the_cache() {
    let (k, m, symbol_len) = (3, 2, 4);
    let data: Vec<u8> = (0..k * symbol_len).map(|i| (7 * i + 1) as u8).collect();
    let codec = BatchCodec::<GoodCauchyView>::new(k, m, symbol_len).unwrap();
    let word = codec.encode(&data).unwrap();
    let mut decoder = LazyDecoderState::<GoodCauchyView>::new(k, m, symbol_len).unwrap();
    let mut cache = Decoder::scratch(&decoder);
    assert_eq!((cache.capacity(), cache.len()), (16, 0));

    let mut out = vec![0u8; k * symbol_len];
    assert!(decoder.finalize_into_with(&mut out, &mut cache).is_err());
    assert_eq!((cache.len(), cache.hits(), cache.misses()), (0, 0, 0));

    for index in [0, 3, 4] {
        decoder.push(index, &word[index]).unwrap();
    }
    assert_eq!(decoder.payloads().len(), (k + m) * symbol_len);
    for hits in 0..3 {
        decoder.finalize_into_with(&mut out, &mut cache).unwrap();
        assert_eq!(out, data);
        assert_eq!((cache.len(), cache.hits(), cache.misses()), (1, hits, 1));
    }
    let cached = Arc::clone(&cache.entries()[0].1);
    assert!(Arc::ptr_eq(&decoder.recipe_from_cache(&mut cache), &cached));

    decoder.reset();
    for index in [1, 2, 3] {
        decoder.push(index, &word[index]).unwrap();
    }
    decoder.finalize_into_with(&mut out, &mut cache).unwrap();
    assert_eq!(out, data);
    assert_eq!((cache.len(), cache.hits(), cache.misses()), (2, 3, 2));
    assert!(Arc::ptr_eq(&cache.entries()[1].1, &cached));
}

#[test]
fn recipe_bytes_add_up_the_entries() {
    let mut cache = RecipeCache::new(4);
    assert_eq!(cache.recipe_bytes(), 0);
    let mut total = 0;
    for number in 0..3 {
        let recipe = synthetic_recipe(8, number + 1);
        total += recipe.allocated_bytes();
        cache.insert(pattern_key(number), recipe);
        assert_eq!(cache.recipe_bytes(), total);
    }
    // Exact capacities: two lists of indices, eight terms, sixteen coefficients.
    assert_eq!(
        synthetic_recipe(8, 2).allocated_bytes(),
        recipe_storage(2, 6, 8, 16)
    );
    assert_eq!(capped_total(&[]), 0);
    assert_eq!(capped_total(&[3, 0, 4]), 7);
    assert_eq!(capped_total(&[usize::MAX - 1, 5]), usize::MAX);
}
