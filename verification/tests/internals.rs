use srs::afft::profile::Profile as TransformProfile;
use srs::afft::TransformPlan;
use srs::decoder::recipe::{RecipeKey, ReconstructionRecipe};
use srs::decoder::RecipeCache;
use srs::internals::afft::shared_transform_plan;
use srs::internals::codec::profile_from_parts;
use srs::internals::decoder::RecipeCacheExt;
use srs::pattern_key::PatternKey;
use srs::payload::xor_scaled_bytes;
use srs::tower::cauchy::batch_invert;
use srs::{gf256, gf65536, Engine};
use std::sync::Arc;

#[test]
fn internals_feature_exposes_implementation_facades() {
    let profile = profile_from_parts(Engine::Gf16Afft, 4, 2, 8);
    assert_eq!(profile.engine(), Engine::Gf16Afft);

    let internal_profile = TransformProfile::new::<gf65536::GfElem>(4, 2, 8).unwrap();
    assert_eq!(internal_profile.transform_size, 8);

    let plan: TransformPlan<gf65536::GfElem> = shared_transform_plan(4).unwrap();
    let mut rows = vec![0u8; plan.size() * 2];
    let kernel_plan = butterfly_fft::TransformPlan::<fgf::Gf16>::new(plan.size()).unwrap();
    kernel_plan.forward_bytes(&mut rows, 2).unwrap();
    assert!(rows.iter().all(|&byte| byte == 0));

    let mut cache = RecipeCache::new(3);
    assert_eq!(RecipeCacheExt::capacity(&cache), 3);
    RecipeCacheExt::set_capacity(&mut cache, 4);
    assert_eq!(RecipeCacheExt::capacity(&cache), 4);

    let mut gf8_destination = [0u8; 4];
    xor_scaled_bytes(&mut gf8_destination, gf256::GfElem(1), &[1, 2, 3, 4]);
    assert_eq!(gf8_destination, [1, 2, 3, 4]);

    let mut tower_values = [gf65536::GfElem(1)];
    batch_invert(&mut tower_values);
    assert_eq!(tower_values, [gf65536::GfElem(1)]);

    let direct = TransformPlan::<gf65536::GfElem>::new(4).unwrap();
    assert_eq!(direct.size(), plan.size());
}

#[test]
fn shared_plans_exist_for_field_sized_domains_only() {
    assert!(shared_transform_plan::<gf256::GfElem>(256).is_some());
    assert!(shared_transform_plan::<gf256::GfElem>(512).is_none());
    assert!(shared_transform_plan::<gf65536::GfElem>(3).is_none());
    assert!(shared_transform_plan::<gf65536::GfElem>(0).is_none());
}

#[test]
fn batch_inversion_matches_single_inversion() {
    let values: Vec<gf65536::GfElem> = (1..40u16).map(|i| gf65536::GfElem(i * 1621)).collect();
    let mut inverted = values.clone();
    batch_invert(&mut inverted);
    for (value, inverse) in values.iter().zip(&inverted) {
        assert_eq!(value.inv(), *inverse);
    }
}

#[test]
fn cached_entries_can_be_dropped_through_the_extension() {
    let mut cache = RecipeCache::new(2);
    let recipe = Arc::new(ReconstructionRecipe {
        missing_data: vec![0],
        present_data: vec![1],
        source_terms: Vec::new(),
    });
    let key = RecipeKey {
        k: 2,
        m: 1,
        engine: Engine::GoodCauchy,
        pattern: PatternKey::empty(),
    };
    RecipeCacheExt::insert(&mut cache, key, recipe);
    assert_eq!(RecipeCacheExt::entries(&cache).len(), 1);
    assert!(RecipeCacheExt::get(&mut cache, key).is_some());
    cache.entries_mut().clear();
    assert!(cache.is_empty());
    assert!(RecipeCacheExt::get(&mut cache, key).is_none());
    assert_eq!((cache.hits(), cache.misses()), (1, 1));
}
