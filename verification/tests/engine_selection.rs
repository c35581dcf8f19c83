use srs::{recommended_gf16_engine, recommended_gf8_engine, Gf16Engine, Gf8Engine};

#[test]
fn small_low_redundancy_blocks_pick_tower() {
    // 25% redundancy under the 1/3 threshold, small block -> tower.
    assert_eq!(recommended_gf16_engine(32, 8), Gf16Engine::Tower);
    assert_eq!(recommended_gf16_engine(200, 40), Gf16Engine::Tower);
    assert_eq!(recommended_gf16_engine(4, 1), Gf16Engine::Tower);
}

#[test]
fn large_blocks_pick_afft() {
    // k + m > 256 regardless of redundancy.
    assert_eq!(recommended_gf16_engine(256, 1), Gf16Engine::Afft);
    assert_eq!(recommended_gf16_engine(1024, 8), Gf16Engine::Afft);
}

#[test]
fn high_redundancy_blocks_pick_afft() {
    // m >= k / 3 (>= ~33% redundancy) even for small blocks.
    assert_eq!(recommended_gf16_engine(9, 3), Gf16Engine::Afft);
    assert_eq!(recommended_gf16_engine(10, 4), Gf16Engine::Afft);
    assert_eq!(recommended_gf16_engine(6, 2), Gf16Engine::Afft);
}

#[test]
fn threshold_boundaries() {
    // n == 256 is not "large"; 257 is.
    assert_eq!(recommended_gf16_engine(255, 1), Gf16Engine::Tower);
    assert_eq!(recommended_gf16_engine(255, 2), Gf16Engine::Afft);
    // 3m == k is the redundancy boundary (inclusive).
    assert_eq!(recommended_gf16_engine(12, 4), Gf16Engine::Afft);
    assert_eq!(recommended_gf16_engine(13, 4), Gf16Engine::Tower);
}

#[test]
fn recommendations_survive_extreme_geometry() {
    assert_eq!(recommended_gf16_engine(usize::MAX, usize::MAX), Gf16Engine::Afft);
    assert_eq!(recommended_gf16_engine(0, 0), Gf16Engine::Afft);
}

#[test]
fn gf8_engine_follows_the_codeword_length() {
    assert_eq!(recommended_gf8_engine(251, 4), Gf8Engine::GoodCauchy);
    assert_eq!(recommended_gf8_engine(252, 4), Gf8Engine::StandardCauchy);
    assert_eq!(recommended_gf8_engine(64, 64), Gf8Engine::GoodCauchy);
}
