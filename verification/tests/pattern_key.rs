use srs::pattern_key::PatternKey;

#[test]
fn pattern_key_covers_256_symbols() {
    let mut key = PatternKey::empty();
    for idx in [0, 1, 63, 64, 127, 128, 191, 192, 255] {
        key.set(idx);
    }
    for idx in 0..256 {
        let expected = matches!(idx, 0 | 1 | 63 | 64 | 127 | 128 | 191 | 192 | 255);
        assert_eq!(key.get(idx), expected, "idx {idx}");
    }
}

#[test]
fn words_hold_sixty_four_marks_each() {
    let mut key = PatternKey::empty();
    assert_eq!(key.words(), [0, 0, 0, 0]);
    key.set(1);
    key.set(64);
    key.set(255);
    assert_eq!(key.words(), [2, 1, 0, 1 << 63]);
    let mut other = PatternKey::empty();
    other.set(255);
    assert!(!key.same(&other));
    other.set(64);
    other.set(1);
    assert!(key.same(&other));
}
