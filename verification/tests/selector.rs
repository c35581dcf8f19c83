use srs::stream::SymbolSink;
use srs::{
    batch_encoder, decoder, incremental_encoder, BatchEncoder, ConfigError, Decoder, Engine, Field,
    IncrementalEncoder, Profile,
};

fn data(k: usize, symbol_len: usize) -> Vec<u8> {
    (0..k * symbol_len).map(|i| (i * 7 + 1) as u8).collect()
}

#[test]
fn recommended_picks_engine_by_geometry() {
    // Small, low-redundancy GF(256): Good Cauchy, which also keeps the
    // incremental encoder available.
    assert_eq!(
        Profile::recommended(Field::Gf256, 10, 4, 64)
            .unwrap()
            .engine(),
        Engine::GoodCauchy
    );
    // Needs the 256th codeword position that Good Cauchy cannot address.
    assert_eq!(
        Profile::recommended(Field::Gf256, 250, 6, 64)
            .unwrap()
            .engine(),
        Engine::StandardCauchy
    );
    // The AFFT is never auto-recommended for GF(256): it is the better
    // encoder but a worse decoder at realistic erasure counts, and the
    // recommendation cannot see the erasure count. See
    // `recommended_gf8_engine`.
    assert_eq!(
        Profile::recommended(Field::Gf256, 64, 32, 64)
            .unwrap()
            .engine(),
        Engine::GoodCauchy
    );
    assert_eq!(
        Profile::recommended(Field::Gf256, 8, 4, 64)
            .unwrap()
            .engine(),
        Engine::GoodCauchy
    );
    assert_eq!(
        Profile::recommended(Field::Gf65536, 32, 4, 64)
            .unwrap()
            .engine(),
        Engine::Tower
    );
    assert_eq!(
        Profile::recommended(Field::Gf65536, 8, 4, 64)
            .unwrap()
            .engine(),
        Engine::Gf16Afft
    );
}

#[test]
fn resolve_rejects_bad_geometry() {
    assert_eq!(
        Profile::resolve(Engine::GoodCauchy, 0, 4, 64),
        Err(ConfigError::ZeroDimension)
    );
    assert_eq!(
        Profile::resolve(Engine::Tower, 4, 2, 0),
        Err(ConfigError::ZeroSymbolLen)
    );
    assert_eq!(
        Profile::resolve(Engine::Gf16Afft, 4, 2, 3),
        Err(ConfigError::OddSymbolLen)
    );
    // GF(2^8) elements are one byte, so no symbol length is odd for it.
    assert!(Profile::resolve(Engine::Gf8Afft, 4, 2, 3).is_ok());
    assert_eq!(
        Profile::resolve(Engine::Gf8Afft, 200, 57, 64),
        Err(ConfigError::TooManySymbols { cap: 256 })
    );
    assert_eq!(
        Profile::resolve(Engine::GoodCauchy, 200, 100, 64),
        Err(ConfigError::TooManySymbols { cap: 255 })
    );
}

#[test]
fn unsupported_modes_are_rejected() {
    let afft = Profile::resolve(Engine::Gf16Afft, 8, 4, 64).unwrap();
    assert!(matches!(
        incremental_encoder(&afft),
        Err(ConfigError::UnsupportedMode {
            engine: Engine::Gf16Afft
        })
    ));
    let gf8_afft = Profile::resolve(Engine::Gf8Afft, 8, 4, 64).unwrap();
    assert!(matches!(
        incremental_encoder(&gf8_afft),
        Err(ConfigError::UnsupportedMode {
            engine: Engine::Gf8Afft
        })
    ));
    let tower = Profile::resolve(Engine::Tower, 32, 4, 64).unwrap();
    assert!(matches!(
        batch_encoder(&tower),
        Err(ConfigError::UnsupportedMode {
            engine: Engine::Tower
        })
    ));
}

// Reconstruct via AnyDecoder from `k` symbols: all repairs then leading data.
fn recover(profile: &Profile, repairs: &[Vec<u8>], original: &[u8]) {
    let (k, m, s) = (profile.k(), profile.m(), profile.symbol_len());
    let mut dec = decoder(profile).unwrap();
    let mut scratch = Decoder::scratch(&dec);
    // Drop data symbol 0: feed repairs first, then data 1..k.
    for (j, repair) in repairs.iter().enumerate().take(m) {
        dec.push(k + j, repair).unwrap();
        if dec.is_complete() {
            break;
        }
    }
    for idx in 1..k {
        if dec.is_complete() {
            break;
        }
        dec.push(idx, &original[idx * s..(idx + 1) * s]).unwrap();
    }
    let mut out = vec![0u8; k * s];
    dec.finalize_into_with(&mut out, &mut scratch).unwrap();
    assert_eq!(out, original);
}

#[test]
fn any_batch_round_trip_across_engines() {
    for profile in [
        Profile::resolve(Engine::StandardCauchy, 10, 4, 64).unwrap(),
        Profile::resolve(Engine::GoodCauchy, 10, 4, 64).unwrap(),
        Profile::resolve(Engine::Gf8Afft, 8, 4, 64).unwrap(),
        Profile::resolve(Engine::Gf8Afft, 8, 4, 63).unwrap(),
        Profile::resolve(Engine::Gf16Afft, 8, 4, 64).unwrap(),
    ] {
        let (k, m, s) = (profile.k(), profile.m(), profile.symbol_len());
        let original = data(k, s);
        let enc = batch_encoder(&profile).unwrap();
        let mut scratch = enc.scratch();
        let mut flat = vec![0u8; m * s];
        enc.encode_into_with(&original, &mut flat, &mut scratch)
            .unwrap();
        let repairs: Vec<Vec<u8>> = (0..m).map(|j| flat[j * s..(j + 1) * s].to_vec()).collect();
        recover(&profile, &repairs, &original);
    }
}

#[test]
fn any_incremental_round_trip_good_cauchy_and_tower() {
    for profile in [
        Profile::resolve(Engine::GoodCauchy, 10, 4, 64).unwrap(),
        Profile::resolve(Engine::Tower, 32, 4, 64).unwrap(),
    ] {
        let (k, m, s) = (profile.k(), profile.m(), profile.symbol_len());
        let original = data(k, s);
        let mut enc = incremental_encoder(&profile).unwrap();
        for idx in 0..k {
            enc.feed(idx, &original[idx * s..(idx + 1) * s]).unwrap();
        }
        let repairs: Vec<Vec<u8>> = (0..m).map(|j| enc.repair(j).unwrap().to_vec()).collect();
        recover(&profile, &repairs, &original);
    }
}
