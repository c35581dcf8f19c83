//! The code's guarantees on concrete blocks, for every engine.

use srs::stream::{PushOutcome, SymbolSink};
use srs::{
    batch_decoder, batch_encoder, decoder, incremental_encoder, BatchDecoder, BatchEncoder,
    ConfigError, DecodeError, Decoder, EncodeError, Engine, IncrementalEncoder, Profile,
};

fn engines() -> [Engine; 5] {
    [
        Engine::StandardCauchy,
        Engine::GoodCauchy,
        Engine::Tower,
        Engine::Gf8Afft,
        Engine::Gf16Afft,
    ]
}

fn message(k: usize, symbol_len: usize) -> Vec<u8> {
    (0..k * symbol_len).map(|i| (i * 89 + 41) as u8).collect()
}

/// All `k + m` symbols, from whichever encoder the engine has.
fn codeword(profile: &Profile, data: &[u8]) -> Vec<Vec<u8>> {
    let (k, m, s) = (profile.k(), profile.m(), profile.symbol_len());
    let mut word: Vec<Vec<u8>> = data.chunks_exact(s).map(<[u8]>::to_vec).collect();
    if let Ok(encoder) = batch_encoder(profile) {
        let mut repairs = vec![0u8; m * s];
        encoder.encode_into(data, &mut repairs).unwrap();
        word.extend(repairs.chunks_exact(s).map(<[u8]>::to_vec));
    } else {
        let mut encoder = incremental_encoder(profile).unwrap();
        for index in 0..k {
            encoder.feed(index, &data[index * s..(index + 1) * s]).unwrap();
        }
        word.extend((0..m).map(|j| encoder.repair(j).unwrap().to_vec()));
    }
    word
}

/// All `k`-subsets of `0..n`.
fn subsets(n: usize, k: usize) -> Vec<Vec<usize>> {
    let mut found = Vec::new();
    for mask in 0..1usize << n {
        let subset: Vec<usize> = (0..n).filter(|i| mask & (1 << i) != 0).collect();
        if subset.len() == k {
            found.push(subset);
        }
    }
    found
}

#[test]
fn any_k_symbols_give_the_data_back() {
    for engine in engines() {
        let profile = Profile::resolve(engine, 5, 3, 6).unwrap();
        let data = message(5, 6);
        let word = codeword(&profile, &data);
        for subset in subsets(8, 5) {
            let received: Vec<(usize, &[u8])> =
                subset.iter().map(|&i| (i, word[i].as_slice())).collect();
            let mut batch = batch_decoder(&profile).unwrap();
            let mut out = vec![0u8; data.len()];
            batch.decode_into(&received, &mut out).unwrap();
            assert_eq!(out, data, "{engine:?} {subset:?}");

            let mut streaming = decoder(&profile).unwrap();
            for &(index, payload) in &received {
                streaming.push(index, payload).unwrap();
            }
            assert_eq!(streaming.finalize().unwrap(), data, "{engine:?} {subset:?}");
        }
    }
}

#[test]
fn arrival_order_does_not_matter() {
    for engine in engines() {
        let profile = Profile::resolve(engine, 4, 4, 10).unwrap();
        let data = message(4, 10);
        let word = codeword(&profile, &data);
        for order in [[7, 1, 4, 2], [2, 4, 1, 7], [4, 7, 2, 1]] {
            let received: Vec<(usize, &[u8])> =
                order.iter().map(|&i| (i, word[i].as_slice())).collect();
            let mut batch = batch_decoder(&profile).unwrap();
            let mut out = vec![0xeeu8; data.len()];
            batch.decode_into(&received, &mut out).unwrap();
            assert_eq!(out, data, "{engine:?} {order:?}");
        }
    }
}

#[test]
fn feeding_order_does_not_matter() {
    for engine in [Engine::GoodCauchy, Engine::Tower] {
        let profile = Profile::resolve(engine, 4, 3, 8).unwrap();
        let data = message(4, 8);
        let word = codeword(&profile, &data);
        for order in [[0, 1, 2, 3], [3, 1, 0, 2], [2, 3, 1, 0]] {
            let mut encoder = incremental_encoder(&profile).unwrap();
            for (fed, &index) in order.iter().enumerate() {
                assert_eq!(encoder.fed_count(), fed);
                encoder.feed(index, &data[index * 8..(index + 1) * 8]).unwrap();
            }
            for j in 0..3 {
                assert_eq!(encoder.repair(j).unwrap(), word[4 + j].as_slice());
            }
        }
    }
}

#[test]
fn incremental_and_block_repairs_are_the_same() {
    let profile = Profile::resolve(Engine::GoodCauchy, 6, 4, 12).unwrap();
    let data = message(6, 12);
    let mut block = vec![0u8; 4 * 12];
    batch_encoder(&profile)
        .unwrap()
        .encode_into(&data, &mut block)
        .unwrap();
    let mut encoder = incremental_encoder(&profile).unwrap();
    for index in 0..6 {
        encoder
            .feed(index, &data[index * 12..(index + 1) * 12])
            .unwrap();
    }
    for j in 0..4 {
        assert_eq!(encoder.repair(j).unwrap(), &block[j * 12..(j + 1) * 12]);
    }
}

#[test]
fn repeated_symbols_change_nothing() {
    for engine in engines() {
        let profile = Profile::resolve(engine, 3, 3, 4).unwrap();
        let data = message(3, 4);
        let word = codeword(&profile, &data);
        let mut streaming = decoder(&profile).unwrap();
        assert_eq!(
            streaming.push(4, &word[4]).unwrap(),
            PushOutcome::Advanced {
                rank: 1,
                received: 1
            }
        );
        assert_eq!(
            streaming.push(4, &[9, 9, 9, 9]).unwrap(),
            PushOutcome::Dependent
        );
        assert_eq!(streaming.rank(), 1);
        assert_eq!(streaming.received(), 2);
        streaming.push(0, &word[0]).unwrap();
        assert!(!streaming.is_complete());
        assert_eq!(
            streaming.push(5, &word[5]).unwrap(),
            PushOutcome::Complete
        );
        assert!(streaming.is_complete());
        assert_eq!(streaming.finalize().unwrap(), data);
    }
}

#[test]
fn a_reset_decoder_decodes_the_next_block() {
    for engine in engines() {
        let profile = Profile::resolve(engine, 3, 2, 6).unwrap();
        let mut streaming = decoder(&profile).unwrap();
        let mut scratch = Decoder::scratch(&streaming);
        for round in 0..3usize {
            let data: Vec<u8> = message(3, 6).iter().map(|b| b ^ round as u8).collect();
            let word = codeword(&profile, &data);
            for index in [round % 3, 3, 4] {
                streaming.push(index, &word[index]).unwrap();
            }
            let mut out = vec![0u8; data.len()];
            streaming.finalize_into_with(&mut out, &mut scratch).unwrap();
            assert_eq!(out, data, "{engine:?} round {round}");
            Decoder::reset(&mut streaming);
            assert_eq!(streaming.rank(), 0);
            assert_eq!(streaming.received(), 0);
        }
    }
}

#[test]
fn refused_requests_leave_the_output_alone() {
    for engine in engines() {
        let profile = Profile::resolve(engine, 3, 2, 6).unwrap();
        let data = message(3, 6);
        let word = codeword(&profile, &data);
        let mut batch = batch_decoder(&profile).unwrap();
        let mut out = vec![0x77u8; 18];
        assert_eq!(
            batch.decode_into(&[(0, &word[0]), (1, &word[1])], &mut out),
            Err(DecodeError::WrongCount {
                expected: 3,
                got: 2
            })
        );
        assert_eq!(
            batch.decode_into(
                &[(0, &word[0]), (1, &word[1]), (5, &word[4])],
                &mut out
            ),
            Err(DecodeError::IndexOutOfRange { index: 5, n: 5 })
        );
        assert_eq!(out, vec![0x77u8; 18], "{engine:?}");
    }
}

#[test]
fn streaming_errors_name_their_inputs() {
    for engine in engines() {
        let profile = Profile::resolve(engine, 2, 1, 4).unwrap();
        let mut streaming = decoder(&profile).unwrap();
        assert_eq!(
            streaming.push(3, &[0; 4]),
            Err(DecodeError::IndexOutOfRange { index: 3, n: 3 })
        );
        assert_eq!(
            streaming.push(0, &[0; 3]),
            Err(DecodeError::WrongPayloadLen {
                expected: 4,
                got: 3
            })
        );
        streaming.push(0, &[1; 4]).unwrap();
        let mut out = [0u8; 8];
        assert_eq!(
            streaming.finalize_into(&mut out),
            Err(DecodeError::InsufficientRank { rank: 1, k: 2 })
        );
        streaming.push(0, &[1; 4]).unwrap();
        streaming.push(0, &[1; 4]).unwrap();
        assert_eq!(
            streaming.push(0, &[1; 4]),
            Err(DecodeError::TooManySymbols {
                cap: 3,
                received: 3
            })
        );
    }
}

#[test]
fn scratch_of_another_engine_or_shape_is_refused() {
    let cauchy = Profile::resolve(Engine::GoodCauchy, 3, 2, 4).unwrap();
    let afft = Profile::resolve(Engine::Gf16Afft, 3, 2, 4).unwrap();
    let wider = Profile::resolve(Engine::Gf16Afft, 4, 2, 4).unwrap();
    let data = message(3, 4);
    let word = codeword(&afft, &data);

    let mut streaming = decoder(&afft).unwrap();
    for index in [0, 3, 4] {
        streaming.push(index, &word[index]).unwrap();
    }
    let mut out = vec![0u8; 12];
    let mut foreign = Decoder::scratch(&decoder(&cauchy).unwrap());
    assert_eq!(
        streaming.finalize_into_with(&mut out, &mut foreign),
        Err(DecodeError::ScratchMismatch)
    );
    let mut other_shape = Decoder::scratch(&decoder(&wider).unwrap());
    assert_eq!(
        streaming.finalize_into_with(&mut out, &mut other_shape),
        Err(DecodeError::ScratchMismatch)
    );
    let mut own = Decoder::scratch(&streaming);
    streaming.finalize_into_with(&mut out, &mut own).unwrap();
    assert_eq!(out, data);

    let encoder = batch_encoder(&afft).unwrap();
    let mut foreign = BatchEncoder::scratch(&batch_encoder(&cauchy).unwrap());
    let mut repairs = vec![0u8; 8];
    assert_eq!(
        encoder.encode_into_with(&data, &mut repairs, &mut foreign),
        Err(EncodeError::ScratchMismatch)
    );
}

#[test]
fn encoder_errors_name_their_inputs() {
    let tower = Profile::resolve(Engine::Tower, 2, 2, 4).unwrap();
    let mut encoder = incremental_encoder(&tower).unwrap();
    assert_eq!(
        encoder.feed(2, &[0; 4]),
        Err(EncodeError::IndexOutOfRange { index: 2, n: 4 })
    );
    assert_eq!(
        encoder.repair(2),
        Err(EncodeError::IndexOutOfRange { index: 2, n: 4 })
    );
    let mut good = srs::encoder::StreamingEncoder::new(3, 2, 4).unwrap();
    assert_eq!(
        good.feed_data_symbol(3, &[0; 4]),
        Err(EncodeError::IndexOutOfRange { index: 3, n: 5 })
    );
    assert_eq!(
        good.repair_symbol(2),
        Err(EncodeError::IndexOutOfRange { index: 2, n: 5 })
    );
    assert_eq!(
        encoder.feed(0, &[0; 2]),
        Err(EncodeError::WrongPayloadLen {
            expected: 4,
            got: 2
        })
    );
    encoder.feed(1, &[1, 2, 3, 4]).unwrap();
    assert_eq!(
        encoder.feed(1, &[1, 2, 3, 4]),
        Err(EncodeError::DuplicateData { index: 1 })
    );

    for engine in [
        Engine::StandardCauchy,
        Engine::GoodCauchy,
        Engine::Gf8Afft,
        Engine::Gf16Afft,
    ] {
        let profile = Profile::resolve(engine, 2, 2, 4).unwrap();
        let encoder = batch_encoder(&profile).unwrap();
        let mut repairs = [0u8; 8];
        assert_eq!(
            encoder.encode_into(&[0; 7], &mut repairs),
            Err(EncodeError::WrongInputLen {
                expected: 8,
                got: 7
            })
        );
        assert_eq!(
            encoder.encode_into(&[0; 8], &mut repairs[..6]),
            Err(EncodeError::WrongOutputLen {
                expected: 8,
                got: 6
            })
        );
    }
}

#[test]
fn recommended_profiles_can_be_built() {
    for field in [srs::Field::Gf256, srs::Field::Gf65536] {
        for (k, m) in [(1, 1), (10, 3), (100, 20), (200, 56)] {
            let profile = Profile::recommended(field, k, m, 8).unwrap();
            assert_eq!(profile.field(), field);
            assert_eq!(profile.n(), k + m);
            assert!(decoder(&profile).is_ok());
            assert!(batch_decoder(&profile).is_ok());
            assert!(batch_encoder(&profile).is_ok() || incremental_encoder(&profile).is_ok());
        }
    }
    assert_eq!(
        Profile::recommended(srs::Field::Gf256, 250, 7, 8),
        Err(ConfigError::TooManySymbols { cap: 256 })
    );
}

#[test]
fn a_known_block_has_known_repairs() {
    // Standard Cauchy over GF(256) with x_i = i and y_j = 2 + j: the first
    // repair is d_0 / 2 + d_1 / 3.
    let profile = Profile::resolve(Engine::StandardCauchy, 2, 1, 1).unwrap();
    let mut repairs = [0u8; 1];
    batch_encoder(&profile)
        .unwrap()
        .encode_into(&[0x02, 0x03], &mut repairs)
        .unwrap();
    assert_eq!(repairs, [0x00]);
    batch_encoder(&profile)
        .unwrap()
        .encode_into(&[0x02, 0x00], &mut repairs)
        .unwrap();
    assert_eq!(repairs, [0x01]);

    // Evaluation code with one data symbol: every repair repeats it.
    let profile = Profile::resolve(Engine::Gf16Afft, 1, 3, 2).unwrap();
    let mut repairs = [0u8; 6];
    batch_encoder(&profile)
        .unwrap()
        .encode_into(&[0x12, 0xab], &mut repairs)
        .unwrap();
    assert_eq!(repairs, [0x12, 0xab, 0x12, 0xab, 0x12, 0xab]);

    // Two data symbols: the line through (0, d_0) and (1, d_1), at 2.
    let profile = Profile::resolve(Engine::Gf8Afft, 2, 1, 1).unwrap();
    let mut repairs = [0u8; 1];
    batch_encoder(&profile)
        .unwrap()
        .encode_into(&[0x05, 0x04], &mut repairs)
        .unwrap();
    assert_eq!(repairs, [0x05 ^ 0x02]);
}

/// `k` positions in a pseudo-random order.
fn arrival(k: usize, m: usize, state: &mut u64) -> Vec<usize> {
    let mut indices: Vec<usize> = (0..k + m).collect();
    for position in (1..indices.len()).rev() {
        *state = state
            .wrapping_mul(6_364_136_223_846_793_005)
            .wrapping_add(1_442_695_040_888_963_407);
        indices.swap(position, (*state >> 33) as usize % (position + 1));
    }
    indices.truncate(k);
    indices
}

#[test]
fn engines_agree_on_random_losses() {
    let mut state = 0x1234_5678u64;
    for k in 1..=12 {
        for m in [1, 2, 5, 12] {
            let symbol_len = 2 * (1 + (k + m) % 8);
            let data = message(k, symbol_len);
            let order = arrival(k, m, &mut state);
            for engine in engines() {
                let profile = Profile::resolve(engine, k, m, symbol_len).unwrap();
                let word = codeword(&profile, &data);
                let mut streaming = decoder(&profile).unwrap();
                for &index in &order {
                    streaming.push(index, &word[index]).unwrap();
                }
                assert_eq!(
                    streaming.finalize().unwrap(),
                    data,
                    "{engine:?} k={k} m={m} {order:?}"
                );
            }
        }
    }
}

#[test]
fn byte_engines_take_odd_symbol_lengths() {
    let mut state = 0x9abc_def0u64;
    for symbol_len in [1, 3, 7, 17] {
        for engine in [Engine::StandardCauchy, Engine::GoodCauchy, Engine::Gf8Afft] {
            let profile = Profile::resolve(engine, 7, 5, symbol_len).unwrap();
            let data = message(7, symbol_len);
            let word = codeword(&profile, &data);
            let order = arrival(7, 5, &mut state);
            let received: Vec<(usize, &[u8])> =
                order.iter().map(|&i| (i, word[i].as_slice())).collect();
            let mut out = vec![0u8; data.len()];
            batch_decoder(&profile)
                .unwrap()
                .decode_into(&received, &mut out)
                .unwrap();
            assert_eq!(out, data, "{engine:?} {symbol_len} {order:?}");
        }
    }
}

#[test]
fn feeds_in_any_order_give_the_batch_repairs() {
    let (k, m, symbol_len) = (4, 3, 5);
    let data: Vec<u8> = (0..k * symbol_len).map(|i| (11 * i + 3) as u8).collect();
    let codec = srs::batch::GoodCauchyBatchCodec::new(k, m, symbol_len).unwrap();
    let word = codec.encode(&data).unwrap();
    for order in [[0, 1, 2, 3], [3, 1, 0, 2], [2, 3, 1, 0]] {
        let mut encoder = srs::encoder::StreamingEncoder::new(k, m, symbol_len).unwrap();
        for (count, &index) in order.iter().enumerate() {
            assert_eq!(encoder.fed_count(), count);
            encoder.feed_data_symbol(index, &word[index]).unwrap();
            assert!(encoder.feed_data_symbol(index, &word[index]).is_err());
        }
        assert_eq!(encoder.fed_count(), k);
        for j in 0..m {
            assert_eq!(encoder.repair_symbol(j).unwrap(), &word[k + j][..]);
        }
    }
}

#[test]
fn oversized_payload_storage_is_refused() {
    // Half the address space: representable, but more than one allocation holds.
    let symbol_len = 1usize << (usize::BITS - 3);
    for (engine, cap) in [
        (Engine::Tower, 65_535),
        (Engine::Gf8Afft, 256),
        (Engine::Gf16Afft, 65_536),
    ] {
        let profile = Profile::resolve(engine, 3, 1, symbol_len).unwrap();
        assert!(matches!(
            decoder(&profile),
            Err(ConfigError::TooManySymbols { cap: c }) if c == cap
        ));
    }
}
