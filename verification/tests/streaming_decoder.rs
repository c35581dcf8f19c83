use srs::batch::BatchCodec;
use srs::cauchy::CauchyView;
use srs::coding_matrix::CodingMatrix;
use srs::decoder::{LazyDecoderState, RecipeCache};
use srs::good_cauchy::GoodCauchyView;
use srs::stream::{PushOutcome, SymbolSink};
use srs::{BatchDecoder, DecodeError, Decoder};

fn k_subsets(n: usize, k: usize) -> Vec<Vec<usize>> {
    if k > n {
        return Vec::new();
    }
    let mut result = Vec::new();
    let mut state: Vec<usize> = (0..k).collect();
    loop {
        result.push(state.clone());
        let mut i = k - 1;
        loop {
            if state[i] < n - k + i {
                state[i] += 1;
                for j in (i + 1)..k {
                    state[j] = state[j - 1] + 1;
                }
                break;
            }
            if i == 0 {
                return result;
            }
            i -= 1;
        }
    }
}

#[test]
fn recipe_cache_records_hits_and_misses() {
    let (k, m, slen) = (4, 3, 8);
    let codec = BatchCodec::<CauchyView>::new(k, m, slen).unwrap();
    let data: Vec<u8> = (0..k * slen).map(|i| i as u8).collect();
    let symbols = codec.encode(&data).unwrap();
    let arrival: Vec<usize> = (k..k + m).chain(0..k - m).collect();
    let mut cache = RecipeCache::new(8);

    for iter in 0..2 {
        let mut dec = LazyDecoderState::<CauchyView>::new(k, m, slen).unwrap();
        for &idx in &arrival {
            dec.push_symbol(idx, &symbols[idx]).unwrap();
        }
        let mut out = vec![0u8; k * slen];
        dec.finalize_into_with(&mut out, &mut cache).unwrap();
        assert_eq!(out, data);
        if iter == 0 {
            assert_eq!(cache.misses(), 1);
            assert_eq!(cache.hits(), 0);
        } else {
            assert_eq!(cache.misses(), 1);
            assert_eq!(cache.hits(), 1);
        }
    }
}

#[test]
fn recipe_cache_separates_matrix_implementations() {
    let (k, m, slen) = (4, 3, 32);
    let data: Vec<u8> = (0..k * slen).map(|i| i as u8).collect();
    let good = BatchCodec::<GoodCauchyView>::new(k, m, slen).unwrap();
    let standard = BatchCodec::<CauchyView>::new(k, m, slen).unwrap();
    let good_symbols = good.encode(&data).unwrap();
    let standard_symbols = standard.encode(&data).unwrap();
    let arrival = [k, k + 1, 2, 3];
    let mut cache = RecipeCache::new(8);

    let mut good_decoder =
        LazyDecoderState::<GoodCauchyView>::new(k, m, slen).unwrap();
    for &idx in &arrival {
        good_decoder.push_symbol(idx, &good_symbols[idx]).unwrap();
    }
    let mut good_out = vec![0u8; k * slen];
    good_decoder
        .finalize_into_with(&mut good_out, &mut cache)
        .unwrap();
    assert_eq!(good_out, data);

    let mut standard_decoder =
        LazyDecoderState::<CauchyView>::new(k, m, slen).unwrap();
    for &idx in &arrival {
        standard_decoder
            .push_symbol(idx, &standard_symbols[idx])
            .unwrap();
    }
    let mut standard_out = vec![0u8; k * slen];
    standard_decoder
        .finalize_into_with(&mut standard_out, &mut cache)
        .unwrap();
    assert_eq!(standard_out, data);
    assert_eq!(cache.misses(), 2);
    assert_eq!(cache.hits(), 0);
}

#[test]
fn constructor_uses_selected_matrix_capacity() {
    assert!(LazyDecoderState::<CauchyView>::new(255, 1, 1).is_ok());
    assert!(LazyDecoderState::<CauchyView>::new(255, 2, 1).is_err());
    assert!(LazyDecoderState::<GoodCauchyView>::new(254, 1, 1).is_ok());
    assert!(LazyDecoderState::<GoodCauchyView>::new(255, 1, 1).is_err());
    assert!(LazyDecoderState::<CauchyView>::new(1, 1, 0).is_err());
}

#[test]
fn streaming_roundtrip_all_subsets_small() {
    let (k, m, slen) = (4, 3, 8);
    let codec = BatchCodec::<CauchyView>::new(k, m, slen).unwrap();
    let n = codec.n();
    let data: Vec<u8> = (0..k * slen)
        .map(|i| (i as u8).wrapping_mul(17) ^ 0xA5)
        .collect();
    let symbols = codec.encode(&data).unwrap();

    for subset in k_subsets(n, k) {
        let mut dec = LazyDecoderState::<CauchyView>::new(k, m, slen).unwrap();
        for &idx in &subset {
            dec.push_symbol(idx, &symbols[idx]).unwrap();
        }
        assert!(dec.is_complete(), "subset {subset:?}");
        assert_eq!(dec.finalize().unwrap(), data, "subset {subset:?}");
    }
}

#[test]
fn streaming_roundtrip_all_subsets_small_good_cauchy() {
    let (k, m, slen) = (4, 3, 8);
    let codec = BatchCodec::<GoodCauchyView>::new(k, m, slen).unwrap();
    let n = codec.n();
    let data: Vec<u8> = (0..k * slen)
        .map(|i| (i as u8).wrapping_mul(17) ^ 0xA5)
        .collect();
    let symbols = codec.encode(&data).unwrap();

    for subset in k_subsets(n, k) {
        let mut dec =
            LazyDecoderState::<GoodCauchyView>::new(k, m, slen).unwrap();
        for &idx in &subset {
            dec.push_symbol(idx, &symbols[idx]).unwrap();
        }
        assert!(dec.is_complete(), "subset {subset:?}");
        assert_eq!(dec.finalize().unwrap(), data, "subset {subset:?}");
    }
}

/// Reconstruction at the lengths where the payload kernels change their stride:
/// below one lane, exactly one, one plus a tail, and a large odd length.
fn assert_reconstruction_at_vector_boundaries<C: CodingMatrix>() {
    let (k, m) = (4, 3);
    for slen in [1, 15, 16, 17, 31, 32, 33, 65, 1400] {
        let codec = BatchCodec::<C>::new(k, m, slen).unwrap();
        let data: Vec<u8> = (0..k * slen)
            .map(|i| (i as u8).wrapping_mul(37).wrapping_add(11))
            .collect();
        let symbols = codec.encode(&data).unwrap();

        for subset in k_subsets(k + m, k) {
            let mut decoder = LazyDecoderState::<C>::new(k, m, slen).unwrap();
            for &idx in &subset {
                decoder.push_symbol(idx, &symbols[idx]).unwrap();
            }
            let recipe = decoder.build_recipe();
            let mut reconstructed = vec![0u8; k * slen];
            decoder.apply_recipe_into(&recipe, &mut reconstructed);
            assert_eq!(reconstructed, data, "slen={slen}, subset={subset:?}");
        }
    }

    // Wider geometry: more missing outputs than a single vector's worth, without
    // exhaustively enumerating 8-of-14 subsets.
    let (k, m) = (8, 6);
    for slen in [1, 31, 32, 33, 1400] {
        let codec = BatchCodec::<C>::new(k, m, slen).unwrap();
        let data: Vec<u8> = (0..k * slen)
            .map(|i| (i as u8).wrapping_mul(19).wrapping_add(7))
            .collect();
        let symbols = codec.encode(&data).unwrap();
        for r in [4, 5, 6] {
            let arrival: Vec<_> = (k..k + r).chain(r..k).collect();
            let mut decoder = LazyDecoderState::<C>::new(k, m, slen).unwrap();
            for &idx in &arrival {
                decoder.push_symbol(idx, &symbols[idx]).unwrap();
            }
            let recipe = decoder.build_recipe();
            let mut reconstructed = vec![0u8; k * slen];
            decoder.apply_recipe_into(&recipe, &mut reconstructed);
            assert_eq!(reconstructed, data, "slen={slen}, r={r}");
        }
    }
}

#[test]
fn reconstruction_holds_at_vector_boundaries() {
    assert_reconstruction_at_vector_boundaries::<CauchyView>();
    assert_reconstruction_at_vector_boundaries::<GoodCauchyView>();
}

#[test]
fn duplicate_before_complete_is_dependent() {
    let (k, m, slen) = (3, 2, 4);
    let codec = BatchCodec::<CauchyView>::new(k, m, slen).unwrap();
    let data = vec![0x42; k * slen];
    let symbols = codec.encode(&data).unwrap();
    let mut dec = LazyDecoderState::<CauchyView>::new(k, m, slen).unwrap();
    assert!(matches!(
        dec.push_symbol(0, &symbols[0]).unwrap(),
        PushOutcome::Advanced { .. }
    ));
    assert_eq!(
        dec.push_symbol(0, &symbols[0]).unwrap(),
        PushOutcome::Dependent
    );
    assert_eq!(dec.rank(), 1);
    assert_eq!(dec.received(), 2);
}

#[test]
fn finalize_into_matches_finalize_ref() {
    let (k, m, slen) = (4, 3, 64);
    let codec = BatchCodec::<GoodCauchyView>::new(k, m, slen).unwrap();
    let data: Vec<u8> = (0..k * slen).map(|i| i as u8).collect();
    let symbols = codec.encode(&data).unwrap();
    // Two data missing: use repairs 0,1 and data 2,3.
    let arrival = [k, k + 1, 2, 3];

    let mut dec =
        LazyDecoderState::<GoodCauchyView>::new(k, m, slen).unwrap();
    for &idx in &arrival {
        dec.push_symbol(idx, &symbols[idx]).unwrap();
    }
    let allocated = dec.finalize_ref().unwrap();

    let mut dec =
        LazyDecoderState::<GoodCauchyView>::new(k, m, slen).unwrap();
    for &idx in &arrival {
        dec.push_symbol(idx, &symbols[idx]).unwrap();
    }
    let mut into = vec![0xFFu8; k * slen];
    dec.finalize_into(&mut into).unwrap();
    assert_eq!(into, allocated);
    assert_eq!(into, data);

    let mut short = vec![0u8; k * slen - 1];
    let err = dec.finalize_into(&mut short).unwrap_err();
    assert!(matches!(err, DecodeError::WrongOutputLen { .. }));
}

#[test]
fn staging_holds_the_rows_of_the_last_wide_solve() {
    let (k, m, slen) = (4, 3, 5);
    let codec = BatchCodec::<CauchyView>::new(k, m, slen).unwrap();
    let data: Vec<u8> = (0..k * slen).map(|i| (i * 29 + 4) as u8).collect();
    let symbols = codec.encode(&data).unwrap();
    let mut decoder = LazyDecoderState::<CauchyView>::new(k, m, slen).unwrap();
    assert!(decoder.staging().is_empty());
    for index in [0, 2, 4, 6] {
        decoder.push_symbol(index, &symbols[index]).unwrap();
    }
    assert_eq!(decoder.finalize_ref().unwrap(), data);
    let wide = [&data[slen..2 * slen], &data[3 * slen..]].concat();
    assert_eq!(decoder.staging(), wide);

    // One missing row needs no staging.
    decoder.reset();
    for index in [0, 1, 2, 5] {
        decoder.push_symbol(index, &symbols[index]).unwrap();
    }
    assert_eq!(decoder.finalize_ref().unwrap(), data);
    assert_eq!(decoder.staging(), wide);
}

#[test]
fn decoding_a_block_leaves_its_symbols_recorded() {
    let (k, m, slen) = (3, 2, 4);
    let codec = BatchCodec::<GoodCauchyView>::new(k, m, slen).unwrap();
    let data: Vec<u8> = (0..k * slen).map(|i| (i * 7 + 1) as u8).collect();
    let symbols = codec.encode(&data).unwrap();
    let given = |indices: &[usize]| -> Vec<(usize, &[u8])> {
        indices.iter().map(|&i| (i, symbols[i].as_slice())).collect()
    };
    let mut decoder = LazyDecoderState::<GoodCauchyView>::new(k, m, slen).unwrap();
    decoder.push_symbol(1, &symbols[1]).unwrap();
    let mut out = vec![0u8; k * slen];

    // A wrong count changes nothing.
    assert_eq!(
        BatchDecoder::decode_into(&mut decoder, &given(&[0, 2]), &mut out),
        Err(DecodeError::WrongCount {
            expected: 3,
            got: 2
        })
    );
    assert_eq!((decoder.rank(), decoder.received()), (1, 1));
    assert_eq!(decoder.pattern_key().words()[0], 0b10);

    // A repeated index is counted but not recorded.
    assert_eq!(
        BatchDecoder::decode_into(&mut decoder, &given(&[4, 0, 4]), &mut out),
        Err(DecodeError::DuplicateIndex { index: 4 })
    );
    assert_eq!((decoder.rank(), decoder.received()), (2, 3));
    assert_eq!(decoder.pattern_key().words()[0], 0b10001);

    BatchDecoder::decode_into(&mut decoder, &given(&[4, 2, 3]), &mut out).unwrap();
    assert_eq!(out, data);
    assert_eq!((decoder.rank(), decoder.received()), (3, 3));
    assert_eq!(decoder.pattern_key().words()[0], 0b11100);
    assert_eq!(decoder.finalize_ref().unwrap(), data);
}
