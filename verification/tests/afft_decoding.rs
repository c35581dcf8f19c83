use srs::afft::crossover::{recovery_path, targeted_max_missing};
use srs::afft::profile::{zeroed_bytes, zeroed_once_granted};
use srs::afft::{
    BatchDecoder, Field, Gf16Encoder, Gf8BatchDecoder, Gf8Decoder, Gf8Encoder, RecoveryPath,
    SystematicEncoder,
};
use srs::{gf256, gf65536, BatchDecoder as _, BatchEncoder as _, DecodeError, Decoder as _};

fn round_trip<F: Field>(k: usize, m: usize, symbol_len: usize, missing: usize) {
    let data: Vec<u8> = (0..k * symbol_len)
        .map(|index| (index.wrapping_mul(131) + 7) as u8)
        .collect();
    let encoder = SystematicEncoder::<F>::new(k, m, symbol_len).unwrap();
    let mut repairs = vec![0u8; m * symbol_len];
    encoder.encode_into(&data, &mut repairs).unwrap();
    let mut word: Vec<&[u8]> = data.chunks_exact(symbol_len).collect();
    word.extend(repairs.chunks_exact(symbol_len));
    let mut indices: Vec<usize> = (missing..k).chain(k..k + missing).collect();
    indices.reverse();
    let received: Vec<(usize, &[u8])> =
        indices.iter().map(|&index| (index, word[index])).collect();

    let mut decoder = BatchDecoder::<F>::new(k, m, symbol_len).unwrap();
    let mut scratch = decoder.decode_scratch();
    let mut output = vec![0xA5; k * symbol_len];
    decoder
        .decode_into_with(&received, &mut output, &mut scratch)
        .unwrap();
    assert_eq!(output, data);
}

#[test]
fn native_batch_decode_covers_both_fields_and_paths() {
    for missing in [0, 1, 4, 5, 6, 8] {
        round_trip::<gf256::GfElem>(16, 8, 63, missing);
        round_trip::<gf65536::GfElem>(16, 8, 64, missing);
    }
    round_trip::<gf256::GfElem>(64, 32, 257, 16);
    round_trip::<gf65536::GfElem>(64, 32, 258, 16);
}

#[test]
fn native_batch_decode_rejects_invalid_inputs() {
    let mut decoder = Gf8BatchDecoder::new(4, 2, 8).unwrap();
    let mut scratch = decoder.decode_scratch();
    let payload = [0u8; 8];
    let short = [0u8; 7];
    let mut output = [0u8; 32];

    assert_eq!(
        decoder.decode_into_with(&[(0, &payload)], &mut output, &mut scratch),
        Err(DecodeError::WrongCount {
            expected: 4,
            got: 1
        })
    );
    assert_eq!(
        decoder.decode_into_with(
            &[(0, &payload), (1, &payload), (2, &payload), (6, &payload)],
            &mut output,
            &mut scratch,
        ),
        Err(DecodeError::IndexOutOfRange { index: 6, n: 6 })
    );
    assert_eq!(
        decoder.decode_into_with(
            &[(0, &payload), (1, &payload), (1, &payload), (4, &payload)],
            &mut output,
            &mut scratch,
        ),
        Err(DecodeError::DuplicateIndex { index: 1 })
    );
    assert_eq!(
        decoder.decode_into_with(
            &[(0, &payload), (1, &short), (2, &payload), (4, &payload)],
            &mut output,
            &mut scratch,
        ),
        Err(DecodeError::WrongPayloadLen {
            expected: 8,
            got: 7
        })
    );
    assert_eq!(
        decoder.decode_into_with(
            &[(0, &payload), (1, &payload), (2, &payload), (4, &payload)],
            &mut output[..31],
            &mut scratch,
        ),
        Err(DecodeError::WrongOutputLen {
            expected: 32,
            got: 31
        })
    );

    let other = Gf8BatchDecoder::new(5, 2, 8).unwrap();
    let mut wrong_scratch = other.decode_scratch();
    assert_eq!(
        decoder.decode_into_with(
            &[(0, &payload), (1, &payload), (2, &payload), (4, &payload)],
            &mut output,
            &mut wrong_scratch,
        ),
        Err(DecodeError::ScratchMismatch)
    );
}

/// The threshold must stay inside the range an erasure pattern can
/// actually present, for every geometry the engines accept — including the
/// extreme symbol lengths that stress the integer arithmetic.
#[test]
fn threshold_stays_within_the_erasure_range() {
    for k in [1usize, 2, 5, 8, 100, 255, 1024, 65_534] {
        for m in [1usize, 2, 32, 512] {
            let n = k + m;
            if n > 1 << 16 {
                continue;
            }
            let transform_size = n.next_power_of_two();
            for symbol_len in [2usize, 64, 1400, 1 << 20] {
                let threshold =
                    targeted_max_missing::<gf65536::GfElem>(k, transform_size, symbol_len);
                assert!(
                    (1..=k).contains(&threshold),
                    "gf16 k={k} m={m} s={symbol_len} threshold={threshold}"
                );
                if n <= 256 {
                    let threshold =
                        targeted_max_missing::<gf256::GfElem>(k, transform_size, symbol_len);
                    assert!(
                        (1..=k).contains(&threshold),
                        "gf8 k={k} m={m} s={symbol_len} threshold={threshold}"
                    );
                }
            }
        }
    }
}

/// The measured crossovers that the model's constants are fitted to.
#[test]
fn model_reproduces_the_measured_crossovers() {
    // (k, transform_size, symbol_len, measured crossover)
    let gf8 = [
        (16usize, 32usize, 64usize, 5.5f64),
        (64, 128, 64, 6.5),
        (64, 128, 1400, 27.0),
        (160, 256, 64, 5.5),
        (160, 256, 1400, 27.0),
    ];
    for (k, transform_size, symbol_len, measured) in gf8 {
        let predicted = targeted_max_missing::<gf256::GfElem>(k, transform_size, symbol_len) as f64;
        let ratio = predicted / measured;
        assert!(
            (0.6..=1.6).contains(&ratio),
            "gf8 k={k} s={symbol_len}: predicted {predicted} vs measured {measured}"
        );
    }
    for (k, transform_size, symbol_len, measured) in [
        (512usize, 1024usize, 64usize, 3.5f64),
        (512, 1024, 1400, 16.0),
    ] {
        let predicted = targeted_max_missing::<gf65536::GfElem>(k, transform_size, symbol_len) as f64;
        let ratio = predicted / measured;
        assert!(
            (0.6..=1.6).contains(&ratio),
            "gf16 k={k} s={symbol_len}: predicted {predicted} vs measured {measured}"
        );
    }
}

/// A single erasure always takes the targeted path, and an all-data-erased
/// pattern at large `k` always takes the locator path.
#[test]
fn extremes_pick_the_expected_paths() {
    assert_eq!(
        recovery_path::<gf256::GfElem>(64, 128, 1400, 1),
        RecoveryPath::Targeted,
        "one erasure never justifies domain transforms"
    );
    assert_eq!(
        recovery_path::<gf65536::GfElem>(1024, 2048, 1400, 1024),
        RecoveryPath::Locator,
        "erasing every data row must not run a 1024-wide dense solve"
    );
}

/// Longer symbols amortize the dense path's per-call overhead and push the
/// crossover out; wider `k` makes each dense row more expensive and pulls
/// it back in.
#[test]
fn threshold_follows_symbol_length_and_k() {
    assert!(
        targeted_max_missing::<gf256::GfElem>(64, 128, 1400)
            > targeted_max_missing::<gf256::GfElem>(64, 128, 64)
    );
    assert!(
        targeted_max_missing::<gf256::GfElem>(160, 256, 1400)
            > targeted_max_missing::<gf65536::GfElem>(160, 256, 1400),
        "GF(2^16) dense multiplies cede to the transforms sooner"
    );
    // Both `k` here sit below the clamp, so this compares the model rather
    // than the `1..=k` bound.
    assert!(
        targeted_max_missing::<gf256::GfElem>(200, 256, 1400)
            < targeted_max_missing::<gf256::GfElem>(128, 256, 1400)
    );
}

fn gf8_afft_codeword(k: usize, m: usize, symbol_len: usize, data: &[u8]) -> Vec<Vec<u8>> {
    let encoder = Gf8Encoder::new(k, m, symbol_len).unwrap();
    let mut word: Vec<_> = data.chunks_exact(symbol_len).map(<[u8]>::to_vec).collect();
    word.extend(encoder.encode(data).unwrap());
    word
}

/// The GF(2^8) domain boundary: `k + m == 256` is the largest legal geometry, and
/// `257` must be rejected rather than silently wrapping into a smaller domain.
#[test]
fn gf8_domain_boundary() {
    assert!(Gf8Encoder::new(128, 128, 4).is_ok());
    assert!(Gf8Decoder::new(128, 128, 4).is_ok());
    assert!(Gf8Encoder::new(200, 56, 4).is_ok());
    assert!(Gf8Encoder::new(200, 57, 4).is_err());
    assert!(Gf8Encoder::new(256, 1, 4).is_err());

    // Round-trip at the boundary with every repair symbol in use.
    let (k, m, symbol_len) = (128usize, 128usize, 3usize);
    let data: Vec<u8> = (0..k * symbol_len).map(|i| (i * 31 + 7) as u8).collect();
    let word = gf8_afft_codeword(k, m, symbol_len, &data);
    let mut decoder = Gf8Decoder::new(k, m, symbol_len).unwrap();
    for index in k..k + m {
        decoder.push_symbol(index, &word[index]).unwrap();
    }
    assert_eq!(decoder.finalize_ref().unwrap(), data);
}

/// GF(2^8) accepts any symbol length; GF(2^16) requires whole two-byte elements.
#[test]
fn symbol_length_rules_follow_element_width() {
    for symbol_len in 1..=8 {
        assert!(
            Gf8Encoder::new(4, 2, symbol_len).is_ok(),
            "GF(2^8) rejected symbol_len={symbol_len}"
        );
        assert_eq!(
            Gf16Encoder::new(4, 2, symbol_len).is_ok(),
            symbol_len % 2 == 0,
            "GF(2^16) parity rule wrong at symbol_len={symbol_len}"
        );
    }
    assert!(Gf8Encoder::new(4, 2, 0).is_err());
}

#[test]
fn scratch_reports_the_geometry_it_was_sized_for() {
    let decoder = Gf8Decoder::new(5, 4, 3).unwrap();
    let scratch = decoder.decode_scratch();
    assert_eq!((scratch.k(), scratch.m(), scratch.symbol_len()), (5, 4, 3));
    assert_eq!(scratch.transform_size(), 16);
    let batch = Gf8BatchDecoder::new(5, 4, 3).unwrap();
    let scratch = batch.decode_scratch();
    assert_eq!((scratch.k(), scratch.m(), scratch.symbol_len()), (5, 4, 3));
    assert_eq!(scratch.transform_size(), 16);
}

#[test]
fn receipt_bits_follow_the_pushes() {
    let mut decoder = Gf8Decoder::new(70, 30, 1).unwrap();
    assert_eq!(decoder.plan().size(), 128);
    for index in [0, 63, 64, 99] {
        decoder.push_symbol(index, &[index as u8]).unwrap();
    }
    let bits = decoder.received_bits();
    assert_eq!(bits.len(), 2);
    assert_eq!(bits[0], 1 | 1 << 63);
    assert_eq!(bits[1], 1 | 1 << 35);
    assert_eq!(decoder.payloads()[64], 64);
}

#[test]
fn zeroed_bytes_follow_the_grant() {
    assert_eq!(zeroed_bytes(0), Some(Vec::new()));
    assert_eq!(zeroed_bytes(5), Some(vec![0u8; 5]));
    assert_eq!(zeroed_bytes(usize::MAX), None);
    assert_eq!(zeroed_once_granted(true, vec![7, 7], 3), Some(vec![0u8; 3]));
    assert_eq!(zeroed_once_granted(false, vec![7, 7], 3), None);
}

#[test]
fn receipt_bits_take_whole_words_only() {
    assert_eq!(Gf8Decoder::new(60, 4, 1).unwrap().received_bits(), &[0]);
    let mut decoder = Gf8Decoder::new(60, 5, 1).unwrap();
    decoder.push_symbol(64, &[9]).unwrap();
    assert_eq!(decoder.received_bits(), &[0, 1]);
}

#[test]
fn scratch_shows_the_dense_solve() {
    let (k, m, symbol_len) = (16usize, 8usize, 63usize);
    let data: Vec<u8> = (0..k * symbol_len).map(|i| (i * 31 + 7) as u8).collect();
    let word = gf8_afft_codeword(k, m, symbol_len, &data);
    let mut decoder = Gf8Decoder::new(k, m, symbol_len).unwrap();
    let mut scratch = decoder.decode_scratch();
    assert!(scratch.targeted_max() >= 2);
    assert!(scratch.missing_data().is_empty());
    assert_eq!(scratch.known(), vec![false; 32]);
    for index in (2..k).chain([k + 1, k + 4]) {
        decoder.push_symbol(index, &word[index]).unwrap();
    }
    let mut out = vec![0u8; k * symbol_len];
    decoder.finalize_into_with(&mut out, &mut scratch).unwrap();
    assert_eq!(out, data);
    assert_eq!(scratch.missing_data(), &[0, 1]);
    assert_eq!(scratch.repair_indices(), &[k + 1, k + 4]);
    assert_eq!(scratch.recovered(), &data[..2 * symbol_len]);
    assert_eq!(scratch.generator().len(), 2 * k);
    for row in 0..2 {
        for column in 0..2 {
            assert_eq!(
                scratch.system()[2 * row + column],
                scratch.generator()[k * row + column]
            );
            let mut product = gf256::GfElem(0);
            for inner in 0..2 {
                product = product.add(
                    scratch.inverse()[2 * row + inner].mul(scratch.system()[2 * inner + column]),
                );
            }
            assert_eq!(product, gf256::GfElem((row == column) as u8));
        }
        assert_eq!(scratch.coefficients()[row], scratch.inverse()[2 * row + 1]);
        // The first missing byte of both rows explains the residual.
        let mut residual = gf256::GfElem(0);
        for column in 0..2 {
            residual = residual.add(
                scratch.system()[2 * row + column].mul(gf256::GfElem(data[column * symbol_len])),
            );
        }
        assert_eq!(scratch.residuals()[row * symbol_len], residual.0);
    }
    let order = scratch.targeted_max();
    assert_eq!(scratch.augmented().len(), order * order);
    assert_eq!(scratch.augmented()[order], scratch.system()[2]);
    assert_eq!(scratch.known(), vec![false; 32]);
    assert_eq!(scratch.recovery().product().len(), 0);
    scratch.missing_data_mut().clear();
    assert!(scratch.missing_data().is_empty());
}

#[test]
fn scratch_shows_the_recovery_over_the_domain() {
    let (k, m, symbol_len) = (16usize, 16usize, 5usize);
    let data: Vec<u8> = (0..k * symbol_len).map(|i| (i * 17 + 3) as u8).collect();
    let word = gf8_afft_codeword(k, m, symbol_len, &data);
    let mut decoder = Gf8Decoder::new(k, m, symbol_len).unwrap();
    let mut scratch = decoder.decode_scratch();
    assert!(scratch.targeted_max() < k);
    for index in k..k + m {
        decoder.push_symbol(index, &word[index]).unwrap();
    }
    let mut out = vec![0u8; k * symbol_len];
    decoder.finalize_into_with(&mut out, &mut scratch).unwrap();
    assert_eq!(out, data);
    assert_eq!(scratch.missing_data(), (0..k).collect::<Vec<_>>());
    let known: Vec<bool> = (0..32).map(|i| i >= k).collect();
    assert_eq!(scratch.known(), known);
    assert_eq!(scratch.recovered(), data);
    assert_eq!(scratch.recovery().product().len(), 32 * symbol_len);
    assert_eq!(scratch.recovery().derivative().len(), 32 * symbol_len);
    for (point, &received) in known.iter().enumerate() {
        assert_eq!(scratch.locator().values()[point].0 != 0, received);
        assert_eq!(scratch.locator().derivatives()[point].0 == 0, received);
    }
    assert!(scratch.generator().is_empty());
    // At a missing point the derivative is the value times the locator's.
    for at in 0..k {
        let slope = scratch.locator().derivatives()[at].mul(gf256::GfElem(data[at * symbol_len]));
        assert_eq!(scratch.recovery().derivative()[at * symbol_len], slope.0);
    }

    let mut batch = Gf8BatchDecoder::new(k, m, symbol_len).unwrap();
    let mut scratch = batch.decode_scratch();
    let received: Vec<(usize, &[u8])> =
        (k..k + m).map(|index| (index, word[index].as_slice())).collect();
    batch.decode_into_with(&received, &mut out, &mut scratch).unwrap();
    assert_eq!(out, data);
    assert_eq!(scratch.missing_data(), (0..k).collect::<Vec<_>>());
    assert_eq!(scratch.known(), known);
    assert_eq!(scratch.product().len(), 32 * symbol_len);
    assert_eq!(scratch.derivative().len(), 32 * symbol_len);
}

#[test]
fn systematic_locator_vanishes_at_the_data_points() {
    let decoder = Gf8Decoder::new(5, 3, 1).unwrap();
    let locator = decoder.systematic_locator_cache().unwrap();
    for (point, value) in locator.values().iter().enumerate() {
        assert_eq!(value.0 == 0, point < 5);
    }
}
