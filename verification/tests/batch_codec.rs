use srs::batch::{BatchCodec, GoodCauchyBatchCodec, StandardCauchyBatchCodec};
use srs::cauchy::CauchyView;
use srs::cauchy_inverse::invert_square;
use srs::coding_matrix::CodingMatrix;
use srs::decoder::LazyDecoderState;
use srs::gf256::GfElem;
use srs::good_cauchy::GoodCauchyView;
use srs::{ConfigError, DecodeError, EncodeError};

/// Every `k`-element subset of `0..n`, in lexicographic order.
fn k_subsets(n: usize, k: usize) -> Vec<Vec<usize>> {
    if k > n {
        return Vec::new();
    }
    let mut result = Vec::new();
    let mut state: Vec<usize> = (0..k).collect();
    loop {
        result.push(state.clone());
        // Advance.
        let mut i = k - 1;
        loop {
            if state[i] < n - k + i {
                state[i] += 1;
                for j in (i + 1)..k {
                    state[j] = state[j - 1] + 1;
                }
                break;
            }
            if i == 0 {
                return result;
            }
            i -= 1;
        }
    }
}

// ---- Construction ----

#[test]
fn batch_rejects_zero_dimensions() {
    assert!(matches!(
        BatchCodec::<CauchyView>::new(0, 5, 10),
        Err(ConfigError::ZeroDimension)
    ));
    assert!(matches!(
        BatchCodec::<CauchyView>::new(5, 0, 10),
        Err(ConfigError::ZeroDimension)
    ));
    assert!(matches!(
        BatchCodec::<CauchyView>::new(5, 5, 0),
        Err(ConfigError::ZeroSymbolLen)
    ));
}

#[test]
fn batch_rejects_oversized() {
    assert!(matches!(
        BatchCodec::<CauchyView>::new(200, 100, 10),
        Err(ConfigError::TooManySymbols { .. })
    ));
}

#[test]
fn batch_accessors() {
    let c = BatchCodec::<CauchyView>::new(4, 3, 16).unwrap();
    assert_eq!(c.k(), 4);
    assert_eq!(c.m(), 3);
    assert_eq!(c.n(), 7);
    assert_eq!(c.symbol_len(), 16);
}

// ---- Encode ----

#[test]
fn batch_encode_data_symbols_are_systematic() {
    let c = BatchCodec::<CauchyView>::new(3, 2, 4).unwrap();
    let data: Vec<u8> = vec![
        0x10, 0x20, 0x30, 0x40, 0x50, 0x60, 0x70, 0x80, 0x90, 0xA0, 0xB0, 0xC0,
    ];
    let symbols = c.encode(&data).unwrap();
    assert_eq!(symbols.len(), 5);
    // First k symbols are the data copies.
    for i in 0..3 {
        assert_eq!(symbols[i], &data[i * 4..(i + 1) * 4]);
    }
}

#[test]
fn batch_encode_repair_symbol_is_cauchy_combination() {
    let c = BatchCodec::<CauchyView>::new(2, 1, 2).unwrap();
    let data: Vec<u8> = vec![0x01, 0x02, 0x03, 0x04];
    let symbols = c.encode(&data).unwrap();
    // Repair symbol 0, byte p = A[0][0]*data[0*2+p] + A[1][0]*data[1*2+p]
    let matrix = CauchyView::new(2, 1).unwrap();
    let a00 = matrix.get(0, 0);
    let a10 = matrix.get(1, 0);
    let expected_0 = GfElem(data[0]).mul(a00).0 ^ GfElem(data[2]).mul(a10).0;
    let expected_1 = GfElem(data[1]).mul(a00).0 ^ GfElem(data[3]).mul(a10).0;
    assert_eq!(symbols[2], vec![expected_0, expected_1]);
}

// ---- Decode: round-trip over all k-of-n subsets ----

#[test]
fn batch_roundtrip_all_subsets_small() {
    let (k, m, symbol_len) = (3, 2, 4);
    let c = BatchCodec::<CauchyView>::new(k, m, symbol_len).unwrap();
    let n = c.n();
    let data: Vec<u8> = (0..k * symbol_len)
        .map(|i| (i as u8).wrapping_mul(7))
        .collect();
    let symbols = c.encode(&data).unwrap();

    for subset in k_subsets(n, k) {
        let received: Vec<(usize, &[u8])> = subset
            .iter()
            .map(|&idx| (idx, symbols[idx].as_slice()))
            .collect();
        let recovered = c
            .decode(&received)
            .unwrap_or_else(|e| panic!("decode failed for subset {:?}: {:?}", subset, e));
        assert_eq!(
            recovered, data,
            "round-trip mismatch for subset {:?}",
            subset
        );
    }
}

#[test]
fn batch_roundtrip_k4_m3() {
    let (k, m, symbol_len) = (4, 3, 8);
    let c = BatchCodec::<CauchyView>::new(k, m, symbol_len).unwrap();
    let n = c.n();
    let data: Vec<u8> = (0..k * symbol_len)
        .map(|i| (i as u8).wrapping_mul(11) ^ 0xA5)
        .collect();
    let symbols = c.encode(&data).unwrap();

    for subset in k_subsets(n, k) {
        let received: Vec<(usize, &[u8])> = subset
            .iter()
            .map(|&idx| (idx, symbols[idx].as_slice()))
            .collect();
        let recovered = c.decode(&received).unwrap();
        assert_eq!(recovered, data, "subset {:?}", subset);
    }
}

#[test]
fn batch_roundtrip_repair_only_recovery() {
    // Recover using only repair symbols (no data symbols at all).
    let (k, m, symbol_len) = (3, 3, 4);
    let c = BatchCodec::<CauchyView>::new(k, m, symbol_len).unwrap();
    let data: Vec<u8> = vec![
        0xDE, 0xAD, 0xBE, 0xEF, 0x12, 0x34, 0x56, 0x78, 0x9A, 0xBC, 0xDE, 0xF0,
    ];
    let symbols = c.encode(&data).unwrap();
    // Use repair symbols only: indices 3, 4, 5.
    let received: Vec<(usize, &[u8])> = vec![
        (3, symbols[3].as_slice()),
        (4, symbols[4].as_slice()),
        (5, symbols[5].as_slice()),
    ];
    let recovered = c.decode(&received).unwrap();
    assert_eq!(recovered, data);
}

#[test]
fn batch_roundtrip_all_subsets_small_good_cauchy() {
    let (k, m, symbol_len) = (3, 2, 4);
    let c = BatchCodec::<GoodCauchyView>::new(k, m, symbol_len).unwrap();
    let n = c.n();
    let data: Vec<u8> = (0..k * symbol_len)
        .map(|i| (i as u8).wrapping_mul(7))
        .collect();
    let symbols = c.encode(&data).unwrap();

    for subset in k_subsets(n, k) {
        let received: Vec<(usize, &[u8])> = subset
            .iter()
            .map(|&idx| (idx, symbols[idx].as_slice()))
            .collect();
        let recovered = c
            .decode(&received)
            .unwrap_or_else(|e| panic!("decode failed for subset {:?}: {:?}", subset, e));
        assert_eq!(
            recovered, data,
            "round-trip mismatch for subset {:?}",
            subset
        );
    }
}

// ---- Decode: error cases ----

#[test]
fn batch_decode_wrong_count() {
    let c = BatchCodec::<CauchyView>::new(3, 2, 4).unwrap();
    let data = vec![0u8; 12];
    let symbols = c.encode(&data).unwrap();
    // Only 2 symbols (need 3).
    let received: Vec<(usize, &[u8])> =
        vec![(0, symbols[0].as_slice()), (1, symbols[1].as_slice())];
    assert_eq!(
        c.decode(&received),
        Err(DecodeError::WrongCount {
            expected: 3,
            got: 2
        })
    );
}

#[test]
fn batch_decode_index_out_of_range() {
    let c = BatchCodec::<CauchyView>::new(3, 2, 4).unwrap();
    let data = vec![0u8; 12];
    let symbols = c.encode(&data).unwrap();
    let bad = vec![0u8; 4];
    let received: Vec<(usize, &[u8])> = vec![
        (0, symbols[0].as_slice()),
        (1, symbols[1].as_slice()),
        (5, bad.as_slice()), // n=5, index 5 is out of range
    ];
    assert_eq!(
        c.decode(&received),
        Err(DecodeError::IndexOutOfRange { index: 5, n: 5 })
    );
}

#[test]
fn batch_decode_duplicate_index() {
    let c = BatchCodec::<CauchyView>::new(3, 2, 4).unwrap();
    let data = vec![0u8; 12];
    let symbols = c.encode(&data).unwrap();
    let received: Vec<(usize, &[u8])> = vec![
        (0, symbols[0].as_slice()),
        (1, symbols[1].as_slice()),
        (0, symbols[0].as_slice()),
    ];
    assert_eq!(
        c.decode(&received),
        Err(DecodeError::DuplicateIndex { index: 0 })
    );
}

#[test]
fn batch_decode_wrong_payload_len() {
    let c = BatchCodec::<CauchyView>::new(3, 2, 4).unwrap();
    let data = vec![0u8; 12];
    let symbols = c.encode(&data).unwrap();
    let bad = vec![0u8; 3];
    let received: Vec<(usize, &[u8])> = vec![
        (0, symbols[0].as_slice()),
        (1, symbols[1].as_slice()),
        (2, bad.as_slice()),
    ];
    assert_eq!(
        c.decode(&received),
        Err(DecodeError::WrongPayloadLen {
            expected: 4,
            got: 3
        })
    );
}

// ---- Construction ----

#[test]
fn codec_rejects_zero_dimensions() {
    assert!(matches!(
        BatchCodec::<CauchyView>::new(0, 5, 10),
        Err(ConfigError::ZeroDimension)
    ));
    assert!(matches!(
        BatchCodec::<CauchyView>::new(5, 0, 10),
        Err(ConfigError::ZeroDimension)
    ));
    assert!(matches!(
        BatchCodec::<CauchyView>::new(5, 5, 0),
        Err(ConfigError::ZeroSymbolLen)
    ));
}

#[test]
fn codec_rejects_oversized() {
    assert!(matches!(
        BatchCodec::<CauchyView>::new(200, 100, 10),
        Err(ConfigError::TooManySymbols { cap: 256 })
    ));
}

#[test]
fn codec_accessors() {
    let c = BatchCodec::<CauchyView>::new(4, 3, 16).unwrap();
    assert_eq!(c.k(), 4);
    assert_eq!(c.m(), 3);
    assert_eq!(c.n(), 7);
    assert_eq!(c.symbol_len(), 16);
}

// ---- Encode ----

#[test]
fn codec_encode_data_symbols_are_systematic() {
    let c = BatchCodec::<CauchyView>::new(3, 2, 4).unwrap();
    let data: Vec<u8> = vec![
        0x10, 0x20, 0x30, 0x40, 0x50, 0x60, 0x70, 0x80, 0x90, 0xA0, 0xB0, 0xC0,
    ];
    let symbols = c.encode(&data).unwrap();
    assert_eq!(symbols.len(), 5);
    // First k symbols are the data copies.
    for i in 0..3 {
        assert_eq!(symbols[i], &data[i * 4..(i + 1) * 4]);
    }
}

#[test]
fn codec_encode_repair_symbol_is_cauchy_combination() {
    let c = BatchCodec::<CauchyView>::new(2, 1, 2).unwrap();
    let data: Vec<u8> = vec![0x01, 0x02, 0x03, 0x04];
    let symbols = c.encode(&data).unwrap();
    // Repair symbol 0, byte p = A[0][0]*data[0*2+p] + A[1][0]*data[1*2+p]
    let matrix = CauchyView::new(2, 1).unwrap();
    let a00 = matrix.get(0, 0);
    let a10 = matrix.get(1, 0);
    let expected_0 = GfElem(data[0]).mul(a00).0 ^ GfElem(data[2]).mul(a10).0;
    let expected_1 = GfElem(data[1]).mul(a00).0 ^ GfElem(data[3]).mul(a10).0;
    assert_eq!(symbols[2], vec![expected_0, expected_1]);
}

#[test]
fn aliases_select_and_roundtrip_with_their_matrix() {
    let data = vec![0x5a; 6];
    let good = GoodCauchyBatchCodec::new(3, 2, 2).unwrap();
    let good_symbols = good.encode(&data).unwrap();
    let mut good_decoder =
        LazyDecoderState::<GoodCauchyView>::new(3, 2, 2).unwrap();
    for (index, symbol) in good_symbols.iter().take(3).enumerate() {
        good_decoder.push_symbol(index, symbol).unwrap();
    }
    assert_eq!(good_decoder.finalize_ref().unwrap(), data);

    let standard = StandardCauchyBatchCodec::new(3, 2, 2).unwrap();
    let standard_symbols = standard.encode(&data).unwrap();
    let mut standard_decoder =
        LazyDecoderState::<CauchyView>::new(3, 2, 2).unwrap();
    for (index, symbol) in standard_symbols.iter().take(3).enumerate() {
        standard_decoder.push_symbol(index, symbol).unwrap();
    }
    assert_eq!(standard_decoder.finalize_ref().unwrap(), data);
}

#[test]
fn encode_rejects_wrong_input_length_with_details() {
    let codec = BatchCodec::<CauchyView>::new(3, 2, 4).unwrap();
    assert_eq!(
        codec.encode(&[0; 11]),
        Err(EncodeError::WrongInputLen {
            expected: 12,
            got: 11
        })
    );
}

#[test]
fn batch_matrix_capacity_boundaries_are_exact() {
    assert!(StandardCauchyBatchCodec::new(255, 1, 1).is_ok());
    assert!(StandardCauchyBatchCodec::new(255, 2, 1).is_err());
    assert!(GoodCauchyBatchCodec::new(254, 1, 1).is_ok());
    assert!(GoodCauchyBatchCodec::new(255, 1, 1).is_err());
}

// ---- Decode: round-trip over all k-of-n subsets ----

#[test]
fn codec_roundtrip_all_subsets_small() {
    let (k, m, symbol_len) = (3, 2, 4);
    let c = BatchCodec::<CauchyView>::new(k, m, symbol_len).unwrap();
    let n = c.n();
    let data: Vec<u8> = (0..k * symbol_len)
        .map(|i| (i as u8).wrapping_mul(7))
        .collect();
    let symbols = c.encode(&data).unwrap();

    for subset in k_subsets(n, k) {
        let received: Vec<(usize, &[u8])> = subset
            .iter()
            .map(|&idx| (idx, symbols[idx].as_slice()))
            .collect();
        let recovered = c
            .decode(&received)
            .unwrap_or_else(|e| panic!("decode failed for subset {:?}: {:?}", subset, e));
        assert_eq!(
            recovered, data,
            "round-trip mismatch for subset {:?}",
            subset
        );
    }
}

#[test]
fn codec_roundtrip_k4_m3() {
    let (k, m, symbol_len) = (4, 3, 8);
    let c = BatchCodec::<CauchyView>::new(k, m, symbol_len).unwrap();
    let n = c.n();
    let data: Vec<u8> = (0..k * symbol_len)
        .map(|i| (i as u8).wrapping_mul(11) ^ 0xA5)
        .collect();
    let symbols = c.encode(&data).unwrap();

    for subset in k_subsets(n, k) {
        let received: Vec<(usize, &[u8])> = subset
            .iter()
            .map(|&idx| (idx, symbols[idx].as_slice()))
            .collect();
        let recovered = c.decode(&received).unwrap();
        assert_eq!(recovered, data, "subset {:?}", subset);
    }
}

#[test]
fn codec_roundtrip_repair_only_recovery() {
    // Recover using only repair symbols (no data symbols at all).
    let (k, m, symbol_len) = (3, 3, 4);
    let c = BatchCodec::<CauchyView>::new(k, m, symbol_len).unwrap();
    let data: Vec<u8> = vec![
        0xDE, 0xAD, 0xBE, 0xEF, 0x12, 0x34, 0x56, 0x78, 0x9A, 0xBC, 0xDE, 0xF0,
    ];
    let symbols = c.encode(&data).unwrap();
    // Use repair symbols only: indices 3, 4, 5.
    let received: Vec<(usize, &[u8])> = vec![
        (3, symbols[3].as_slice()),
        (4, symbols[4].as_slice()),
        (5, symbols[5].as_slice()),
    ];
    let recovered = c.decode(&received).unwrap();
    assert_eq!(recovered, data);
}

#[test]
fn codec_roundtrip_all_subsets_small_good_cauchy() {
    let (k, m, symbol_len) = (3, 2, 4);
    let c = BatchCodec::<GoodCauchyView>::new(k, m, symbol_len).unwrap();
    let n = c.n();
    let data: Vec<u8> = (0..k * symbol_len)
        .map(|i| (i as u8).wrapping_mul(7))
        .collect();
    let symbols = c.encode(&data).unwrap();

    for subset in k_subsets(n, k) {
        let received: Vec<(usize, &[u8])> = subset
            .iter()
            .map(|&idx| (idx, symbols[idx].as_slice()))
            .collect();
        let recovered = c
            .decode(&received)
            .unwrap_or_else(|e| panic!("decode failed for subset {:?}: {:?}", subset, e));
        assert_eq!(
            recovered, data,
            "round-trip mismatch for subset {:?}",
            subset
        );
    }
}

// ---- Decode: error cases ----

#[test]
fn codec_decode_wrong_count() {
    let c = BatchCodec::<CauchyView>::new(3, 2, 4).unwrap();
    let data = vec![0u8; 12];
    let symbols = c.encode(&data).unwrap();
    // Only 2 symbols (need 3).
    let received: Vec<(usize, &[u8])> =
        vec![(0, symbols[0].as_slice()), (1, symbols[1].as_slice())];
    assert_eq!(
        c.decode(&received),
        Err(DecodeError::WrongCount {
            expected: 3,
            got: 2
        })
    );
}

#[test]
fn codec_decode_index_out_of_range() {
    let c = BatchCodec::<CauchyView>::new(3, 2, 4).unwrap();
    let data = vec![0u8; 12];
    let symbols = c.encode(&data).unwrap();
    let bad = vec![0u8; 4];
    let received: Vec<(usize, &[u8])> = vec![
        (0, symbols[0].as_slice()),
        (1, symbols[1].as_slice()),
        (5, bad.as_slice()), // n=5, index 5 is out of range
    ];
    assert_eq!(
        c.decode(&received),
        Err(DecodeError::IndexOutOfRange { index: 5, n: 5 })
    );
}

#[test]
fn codec_decode_duplicate_index() {
    let c = BatchCodec::<CauchyView>::new(3, 2, 4).unwrap();
    let data = vec![0u8; 12];
    let symbols = c.encode(&data).unwrap();
    let received: Vec<(usize, &[u8])> = vec![
        (0, symbols[0].as_slice()),
        (1, symbols[1].as_slice()),
        (0, symbols[0].as_slice()),
    ];
    assert_eq!(
        c.decode(&received),
        Err(DecodeError::DuplicateIndex { index: 0 })
    );
}

#[test]
fn codec_decode_wrong_payload_len() {
    let c = BatchCodec::<CauchyView>::new(3, 2, 4).unwrap();
    let data = vec![0u8; 12];
    let symbols = c.encode(&data).unwrap();
    let bad = vec![0u8; 3];
    let received: Vec<(usize, &[u8])> = vec![
        (0, symbols[0].as_slice()),
        (1, symbols[1].as_slice()),
        (2, bad.as_slice()),
    ];
    assert_eq!(
        c.decode(&received),
        Err(DecodeError::WrongPayloadLen {
            expected: 4,
            got: 3
        })
    );
}

/// Solves the received rows of the generator matrix for the data, by
/// elimination alone.
fn decode_reference<C: CodingMatrix>(
    k: usize,
    m: usize,
    slen: usize,
    received: &[(usize, &[u8])],
) -> Vec<u8> {
    let matrix = C::new(k, m).unwrap();
    let mut rows = vec![GfElem(0); k * k];
    for (row, &(index, _)) in received.iter().enumerate() {
        for column in 0..k {
            rows[row * k + column] = if index >= k {
                matrix.get(column, index - k)
            } else if index == column {
                GfElem(1)
            } else {
                GfElem(0)
            };
        }
    }
    let inverse = invert_square(&rows, k).unwrap();
    let mut out = vec![0u8; k * slen];
    for i in 0..k {
        for p in 0..slen {
            let mut acc = GfElem(0);
            for (row, &(_, payload)) in received.iter().enumerate() {
                acc = acc.add(inverse[i * k + row].mul(GfElem(payload[p])));
            }
            out[i * slen + p] = acc.0;
        }
    }
    out
}

/// The repairs, one coefficient and one byte at a time.
fn encode_into_reference<C: CodingMatrix>(
    k: usize,
    m: usize,
    slen: usize,
    data: &[u8],
    repairs: &mut [u8],
) {
    let matrix = C::new(k, m).unwrap();
    for j in 0..m {
        for i in 0..k {
            let coefficient = matrix.get(i, j);
            for p in 0..slen {
                repairs[j * slen + p] ^= coefficient.mul(GfElem(data[i * slen + p])).0;
            }
        }
    }
}

fn check_against_reference<C: CodingMatrix>(
    name: &str,
    (k, m, slen): (usize, usize, usize),
    data: &[u8],
    subsets: &[Vec<usize>],
) {
    let codec = BatchCodec::<C>::new(k, m, slen).unwrap();
    let symbols = codec.encode(data).unwrap();
    for subset in subsets {
        let received: Vec<(usize, &[u8])> = subset
            .iter()
            .map(|&idx| (idx, symbols[idx].as_slice()))
            .collect();
        let fast = codec.decode(&received).unwrap();
        let refr = decode_reference::<C>(k, m, slen, &received);
        assert_eq!(
            fast, refr,
            "{} k={} m={} slen={} subset={:?}",
            name, k, m, slen, subset
        );
        assert_eq!(
            fast, data,
            "{} roundtrip k={} m={} subset={:?}",
            name, k, m, subset
        );
    }
}

fn check_missing_rows<C: CodingMatrix>(
    name: &str,
    (k, m, slen): (usize, usize, usize),
    data: &[u8],
    subsets: &[Vec<usize>],
) {
    let codec = BatchCodec::<C>::new(k, m, slen).unwrap();
    let symbols = codec.encode(data).unwrap();
    let mut scratch = codec.decode_scratch();
    for subset in subsets {
        let received: Vec<(usize, &[u8])> = subset
            .iter()
            .map(|&idx| (idx, symbols[idx].as_slice()))
            .collect();
        let r = subset.iter().filter(|&&idx| idx >= k).count();
        let mut full = vec![0x5Au8; k * slen];
        codec.decode_into_with(&received, &mut full, &mut scratch)
            .unwrap();
        let mut missing_out = vec![0xA5u8; r * slen];
        codec.reconstruct_missing_into_with(&received, &mut missing_out, &mut scratch)
            .unwrap();
        let missing: Vec<usize> = (0..k).filter(|i| !subset.contains(i)).collect();
        assert_eq!(missing.len(), r);
        for (row, &data_idx) in missing.iter().enumerate() {
            assert_eq!(
                &missing_out[row * slen..(row + 1) * slen],
                &full[data_idx * slen..(data_idx + 1) * slen],
                "{} k={} m={} slen={} subset={:?} row={}",
                name,
                k,
                m,
                slen,
                subset,
                row
            );
        }
    }
}

fn check_prepared<C: CodingMatrix>(
    name: &str,
    (k, m, slen): (usize, usize, usize),
    data: &[u8],
    subsets: &[Vec<usize>],
) {
    let codec = BatchCodec::<C>::new(k, m, slen).unwrap();
    let symbols = codec.encode(data).unwrap();
    for subset in subsets {
        // Symbols may arrive in any order; reverse every
        // second subset to prove the plan does not care.
        let mut ordered = subset.clone();
        if subset.len() % 2 == 0 {
            ordered.reverse();
        }
        let received: Vec<(usize, &[u8])> = ordered
            .iter()
            .map(|&idx| (idx, symbols[idx].as_slice()))
            .collect();
        let r = subset.iter().filter(|&&idx| idx >= k).count();
        let plan = codec.prepare_decode(&ordered).unwrap();
        assert_eq!(plan.erasure_count(), r);
        let missing: Vec<usize> = (0..k).filter(|i| !subset.contains(i)).collect();
        assert_eq!(plan.missing_indices(), &missing[..]);

        // Full decode through the plan reproduces the data.
        let mut full = vec![0x5Au8; k * slen];
        plan.decode_into(&received, &mut full).unwrap();
        assert_eq!(full, data, "{} k={} subset={:?}", name, k, subset);

        // Reconstruct-only rows match the full decode rows.
        let mut missing_out = vec![0xA5u8; r * slen];
        plan.reconstruct_missing_into(&received, &mut missing_out)
            .unwrap();
        for (row, &data_idx) in missing.iter().enumerate() {
            assert_eq!(
                &missing_out[row * slen..(row + 1) * slen],
                &data[data_idx * slen..(data_idx + 1) * slen],
                "{} k={} subset={:?} row={}",
                name,
                k,
                subset,
                row
            );
        }
    }
}

#[test]
fn optimized_decode_matches_reference() {
    // (k, m, slen); subsets are sampled deterministically: e0 (all data),
    // single erasures, erasure pairs, high-erasure mixes, all-repairs.
    let cases = [
        (1usize, 1usize, 2usize),
        (4, 2, 16),
        (8, 4, 64),
        (6, 6, 33),
        (16, 8, 100),
        (32, 16, 64),
    ];
    for &(k, m, slen) in &cases {
        let n = k + m;
        let data: Vec<u8> = (0..k * slen)
            .map(|x| (x.wrapping_mul(131) + 7) as u8)
            .collect();
        // Deterministic subset sampler: every k-subset whose indices are
        // generated by rotating erasure positions, capped at 64 subsets.
        let mut subsets: Vec<Vec<usize>> = Vec::new();
        subsets.push((0..k).collect()); // e0
        for erase_count in 1..=m.min(k) {
            for shift in 0..(k.max(1)) {
                if subsets.len() >= 64 {
                    break;
                }
                let mut erased: Vec<usize> =
                    (0..erase_count).map(|t| (shift + t * 3) % k).collect();
                erased.sort_unstable();
                erased.dedup();
                let mut subset: Vec<usize> = (0..k).filter(|i| !erased.contains(i)).collect();
                subset.extend((0..erased.len()).map(|t| k + (shift + t) % m));
                subset.sort_unstable();
                if !subsets.contains(&subset) {
                    subsets.push(subset);
                }
            }
        }
        if m >= k {
            subsets.push((k..n).collect()); // all repairs
        }
        if n <= 255 {
            check_against_reference::<GoodCauchyView>("good-cauchy", (k, m, slen), &data, &subsets);
        }
        if n <= 256 {
            check_against_reference::<CauchyView>("standard-cauchy", (k, m, slen), &data, &subsets);
        }
    }
}

#[test]
fn reconstruct_missing_matches_full_decode() {
    // Same geometry/subset spread as `optimized_decode_matches_reference`,
    // plus near-capacity erasure counts to exercise the general
    // rational-Lagrange path.
    let cases = [
        (1usize, 1usize, 2usize),
        (4, 2, 16),
        (8, 4, 64),
        (6, 6, 33),
        (16, 8, 100),
        (32, 16, 64),
    ];
    for &(k, m, slen) in &cases {
        let n = k + m;
        let data: Vec<u8> = (0..k * slen)
            .map(|x| (x.wrapping_mul(131) + 7) as u8)
            .collect();
        let mut subsets: Vec<Vec<usize>> = Vec::new();
        subsets.push((0..k).collect()); // r0: nothing missing
        for erase_count in 1..=m.min(k) {
            for shift in 0..k.max(1) {
                if subsets.len() >= 64 {
                    break;
                }
                let mut erased: Vec<usize> =
                    (0..erase_count).map(|t| (shift + t * 3) % k).collect();
                erased.sort_unstable();
                erased.dedup();
                let mut subset: Vec<usize> = (0..k).filter(|i| !erased.contains(i)).collect();
                subset.extend((0..erased.len()).map(|t| k + (shift + t) % m));
                subset.sort_unstable();
                if !subsets.contains(&subset) {
                    subsets.push(subset);
                }
            }
        }
        if m >= k {
            subsets.push((k..n).collect()); // all repairs
        }
        if n <= 255 {
            check_missing_rows::<GoodCauchyView>("good-cauchy", (k, m, slen), &data, &subsets);
        }
        if n <= 256 {
            check_missing_rows::<CauchyView>("standard-cauchy", (k, m, slen), &data, &subsets);
        }
    }
}

#[test]
fn reconstruct_missing_rejects_wrong_output_len() {
    let c = BatchCodec::<CauchyView>::new(4, 2, 8).unwrap();
    let data = vec![7u8; 32];
    let symbols = c.encode(&data).unwrap();
    // Two data symbols missing, two repairs received.
    let received: Vec<(usize, &[u8])> = vec![
        (1, symbols[1].as_slice()),
        (3, symbols[3].as_slice()),
        (4, symbols[4].as_slice()),
        (5, symbols[5].as_slice()),
    ];
    let mut short = vec![0u8; 15];
    assert_eq!(
        c.reconstruct_missing_into(&received, &mut short),
        Err(DecodeError::WrongOutputLen {
            expected: 16,
            got: 15
        })
    );
    // Nothing missing: only the empty buffer is accepted.
    let all_data: Vec<(usize, &[u8])> = (0..4).map(|i| (i, symbols[i].as_slice())).collect();
    assert_eq!(
        c.reconstruct_missing_into(&all_data, &mut short[..1]),
        Err(DecodeError::WrongOutputLen {
            expected: 0,
            got: 1
        })
    );
    assert_eq!(c.reconstruct_missing_into(&all_data, &mut []), Ok(()));
}

#[test]
fn reconstruct_missing_rejects_bad_symbols() {
    let c = BatchCodec::<CauchyView>::new(3, 2, 4).unwrap();
    let data = vec![0u8; 12];
    let symbols = c.encode(&data).unwrap();
    let mut out = vec![0u8; 4];
    // Wrong count.
    let two: Vec<(usize, &[u8])> = (0..2).map(|i| (i, symbols[i].as_slice())).collect();
    assert_eq!(
        c.reconstruct_missing_into(&two, &mut out),
        Err(DecodeError::WrongCount {
            expected: 3,
            got: 2
        })
    );
    // Duplicate index.
    let dup: Vec<(usize, &[u8])> = vec![
        (0, symbols[0].as_slice()),
        (0, symbols[0].as_slice()),
        (3, symbols[3].as_slice()),
    ];
    assert_eq!(
        c.reconstruct_missing_into(&dup, &mut out),
        Err(DecodeError::DuplicateIndex { index: 0 })
    );
    // Scratch from another geometry.
    let other = BatchCodec::<CauchyView>::new(4, 2, 4).unwrap();
    let received: Vec<(usize, &[u8])> = vec![
        (0, symbols[0].as_slice()),
        (2, symbols[2].as_slice()),
        (3, symbols[3].as_slice()),
    ];
    let mut scratch = other.decode_scratch();
    assert_eq!(
        c.reconstruct_missing_into_with(&received, &mut out, &mut scratch),
        Err(DecodeError::ScratchMismatch)
    );
}

#[test]
fn prepare_decode_matches_full_decode() {
    let cases = [
        (1usize, 1usize, 2usize),
        (4, 2, 16),
        (8, 4, 64),
        (6, 6, 33),
        (16, 8, 100),
        (32, 16, 64),
    ];
    for &(k, m, slen) in &cases {
        let n = k + m;
        let data: Vec<u8> = (0..k * slen)
            .map(|x| (x.wrapping_mul(131) + 7) as u8)
            .collect();
        let mut subsets: Vec<Vec<usize>> = Vec::new();
        subsets.push((0..k).collect()); // r0: nothing missing
        for erase_count in 1..=m.min(k) {
            for shift in 0..k.max(1) {
                if subsets.len() >= 64 {
                    break;
                }
                let mut erased: Vec<usize> =
                    (0..erase_count).map(|t| (shift + t * 3) % k).collect();
                erased.sort_unstable();
                erased.dedup();
                let mut subset: Vec<usize> = (0..k).filter(|i| !erased.contains(i)).collect();
                subset.extend((0..erased.len()).map(|t| k + (shift + t) % m));
                subset.sort_unstable();
                if !subsets.contains(&subset) {
                    subsets.push(subset);
                }
            }
        }
        if m >= k {
            subsets.push((k..n).collect()); // all repairs
        }
        if n <= 255 {
            check_prepared::<GoodCauchyView>("good-cauchy", (k, m, slen), &data, &subsets);
        }
        if n <= 256 {
            check_prepared::<CauchyView>("standard-cauchy", (k, m, slen), &data, &subsets);
        }
    }
}

#[test]
fn prepare_decode_rejects_bad_indices() {
    let c = BatchCodec::<CauchyView>::new(3, 2, 4).unwrap();
    assert_eq!(
        c.prepare_decode(&[0, 1]).unwrap_err(),
        DecodeError::WrongCount {
            expected: 3,
            got: 2
        }
    );
    assert_eq!(
        c.prepare_decode(&[0, 1, 5]).unwrap_err(),
        DecodeError::IndexOutOfRange { index: 5, n: 5 }
    );
    assert_eq!(
        c.prepare_decode(&[0, 1, 1]).unwrap_err(),
        DecodeError::DuplicateIndex { index: 1 }
    );
}

#[test]
fn plan_apply_rejects_mismatched_symbols() {
    let c = BatchCodec::<CauchyView>::new(4, 2, 8).unwrap();
    let data = vec![7u8; 32];
    let symbols = c.encode(&data).unwrap();
    // Prepared for data symbols 0 and 2 missing.
    let plan = c.prepare_decode(&[1, 3, 4, 5]).unwrap();
    let received: Vec<(usize, &[u8])> = vec![
        (1, symbols[1].as_slice()),
        (3, symbols[3].as_slice()),
        (4, symbols[4].as_slice()),
        (5, symbols[5].as_slice()),
    ];
    let mut missing_out = vec![0u8; 16];
    let mut out = vec![0u8; 32];

    // A symbol outside the prepared pattern is rejected.
    let wrong: Vec<(usize, &[u8])> = vec![
        (0, symbols[0].as_slice()),
        (3, symbols[3].as_slice()),
        (4, symbols[4].as_slice()),
        (5, symbols[5].as_slice()),
    ];
    assert_eq!(
        plan.reconstruct_missing_into(&wrong, &mut missing_out),
        Err(DecodeError::UnexpectedIndex { index: 0 })
    );
    assert_eq!(
        plan.decode_into(&wrong, &mut out),
        Err(DecodeError::UnexpectedIndex { index: 0 })
    );
    // Wrong count, duplicate, payload length, output length.
    assert_eq!(
        plan.reconstruct_missing_into(&received[..3], &mut missing_out),
        Err(DecodeError::WrongCount {
            expected: 4,
            got: 3
        })
    );
    let dup: Vec<(usize, &[u8])> = vec![
        (1, symbols[1].as_slice()),
        (1, symbols[1].as_slice()),
        (4, symbols[4].as_slice()),
        (5, symbols[5].as_slice()),
    ];
    assert_eq!(
        plan.reconstruct_missing_into(&dup, &mut missing_out),
        Err(DecodeError::DuplicateIndex { index: 1 })
    );
    let short: Vec<(usize, &[u8])> = vec![
        (1, &symbols[1][..7]),
        (3, symbols[3].as_slice()),
        (4, symbols[4].as_slice()),
        (5, symbols[5].as_slice()),
    ];
    assert_eq!(
        plan.reconstruct_missing_into(&short, &mut missing_out),
        Err(DecodeError::WrongPayloadLen {
            expected: 8,
            got: 7
        })
    );
    assert_eq!(
        plan.reconstruct_missing_into(&received, &mut missing_out[..15]),
        Err(DecodeError::WrongOutputLen {
            expected: 16,
            got: 15
        })
    );
    assert_eq!(
        plan.decode_into(&received, &mut out[..31]),
        Err(DecodeError::WrongOutputLen {
            expected: 32,
            got: 31
        })
    );
    // The failed calls above must not poison the plan.
    plan.decode_into(&received, &mut out).unwrap();
    assert_eq!(out, data);
}

#[test]
fn decode_into_rejects_wrong_output_len() {
    let c = BatchCodec::<CauchyView>::new(3, 2, 4).unwrap();
    let data = vec![0u8; 12];
    let symbols = c.encode(&data).unwrap();
    let received: Vec<(usize, &[u8])> = vec![
        (0, symbols[0].as_slice()),
        (1, symbols[1].as_slice()),
        (2, symbols[2].as_slice()),
    ];
    let mut out = vec![0u8; 11];
    assert_eq!(
        c.decode_into(&received, &mut out),
        Err(DecodeError::WrongOutputLen {
            expected: 12,
            got: 11
        })
    );
}

#[test]
fn decode_into_with_rejects_scratch_from_another_geometry() {
    let c = BatchCodec::<CauchyView>::new(3, 2, 4).unwrap();
    let other = BatchCodec::<CauchyView>::new(4, 2, 4).unwrap();
    let data = vec![0u8; 12];
    let symbols = c.encode(&data).unwrap();
    let received: Vec<(usize, &[u8])> = (0..3).map(|i| (i, symbols[i].as_slice())).collect();
    let mut out = vec![0u8; 12];
    let mut scratch = other.decode_scratch();
    assert_eq!(
        c.decode_into_with(&received, &mut out, &mut scratch),
        Err(DecodeError::ScratchMismatch)
    );
}

#[test]
fn decode_into_overwrites_garbage_output() {
    // decode_into must not rely on the output buffer being zeroed.
    let c = BatchCodec::<CauchyView>::new(4, 3, 17).unwrap();
    let data: Vec<u8> = (0..4 * 17)
        .map(|x| (x as u8).wrapping_mul(29) ^ 0x5C)
        .collect();
    let symbols = c.encode(&data).unwrap();
    // Erase data symbols 1 and 3.
    let received: Vec<(usize, &[u8])> = vec![
        (0, symbols[0].as_slice()),
        (2, symbols[2].as_slice()),
        (4, symbols[4].as_slice()),
        (5, symbols[5].as_slice()),
    ];
    let mut out = vec![0xABu8; 4 * 17];
    c.decode_into(&received, &mut out).unwrap();
    assert_eq!(out, data);
}

#[test]
fn optimized_encode_matches_reference() {
    let cases = [
        (1usize, 1usize, 2usize),
        (4, 2, 16),
        (8, 4, 64),
        (16, 8, 1024),
        (32, 16, 1024),
        (128, 64, 1024),
        (200, 50, 256),
        (1, 254, 64),
        (254, 1, 64),
    ];
    for &(k, m, slen) in &cases {
        let data: Vec<u8> = (0..k * slen)
            .map(|x| (x.wrapping_mul(131) + 7) as u8)
            .collect();
        if k + m <= 255 {
            let c = BatchCodec::<GoodCauchyView>::new(k, m, slen).unwrap();
            let mut fast = vec![0u8; m * slen];
            let mut refr = vec![0u8; m * slen];
            c.encode_into(&data, &mut fast).unwrap();
            encode_into_reference::<GoodCauchyView>(k, m, slen, &data, &mut refr);
            assert_eq!(fast, refr, "good-cauchy k={k} m={m} slen={slen}");
        }
        if k + m <= 256 {
            let c = BatchCodec::<CauchyView>::new(k, m, slen).unwrap();
            let mut fast = vec![0u8; m * slen];
            let mut refr = vec![0u8; m * slen];
            c.encode_into(&data, &mut fast).unwrap();
            encode_into_reference::<CauchyView>(k, m, slen, &data, &mut refr);
            assert_eq!(fast, refr, "standard-cauchy k={k} m={m} slen={slen}");
        }
    }
}

#[test]
fn plans_expose_their_pattern_and_coefficients() {
    let codec = StandardCauchyBatchCodec::new(3, 2, 4).unwrap();
    let plan = codec.prepare_decode(&[0, 2, 4]).unwrap();
    assert_eq!(plan.pattern().words(), [0b10101, 0, 0, 0]);
    let none = u16::MAX;
    assert_eq!(plan.term_ordinals()[..5], [1, none, 2, none, 0]);
    assert!(plan.term_ordinals()[5..].iter().all(|&entry| entry == none));
    assert_eq!(plan.coefficients().len(), 3);
    // Repair 1 is at point 4: its coefficient for data symbol 1 is 1 / (1 + 4).
    assert_eq!(plan.coefficients()[0].inv(), codec.cauchy().get(1, 1));
    // The rows follow the order of the indices.
    let reversed = codec.prepare_decode(&[4, 2, 0]).unwrap();
    assert_eq!(reversed.term_ordinals()[..5], [2, none, 1, none, 0]);
    assert_eq!(reversed.coefficients()[1], plan.coefficients()[2]);
    assert_eq!(reversed.coefficients()[2], plan.coefficients()[1]);
    assert_eq!(codec.coeffs().len(), 6);
}
