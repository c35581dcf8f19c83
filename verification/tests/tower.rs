use srs::gf65536::GfElem;
use srs::stream::{PushOutcome, SymbolSink};
use srs::tower::butterfly::{
    butterfly_backend, fused_forward, fused_forward_bytes, fused_forward_scalar, fused_inverse,
    fused_inverse_bytes, fused_inverse_scalar, Avx2Backend, ButterflyBackend, ButterflyBackendKind,
    GfniBackend, NeonBackend, ProcessorFeatures, ScalarBackend, Ssse3Backend,
};
use srs::tower::payload::{xor_scaled_bytes, xor_scaled_bytes_rows};
use srs::tower::{LazyDecoderState, StreamingEncoder};

fn data_symbols(k: usize, symbol_len: usize) -> Vec<Vec<u8>> {
    (0..k)
        .map(|row| {
            (0..symbol_len)
                .map(|byte| (row.wrapping_mul(37) ^ byte.wrapping_mul(19) ^ 0x5a) as u8)
                .collect()
        })
        .collect()
}

fn codeword(k: usize, m: usize, symbol_len: usize) -> (Vec<Vec<u8>>, Vec<u8>) {
    let data = data_symbols(k, symbol_len);
    let expected = data.concat();
    let mut encoder = StreamingEncoder::new(k, m, symbol_len).unwrap();
    for (index, symbol) in data.iter().enumerate() {
        encoder.feed_data_symbol(index, symbol).unwrap();
    }
    let mut word = data;
    word.extend(encoder.into_repairs());
    (word, expected)
}

fn combinations(n: usize, k: usize) -> Vec<Vec<usize>> {
    let mut result = Vec::new();
    let mut state: Vec<_> = (0..k).collect();
    loop {
        result.push(state.clone());
        let Some(position) = (0..k)
            .rev()
            .find(|&position| state[position] < n - k + position)
        else {
            return result;
        };
        state[position] += 1;
        for next in position + 1..k {
            state[next] = state[next - 1] + 1;
        }
    }
}

#[test]
fn exhaustive_small_k_of_n_recovery() {
    let k = 4;
    let m = 3;
    let symbol_len = 18;
    let (word, expected) = codeword(k, m, symbol_len);
    for selected in combinations(k + m, k) {
        let mut decoder = LazyDecoderState::new(k, m, symbol_len).unwrap();
        for index in selected {
            decoder.push_symbol(index, &word[index]).unwrap();
        }
        assert_eq!(decoder.finalize_ref().unwrap(), expected);
    }
}

#[test]
fn recovers_configuration_beyond_gf256_capacity() {
    let k = 256;
    let m = 3;
    let symbol_len = 4;
    let (word, expected) = codeword(k, m, symbol_len);
    let mut decoder = LazyDecoderState::new(k, m, symbol_len).unwrap();
    for (index, symbol) in word.iter().enumerate() {
        if index != 17 && index != 255 && index != k + 2 {
            decoder.push_symbol(index, symbol).unwrap();
        }
        if decoder.is_complete() {
            break;
        }
    }
    assert_eq!(decoder.finalize_ref().unwrap(), expected);
    assert!(decoder.has_symbol(k + 1));
}

#[test]
fn randomized_larger_erasure_patterns() {
    let k = 64;
    let m = 32;
    let symbol_len = 66;
    let (word, expected) = codeword(k, m, symbol_len);
    let mut state = 0x1234_5678_9abc_def0u64;
    for _ in 0..20 {
        let mut indices: Vec<_> = (0..k + m).collect();
        for position in (1..indices.len()).rev() {
            state = state.wrapping_mul(6364136223846793005).wrapping_add(1);
            indices.swap(position, state as usize % (position + 1));
        }
        let mut decoder = LazyDecoderState::new(k, m, symbol_len).unwrap();
        for &index in &indices[..k] {
            decoder.push_symbol(index, &word[index]).unwrap();
        }
        assert_eq!(decoder.finalize_ref().unwrap(), expected);
    }
}

#[test]
fn push_is_dynamic_bitmap_bookkeeping() {
    let k = 300;
    let m = 2;
    let mut decoder = LazyDecoderState::new(k, m, 2).unwrap();
    assert_eq!(
        decoder.push_symbol(299, &[1, 2]).unwrap(),
        PushOutcome::Advanced {
            rank: 1,
            received: 1
        }
    );
    assert!(decoder.has_symbol(299));
    assert_eq!(
        decoder.push_symbol(299, &[3, 4]).unwrap(),
        PushOutcome::Dependent
    );
    assert_eq!(decoder.rank(), 1);
}

fn source(len: usize) -> Vec<u8> {
    (0..len)
        .map(|i| (i.wrapping_mul(29) ^ 0xa5) as u8)
        .collect()
}

/// Element-by-element `dst ^= c * src`.
fn axpy_reference(dst: &mut [u8], coefficient: GfElem, src: &[u8]) {
    for (out, input) in dst.chunks_exact_mut(2).zip(src.chunks_exact(2)) {
        let product = GfElem::from_bytes([input[0], input[1]])
            .mul(coefficient)
            .to_bytes();
        out[0] ^= product[0];
        out[1] ^= product[1];
    }
}

#[test]
fn axpy_seam_matches_element_arithmetic() {
    let src = source(130);
    for coefficient in [GfElem(0), GfElem(1), GfElem(0x9b37), GfElem(0xffff)] {
        let mut dst = source(130).into_iter().rev().collect::<Vec<_>>();
        let mut expected = dst.clone();
        axpy_reference(&mut expected, coefficient, &src);
        xor_scaled_bytes(&mut dst, coefficient, &src);
        assert_eq!(dst, expected, "coefficient {coefficient:?}");
    }
}

#[test]
fn row_seam_matches_independent_rows() {
    let src = source(130);
    let coefficients = [GfElem(0), GfElem(1), GfElem(0x0108), GfElem(0xbeef)];
    let mut actual = source(130 * coefficients.len());
    let mut expected = actual.clone();
    for (row, &coefficient) in expected.chunks_exact_mut(130).zip(&coefficients) {
        axpy_reference(row, coefficient, &src);
    }
    xor_scaled_bytes_rows(&mut actual, 130, &coefficients, &src);
    assert_eq!(actual, expected);
}

/// Two-pass reference for the fused butterfly, written in element arithmetic so
/// it shares no code with the kernels under test.
fn reference_forward(low: &mut [u8], high: &mut [u8], coefficient: GfElem) {
    axpy_reference(low, coefficient, high);
    let coupling: Vec<u8> = low.to_vec();
    axpy_reference(high, GfElem(1), &coupling);
}

fn reference_inverse(low: &mut [u8], high: &mut [u8], coefficient: GfElem) {
    let coupling: Vec<u8> = low.to_vec();
    axpy_reference(high, GfElem(1), &coupling);
    axpy_reference(low, coefficient, high);
}

#[test]
fn scalar_fused_matches_two_pass_reference() {
    for coefficient in [GfElem(0), GfElem(1), GfElem(0x0108), GfElem(0xbeef)] {
        let mut low = source(130);
        let mut high = source(130).into_iter().rev().collect::<Vec<_>>();
        let (mut ref_low, mut ref_high) = (low.clone(), high.clone());
        fused_forward_scalar(&mut low, &mut high, coefficient);
        reference_forward(&mut ref_low, &mut ref_high, coefficient);
        assert_eq!((&low, &high), (&ref_low, &ref_high));

        fused_inverse_scalar(&mut low, &mut high, coefficient);
        reference_inverse(&mut ref_low, &mut ref_high, coefficient);
        assert_eq!((&low, &high), (&ref_low, &ref_high));
    }
}

#[test]
fn fused_inverse_undoes_fused_forward() {
    for coefficient in [GfElem(0), GfElem(1), GfElem(0x1234), GfElem(0xffff)] {
        let low = source(258);
        let high = source(258).into_iter().rev().collect::<Vec<_>>();
        let (mut work_low, mut work_high) = (low.clone(), high.clone());
        for kind in kinds() {
            fused_forward_bytes(kind, &mut work_low, &mut work_high, coefficient);
            fused_inverse_bytes(kind, &mut work_low, &mut work_high, coefficient);
            assert_eq!((&work_low, &work_high), (&low, &high), "{kind:?}");
        }
    }
}

fn kinds() -> [ButterflyBackendKind; 5] {
    [
        ButterflyBackendKind::Scalar,
        ButterflyBackendKind::Gfni,
        ButterflyBackendKind::Avx2,
        ButterflyBackendKind::Ssse3,
        ButterflyBackendKind::Neon,
    ]
}

/// `B` gives what the element-wise butterflies give.
fn check_backend<B: ButterflyBackend>(coefficient: GfElem) {
    let low = source(194);
    let high = source(194).into_iter().rev().collect::<Vec<_>>();
    let (mut fwd_low, mut fwd_high) = (low.clone(), high.clone());
    let (mut inv_low, mut inv_high) = (low.clone(), high.clone());
    fused_forward_scalar(&mut fwd_low, &mut fwd_high, coefficient);
    fused_inverse_scalar(&mut inv_low, &mut inv_high, coefficient);
    let (mut fl, mut fh) = (low.clone(), high.clone());
    let (mut il, mut ih) = (low, high);
    fused_forward::<B>(&mut fl, &mut fh, coefficient);
    fused_inverse::<B>(&mut il, &mut ih, coefficient);
    assert_eq!((&fl, &fh), (&fwd_low, &fwd_high));
    assert_eq!((&il, &ih), (&inv_low, &inv_high));
}

#[test]
fn forced_fused_kernels_match_scalar_when_available() {
    for coefficient in [GfElem(0), GfElem(1), GfElem(0x0108), GfElem(0xffff)] {
        check_backend::<GfniBackend>(coefficient);
        check_backend::<Avx2Backend>(coefficient);
        check_backend::<Ssse3Backend>(coefficient);
        check_backend::<ScalarBackend>(coefficient);
    }
}

#[test]
fn forced_fused_neon_matches_scalar() {
    for coefficient in [GfElem(0), GfElem(1), GfElem(0x0108), GfElem(0xffff)] {
        check_backend::<NeonBackend>(coefficient);
    }
}

#[test]
fn the_strongest_detected_backend_is_chosen() {
    let none = ProcessorFeatures {
        avx2: false,
        gfni: false,
        ssse3: false,
        neon: false,
    };
    assert_eq!(butterfly_backend(none), ButterflyBackendKind::Scalar);
    let ssse3 = ProcessorFeatures { ssse3: true, ..none };
    assert_eq!(butterfly_backend(ssse3), ButterflyBackendKind::Ssse3);
    let avx2 = ProcessorFeatures { avx2: true, ..ssse3 };
    assert_eq!(butterfly_backend(avx2), ButterflyBackendKind::Avx2);
    let gfni = ProcessorFeatures { gfni: true, ..avx2 };
    assert_eq!(butterfly_backend(gfni), ButterflyBackendKind::Gfni);
    let neon = ProcessorFeatures { neon: true, ..none };
    assert_eq!(butterfly_backend(neon), ButterflyBackendKind::Neon);
}
