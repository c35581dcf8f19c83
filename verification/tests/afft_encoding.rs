use srs::afft::generator::generator_row;
use srs::afft::strip::{strip_width, EncodeScratch, StripEncoder};
use srs::afft::systematic::SystematicLocators;
use srs::afft::tables::LogExpTables;
use srs::afft::transform::PlanError;
use srs::afft::{Field, SystematicEncoder, TransformLengthError, TransformPlan};
use srs::gf256;
use srs::gf65536::GfElem;
use srs::BatchEncoder;

type Enc = SystematicEncoder<GfElem>;

#[test]
fn validates_transform_capacity() {
    assert!(Enc::new(257, 128, 8).is_ok());
    assert!(Enc::new(32_769, 1, 2).is_ok());
    assert!(Enc::new(65_535, 2, 2).is_err());
    assert!(Enc::new(1, 1, 3).is_err());
    let encoder = Enc::new(5, 3, 2).unwrap();
    assert_eq!(encoder.padded_k(), 8);
    assert_eq!(encoder.transform_size(), 8);
}

/// Strip width is a cache-tuning parameter, never a correctness one: forcing
/// the narrowest legal strip must reproduce the single-strip result.
#[test]
fn strip_width_does_not_change_the_result() {
    for (k, m, l) in [(5, 3, 64), (100, 20, 64), (17, 7, 130), (512, 128, 40)] {
        let enc = Enc::new(k, m, l).unwrap();
        let data: Vec<u8> = (0..k * l).map(|i| (i * 137 + 11) as u8).collect();

        let mut tuned = vec![0u8; m * l];
        let mut s1 = enc.encode_scratch();
        enc.encode_into_with(&data, &mut tuned, &mut s1).unwrap();

        let mut narrow = vec![0u8; m * l];
        let mut s2 = EncodeScratch::new();
        let strips = StripEncoder::<GfElem>::new(k, m, l).unwrap();
        strips
            .encode_with_width(&data, &mut narrow, &mut s2, 2)
            .unwrap();
        assert_eq!(tuned, narrow, "strip width changed the result k={k} m={m} l={l}");

        let mut wide = vec![0u8; m * l];
        let mut s3 = EncodeScratch::new();
        strips
            .encode_with_width(&data, &mut wide, &mut s3, l)
            .unwrap();
        assert_eq!(tuned, wide, "single-strip mismatch k={k} m={m} l={l}");
    }
}

/// Repairs must equal the textbook Lagrange evaluation of the systematic
/// polynomial at points `k..k+m`. This is the ground truth for the whole
/// engine: it shares no code with the transform.
#[test]
fn encoding_is_systematic_and_repairs_match_scalar_transform() {
    let k = 5;
    let m = 3;
    let symbol_len = 6;
    let data: Vec<_> = (0..k * symbol_len)
        .map(|index| ((index * 29) ^ 0xa5) as u8)
        .collect();
    let encoder = Enc::new(k, m, symbol_len).unwrap();
    let repairs = encoder.encode(&data).unwrap();

    for element_offset in (0..symbol_len).step_by(2) {
        for (repair, repair_bytes) in repairs.iter().enumerate() {
            let evaluation = GfElem((k + repair) as u16);
            let mut expected = GfElem(0);
            for data_index in 0..k {
                let mut numerator = GfElem(1);
                let mut denominator = GfElem(1);
                for other in 0..k {
                    if other == data_index {
                        continue;
                    }
                    numerator = numerator.mul(evaluation.add(GfElem(other as u16)));
                    denominator =
                        denominator.mul(GfElem(data_index as u16).add(GfElem(other as u16)));
                }
                let start = data_index * symbol_len + element_offset;
                let value = GfElem::from_bytes([data[start], data[start + 1]]);
                expected = expected.add(value.mul(numerator).mul(denominator.inv()));
            }
            assert_eq!(
                &repair_bytes[element_offset..element_offset + 2],
                &expected.to_bytes()
            );
        }
    }
}

#[test]
fn encode_into_with_matches_encode_and_reuses_scratch() {
    let (k, m, symbol_len) = (100usize, 20usize, 1024usize);
    let encoder = Enc::new(k, m, symbol_len).unwrap();
    let data: Vec<u8> = (0..k * symbol_len)
        .map(|index| (index.wrapping_mul(31) ^ 0xa5) as u8)
        .collect();
    let reference: Vec<u8> = encoder
        .encode(&data)
        .unwrap()
        .into_iter()
        .flatten()
        .collect();

    let mut scratch = encoder.encode_scratch();
    let mut repairs = vec![0u8; m * symbol_len];
    encoder
        .encode_into_with(&data, &mut repairs, &mut scratch)
        .unwrap();
    assert_eq!(repairs, reference);

    for _ in 0..8 {
        encoder
            .encode_into_with(&data, &mut repairs, &mut scratch)
            .unwrap();
        assert_eq!(repairs, reference);
    }
}

fn bytes(len: usize) -> Vec<u8> {
    let mut state = 0x2545_f491_4f6c_dd1du64;
    (0..len)
        .map(|_| {
            state ^= state << 13;
            state ^= state >> 7;
            state ^= state << 17;
            state.to_le_bytes()[5]
        })
        .collect()
}

/// How an element of `F` is laid out in a payload.
struct Layout<F> {
    width: usize,
    read: fn(&[u8]) -> F,
    write: fn(F, &mut [u8]),
}

fn gf8_layout() -> Layout<gf256::GfElem> {
    Layout {
        width: 1,
        read: |bytes| gf256::GfElem(bytes[0]),
        write: |value, bytes| bytes[0] = value.0,
    }
}

fn gf16_layout() -> Layout<GfElem> {
    Layout {
        width: 2,
        read: |bytes| GfElem::from_bytes([bytes[0], bytes[1]]),
        write: |value, bytes| bytes.copy_from_slice(&value.to_bytes()),
    }
}

/// Ground truth: the systematic generator matrix, built from discrete
/// logarithms and the systematic erasure locator. It shares no code with the
/// truncated interpolation and restricted evaluation of the encoder.
fn reference<F: Field>(
    layout: &Layout<F>,
    data_points: usize,
    repair_points: usize,
    row_len: usize,
    data: &[u8],
) -> Vec<u8> {
    let total = (data_points + repair_points).next_power_of_two();
    let width = layout.width;
    let lanes = row_len / width;
    let plan = TransformPlan::<F>::new(total).unwrap();
    let tables = LogExpTables::<F>::build();
    let mut locators = SystematicLocators::<F>::new();
    let locator = locators.get(&plan, data_points).unwrap();
    let mut coefficients = vec![F::zero_value(); data_points];
    let mut repairs = vec![0u8; repair_points * row_len];
    for row in 0..repair_points {
        generator_row(
            &plan,
            &tables,
            &locator,
            data_points + row,
            &mut coefficients,
        );
        for lane in 0..lanes {
            let mut value = F::zero_value();
            for (source, &coefficient) in coefficients.iter().enumerate() {
                let start = source * row_len + lane * width;
                let element = (layout.read)(&data[start..start + width]);
                value = value.add_value(coefficient.mul_value(element));
            }
            let start = row * row_len + lane * width;
            (layout.write)(value, &mut repairs[start..start + width]);
        }
    }
    repairs
}

#[test]
fn repairs_match_the_element_domain_reference() {
    for (data_points, repair_points, row_len) in [
        (1usize, 1usize, 2usize),
        (2, 2, 2),
        (4, 4, 4),
        (5, 3, 2),
        (9, 7, 6),
        (17, 15, 2),
    ] {
        let data = bytes(data_points * row_len);
        let encoder = StripEncoder::<GfElem>::new(data_points, repair_points, row_len).unwrap();
        let mut repairs = vec![0u8; repair_points * row_len];
        let mut scratch = encoder.scratch();
        encoder.encode(&data, &mut repairs, &mut scratch).unwrap();
        assert_eq!(
            repairs,
            reference(&gf16_layout(), data_points, repair_points, row_len, &data),
            "k={data_points} m={repair_points} row_len={row_len}"
        );
    }
}

#[test]
fn repairs_match_over_gf8() {
    for (data_points, repair_points, row_len) in [(4usize, 4usize, 1usize), (5, 3, 3)] {
        let data = bytes(data_points * row_len);
        let encoder = StripEncoder::<gf256::GfElem>::new(data_points, repair_points, row_len).unwrap();
        let mut repairs = vec![0u8; repair_points * row_len];
        let mut scratch = encoder.scratch();
        encoder.encode(&data, &mut repairs, &mut scratch).unwrap();
        assert_eq!(
            repairs,
            reference(&gf8_layout(), data_points, repair_points, row_len, &data)
        );
    }
}

#[test]
fn strip_blocking_is_width_invariant() {
    // Narrow strips exercise the gather/scatter and the last-strip
    // remainder that a single full-width strip never reaches.
    for (data_points, repair_points, row_len) in [
        (5usize, 3usize, 64usize),
        (100, 20, 64),
        (17, 7, 130),
        (256, 128, 40),
    ] {
        let data = bytes(data_points * row_len);
        let encoder = StripEncoder::<GfElem>::new(data_points, repair_points, row_len).unwrap();
        let mut single = vec![0u8; repair_points * row_len];
        let mut scratch = EncodeScratch::new();
        encoder
            .encode_with_width(&data, &mut single, &mut scratch, row_len)
            .unwrap();
        for width in [2, 4, 6, 32] {
            let mut narrow = vec![0u8; repair_points * row_len];
            let mut scratch = EncodeScratch::new();
            encoder
                .encode_with_width(&data, &mut narrow, &mut scratch, width)
                .unwrap();
            assert_eq!(single, narrow, "width {width}");
        }
        let mut tuned = vec![0u8; repair_points * row_len];
        let mut scratch = encoder.scratch();
        encoder.encode(&data, &mut tuned, &mut scratch).unwrap();
        assert_eq!(single, tuned, "tuned width");
    }
}

#[test]
fn fused_and_padded_paths_agree() {
    // k = 8, m = 8: the transform has 2k points and takes the fused path. A
    // ninth repair doubles the transform and takes the padded path; the first
    // eight repairs are the same code symbols.
    let (data_points, repair_points, row_len) = (8usize, 8usize, 8usize);
    let data = bytes(data_points * row_len);
    let fused = StripEncoder::<GfElem>::new(data_points, repair_points, row_len).unwrap();
    let padded = StripEncoder::<GfElem>::new(data_points, repair_points + 1, row_len).unwrap();
    let mut expected = vec![0u8; repair_points * row_len];
    let mut scratch = fused.scratch();
    fused.encode(&data, &mut expected, &mut scratch).unwrap();
    let mut actual = vec![0u8; (repair_points + 1) * row_len];
    let mut scratch = padded.scratch();
    padded.encode(&data, &mut actual, &mut scratch).unwrap();
    assert_eq!(expected, actual[..repair_points * row_len]);
}

#[test]
fn rejects_invalid_geometry() {
    assert_eq!(
        StripEncoder::<GfElem>::new(0, 4, 2).unwrap_err(),
        PlanError::InvalidSize { size: 0 }
    );
    assert_eq!(
        StripEncoder::<GfElem>::new(4, 0, 2).unwrap_err(),
        PlanError::InvalidSize { size: 0 }
    );
    assert!(matches!(
        StripEncoder::<gf256::GfElem>::new(200, 200, 1).unwrap_err(),
        PlanError::DomainTooLarge { .. }
    ));
    let encoder = StripEncoder::<GfElem>::new(4, 2, 2).unwrap();
    let mut scratch = encoder.scratch();
    assert_eq!(
        encoder
            .encode(&[0; 6], &mut [0; 4], &mut scratch)
            .unwrap_err(),
        TransformLengthError {
            expected: 8,
            got: 6
        }
    );
    assert_eq!(
        encoder
            .encode(&[0; 8], &mut [0; 6], &mut scratch)
            .unwrap_err(),
        TransformLengthError {
            expected: 4,
            got: 6
        }
    );
}

#[test]
fn strip_width_is_element_aligned() {
    assert_eq!(strip_width::<GfElem>(16, 2), 2);
    assert_eq!(strip_width::<GfElem>(16, 1 << 20) % 2, 0);
    assert_eq!(strip_width::<gf256::GfElem>(1 << 20, 4096), 1);
    assert_eq!(strip_width::<GfElem>(1 << 20, 4096), 2);
}

#[test]
fn geometry_faults_come_before_the_row_length() {
    assert_eq!(
        StripEncoder::<GfElem>::new(0, 4, 0).unwrap_err(),
        PlanError::InvalidSize { size: 0 }
    );
    assert_eq!(
        StripEncoder::<GfElem>::new(4, 0, 3).unwrap_err(),
        PlanError::InvalidSize { size: 0 }
    );
    assert_eq!(
        StripEncoder::<GfElem>::new(usize::MAX, 1, 2).unwrap_err(),
        PlanError::InvalidSize { size: 0 }
    );
    let encoder = StripEncoder::<GfElem>::new(4, 2, 2).unwrap();
    let mut scratch = encoder.scratch();
    assert_eq!(
        encoder
            .encode_with_width(&[0; 6], &mut [0; 4], &mut scratch, 0)
            .unwrap_err(),
        TransformLengthError {
            expected: 8,
            got: 6
        }
    );
    assert_eq!(
        encoder
            .encode_with_width(&[0; 8], &mut [0; 6], &mut scratch, 3)
            .unwrap_err(),
        TransformLengthError {
            expected: 4,
            got: 6
        }
    );
}
