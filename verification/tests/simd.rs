use srs::gf256::GfElem;
use srs::simd::{
    xor_bytes, xor_scaled_bytes, xor_scaled_bytes_4_indexed, xor_scaled_bytes_many,
    xor_scaled_bytes_many_indexed, ScaleTable,
};

fn make_table(coeff: GfElem) -> ([u8; 256], [u8; 16], [u8; 16]) {
    let mut table = [0u8; 256];
    for (i, slot) in table.iter_mut().enumerate() {
        *slot = GfElem(i as u8).mul(coeff).0;
    }
    let mut lo = [0u8; 16];
    let mut hi = [0u8; 16];
    for i in 0..16 {
        lo[i] = table[i];
        hi[i] = table[i << 4];
    }
    (table, lo, hi)
}

#[test]
fn xor_scaled_many_matches_individual_updates() {
    for output_count in [1, 3, 4, 5, 16] {
        for symbol_len in [1, 31, 32, 33, 1400] {
            let src: Vec<u8> = (0..symbol_len)
                .map(|i| (i as u8).wrapping_mul(37).wrapping_add(11))
                .collect();
            let scales: Vec<_> = (0..output_count)
                .map(|i| {
                    ScaleTable::new(GfElem((i as u8).wrapping_mul(29).wrapping_add(1)))
                })
                .collect();
            let mut expected = vec![vec![0xa5; symbol_len]; output_count];
            for (dst, scale) in expected.iter_mut().zip(&scales) {
                xor_scaled_bytes(dst, scale, &src);
            }
            let mut actual = vec![vec![0xa5; symbol_len]; output_count];
            xor_scaled_bytes_many(&mut actual, &scales, &src);
            assert_eq!(actual, expected, "outputs={output_count}, len={symbol_len}");
        }
    }
}

#[test]
fn xor_scaled_matches_reference() {
    for coeff in [GfElem(1), GfElem(2), GfElem(0x53), GfElem(0xff)] {
        let (table, lo, hi) = make_table(coeff);
        for len in [0, 1, 7, 16, 31, 1400, 4099] {
            let src: Vec<u8> = (0..len).map(|i| (i as u8).wrapping_mul(37)).collect();
            let mut expected: Vec<u8> = (0..len).map(|i| (i as u8).wrapping_mul(13)).collect();
            let mut actual = expected.clone();

            for (d, &s) in expected.iter_mut().zip(&src) {
                *d ^= table[s as usize];
            }
            let scale = ScaleTable { coeff, lo, hi };
            xor_scaled_bytes(&mut actual, &scale, &src);
            assert_eq!(actual, expected, "coeff={coeff:?}, len={len}");
        }
    }
}

#[test]
fn xor_bytes_adds_and_undoes_itself() {
    let mut dst = [0x0f, 0xf0, 0xaa];
    xor_bytes(&mut dst, &[0xff, 0xff, 0xaa]);
    assert_eq!(dst, [0xf0, 0x0f, 0x00]);
    xor_bytes(&mut dst, &[0xff, 0xff, 0xaa]);
    assert_eq!(dst, [0x0f, 0xf0, 0xaa]);
}

#[test]
fn scale_table_multiplies_in_the_aes_field() {
    let table = ScaleTable::new(GfElem(0x57));
    assert_eq!(table.product(0x83), 0xc1);
    assert_eq!(table.product(0), 0);
    assert_eq!(table.product(1), 0x57);
}

#[test]
fn indexed_rows_match_individual_updates() {
    let (rows, stride, offset) = (7usize, 40usize, 3usize);
    for len in [0usize, 1, 15, 16, 33] {
        let src: Vec<u8> = (0..len).map(|i| (i * 37 + 11) as u8).collect();
        let indices = [5, 0, 3, 2, 6];
        let scales: Vec<ScaleTable> = [0, 1, 0x53, 2, 0xff]
            .iter()
            .map(|&coeff| ScaleTable::new(GfElem(coeff)))
            .collect();
        let start: Vec<u8> = (0..rows * stride).map(|i| (i * 13 + 1) as u8).collect();
        let mut expected = start.clone();
        for (&row, scale) in indices.iter().zip(&scales) {
            let from = row * stride + offset;
            xor_scaled_bytes(&mut expected[from..from + len], scale, &src);
        }
        let mut actual = start.clone();
        xor_scaled_bytes_many_indexed(
            &mut actual,
            stride,
            offset,
            len,
            &indices,
            &scales,
            &src,
        );
        assert_eq!(actual, expected, "len={len}");

        let mut four = start.clone();
        let coefficients = [GfElem(3), GfElem(0), GfElem(1), GfElem(0x80)];
        xor_scaled_bytes_4_indexed(&mut four, stride, &[1, 4, 0, 6], &coefficients, &src);
        let mut expected = start;
        for (&row, &coeff) in [1usize, 4, 0, 6].iter().zip(&coefficients) {
            let from = row * stride;
            xor_scaled_bytes(&mut expected[from..from + len], &ScaleTable::new(coeff), &src);
        }
        assert_eq!(four, expected, "len={len}");
    }
}
