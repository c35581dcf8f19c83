//! The finite-field bases that the wire format depends on: they fix the encoding
//! of every symbol and the coordinates of every coding matrix.

use fgf::field::Field as _;
use srs::{gf256, gf65536};

#[test]
fn gf8_basis_is_the_aes_field() {
    assert_eq!(gf256::REDUCTION_POLY, 0x11B, "GF(2^8) reduction polynomial");
    assert_eq!(gf256::REDUCTION_LOW, 0x1B, "GF(2^8) reduction low byte");
    assert_eq!(gf256::GENERATOR, 0x03, "GF(2^8) generator");
    assert_eq!(fgf::Gf8B::BITS, 8);
    assert_eq!(fgf::Gf8B::BYTES, 1);
    assert_eq!(fgf::Gf8B::ORDER, 256);
}

#[test]
fn gf8_generator_has_full_multiplicative_order() {
    // 0x03 must generate all 255 nonzero elements, or Good Cauchy's coordinate sets
    // collide and the matrix stops being MDS.
    let mut seen = [false; 256];
    let mut value = gf256::GfElem(1);
    for _ in 0..255 {
        assert!(
            !seen[value.0 as usize],
            "generator repeats before order 255"
        );
        seen[value.0 as usize] = true;
        value = value.mul(gf256::GfElem(gf256::GENERATOR));
    }
    assert_eq!(value, gf256::GfElem(1), "generator order is not 255");
}

#[test]
fn gf16_basis_is_the_quadratic_tower_over_gf8() {
    // u^2 + u + DELTA = 0 over GF(2^8). A flat primitive-polynomial GF(65536) would
    // encode every element differently.
    assert_eq!(gf65536::DELTA, 0x20, "GF(2^16) tower constant");
    assert_eq!(gf65536::GENERATOR, 0x0108, "GF(2^16) generator");
    assert_eq!(fgf::Gf16::BITS, 16);
    assert_eq!(fgf::Gf16::BYTES, 2);
    assert_eq!(fgf::Gf16::ORDER, 65536);
}

#[test]
fn gf16_wire_encoding_is_little_endian_component_order() {
    // The two-byte wire element is [a, b] where the element is a + b*u: low byte first.
    // Reversing it would swap the two interleaved base-field planes in every payload.
    let value =
        gf65536::GfElem::from_components(gf256::GfElem(0xAA), gf256::GfElem(0xBB));
    assert_eq!(value.to_bytes(), [0xAA, 0xBB]);
    assert_eq!(value.to_u16(), 0xBBAA);
    assert_eq!(gf65536::GfElem::from_bytes([0xAA, 0xBB]), value);

    let (a, b) = value.components();
    assert_eq!((a, b), (gf256::GfElem(0xAA), gf256::GfElem(0xBB)));
}

#[test]
fn gf16_generator_has_full_multiplicative_order() {
    // Order exactly 65535: Tower Cauchy uses g^i for the x-coordinates, so a shorter
    // order would produce a duplicate coordinate and a singular submatrix.
    let generator = gf65536::GfElem(gf65536::GENERATOR);
    assert_eq!(generator.pow(65_535), gf65536::GfElem(1));
    for factor in [3u32, 5, 17, 257] {
        // 65535 = 3 * 5 * 17 * 257; g^(65535/p) != 1 for every prime factor p.
        assert_ne!(
            generator.pow(65_535 / factor),
            gf65536::GfElem(1),
            "generator order divides 65535/{factor}"
        );
    }
}

#[test]
fn inversion_is_total() {
    // The Cauchy inverse and batch-inversion paths rely on inv(0) == 0 rather than
    // branching on zero.
    assert_eq!(gf256::GfElem(0).inv(), gf256::GfElem(0));
    assert_eq!(gf65536::GfElem(0).inv(), gf65536::GfElem(0));
    assert_eq!(
        gf256::GfElem(0x57).div(gf256::GfElem(0)),
        gf256::GfElem(0)
    );
    assert_eq!(
        gf65536::GfElem(0x1234).div(gf65536::GfElem(0)),
        gf65536::GfElem(0)
    );
}

#[test]
fn selected_delta_has_absolute_trace_one() {
    let mut trace = gf256::GfElem(0);
    let mut power = gf256::GfElem(gf65536::DELTA);
    for _ in 0..8 {
        trace = trace.add(power);
        power = power.mul(power);
    }
    assert_eq!(trace, gf256::GfElem(1));
}

#[test]
fn known_answers_pin_basis_and_wire_order() {
    assert_eq!(
        gf65536::GfElem(0x1234).mul(gf65536::GfElem(0xabcd)),
        gf65536::GfElem(0x8ee3)
    );
    assert_eq!(gf65536::GfElem(0x0100).square(), gf65536::GfElem(0x0120));
    assert_eq!(gf65536::GfElem(0x1234).inv(), gf65536::GfElem(0xbea3));
    assert_eq!(gf65536::GfElem(0x1234).to_bytes(), [0x34, 0x12]);
    assert_eq!(
        gf65536::GfElem::from_bytes([0x34, 0x12]),
        gf65536::GfElem(0x1234)
    );
}

#[test]
fn selected_generator_is_primitive() {
    let generator = gf65536::GfElem(gf65536::GENERATOR);
    for prime_factor in [3, 5, 17, 257] {
        assert_ne!(generator.pow(65535 / prime_factor), gf65536::GfElem(1));
    }
    assert_eq!(generator.pow(65535), gf65536::GfElem(1));
}

#[test]
fn products_agree_with_the_kernel_fields() {
    for a in 0..=255u8 {
        for b in [0u8, 1, 2, 0x53, 0x80, 0xca, 0xff] {
            let product = fgf::field::gf8b::Elem::from_raw(a).mul(fgf::field::gf8b::Elem::from_raw(b));
            assert_eq!(gf256::GfElem(a).mul(gf256::GfElem(b)).0, product.to_raw());
        }
        assert_eq!(
            gf256::GfElem(a).inv().0,
            fgf::field::gf8b::Elem::from_raw(a).inv().to_raw()
        );
    }
    let mut state = 0x2545_f491u32;
    for _ in 0..4096 {
        state = state.wrapping_mul(1_664_525).wrapping_add(1_013_904_223);
        let (a, b) = ((state >> 16) as u16, state as u16);
        let product = fgf::field::gf16::Elem::from_raw(a).mul(fgf::field::gf16::Elem::from_raw(b));
        assert_eq!(
            gf65536::GfElem(a).mul(gf65536::GfElem(b)).0,
            product.to_raw()
        );
    }
}

#[test]
fn operators_are_the_field_operations() {
    let (a, b) = (gf65536::GfElem(0x1234), gf65536::GfElem(0xabcd));
    assert_eq!(a + b, gf65536::GfElem(0x1234 ^ 0xabcd));
    assert_eq!(a - b, a + b);
    assert_eq!(a * b, gf65536::GfElem(0x8ee3));
    assert_eq!(a * b / b, a);
    let mut value = a;
    value += b;
    value *= b;
    assert_eq!(value, (a + b) * b);
}
