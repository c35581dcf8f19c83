//! The generators of the two multiplicative groups, and why their powers do
//! not repeat.

use vstd::prelude::*;

use crate::algebra::field::{left_identities, times_undoes, times_zero, FieldElement};
use crate::algebra::gf256::product;
use crate::algebra::gf256;
use crate::algebra::gf65536::{delta, join, join_parts};
use crate::algebra::gf65536;
use crate::algebra::powers::{power, power_nonzero, power_of_one, power_plus, power_times};

verus! {

/// `g` has multiplicative order exactly `n`.
pub open spec fn has_order<F: FieldElement>(g: F, n: nat) -> bool {
    &&& n > 0
    &&& power(g, n) == F::one_elem()
    &&& forall|d: nat| 0 < d < n ==> #[trigger] power(g, d) != F::one_elem()
}

/// Exponents count modulo any exponent that gives one.
pub proof fn power_modulo<F: FieldElement>(g: F, n: nat, d: nat)
    requires
        n > 0,
        power(g, n) == F::one_elem(),
    ensures
        power(g, d) == power(g, d % n),
{
    let q = d / n;
    assert(d == n * q + d % n) by (nonlinear_arith)
        requires
            n > 0,
            q == d / n,
    ;
    power_plus(g, n * q, d % n);
    power_times(g, n, q);
    power_of_one::<F>(q);
    left_identities(power(g, d % n));
}

/// An element with a power that is one is not zero.
pub proof fn order_nonzero<F: FieldElement>(g: F, n: nat)
    requires
        n > 0,
        power(g, n) == F::one_elem(),
    ensures
        g != F::zero_elem(),
{
    if g == F::zero_elem() {
        times_zero(power(g, (n - 1) as nat));
        F::one_is_not_zero();
    }
}

/// The first `n` powers of an element of order `n` are different.
pub proof fn powers_are_distinct<F: FieldElement>(g: F, n: nat, i: nat, j: nat)
    requires
        has_order(g, n),
        i < n,
        j < n,
        i != j,
    ensures
        power(g, i) != power(g, j),
    decreases i,
{
    if i > j {
        powers_are_distinct(g, n, j, i);
    } else if power(g, i) == power(g, j) {
        let d = (j - i) as nat;
        power_plus(g, i, d);
        order_nonzero(g, n);
        power_nonzero(g, i);
        times_undoes(power(g, i), power(g, d));
        assert(power(g, d) == F::one_elem());
    }
}

/// A generator's powers reach every exponent of one only at multiples of the
/// order.
pub proof fn order_divides<F: FieldElement>(g: F, n: nat, d: nat)
    requires
        has_order(g, n),
        power(g, d) == F::one_elem(),
    ensures
        d % n == 0,
{
    power_modulo(g, n, d);
}

/// 255 has no proper divisor outside those of 85, 51 and 15.
proof fn divisor_of_255(d: nat)
    requires
        0 < d < 255,
        255nat % d == 0,
    ensures
        85nat % d == 0 || 51nat % d == 0 || 15nat % d == 0,
{
    let e = d as u8;
    assert(e != 0 && 255u8 % e == 0 && e != 255 ==> 85u8 % e == 0 || 51u8 % e == 0 || 15u8 % e == 0)
        by (bit_vector);
}

/// A divisor of an exponent that does not give one does not give one either.
proof fn power_of_multiple<F: FieldElement>(g: F, d: nat, n: nat)
    requires
        d > 0,
        n % d == 0,
        power(g, d) == F::one_elem(),
    ensures
        power(g, n) == F::one_elem(),
{
    power_modulo(g, d, n);
}

/// An element whose 255th power is one and whose 85th, 51st and 15th are not
/// has order 255.
proof fn no_smaller_exponent<F: FieldElement>(g: F, d: nat)
    requires
        power(g, 255) == F::one_elem(),
        power(g, 85) != F::one_elem(),
        power(g, 51) != F::one_elem(),
        power(g, 15) != F::one_elem(),
        0 < d < 255,
    ensures
        power(g, d) != F::one_elem(),
    decreases d,
{
    if power(g, d) == F::one_elem() {
        if 255nat % d == 0 {
            divisor_of_255(d);
            if 85nat % d == 0 {
                power_of_multiple(g, d, 85);
            } else if 51nat % d == 0 {
                power_of_multiple(g, d, 51);
            } else {
                power_of_multiple(g, d, 15);
            }
        } else {
            power_modulo(g, d, 255);
            no_smaller_exponent(g, 255nat % d);
        }
    }
}

proof fn power_doubles<F: FieldElement>(g: F, n: nat)
    ensures
        power(g, 2 * n) == power(g, n).times(power(g, n)),
{
    power_plus(g, n, n);
}

/// The exponents that decide the order of an element of GF(2^8), from its
/// repeated squares.
proof fn order_from_squares(
    g: gf256::GfElem,
    s1: gf256::GfElem,
    s2: gf256::GfElem,
    s3: gf256::GfElem,
    s4: gf256::GfElem,
    s5: gf256::GfElem,
    s6: gf256::GfElem,
    s7: gf256::GfElem,
)
    requires
        s1 == g.times(g),
        s2 == s1.times(s1),
        s3 == s2.times(s2),
        s4 == s3.times(s3),
        s5 == s4.times(s4),
        s6 == s5.times(s5),
        s7 == s6.times(s6),
        g.times(s2).times(s4).times(s6) != gf256::GfElem(1),
        g.times(s1).times(s4).times(s5) != gf256::GfElem(1),
        g.times(s1).times(s2).times(s3) != gf256::GfElem(1),
        g.times(s1).times(s2).times(s3).times(s4).times(s5).times(s6).times(s7) == gf256::GfElem(
            1,
        ),
    ensures
        has_order(g, 255),
{
    assert(power(g, 1) == g) by {
        assert(power(g, 0) == gf256::GfElem(1));
        left_identities(g);
    }
    power_doubles(g, 1);
    power_doubles(g, 2);
    power_doubles(g, 4);
    power_doubles(g, 8);
    power_doubles(g, 16);
    power_doubles(g, 32);
    power_doubles(g, 64);
    power_plus(g, 1, 4);
    power_plus(g, 5, 16);
    power_plus(g, 21, 64);
    power_plus(g, 1, 2);
    power_plus(g, 3, 16);
    power_plus(g, 19, 32);
    power_plus(g, 3, 4);
    power_plus(g, 7, 8);
    power_plus(g, 15, 16);
    power_plus(g, 31, 32);
    power_plus(g, 63, 64);
    power_plus(g, 127, 128);
    assert forall|d: nat| 0 < d < 255 implies #[trigger] power(g, d) != gf256::GfElem(1) by {
        no_smaller_exponent(g, d);
    }
}

/// `0x03` generates the multiplicative group of GF(2^8).
pub proof fn gf256_generator_order()
    ensures
        has_order(gf256::GfElem(gf256::GENERATOR), 255),
{
    assert(product(0x03, 0x03) == 0x05 && product(0x05, 0x05) == 0x11 && product(0x11, 0x11) == 0x1a
        && product(0x1a, 0x1a) == 0x5f && product(0x5f, 0x5f) == 0xe5 && product(0xe5, 0xe5) == 0x4c
        && product(0x4c, 0x4c) == 0xfb) by (bit_vector);
    assert(product(0x03, 0x11) == 0x33 && product(0x33, 0x5f) == 0x73 && product(0x73, 0x4c) == 0xbd
        && product(0x03, 0x05) == 0x0f && product(0x0f, 0x5f) == 0x48 && product(0x48, 0xe5) == 0x0c
        && product(0x0f, 0x11) == 0xff && product(0xff, 0x1a) == 0x35 && product(0x35, 0x5f) == 0xaa
        && product(0xaa, 0xe5) == 0xcd && product(0xcd, 0x4c) == 0xa0 && product(0xa0, 0xfb) == 0x01)
        by (bit_vector);
    order_from_squares(
        gf256::GfElem(0x03),
        gf256::GfElem(0x05),
        gf256::GfElem(0x11),
        gf256::GfElem(0x1a),
        gf256::GfElem(0x5f),
        gf256::GfElem(0xe5),
        gf256::GfElem(0x4c),
        gf256::GfElem(0xfb),
    );
}

/// The norm of the tower generator generates the multiplicative group of the
/// base field.
proof fn norm_of_generator_order()
    ensures
        has_order(gf256::GfElem(0x68), 255),
{
    assert(product(0x68, 0x68) == 0x87 && product(0x87, 0x87) == 0x8f && product(0x8f, 0x8f) == 0xcf
        && product(0xcf, 0xcf) == 0x64 && product(0x64, 0x64) == 0xd7 && product(0xd7, 0xd7) == 0x3f
        && product(0x3f, 0x3f) == 0x22) by (bit_vector);
    assert(product(0x68, 0x8f) == 0xe4 && product(0xe4, 0x64) == 0x07 && product(0x07, 0x3f) == 0xbd
        && product(0x68, 0x87) == 0x89 && product(0x89, 0x64) == 0xb9 && product(0xb9, 0xd7) == 0xed
        && product(0x89, 0x8f) == 0xc0 && product(0xc0, 0xcf) == 0x1d && product(0x1d, 0x64) == 0xf8
        && product(0xf8, 0xd7) == 0x6b && product(0x6b, 0x3f) == 0x5a && product(0x5a, 0x22) == 0x01)
        by (bit_vector);
    order_from_squares(
        gf256::GfElem(0x68),
        gf256::GfElem(0x87),
        gf256::GfElem(0x8f),
        gf256::GfElem(0xcf),
        gf256::GfElem(0x64),
        gf256::GfElem(0xd7),
        gf256::GfElem(0x3f),
        gf256::GfElem(0x22),
    );
}

/// `(a + u)^2 = (a^2 + DELTA) + u`, applied to a power of `g`.
proof fn square_of_monic(g: gf65536::GfElem, n: nat, a: u8, squared: u8, next: u8)
    requires
        power(g, n) == join(gf256::GfElem(a), gf256::GfElem(1)),
        product(a, a) == squared,
        squared ^ gf65536::DELTA == next,
    ensures
        power(g, 2 * n) == join(gf256::GfElem(next), gf256::GfElem(1)),
{
    let x = gf256::GfElem(a);
    let one = gf256::GfElem(1);
    power_doubles(g, n);
    join_parts(join(x, one), x, one);
    gf256::GfElem::times_identity(one);
    gf256::GfElem::times_identity(delta());
    gf256::GfElem::times_identity(x);
    left_identities(x);
    gf256::GfElem::plus_cancels(x);
    left_identities(one);
}

/// Squaring the tower generator eight times conjugates it.
proof fn generator_conjugate()
    ensures
        power(gf65536::GfElem(gf65536::GENERATOR), 256) == gf65536::GfElem(0x0109),
{
    let g = gf65536::GfElem(0x0108);
    assert(product(0x08, 0x08) == 0x40 && product(0x60, 0x60) == 0xc7 && product(0xe7, 0xe7) == 0x48
        && product(0x68, 0x68) == 0x87 && product(0xa7, 0xa7) == 0xe3 && product(0xc3, 0xc3) == 0x34
        && product(0x14, 0x14) == 0x0b && product(0x2b, 0x2b) == 0x29) by (bit_vector);
    assert(0x40u8 ^ 0x20 == 0x60 && 0xc7u8 ^ 0x20 == 0xe7 && 0x48u8 ^ 0x20 == 0x68 && 0x87u8 ^ 0x20
        == 0xa7 && 0xe3u8 ^ 0x20 == 0xc3 && 0x34u8 ^ 0x20 == 0x14 && 0x0bu8 ^ 0x20 == 0x2b && 0x29u8
        ^ 0x20 == 0x09 && (0x08u16 | (1u16 << 8)) == 0x108 && (0x09u16 | (1u16 << 8)) == 0x109)
        by (bit_vector);
    assert(power(g, 1) == g) by {
        assert(power(g, 0) == gf65536::GfElem(1));
        left_identities(g);
    }
    square_of_monic(g, 1, 0x08, 0x40, 0x60);
    square_of_monic(g, 2, 0x60, 0xc7, 0xe7);
    square_of_monic(g, 4, 0xe7, 0x48, 0x68);
    square_of_monic(g, 8, 0x68, 0x87, 0xa7);
    square_of_monic(g, 16, 0xa7, 0xe3, 0xc3);
    square_of_monic(g, 32, 0xc3, 0x34, 0x14);
    square_of_monic(g, 64, 0x14, 0x0b, 0x2b);
    square_of_monic(g, 128, 0x2b, 0x29, 0x09);
}

/// The base field inside the tower.
pub open spec fn embed(a: gf256::GfElem) -> gf65536::GfElem {
    join(a, gf256::GfElem(0))
}

/// Powers of base-field elements stay in the base field.
proof fn power_of_embedded(a: gf256::GfElem, n: nat)
    ensures
        power(embed(a), n) == embed(power(a, n)),
    decreases n,
{
    let zero = gf256::GfElem(0);
    if n == 0 {
        assert((1u16 | (0u16 << 8)) == 1) by (bit_vector);
    } else {
        let m = (n - 1) as nat;
        power_of_embedded(a, m);
        let p = power(a, m);
        join_parts(embed(p), p, zero);
        join_parts(embed(a), a, zero);
        times_zero(p);
        times_zero(zero);
        times_zero(delta());
        left_identities(a);
        gf256::GfElem::plus_identity(p.times(a));
        gf256::GfElem::plus_identity(zero);
    }
}

/// An embedded element is one only if the base element is.
proof fn embed_is_one(a: gf256::GfElem)
    ensures
        embed(a) == gf65536::GfElem(1) <==> a == gf256::GfElem(1),
{
    assert((1u16 | (0u16 << 8)) == 1) by (bit_vector);
    join_parts(embed(a), a, gf256::GfElem(0));
    join_parts(
        embed(gf256::GfElem(1)),
        gf256::GfElem(1),
        gf256::GfElem(0),
    );
}

/// 257 is prime.
proof fn no_divisor_of_257(e: nat)
    requires
        1 < e < 257,
    ensures
        257nat % e != 0,
{
    let d = e as u16;
    assert(1 < d && d < 257 ==> 257u16 % d != 0) by (bit_vector);
}

/// An element whose 257th power is one, and a smaller power too, is one.
proof fn trivial_when_coprime(h: gf65536::GfElem, e: nat)
    requires
        power(h, 257) == gf65536::GfElem(1),
        power(h, e) == gf65536::GfElem(1),
        0 < e < 257,
    ensures
        h == gf65536::GfElem(1),
    decreases e,
{
    if e == 1 {
        assert(power(h, 0) == gf65536::GfElem(1));
        left_identities(h);
    } else {
        no_divisor_of_257(e);
        power_modulo(h, e, 257);
        trivial_when_coprime(h, 257nat % e);
    }
}

/// The tower generator times its conjugate.
proof fn generator_norm()
    ensures
        power(gf65536::GfElem(gf65536::GENERATOR), 257) == embed(gf256::GfElem(0x68)),
{
    let g = gf65536::GfElem(0x0108);
    generator_conjugate();
    power_plus(g, 256, 1);
    assert(power(g, 1) == g) by {
        assert(power(g, 0) == gf65536::GfElem(1));
        left_identities(g);
    }
    assert((0x08u16 | 0x100) == 0x108 && (0x09u16 | 0x100) == 0x109 && (1u16 << 8) == 0x100
        && product(0x09, 0x08) == 0x48 && product(0x09, 0x01) == 0x09 && product(0x01, 0x08) == 0x08
        && product(0x01, 0x01) == 0x01 && product(0x20, 0x01) == 0x20 && 0x48u8 ^ 0x20 == 0x68
        && 0x09u8 ^ 0x08 ^ 0x01 == 0) by (bit_vector);
    let nine = gf256::GfElem(0x09);
    let eight = gf256::GfElem(0x08);
    let one = gf256::GfElem(0x01);
    join_parts(gf65536::GfElem(0x0109), nine, one);
    join_parts(g, eight, one);
}

/// `0x08 + u` generates the multiplicative group of GF(2^16).
pub proof fn gf65536_generator_order()
    ensures
        has_order(gf65536::GfElem(gf65536::GENERATOR), 65535),
{
    let g = gf65536::GfElem(gf65536::GENERATOR);
    let one = gf65536::GfElem(1);
    let n = gf256::GfElem(0x68);
    generator_conjugate();
    generator_norm();
    norm_of_generator_order();
    power_times(g, 257, 255);
    power_of_embedded(n, 255);
    embed_is_one(power(n, 255));
    assert(power(g, 65535) == one);
    assert forall|d: nat| 0 < d < 65535 implies #[trigger] power(g, d) != one by {
        if power(g, d) == one {
            power_times(g, 257, d);
            power_times(g, d, 257);
            assert(257 * d == d * 257);
            power_of_one::<gf65536::GfElem>(257);
            power_of_embedded(n, d);
            embed_is_one(power(n, d));
            order_divides(n, 255, d);
            let e = d / 255;
            assert(d == 255 * e && 0 < e < 257);
            let h = power(g, 255);
            power_times(g, 255, e);
            power_times(g, 255, 257);
            trivial_when_coprime(h, e);
            power_plus(g, 255, 1);
            assert(power(g, 1) == g) by {
                assert(power(g, 0) == one);
                left_identities(g);
            }
            left_identities(g);
            assert(false);
        }
    }
}

} // verus!
