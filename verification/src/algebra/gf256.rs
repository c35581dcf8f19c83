//! GF(2^8), the AES field: polynomials over GF(2) modulo
//! `x^8 + x^4 + x^3 + x + 1`, with generator `x + 1`.

use vstd::prelude::*;

use crate::algebra::field::FieldElement;
use crate::algebra::powers::{power, power_of_square};

verus! {

/// Low byte of the reduction polynomial, added when a shift overflows.
pub const REDUCTION_LOW: u8 = 0x1b;

/// The reduction polynomial.
pub const REDUCTION_POLY: u16 = 0x11b;

/// An element of GF(2^8), stored as its polynomial coefficient vector.
#[derive(Clone, Copy, Debug, Default, PartialEq, Eq, Hash, Structural)]
pub struct GfElem(pub u8);

/// Coefficient vector of a generator of the multiplicative group.
pub const GENERATOR: u8 = 0x03;

/// `a * x` in the field.
pub open spec fn xtime(a: u8) -> u8 {
    (a << 1) ^ (if a & 0x80 != 0 {
        0x1bu8
    } else {
        0u8
    })
}

/// `v` if `on`, zero otherwise.
pub open spec fn pick(on: bool, v: u8) -> u8 {
    if on {
        v
    } else {
        0u8
    }
}

/// The field product: the shifts `b * x^i` selected by the bits of `a`.
pub open spec fn product(a: u8, b: u8) -> u8 {
    let b1 = xtime(b);
    let b2 = xtime(b1);
    let b3 = xtime(b2);
    let b4 = xtime(b3);
    let b5 = xtime(b4);
    let b6 = xtime(b5);
    let b7 = xtime(b6);
    pick(a & 1 != 0, b) ^ pick(a & 2 != 0, b1) ^ pick(a & 4 != 0, b2) ^ pick(a & 8 != 0, b3) ^ pick(
        a & 16 != 0,
        b4,
    ) ^ pick(a & 32 != 0, b5) ^ pick(a & 64 != 0, b6) ^ pick(a & 128 != 0, b7)
}

/// Squaring is linear: the squares of the powers of `x`, selected by the bits.
pub open spec fn square_linear(a: u8) -> u8 {
    pick(a & 1 != 0, 0x01) ^ pick(a & 2 != 0, 0x04) ^ pick(a & 4 != 0, 0x10) ^ pick(
        a & 8 != 0,
        0x40,
    ) ^ pick(a & 16 != 0, 0x1b) ^ pick(a & 32 != 0, 0x6c) ^ pick(a & 64 != 0, 0xab) ^ pick(
        a & 128 != 0,
        0x9a,
    )
}

/// The inverse, `a^254`, by way of `a^3` and `a^15`.
pub open spec fn inverse(a: u8) -> u8 {
    let a2 = product(a, a);
    let a3 = product(a2, a);
    let a6 = product(a3, a3);
    let a12 = product(a6, a6);
    let a15 = product(a12, a3);
    let a30 = product(a15, a15);
    let a60 = product(a30, a30);
    let a120 = product(a60, a60);
    let a240 = product(a120, a120);
    product(product(a240, a12), a2)
}

proof fn xor_laws(a: u8, b: u8, c: u8)
    ensures
        a ^ b == b ^ a,
        (a ^ b) ^ c == a ^ (b ^ c),
        a ^ 0 == a,
        0 ^ a == a,
        a ^ a == 0,
{
    assert(a ^ b == b ^ a && (a ^ b) ^ c == a ^ (b ^ c) && a ^ 0 == a && 0 ^ a == a && a ^ a == 0)
        by (bit_vector);
}

proof fn product_commutes(a: u8, b: u8)
    ensures
        product(a, b) == product(b, a),
{
    assert(product(a, b) == product(b, a)) by (bit_vector);
}

proof fn product_distributes(a: u8, b: u8, c: u8)
    ensures
        product(a ^ b, c) == product(a, c) ^ product(b, c),
{
    assert(product(a ^ b, c) == product(a, c) ^ product(b, c)) by (bit_vector);
}

proof fn product_of_shift(a: u8, b: u8)
    ensures
        product(xtime(a), b) == xtime(product(a, b)),
{
    assert(product(xtime(a), b) == xtime(product(a, b))) by (bit_vector);
}

proof fn product_of_constants(a: u8)
    ensures
        product(1, a) == a,
        product(0, a) == 0,
        product(a, 1) == a,
{
    assert(product(1, a) == a && product(0, a) == 0 && product(a, 1) == a) by (bit_vector);
}

proof fn product_of_pick(on: bool, v: u8, c: u8)
    ensures
        product(pick(on, v), c) == pick(on, product(v, c)),
{
    product_of_constants(c);
}

proof fn product_associates(a: u8, b: u8, c: u8)
    ensures
        product(product(a, b), c) == product(a, product(b, c)),
{
    let b1 = xtime(b);
    let b2 = xtime(b1);
    let b3 = xtime(b2);
    let b4 = xtime(b3);
    let b5 = xtime(b4);
    let b6 = xtime(b5);
    let b7 = xtime(b6);
    let p0 = pick(a & 1 != 0, b);
    let p1 = pick(a & 2 != 0, b1);
    let p2 = pick(a & 4 != 0, b2);
    let p3 = pick(a & 8 != 0, b3);
    let p4 = pick(a & 16 != 0, b4);
    let p5 = pick(a & 32 != 0, b5);
    let p6 = pick(a & 64 != 0, b6);
    let p7 = pick(a & 128 != 0, b7);
    product_distributes(p0 ^ p1 ^ p2 ^ p3 ^ p4 ^ p5 ^ p6, p7, c);
    product_distributes(p0 ^ p1 ^ p2 ^ p3 ^ p4 ^ p5, p6, c);
    product_distributes(p0 ^ p1 ^ p2 ^ p3 ^ p4, p5, c);
    product_distributes(p0 ^ p1 ^ p2 ^ p3, p4, c);
    product_distributes(p0 ^ p1 ^ p2, p3, c);
    product_distributes(p0 ^ p1, p2, c);
    product_distributes(p0, p1, c);
    product_of_pick(a & 1 != 0, b, c);
    product_of_pick(a & 2 != 0, b1, c);
    product_of_pick(a & 4 != 0, b2, c);
    product_of_pick(a & 8 != 0, b3, c);
    product_of_pick(a & 16 != 0, b4, c);
    product_of_pick(a & 32 != 0, b5, c);
    product_of_pick(a & 64 != 0, b6, c);
    product_of_pick(a & 128 != 0, b7, c);
    product_of_shift(b, c);
    product_of_shift(b1, c);
    product_of_shift(b2, c);
    product_of_shift(b3, c);
    product_of_shift(b4, c);
    product_of_shift(b5, c);
    product_of_shift(b6, c);
}

proof fn square_is_linear(a: u8)
    ensures
        square_linear(a) == product(a, a),
{
    assert(square_linear(a) == product(a, a)) by (bit_vector);
}

#[verifier::rlimit(60)]
proof fn inverse_chain(
    a: u8,
    a2: u8,
    a3: u8,
    a6: u8,
    a12: u8,
    a15: u8,
    a30: u8,
    a60: u8,
    a120: u8,
    a240: u8,
    a252: u8,
    a254: u8,
)
    requires
        a != 0,
        a2 == square_linear(a),
        a3 == product(a2, a),
        a6 == square_linear(a3),
        a12 == square_linear(a6),
        a15 == product(a12, a3),
        a30 == square_linear(a15),
        a60 == square_linear(a30),
        a120 == square_linear(a60),
        a240 == square_linear(a120),
        a252 == product(a240, a12),
        a254 == product(a252, a2),
    ensures
        product(a, a254) == 1,
{
    assert(product(a, a254) == 1) by (bit_vector)
        requires
            a != 0,
            a2 == square_linear(a),
            a3 == product(a2, a),
            a6 == square_linear(a3),
            a12 == square_linear(a6),
            a15 == product(a12, a3),
            a30 == square_linear(a15),
            a60 == square_linear(a30),
            a120 == square_linear(a60),
            a240 == square_linear(a120),
            a252 == product(a240, a12),
            a254 == product(a252, a2),
    ;
}

proof fn inverse_inverts(a: u8)
    ensures
        a != 0 ==> product(a, inverse(a)) == 1,
        inverse(0) == 0,
{
    let a2 = product(a, a);
    let a3 = product(a2, a);
    let a6 = product(a3, a3);
    let a12 = product(a6, a6);
    let a15 = product(a12, a3);
    let a30 = product(a15, a15);
    let a60 = product(a30, a30);
    let a120 = product(a60, a60);
    let a240 = product(a120, a120);
    let a252 = product(a240, a12);
    let a254 = product(a252, a2);
    if a != 0 {
        square_is_linear(a);
        square_is_linear(a3);
        square_is_linear(a6);
        square_is_linear(a15);
        square_is_linear(a30);
        square_is_linear(a60);
        square_is_linear(a120);
        inverse_chain(a, a2, a3, a6, a12, a15, a30, a60, a120, a240, a252, a254);
    }
    product_of_constants(0);
}

/// The tower polynomial `t^2 + t + 0x20` has no root.
pub proof fn tower_polynomial_has_no_root(t: u8)
    ensures
        product(t, t) ^ t != 0x20,
{
    square_is_linear(t);
    assert(square_linear(t) ^ t != 0x20) by (bit_vector);
}

fn xtime_value(a: u8) -> (r: u8)
    ensures
        r == xtime(a),
{
    (a << 1) ^ (if a & 0x80 != 0 {
        0x1bu8
    } else {
        0u8
    })
}

fn pick_value(on: bool, v: u8) -> (r: u8)
    ensures
        r == pick(on, v),
{
    if on {
        v
    } else {
        0
    }
}

impl FieldElement for GfElem {
    open spec fn zero_elem() -> Self {
        GfElem(0)
    }

    open spec fn one_elem() -> Self {
        GfElem(1)
    }

    open spec fn plus(self, rhs: Self) -> Self {
        GfElem(self.0 ^ rhs.0)
    }

    open spec fn times(self, rhs: Self) -> Self {
        GfElem(product(self.0, rhs.0))
    }

    open spec fn recip(self) -> Self {
        GfElem(inverse(self.0))
    }

    open spec fn width() -> int {
        1
    }

    open spec fn byte_of(self, position: int) -> u8 {
        self.0
    }

    open spec fn read_at(bytes: Seq<u8>, offset: int) -> Self {
        GfElem(bytes[offset])
    }

    proof fn plus_commutes(a: Self, b: Self) {
        xor_laws(a.0, b.0, 0);
    }

    proof fn plus_associates(a: Self, b: Self, c: Self) {
        xor_laws(a.0, b.0, c.0);
    }

    proof fn plus_identity(a: Self) {
        xor_laws(a.0, 0, 0);
    }

    proof fn plus_cancels(a: Self) {
        xor_laws(a.0, 0, 0);
    }

    proof fn times_commutes(a: Self, b: Self) {
        product_commutes(a.0, b.0);
    }

    proof fn times_associates(a: Self, b: Self, c: Self) {
        product_associates(a.0, b.0, c.0);
    }

    proof fn times_identity(a: Self) {
        product_of_constants(a.0);
    }

    proof fn times_distributes(a: Self, b: Self, c: Self) {
        product_commutes(a.0, b.0 ^ c.0);
        product_distributes(b.0, c.0, a.0);
        product_commutes(a.0, b.0);
        product_commutes(a.0, c.0);
    }

    proof fn times_recip(a: Self) {
        inverse_inverts(a.0);
    }

    proof fn recip_of_zero() {
        inverse_inverts(0);
    }

    proof fn one_is_not_zero() {
    }

    proof fn width_is_positive() {
    }

    proof fn zero_is_zero_bytes(position: int) {
    }

    proof fn read_of_bytes(bytes: Seq<u8>, offset: int, value: Self) {
        assert(bytes[offset + 0] == value.byte_of(0));
    }

    proof fn bytes_of_read(bytes: Seq<u8>, offset: int, position: int) {
    }

    fn zero_value() -> (r: Self) {
        GfElem(0)
    }

    fn one_value() -> (r: Self) {
        GfElem(1)
    }

    fn add_value(self, rhs: Self) -> (r: Self) {
        self.add(rhs)
    }

    fn mul_value(self, rhs: Self) -> (r: Self) {
        self.mul(rhs)
    }

    fn inv_value(self) -> (r: Self) {
        self.inv()
    }

    fn is_zero_value(self) -> (r: bool) {
        self.0 == 0
    }
}

impl GfElem {
    /// Field addition.
    pub fn add(self, rhs: Self) -> (r: Self)
        ensures
            r == self.plus(rhs),
    {
        GfElem(self.0 ^ rhs.0)
    }

    /// Field subtraction, the same operation as addition.
    pub fn sub(self, rhs: Self) -> (r: Self)
        ensures
            r.plus(rhs) == self,
            r == self.plus(rhs),
    {
        proof {
            crate::algebra::field::plus_undoes(self, rhs);
        }
        self.add(rhs)
    }

    /// Field multiplication.
    pub fn mul(self, rhs: Self) -> (r: Self)
        ensures
            r == self.times(rhs),
    {
        let a: u8 = self.0;
        let b: u8 = rhs.0;
        let b1: u8 = xtime_value(b);
        let b2: u8 = xtime_value(b1);
        let b3: u8 = xtime_value(b2);
        let b4: u8 = xtime_value(b3);
        let b5: u8 = xtime_value(b4);
        let b6: u8 = xtime_value(b5);
        let b7: u8 = xtime_value(b6);
        GfElem(
            pick_value(a & 1 != 0, b) ^ pick_value(a & 2 != 0, b1) ^ pick_value(a & 4 != 0, b2)
                ^ pick_value(a & 8 != 0, b3) ^ pick_value(a & 16 != 0, b4) ^ pick_value(
                a & 32 != 0,
                b5,
            ) ^ pick_value(a & 64 != 0, b6) ^ pick_value(a & 128 != 0, b7),
        )
    }

    /// The product with itself.
    pub fn square(self) -> (r: Self)
        ensures
            r == self.times(self),
    {
        self.mul(self)
    }

    /// Multiplicative inverse. Zero maps to zero.
    pub fn inv(self) -> (r: Self)
        ensures
            r == self.recip(),
            self != GfElem(0) ==> self.times(r) == GfElem(1),
            self == GfElem(0) ==> r == GfElem(0),
    {
        proof {
            inverse_inverts(self.0);
        }
        let a2 = self.mul(self);
        let a3 = a2.mul(self);
        let a6 = a3.mul(a3);
        let a12 = a6.mul(a6);
        let a15 = a12.mul(a3);
        let a30 = a15.mul(a15);
        let a60 = a30.mul(a30);
        let a120 = a60.mul(a60);
        let a240 = a120.mul(a120);
        a240.mul(a12).mul(a2)
    }

    /// Field division. Dividing by zero gives zero.
    pub fn div(self, rhs: Self) -> (r: Self)
        ensures
            r == self.times(rhs.recip()),
            rhs != GfElem(0) ==> r.times(rhs) == self,
            rhs == GfElem(0) ==> r == GfElem(0),
    {
        proof {
            inverse_inverts(0);
            product_commutes(self.0, 0);
            product_of_constants(self.0);
            if rhs != GfElem(0) {
                Self::times_associates(self, rhs.recip(), rhs);
                crate::algebra::field::times_undoes(rhs, self);
                Self::times_identity(self);
            }
        }
        self.mul(rhs.inv())
    }

    /// Raise to an unsigned integer power.
    pub fn pow(self, exponent: u32) -> (r: Self)
        ensures
            r == power(self, exponent as nat),
    {
        let mut base = self;
        let mut rest: u32 = exponent;
        let mut result = GfElem(1);
        proof {
            crate::algebra::field::left_identities(power(self, exponent as nat));
        }
        while rest != 0
            invariant
                result.times(power(base, rest as nat)) == power(self, exponent as nat),
            decreases rest,
        {
            proof {
                power_of_square(base, rest as nat);
                Self::times_associates(result, base, power(base.times(base), (rest / 2) as nat));
            }
            if rest % 2 == 1 {
                result = result.mul(base);
            }
            base = base.square();
            rest = rest / 2;
        }
        proof {
            Self::times_identity(result);
        }
        result
    }
}

} // verus!
