//! GF(2^16) as the quadratic tower over GF(2^8): elements `a + b*u` with
//! `u^2 + u + DELTA = 0`.

use vstd::prelude::*;

use crate::algebra::field::{
    group_plus, group_times, left_identities, no_zero_divisors, plus_is_zero, plus_times,
    plus_undoes, times_undoes, times_zero, FieldElement,
};
use crate::algebra::gf256::tower_polynomial_has_no_root;
use crate::algebra::gf256;
use crate::algebra::powers::{power, power_of_square};

verus! {

/// Constant term of the tower polynomial.
pub const DELTA: u8 = 0x20;

/// Raw value of a generator of the multiplicative group.
pub const GENERATOR: u16 = 0x0108;

/// An element `a + b*u`, with `a` in the low byte and `b` in the high byte.
#[derive(Clone, Copy, Debug, Default, PartialEq, Eq, Hash, Structural)]
pub struct GfElem(pub u16);

/// The component `a` of `a + b*u`.
pub open spec fn low(x: GfElem) -> gf256::GfElem {
    gf256::GfElem((x.0 & 0xff) as u8)
}

/// The component `b` of `a + b*u`.
pub open spec fn high(x: GfElem) -> gf256::GfElem {
    gf256::GfElem((x.0 >> 8) as u8)
}

/// The element `a + b*u`.
pub open spec fn join(a: gf256::GfElem, b: gf256::GfElem) -> GfElem {
    GfElem((a.0 as u16) | ((b.0 as u16) << 8))
}

/// The tower constant as a base-field element.
pub open spec fn delta() -> gf256::GfElem {
    gf256::GfElem(DELTA)
}

/// The norm `a^2 + a*b + DELTA*b^2` of `a + b*u`.
pub open spec fn norm(x: GfElem) -> gf256::GfElem {
    let a = low(x);
    let b = high(x);
    a.times(a).plus(a.times(b)).plus(delta().times(b.times(b)))
}

pub proof fn join_parts(x: GfElem, a: gf256::GfElem, b: gf256::GfElem)
    ensures
        join(low(x), high(x)) == x,
        low(join(a, b)) == a,
        high(join(a, b)) == b,
{
    let v = x.0;
    let p = a.0;
    let q = b.0;
    assert((((v & 0xff) as u8) as u16) | ((((v >> 8) as u8) as u16) << 8) == v && ((((p as u16) | ((
    q as u16) << 8)) & 0xff) as u8) == p && ((((p as u16) | ((q as u16) << 8)) >> 8) as u8) == q)
        by (bit_vector);
}

/// Two elements are equal when their components are.
proof fn parts_determine(x: GfElem, y: GfElem)
    requires
        low(x) == low(y),
        high(x) == high(y),
    ensures
        x == y,
{
    join_parts(x, low(x), high(x));
    join_parts(y, low(y), high(y));
}

proof fn xor_laws(a: u16, b: u16, c: u16)
    ensures
        a ^ b == b ^ a,
        (a ^ b) ^ c == a ^ (b ^ c),
        a ^ 0 == a,
        a ^ a == 0,
        ((a ^ b) & 0xff) as u8 == ((a & 0xff) as u8) ^ ((b & 0xff) as u8),
        ((a ^ b) >> 8) as u8 == ((a >> 8) as u8) ^ ((b >> 8) as u8),
        ((0u16 & 0xff) as u8) == 0 && ((0u16 >> 8) as u8) == 0,
        ((1u16 & 0xff) as u8) == 1 && ((1u16 >> 8) as u8) == 0,
{
    assert(a ^ b == b ^ a && (a ^ b) ^ c == a ^ (b ^ c) && a ^ 0 == a && a ^ a == 0 && ((a ^ b)
        & 0xff) as u8 == ((a & 0xff) as u8) ^ ((b & 0xff) as u8) && ((a ^ b) >> 8) as u8 == ((a
        >> 8) as u8) ^ ((b >> 8) as u8) && ((0u16 & 0xff) as u8) == 0 && ((0u16 >> 8) as u8) == 0
        && ((1u16 & 0xff) as u8) == 1 && ((1u16 >> 8) as u8) == 0) by (bit_vector);
}

/// `(x + y + z) * w` multiplied out.
proof fn expand_three(x: gf256::GfElem, y: gf256::GfElem, z: gf256::GfElem, w: gf256::GfElem)
    ensures
        x.plus(y).plus(z).times(w) == x.times(w).plus(y.times(w)).plus(z.times(w)),
        w.times(x.plus(y).plus(z)) == w.times(x).plus(w.times(y)).plus(w.times(z)),
{
    plus_times(x.plus(y), z, w);
    plus_times(x, y, w);
    gf256::GfElem::times_distributes(w, x.plus(y), z);
    gf256::GfElem::times_distributes(w, x, y);
}

/// Both ways of multiplying three elements give the same constant part.
proof fn constant_parts_agree(
    a: gf256::GfElem,
    b: gf256::GfElem,
    c: gf256::GfElem,
    d: gf256::GfElem,
    e: gf256::GfElem,
    f: gf256::GfElem,
    k: gf256::GfElem,
)
    ensures
        a.times(c).plus(k.times(b.times(d))).times(e).plus(
            k.times(a.times(d).plus(b.times(c)).plus(b.times(d)).times(f)),
        ) == a.times(c.times(e).plus(k.times(d.times(f)))).plus(
            k.times(b.times(c.times(f).plus(d.times(e)).plus(d.times(f)))),
        ),
{
    let ace = a.times(c).times(e);
    let kbde = k.times(b.times(d).times(e));
    let kadf = k.times(a.times(d).times(f));
    let kbcf = k.times(b.times(c).times(f));
    let kbdf = k.times(b.times(d).times(f));
    plus_times(a.times(c), k.times(b.times(d)), e);
    gf256::GfElem::times_associates(k, b.times(d), e);
    expand_three(a.times(d), b.times(c), b.times(d), f);
    expand_three(a.times(d).times(f), b.times(c).times(f), b.times(d).times(f), k);
    gf256::GfElem::times_distributes(a, c.times(e), k.times(d.times(f)));
    gf256::GfElem::times_associates(a, c, e);
    assert(a.times(k.times(d.times(f))) == kadf) by {
        broadcast use group_times;

    }
    expand_three(c.times(f), d.times(e), d.times(f), b);
    gf256::GfElem::times_associates(b, c, f);
    gf256::GfElem::times_associates(b, d, e);
    gf256::GfElem::times_associates(b, d, f);
    expand_three(b.times(c).times(f), b.times(d).times(e), b.times(d).times(f), k);
    regroup_five(ace, kbde, kadf, kbcf, kbdf);
}

proof fn regroup_five(
    p: gf256::GfElem,
    q: gf256::GfElem,
    r: gf256::GfElem,
    s: gf256::GfElem,
    t: gf256::GfElem,
)
    ensures
        p.plus(q).plus(r.plus(s).plus(t)) == p.plus(r).plus(s.plus(q).plus(t)),
{
    broadcast use group_plus;

}

/// Both ways of multiplying three elements give the same extension part.
proof fn extension_parts_agree(
    a: gf256::GfElem,
    b: gf256::GfElem,
    c: gf256::GfElem,
    d: gf256::GfElem,
    e: gf256::GfElem,
    f: gf256::GfElem,
    k: gf256::GfElem,
)
    ensures
        a.times(c).plus(k.times(b.times(d))).times(f).plus(
            a.times(d).plus(b.times(c)).plus(b.times(d)).times(e),
        ).plus(a.times(d).plus(b.times(c)).plus(b.times(d)).times(f)) == a.times(
            c.times(f).plus(d.times(e)).plus(d.times(f)),
        ).plus(b.times(c.times(e).plus(k.times(d.times(f))))).plus(
            b.times(c.times(f).plus(d.times(e)).plus(d.times(f))),
        ),
{
    let acf = a.times(c).times(f);
    let kbdf = k.times(b.times(d)).times(f);
    let ade = a.times(d).times(e);
    let bce = b.times(c).times(e);
    let bde = b.times(d).times(e);
    let adf = a.times(d).times(f);
    let bcf = b.times(c).times(f);
    let bdf = b.times(d).times(f);
    plus_times(a.times(c), k.times(b.times(d)), f);
    expand_three(a.times(d), b.times(c), b.times(d), e);
    expand_three(a.times(d), b.times(c), b.times(d), f);
    expand_three(c.times(f), d.times(e), d.times(f), a);
    gf256::GfElem::times_associates(a, c, f);
    gf256::GfElem::times_associates(a, d, e);
    gf256::GfElem::times_associates(a, d, f);
    gf256::GfElem::times_distributes(b, c.times(e), k.times(d.times(f)));
    gf256::GfElem::times_associates(b, c, e);
    assert(b.times(k.times(d.times(f))) == kbdf) by {
        broadcast use group_times;

    }
    expand_three(c.times(f), d.times(e), d.times(f), b);
    gf256::GfElem::times_associates(b, c, f);
    gf256::GfElem::times_associates(b, d, e);
    gf256::GfElem::times_associates(b, d, f);
    regroup_five(acf, kbdf, ade, bce, bde);
    // (acf + kbdf) + (ade + bce + bde) + (adf + bcf + bdf)
    //   = (acf + ade + adf) + (bce + kbdf) + (bcf + bde + bdf)
    regroup_eight(acf, kbdf, ade, bce, bde, adf, bcf, bdf);
}

proof fn regroup_eight(
    p: gf256::GfElem,
    q: gf256::GfElem,
    r: gf256::GfElem,
    s: gf256::GfElem,
    t: gf256::GfElem,
    u: gf256::GfElem,
    v: gf256::GfElem,
    w: gf256::GfElem,
)
    ensures
        p.plus(q).plus(r.plus(s).plus(t)).plus(u.plus(v).plus(w)) == p.plus(r).plus(u).plus(
            s.plus(q),
        ).plus(v.plus(t).plus(w)),
{
    let sq = s.plus(q);
    assert(p.plus(q).plus(r.plus(s).plus(t)) == p.plus(r).plus(sq).plus(t)) by {
        broadcast use group_plus;

    }
    let pr = p.plus(r);
    assert(pr.plus(sq).plus(t).plus(u.plus(v).plus(w)) == pr.plus(u).plus(sq).plus(
        v.plus(t).plus(w),
    )) by {
        broadcast use group_plus;

    }
}

/// The norm of a nonzero element is nonzero.
proof fn norm_nonzero(x: GfElem)
    requires
        x != GfElem(0),
    ensures
        norm(x) != gf256::GfElem(0),
{
    let a = low(x);
    let b = high(x);
    let zero = gf256::GfElem(0);
    if norm(x) == zero {
        if b == zero {
            times_zero(a);
            times_zero(b);
            times_zero(delta());
            gf256::GfElem::plus_identity(a.times(a));
            no_zero_divisors(a, a);
            xor_laws(0, 0, 0);
            parts_determine(x, GfElem(0));
        } else {
            // With t = a / b the norm is b^2 * (t^2 + t + DELTA).
            let t = a.times(b.recip());
            let bb = b.times(b);
            gf256::GfElem::times_associates(a, b.recip(), b);
            times_undoes(b, a);
            gf256::GfElem::times_identity(a);
            assert(a == t.times(b));
            assert(a.times(a) == t.times(t).times(bb)) by {
                crate::algebra::field::times_swap_inner(t, b, t, b);
            }
            assert(a.times(b) == t.times(bb)) by {
                gf256::GfElem::times_associates(t, b, b);
            }
            plus_times(t.times(t), t, bb);
            plus_times(t.times(t).plus(t), delta(), bb);
            no_zero_divisors(t.times(t).plus(t).plus(delta()), bb);
            no_zero_divisors(b, b);
            plus_is_zero(t.times(t).plus(t), delta());
            tower_polynomial_has_no_root(t.0);
        }
    }
}

impl FieldElement for GfElem {
    open spec fn zero_elem() -> Self {
        GfElem(0)
    }

    open spec fn one_elem() -> Self {
        GfElem(1)
    }

    open spec fn plus(self, rhs: Self) -> Self {
        GfElem(self.0 ^ rhs.0)
    }

    /// `(a + b*u)(c + d*u) = (a*c + DELTA*b*d) + (a*d + b*c + b*d)*u`.
    open spec fn times(self, rhs: Self) -> Self {
        let a = low(self);
        let b = high(self);
        let c = low(rhs);
        let d = high(rhs);
        join(
            a.times(c).plus(delta().times(b.times(d))),
            a.times(d).plus(b.times(c)).plus(b.times(d)),
        )
    }

    /// The conjugate `(a + b) + b*u` over the norm.
    open spec fn recip(self) -> Self {
        let inverse = norm(self).recip();
        join(low(self).plus(high(self)).times(inverse), high(self).times(inverse))
    }

    open spec fn width() -> int {
        2
    }

    open spec fn byte_of(self, position: int) -> u8 {
        if position == 0 {
            low(self).0
        } else {
            high(self).0
        }
    }

    open spec fn read_at(bytes: Seq<u8>, offset: int) -> Self {
        join(gf256::GfElem(bytes[offset]), gf256::GfElem(bytes[offset + 1]))
    }

    proof fn plus_commutes(a: Self, b: Self) {
        xor_laws(a.0, b.0, 0);
    }

    proof fn plus_associates(a: Self, b: Self, c: Self) {
        xor_laws(a.0, b.0, c.0);
    }

    proof fn plus_identity(a: Self) {
        xor_laws(a.0, 0, 0);
    }

    proof fn plus_cancels(a: Self) {
        xor_laws(a.0, 0, 0);
    }

    proof fn times_commutes(a: Self, b: Self) {
        broadcast use group_plus;

        gf256::GfElem::times_commutes(low(a), low(b));
        gf256::GfElem::times_commutes(low(a), high(b));
        gf256::GfElem::times_commutes(high(a), low(b));
        gf256::GfElem::times_commutes(high(a), high(b));
    }

    proof fn times_associates(x: Self, y: Self, z: Self) {
        let (a, b, c, d, e, f) = (low(x), high(x), low(y), high(y), low(z), high(z));
        let xy = x.times(y);
        let yz = y.times(z);
        join_parts(
            xy,
            a.times(c).plus(delta().times(b.times(d))),
            a.times(d).plus(b.times(c)).plus(b.times(d)),
        );
        join_parts(
            yz,
            c.times(e).plus(delta().times(d.times(f))),
            c.times(f).plus(d.times(e)).plus(d.times(f)),
        );
        constant_parts_agree(a, b, c, d, e, f, delta());
        extension_parts_agree(a, b, c, d, e, f, delta());
    }

    proof fn times_identity(x: Self) {
        let a = low(x);
        let b = high(x);
        let zero = gf256::GfElem(0);
        xor_laws(1, 0, 0);
        gf256::GfElem::times_identity(a);
        gf256::GfElem::times_identity(b);
        times_zero(a);
        times_zero(b);
        times_zero(delta());
        gf256::GfElem::plus_identity(a);
        gf256::GfElem::plus_identity(b);
        left_identities(b);
        join_parts(x, a, b);
    }

    proof fn times_distributes(x: Self, y: Self, z: Self) {
        let (a, b) = (low(x), high(x));
        let (c, d, e, f) = (low(y), high(y), low(z), high(z));
        xor_laws(y.0, z.0, 0);
        assert(low(y.plus(z)) == c.plus(e));
        assert(high(y.plus(z)) == d.plus(f));
        let xy = x.times(y);
        let xz = x.times(z);
        xor_laws(xy.0, xz.0, 0);
        join_parts(
            xy,
            a.times(c).plus(delta().times(b.times(d))),
            a.times(d).plus(b.times(c)).plus(b.times(d)),
        );
        join_parts(
            xz,
            a.times(e).plus(delta().times(b.times(f))),
            a.times(f).plus(b.times(e)).plus(b.times(f)),
        );
        let lhs = x.times(y.plus(z));
        join_parts(
            lhs,
            a.times(c.plus(e)).plus(delta().times(b.times(d.plus(f)))),
            a.times(d.plus(f)).plus(b.times(c.plus(e))).plus(b.times(d.plus(f))),
        );
        gf256::GfElem::times_distributes(a, c, e);
        gf256::GfElem::times_distributes(a, d, f);
        gf256::GfElem::times_distributes(b, c, e);
        gf256::GfElem::times_distributes(b, d, f);
        gf256::GfElem::times_distributes(delta(), b.times(d), b.times(f));
        assert(low(lhs) == low(xy.plus(xz))) by {
            crate::algebra::field::plus_swap_inner(
                a.times(c),
                a.times(e),
                delta().times(b.times(d)),
                delta().times(b.times(f)),
            );
        }
        assert(high(lhs) == high(xy.plus(xz))) by {
            crate::algebra::field::plus_swap_inner(
                a.times(d),
                a.times(f),
                b.times(c),
                b.times(e),
            );
            crate::algebra::field::plus_swap_inner(
                a.times(d).plus(b.times(c)),
                a.times(f).plus(b.times(e)),
                b.times(d),
                b.times(f),
            );
        }
        parts_determine(lhs, xy.plus(xz));
    }

    proof fn times_recip(x: Self) {
        let a = low(x);
        let b = high(x);
        let n = norm(x);
        let i = n.recip();
        norm_nonzero(x);
        gf256::GfElem::times_recip(n);
        let c = a.plus(b).times(i);
        let d = b.times(i);
        let r = x.recip();
        join_parts(r, c, d);
        let zero = gf256::GfElem(0);
        // Constant part: (a*(a + b) + DELTA*b*b) / n = n / n.
        assert(a.times(c).plus(delta().times(b.times(d))) == gf256::GfElem(1)) by {
            gf256::GfElem::times_associates(a, a.plus(b), i);
            gf256::GfElem::times_associates(b, b, i);
            gf256::GfElem::times_associates(delta(), b.times(b), i);
            plus_times(a.times(a.plus(b)), delta().times(b.times(b)), i);
            gf256::GfElem::times_distributes(a, a, b);
        }
        // Extension part: (a*b + b*(a + b) + b*b) / n = 0.
        assert(a.times(d).plus(b.times(c)).plus(b.times(d)) == zero) by {
            let ab = a.times(b);
            let bb = b.times(b);
            gf256::GfElem::times_associates(a, b, i);
            gf256::GfElem::times_associates(b, a.plus(b), i);
            gf256::GfElem::times_associates(b, b, i);
            gf256::GfElem::times_distributes(b, a, b);
            gf256::GfElem::times_commutes(b, a);
            plus_times(ab, ab.plus(bb), i);
            plus_undoes(ab, bb);
            plus_times(bb, bb, i);
            gf256::GfElem::plus_cancels(bb);
            left_identities(i);
        }
        xor_laws(1, 0, 0);
        join_parts(GfElem(1), gf256::GfElem(1), zero);
    }

    proof fn recip_of_zero() {
        let zero = gf256::GfElem(0);
        let inverse = norm(GfElem(0)).recip();
        xor_laws(0, 0, 0);
        gf256::GfElem::plus_identity(zero);
        left_identities(inverse);
        join_parts(GfElem(0), zero, zero);
    }

    proof fn one_is_not_zero() {
    }

    proof fn width_is_positive() {
    }

    proof fn zero_is_zero_bytes(position: int) {
        assert((0u16 & 0xff) as u8 == 0 && (0u16 >> 8) as u8 == 0) by (bit_vector);
    }

    proof fn read_of_bytes(bytes: Seq<u8>, offset: int, value: Self) {
        assert(bytes[offset + 0] == value.byte_of(0));
        assert(bytes[offset + 1] == value.byte_of(1));
        join_parts(value, low(value), high(value));
    }

    proof fn bytes_of_read(bytes: Seq<u8>, offset: int, position: int) {
        join_parts(
            Self::read_at(bytes, offset),
            gf256::GfElem(bytes[offset]),
            gf256::GfElem(bytes[offset + 1]),
        );
    }

    fn zero_value() -> (r: Self) {
        GfElem(0)
    }

    fn one_value() -> (r: Self) {
        GfElem(1)
    }

    fn add_value(self, rhs: Self) -> (r: Self) {
        self.add(rhs)
    }

    fn mul_value(self, rhs: Self) -> (r: Self) {
        self.mul(rhs)
    }

    fn inv_value(self) -> (r: Self) {
        self.inv()
    }

    fn is_zero_value(self) -> (r: bool) {
        self.0 == 0
    }
}

impl GfElem {
    /// Construct `a + b*u`.
    pub fn from_components(a: gf256::GfElem, b: gf256::GfElem) -> (r: Self)
        ensures
            r == join(a, b),
            low(r) == a,
            high(r) == b,
    {
        proof {
            join_parts(join(a, b), a, b);
        }
        GfElem((a.0 as u16) | ((b.0 as u16) << 8))
    }

    /// The components `(a, b)` of `a + b*u`.
    pub fn components(self) -> (r: (gf256::GfElem, gf256::GfElem))
        ensures
            r.0 == low(self),
            r.1 == high(self),
            join(r.0, r.1) == self,
    {
        proof {
            join_parts(self, low(self), high(self));
        }
        (gf256::GfElem((self.0 & 0xff) as u8), gf256::GfElem((self.0 >> 8) as u8))
    }

    /// Decode from the little-endian component representation `[a, b]`.
    pub fn from_bytes(bytes: [u8; 2]) -> (r: Self)
        ensures
            r == join(gf256::GfElem(bytes[0]), gf256::GfElem(bytes[1])),
            r == Self::read_at(bytes@, 0),
    {
        Self::from_components(gf256::GfElem(bytes[0]), gf256::GfElem(bytes[1]))
    }

    /// Encode to the little-endian component representation `[a, b]`.
    pub fn to_bytes(self) -> (r: [u8; 2])
        ensures
            r[0] == self.byte_of(0),
            r[1] == self.byte_of(1),
            Self::read_at(r@, 0) == self,
    {
        proof {
            join_parts(self, low(self), high(self));
        }
        [(self.0 & 0xff) as u8, (self.0 >> 8) as u8]
    }

    /// The raw value, `b` in the high byte.
    pub fn to_u16(self) -> (r: u16)
        ensures
            GfElem(r) == self,
    {
        self.0
    }

    /// Field addition.
    pub fn add(self, rhs: Self) -> (r: Self)
        ensures
            r == self.plus(rhs),
    {
        GfElem(self.0 ^ rhs.0)
    }

    /// Field subtraction, the same operation as addition.
    pub fn sub(self, rhs: Self) -> (r: Self)
        ensures
            r.plus(rhs) == self,
            r == self.plus(rhs),
    {
        proof {
            plus_undoes(self, rhs);
        }
        self.add(rhs)
    }

    /// Karatsuba multiplication followed by the tower reduction.
    pub fn mul(self, rhs: Self) -> (r: Self)
        ensures
            r == self.times(rhs),
    {
        let (a, b) = self.components();
        let (c, d) = rhs.components();
        let ac = a.mul(c);
        let bd = b.mul(d);
        let constant = ac.add(gf256::GfElem(DELTA).mul(bd));
        let extension = a.add(b).mul(c.add(d)).add(ac);
        proof {
            let ad = a.times(d);
            let bc = b.times(c);
            plus_times(a, b, c.plus(d));
            gf256::GfElem::times_distributes(a, c, d);
            gf256::GfElem::times_distributes(b, c, d);
            let rest = ad.plus(bc.plus(bd));
            gf256::GfElem::plus_associates(ac, ad, bc.plus(bd));
            gf256::GfElem::plus_commutes(ac, rest);
            plus_undoes(rest, ac);
            gf256::GfElem::plus_associates(ad, bc, bd);
        }
        Self::from_components(constant, extension)
    }

    /// Squaring; the cross terms vanish.
    pub fn square(self) -> (r: Self)
        ensures
            r == self.times(self),
    {
        let (a, b) = self.components();
        let a2 = a.square();
        let b2 = b.square();
        proof {
            gf256::GfElem::times_commutes(a, b);
            gf256::GfElem::plus_cancels(a.times(b));
            left_identities(b.times(b));
        }
        Self::from_components(a2.add(gf256::GfElem(DELTA).mul(b2)), b2)
    }

    /// Inversion through the conjugate and the norm. Zero maps to zero.
    pub fn inv(self) -> (r: Self)
        ensures
            r == self.recip(),
            self != GfElem(0) ==> self.times(r) == GfElem(1),
            self == GfElem(0) ==> r == GfElem(0),
    {
        proof {
            Self::recip_of_zero();
            if self != GfElem(0) {
                Self::times_recip(self);
            }
        }
        let (a, b) = self.components();
        let norm = a.square().add(a.mul(b)).add(gf256::GfElem(DELTA).mul(b.square()));
        let norm_inv = norm.inv();
        Self::from_components(a.add(b).mul(norm_inv), b.mul(norm_inv))
    }

    /// Field division. Dividing by zero gives zero.
    pub fn div(self, rhs: Self) -> (r: Self)
        ensures
            r == self.times(rhs.recip()),
            rhs != GfElem(0) ==> r.times(rhs) == self,
            rhs == GfElem(0) ==> r == GfElem(0),
    {
        proof {
            Self::recip_of_zero();
            times_zero(self);
            if rhs != GfElem(0) {
                Self::times_associates(self, rhs.recip(), rhs);
                times_undoes(rhs, self);
                Self::times_identity(self);
            }
        }
        self.mul(rhs.inv())
    }

    /// Raise to an unsigned integer power.
    pub fn pow(self, exponent: u32) -> (r: Self)
        ensures
            r == power(self, exponent as nat),
    {
        let mut base = self;
        let mut rest: u32 = exponent;
        let mut result = GfElem(1);
        proof {
            left_identities(power(self, exponent as nat));
        }
        while rest != 0
            invariant
                result.times(power(base, rest as nat)) == power(self, exponent as nat),
            decreases rest,
        {
            proof {
                power_of_square(base, rest as nat);
                Self::times_associates(result, base, power(base.times(base), (rest / 2) as nat));
            }
            if rest % 2 == 1 {
                result = result.mul(base);
            }
            base = base.square();
            rest = rest / 2;
        }
        proof {
            Self::times_identity(result);
        }
        result
    }
}

impl core::ops::Add for GfElem {
    type Output = GfElem;

    fn add(self, rhs: GfElem) -> (r: GfElem) {
        GfElem::add(self, rhs)
    }
}

impl vstd::std_specs::ops::AddSpecImpl for GfElem {
    open spec fn obeys_add_spec() -> bool {
        true
    }

    open spec fn add_req(self, rhs: GfElem) -> bool {
        true
    }

    open spec fn add_spec(self, rhs: GfElem) -> GfElem {
        self.plus(rhs)
    }
}

impl core::ops::Sub for GfElem {
    type Output = GfElem;

    fn sub(self, rhs: GfElem) -> (r: GfElem) {
        GfElem::sub(self, rhs)
    }
}

impl vstd::std_specs::ops::SubSpecImpl for GfElem {
    open spec fn obeys_sub_spec() -> bool {
        true
    }

    open spec fn sub_req(self, rhs: GfElem) -> bool {
        true
    }

    open spec fn sub_spec(self, rhs: GfElem) -> GfElem {
        self.plus(rhs)
    }
}

impl core::ops::Mul for GfElem {
    type Output = GfElem;

    fn mul(self, rhs: GfElem) -> (r: GfElem) {
        GfElem::mul(self, rhs)
    }
}

impl vstd::std_specs::ops::MulSpecImpl for GfElem {
    open spec fn obeys_mul_spec() -> bool {
        true
    }

    open spec fn mul_req(self, rhs: GfElem) -> bool {
        true
    }

    open spec fn mul_spec(self, rhs: GfElem) -> GfElem {
        self.times(rhs)
    }
}

impl core::ops::Div for GfElem {
    type Output = GfElem;

    fn div(self, rhs: GfElem) -> (r: GfElem) {
        GfElem::div(self, rhs)
    }
}

impl vstd::std_specs::ops::DivSpecImpl for GfElem {
    open spec fn obeys_div_spec() -> bool {
        true
    }

    open spec fn div_req(self, rhs: GfElem) -> bool {
        true
    }

    open spec fn div_spec(self, rhs: GfElem) -> GfElem {
        self.times(rhs.recip())
    }
}

impl core::ops::AddAssign for GfElem {
    fn add_assign(&mut self, rhs: GfElem)
        ensures
            *final(self) == old(self).plus(rhs),
    {
        *self = GfElem::add(*self, rhs);
    }
}

impl core::ops::MulAssign for GfElem {
    fn mul_assign(&mut self, rhs: GfElem)
        ensures
            *final(self) == old(self).times(rhs),
    {
        *self = GfElem::mul(*self, rhs);
    }
}

} // verus!
