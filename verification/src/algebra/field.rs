//! The field interface the codecs are written against.
//!
//! A [`FieldElement`] is an element of a finite field of characteristic two
//! together with its byte representation. The specification functions name the
//! field operations; the proof functions are the field laws, proved once per
//! field and used by everything above.

use vstd::prelude::*;

verus! {

/// An element of a binary field with a fixed-width byte encoding.
pub trait FieldElement: Copy {
    /// The additive identity.
    spec fn zero_elem() -> Self;

    /// The multiplicative identity.
    spec fn one_elem() -> Self;

    /// Field addition.
    spec fn plus(self, rhs: Self) -> Self;

    /// Field multiplication.
    spec fn times(self, rhs: Self) -> Self;

    /// Multiplicative inverse; zero maps to zero.
    spec fn recip(self) -> Self;

    /// Bytes one element occupies on the wire.
    spec fn width() -> int;

    /// Byte `position` of the wire encoding.
    spec fn byte_of(self, position: int) -> u8;

    /// The element encoded by the `width` bytes that start at `offset`.
    spec fn read_at(bytes: Seq<u8>, offset: int) -> Self;

    proof fn plus_commutes(a: Self, b: Self)
        ensures
            a.plus(b) == b.plus(a),
    ;

    proof fn plus_associates(a: Self, b: Self, c: Self)
        ensures
            a.plus(b).plus(c) == a.plus(b.plus(c)),
    ;

    proof fn plus_identity(a: Self)
        ensures
            a.plus(Self::zero_elem()) == a,
    ;

    proof fn plus_cancels(a: Self)
        ensures
            a.plus(a) == Self::zero_elem(),
    ;

    proof fn times_commutes(a: Self, b: Self)
        ensures
            a.times(b) == b.times(a),
    ;

    proof fn times_associates(a: Self, b: Self, c: Self)
        ensures
            a.times(b).times(c) == a.times(b.times(c)),
    ;

    proof fn times_identity(a: Self)
        ensures
            a.times(Self::one_elem()) == a,
    ;

    proof fn times_distributes(a: Self, b: Self, c: Self)
        ensures
            a.times(b.plus(c)) == a.times(b).plus(a.times(c)),
    ;

    proof fn times_recip(a: Self)
        requires
            a != Self::zero_elem(),
        ensures
            a.times(a.recip()) == Self::one_elem(),
    ;

    proof fn recip_of_zero()
        ensures
            Self::zero_elem().recip() == Self::zero_elem(),
    ;

    proof fn one_is_not_zero()
        ensures
            Self::one_elem() != Self::zero_elem(),
    ;

    proof fn width_is_positive()
        ensures
            1 <= Self::width() <= 2,
    ;

    /// Zero is encoded by zero bytes.
    proof fn zero_is_zero_bytes(position: int)
        requires
            0 <= position < Self::width(),
        ensures
            Self::zero_elem().byte_of(position) == 0,
    ;

    /// Reading an encoding gives the element back.
    proof fn read_of_bytes(bytes: Seq<u8>, offset: int, value: Self)
        requires
            forall|p: int| 0 <= p < Self::width() ==> bytes[offset + p] == #[trigger] value.byte_of(p),
        ensures
            Self::read_at(bytes, offset) == value,
    ;

    /// Every `width` bytes are the encoding of the element read from them.
    proof fn bytes_of_read(bytes: Seq<u8>, offset: int, position: int)
        requires
            0 <= position < Self::width(),
        ensures
            Self::read_at(bytes, offset).byte_of(position) == bytes[offset + position],
    ;

    fn zero_value() -> (r: Self)
        ensures
            r == Self::zero_elem(),
    ;

    fn one_value() -> (r: Self)
        ensures
            r == Self::one_elem(),
    ;

    fn add_value(self, rhs: Self) -> (r: Self)
        ensures
            r == self.plus(rhs),
    ;

    fn mul_value(self, rhs: Self) -> (r: Self)
        ensures
            r == self.times(rhs),
    ;

    fn inv_value(self) -> (r: Self)
        ensures
            r == self.recip(),
    ;

    fn is_zero_value(self) -> (r: bool)
        ensures
            r == (self == Self::zero_elem()),
    ;
}

pub broadcast proof fn plus_comm<F: FieldElement>(a: F, b: F)
    ensures
        #[trigger] a.plus(b) == b.plus(a),
{
    F::plus_commutes(a, b);
}

pub broadcast proof fn plus_assoc<F: FieldElement>(a: F, b: F, c: F)
    ensures
        #[trigger] a.plus(b).plus(c) == a.plus(b.plus(c)),
{
    F::plus_associates(a, b, c);
}

pub broadcast proof fn times_comm<F: FieldElement>(a: F, b: F)
    ensures
        #[trigger] a.times(b) == b.times(a),
{
    F::times_commutes(a, b);
}

pub broadcast proof fn times_assoc<F: FieldElement>(a: F, b: F, c: F)
    ensures
        #[trigger] a.times(b).times(c) == a.times(b.times(c)),
{
    F::times_associates(a, b, c);
}

pub broadcast proof fn times_zero<F: FieldElement>(a: F)
    ensures
        #[trigger] a.times(F::zero_elem()) == F::zero_elem(),
{
    let z = F::zero_elem();
    F::plus_identity(z);
    F::times_distributes(a, z, z);
    F::plus_cancels(a.times(z));
}

/// Sums may be regrouped and reordered.
pub broadcast group group_plus {
    plus_comm,
    plus_assoc,
}

/// Products may be regrouped and reordered.
pub broadcast group group_times {
    times_comm,
    times_assoc,
}

/// `(a + b) + (c + d) = (a + c) + (b + d)`.
pub proof fn plus_swap_inner<F: FieldElement>(a: F, b: F, c: F, d: F)
    ensures
        a.plus(b).plus(c.plus(d)) == a.plus(c).plus(b.plus(d)),
{
    broadcast use group_plus;

}

/// `(a * b) * (c * d) = (a * c) * (b * d)`.
pub proof fn times_swap_inner<F: FieldElement>(a: F, b: F, c: F, d: F)
    ensures
        a.times(b).times(c.times(d)) == a.times(c).times(b.times(d)),
{
    broadcast use group_times;

}

/// Identities with zero and one on the left.
pub proof fn left_identities<F: FieldElement>(a: F)
    ensures
        F::zero_elem().plus(a) == a,
        F::one_elem().times(a) == a,
        F::zero_elem().times(a) == F::zero_elem(),
        a.times(F::zero_elem()) == F::zero_elem(),
{
    F::plus_commutes(F::zero_elem(), a);
    F::plus_identity(a);
    F::times_commutes(F::one_elem(), a);
    F::times_identity(a);
    F::times_commutes(F::zero_elem(), a);
    times_zero(a);
}

/// `(a + b) * c = a * c + b * c`.
pub proof fn plus_times<F: FieldElement>(a: F, b: F, c: F)
    ensures
        a.plus(b).times(c) == a.times(c).plus(b.times(c)),
{
    F::times_commutes(a.plus(b), c);
    F::times_distributes(c, a, b);
    F::times_commutes(c, a);
    F::times_commutes(c, b);
}

/// Adding the same element twice changes nothing.
pub proof fn plus_undoes<F: FieldElement>(a: F, b: F)
    ensures
        a.plus(b).plus(b) == a,
        a.plus(a.plus(b)) == b,
{
    F::plus_associates(a, b, b);
    F::plus_cancels(b);
    F::plus_identity(a);
    F::plus_associates(a, a, b);
    F::plus_cancels(a);
    left_identities(b);
}

/// Two elements sum to zero only if they are equal.
pub proof fn plus_is_zero<F: FieldElement>(a: F, b: F)
    ensures
        a.plus(b) == F::zero_elem() <==> a == b,
{
    plus_undoes(a, b);
    F::plus_cancels(a);
    left_identities(b);
}

/// Multiplying by a nonzero element can be undone.
pub proof fn times_undoes<F: FieldElement>(a: F, b: F)
    requires
        a != F::zero_elem(),
    ensures
        a.times(a.recip().times(b)) == b,
        a.times(b).times(a.recip()) == b,
        a.recip().times(a.times(b)) == b,
        a.recip().times(a) == F::one_elem(),
{
    F::times_recip(a);
    F::times_commutes(a, a.recip());
    left_identities(b);
    F::times_associates(a, a.recip(), b);
    F::times_associates(a.recip(), a, b);
    F::times_commutes(a.times(b), a.recip());
}

/// A product is zero only if a factor is.
pub proof fn no_zero_divisors<F: FieldElement>(a: F, b: F)
    ensures
        a.times(b) == F::zero_elem() <==> (a == F::zero_elem() || b == F::zero_elem()),
{
    left_identities(b);
    left_identities(a);
    if a != F::zero_elem() && a.times(b) == F::zero_elem() {
        times_undoes(a, b);
        times_zero(a.recip());
    }
}

/// The inverse of a nonzero element is the only solution of `a * x = 1`.
pub proof fn recip_is_unique<F: FieldElement>(a: F, b: F)
    requires
        a.times(b) == F::one_elem(),
    ensures
        b == a.recip(),
        a != F::zero_elem(),
{
    F::one_is_not_zero();
    left_identities(b);
    times_undoes(a, b);
    F::times_identity(a.recip());
}

/// Inverses are nonzero, and inverting distributes over products.
pub proof fn recip_of_product<F: FieldElement>(a: F, b: F)
    ensures
        a.times(b).recip() == a.recip().times(b.recip()),
        a != F::zero_elem() <==> a.recip() != F::zero_elem(),
{
    let z = F::zero_elem();
    F::recip_of_zero();
    F::one_is_not_zero();
    no_zero_divisors(a, b);
    left_identities(a.recip());
    left_identities(b.recip());
    if a != z {
        F::times_recip(a);
        if a.recip() == z {
            times_zero(a);
        }
        if b != z {
            F::times_recip(b);
            times_swap_inner(a, b, a.recip(), b.recip());
            F::times_identity(F::one_elem());
            recip_is_unique(a.times(b), a.recip().times(b.recip()));
        }
    }
}

} // verus!
