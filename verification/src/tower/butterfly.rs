//! Fused butterflies over interleaved GF(65536) payloads.
//!
//! A butterfly couples two equal-length halves with one coefficient. The forward
//! butterfly adds `coefficient * high` to `low` and then `low` to `high`; the
//! inverse runs the two steps backwards. Multiplication by `c + d*u` sends the
//! interleaved bytes `[a, b]` to `[c*a + DELTA*d*b, (c + d)*b + d*a]`, so each
//! backend only needs products in GF(256): as field products, as nibble-table
//! lookups, or as shifts and additions.

use vstd::prelude::*;

use crate::algebra::field::{
    left_identities, plus_times, plus_undoes, FieldElement,
};
use crate::algebra::gf256::{pick, product, xtime};
use crate::algebra::gf256;
use crate::algebra::gf65536::{delta, high, join, join_parts, low, GfElem, DELTA};
use crate::simd::ScaleTable;
use crate::symbols::{blocks_from_lanes, lane, lane_count};

verus! {

/// `low_after = low + c * high` and `high_after = high + low_after`, in every
/// lane.
pub open spec fn forward_into(
    low_before: Seq<u8>,
    high_before: Seq<u8>,
    low_after: Seq<u8>,
    high_after: Seq<u8>,
    coefficient: GfElem,
) -> bool {
    let len = low_before.len() as int;
    &&& low_after.len() == len
    &&& high_after.len() == len
    &&& forall|e: int|
        #![trigger lane::<GfElem>(low_after, len, 0, e)]
        #![trigger lane::<GfElem>(high_after, len, 0, e)]
        0 <= e < lane_count::<GfElem>(len) ==> {
            let l = lane::<GfElem>(low_before, len, 0, e);
            let h = lane::<GfElem>(high_before, len, 0, e);
            &&& lane::<GfElem>(low_after, len, 0, e) == l.plus(coefficient.times(h))
            &&& lane::<GfElem>(high_after, len, 0, e) == h.plus(l.plus(coefficient.times(h)))
        }
}

/// `high_after = high + low` and `low_after = low + c * high_after`, in every
/// lane.
pub open spec fn inverse_into(
    low_before: Seq<u8>,
    high_before: Seq<u8>,
    low_after: Seq<u8>,
    high_after: Seq<u8>,
    coefficient: GfElem,
) -> bool {
    let len = low_before.len() as int;
    &&& low_after.len() == len
    &&& high_after.len() == len
    &&& forall|e: int|
        #![trigger lane::<GfElem>(low_after, len, 0, e)]
        #![trigger lane::<GfElem>(high_after, len, 0, e)]
        0 <= e < lane_count::<GfElem>(len) ==> {
            let l = lane::<GfElem>(low_before, len, 0, e);
            let h = lane::<GfElem>(high_before, len, 0, e);
            &&& lane::<GfElem>(high_after, len, 0, e) == h.plus(l)
            &&& lane::<GfElem>(low_after, len, 0, e) == l.plus(coefficient.times(h.plus(l)))
        }
}

/// A forward butterfly adds the scaled high half to the low half and then the new
/// low half to the high one; an inverse one adds the low half to the high one and
/// then the scaled new high half to the low one. A zero coefficient leaves the low
/// half as it is.
pub proof fn butterflies_couple_the_halves(
    low: Seq<u8>,
    high: Seq<u8>,
    low_after: Seq<u8>,
    high_after: Seq<u8>,
    coefficient: GfElem,
    e: int,
)
    requires
        low.len() == high.len(),
        0 <= e < lane_count::<GfElem>(low.len() as int),
    ensures
        ({
            let len = low.len() as int;
            let l = lane::<GfElem>(low, len, 0, e);
            let h = lane::<GfElem>(high, len, 0, e);
            let l_after = lane::<GfElem>(low_after, len, 0, e);
            let h_after = lane::<GfElem>(high_after, len, 0, e);
            &&& forward_into(low, high, low_after, high_after, coefficient) ==> l_after == l.plus(
                coefficient.times(h),
            ) && h_after == h.plus(l_after)
            &&& inverse_into(low, high, low_after, high_after, coefficient) ==> h_after == h.plus(
                l,
            ) && l_after == l.plus(coefficient.times(h_after))
        }),
{
}

/// The inverse butterfly undoes the forward butterfly with the same coefficient.
pub proof fn inverse_undoes_forward(
    low_first: Seq<u8>,
    high_first: Seq<u8>,
    low_second: Seq<u8>,
    high_second: Seq<u8>,
    low_third: Seq<u8>,
    high_third: Seq<u8>,
    coefficient: GfElem,
)
    requires
        low_first.len() == high_first.len(),
        low_first.len() % 2 == 0,
        forward_into(low_first, high_first, low_second, high_second, coefficient),
        inverse_into(low_second, high_second, low_third, high_third, coefficient),
    ensures
        low_third == low_first,
        high_third == high_first,
{
    let len = low_first.len() as int;
    if len == 0 {
        assert(low_third =~= low_first);
        assert(high_third =~= high_first);
    } else {
        assert forall|i: int, e: int| 0 <= i < 1 && 0 <= e < lane_count::<GfElem>(len) implies
            #[trigger] lane::<GfElem>(low_third, len, i, e) == lane::<GfElem>(low_first, len, i, e)
            && lane::<GfElem>(high_third, len, i, e) == lane::<GfElem>(
            high_first,
            len,
            i,
            e,
        ) by {
            butterfly_lane(
                low_first,
                high_first,
                low_second,
                high_second,
                low_third,
                high_third,
                coefficient,
                e,
            );
        }
        assert(1 * len == len);
        blocks_from_lanes::<GfElem>(low_third, low_first, 1, len);
        assert forall|i: int, e: int| 0 <= i < 1 && 0 <= e < lane_count::<GfElem>(len) implies
            #[trigger] lane::<GfElem>(high_third, len, i, e) == lane::<GfElem>(
            high_first,
            len,
            i,
            e,
        ) by {
            assert(lane::<GfElem>(low_third, len, i, e) == lane::<GfElem>(low_first, len, i, e));
        }
        blocks_from_lanes::<GfElem>(high_third, high_first, 1, len);
    }
}

/// One lane through both butterflies.
proof fn butterfly_lane(
    low_first: Seq<u8>,
    high_first: Seq<u8>,
    low_second: Seq<u8>,
    high_second: Seq<u8>,
    low_third: Seq<u8>,
    high_third: Seq<u8>,
    coefficient: GfElem,
    e: int,
)
    requires
        forward_into(low_first, high_first, low_second, high_second, coefficient),
        inverse_into(low_second, high_second, low_third, high_third, coefficient),
        0 <= e < lane_count::<GfElem>(low_first.len() as int),
    ensures
        lane::<GfElem>(low_third, low_first.len() as int, 0, e) == lane::<GfElem>(
            low_first,
            low_first.len() as int,
            0,
            e,
        ),
        lane::<GfElem>(high_third, low_first.len() as int, 0, e) == lane::<GfElem>(
            high_first,
            low_first.len() as int,
            0,
            e,
        ),
{
    let len = low_first.len() as int;
    let l = lane::<GfElem>(low_first, len, 0, e);
    let h = lane::<GfElem>(high_first, len, 0, e);
    let scaled = coefficient.times(h);
    let l2 = l.plus(scaled);
    assert(lane::<GfElem>(low_second, len, 0, e) == l2);
    assert(lane::<GfElem>(high_second, len, 0, e) == h.plus(l2));
    plus_undoes(h, l2);
    assert(lane::<GfElem>(high_third, len, 0, e) == h);
    plus_undoes(l, scaled);
}

/// Which kernels run the butterflies.
#[derive(Clone, Copy, Debug, PartialEq, Eq, Structural)]
pub enum ButterflyBackendKind {
    /// Element arithmetic.
    Scalar,
    /// Field products on whole bytes.
    Gfni,
    /// Nibble-table lookups, 32 bytes wide.
    Avx2,
    /// Nibble-table lookups, 16 bytes wide.
    Ssse3,
    /// Shifts and additions.
    Neon,
}

/// Element arithmetic.
pub struct ScalarBackend;

/// Field products on whole bytes.
pub struct GfniBackend;

/// Nibble-table lookups, 32 bytes wide.
pub struct Avx2Backend;

/// Nibble-table lookups, 16 bytes wide.
pub struct Ssse3Backend;

/// Shifts and additions.
pub struct NeonBackend;

/// What the processor offers.
#[derive(Clone, Copy, Debug, PartialEq, Eq, Structural)]
pub struct ProcessorFeatures {
    /// 32-byte integer vectors.
    pub avx2: bool,
    /// Vector multiplication in GF(256).
    pub gfni: bool,
    /// 16-byte table lookups.
    pub ssse3: bool,
    /// The AArch64 vector unit.
    pub neon: bool,
}

/// Picks the fastest backend that the processor supports.
pub fn butterfly_backend(features: ProcessorFeatures) -> (r: ButterflyBackendKind)
    ensures
        r == if features.avx2 && features.gfni {
            ButterflyBackendKind::Gfni
        } else if features.avx2 {
            ButterflyBackendKind::Avx2
        } else if features.ssse3 {
            ButterflyBackendKind::Ssse3
        } else if features.neon {
            ButterflyBackendKind::Neon
        } else {
            ButterflyBackendKind::Scalar
        },
{
    if features.avx2 && features.gfni {
        return ButterflyBackendKind::Gfni;
    }
    if features.avx2 {
        return ButterflyBackendKind::Avx2;
    }
    if features.ssse3 {
        return ButterflyBackendKind::Ssse3;
    }
    if features.neon {
        return ButterflyBackendKind::Neon;
    }
    ButterflyBackendKind::Scalar
}

/// Kernels for the two butterflies.
pub trait ButterflyBackend {
    /// The forward butterfly.
    fn forward_nonzero(low: &mut [u8], high: &mut [u8], coefficient: GfElem)
        requires
            old(low)@.len() == old(high)@.len(),
            old(low)@.len() % 2 == 0,
        ensures
            forward_into(old(low)@, old(high)@, final(low)@, final(high)@, coefficient),
    ;

    /// The inverse butterfly.
    fn inverse_nonzero(low: &mut [u8], high: &mut [u8], coefficient: GfElem)
        requires
            old(low)@.len() == old(high)@.len(),
            old(low)@.len() % 2 == 0,
        ensures
            inverse_into(old(low)@, old(high)@, final(low)@, final(high)@, coefficient),
    ;
}

/// A way to multiply by one coefficient.
trait Multiplier {
    /// The coefficient.
    spec fn factor(&self) -> GfElem;

    /// Whatever the multiplier precomputed is right.
    spec fn prepared(&self) -> bool;

    fn scale(&self, value: GfElem) -> (r: GfElem)
        requires
            self.prepared(),
        ensures
            r == self.factor().times(value),
    ;
}

/// Multiplies elements.
struct ElementMultiplier {
    coefficient: GfElem,
}

impl Multiplier for ElementMultiplier {
    spec fn factor(&self) -> GfElem {
        self.coefficient
    }

    spec fn prepared(&self) -> bool {
        true
    }

    fn scale(&self, value: GfElem) -> (r: GfElem) {
        self.coefficient.mul(value)
    }
}

/// The product of `c + d*u` and `a + b*u`, component by component.
proof fn product_components(coefficient: GfElem, value: GfElem)
    ensures
        ({
            let c = low(coefficient);
            let d = high(coefficient);
            let a = low(value);
            let b = high(value);
            coefficient.times(value) == join(
                c.times(a).plus(delta().times(d).times(b)),
                c.plus(d).times(b).plus(d.times(a)),
            )
        }),
{
    let c = low(coefficient);
    let d = high(coefficient);
    let a = low(value);
    let b = high(value);
    gf256::GfElem::times_associates(delta(), d, b);
    plus_times(c, d, b);
    // c*b + d*a + d*b = (c*b + d*b) + d*a
    let cb = c.times(b);
    let da = d.times(a);
    let db = d.times(b);
    gf256::GfElem::plus_associates(cb, da, db);
    gf256::GfElem::plus_commutes(da, db);
    gf256::GfElem::plus_associates(cb, db, da);
}

/// Multiplies bytes in GF(256), two factors for the byte itself and two for its
/// neighbour.
struct WordMultiplier {
    coefficient: GfElem,
    same: [u8; 2],
    cross: [u8; 2],
}

/// The four GF(256) factors of a coefficient.
spec fn are_factors(coefficient: GfElem, same: Seq<u8>, cross: Seq<u8>) -> bool {
    let c = low(coefficient);
    let d = high(coefficient);
    &&& same.len() == 2
    &&& cross.len() == 2
    &&& gf256::GfElem(same[0]) == c
    &&& gf256::GfElem(same[1]) == c.plus(d)
    &&& gf256::GfElem(cross[0]) == delta().times(d)
    &&& gf256::GfElem(cross[1]) == d
}

/// The four GF(256) factors of a coefficient.
fn factor_words(coefficient: GfElem) -> (r: ([u8; 2], [u8; 2]))
    ensures
        are_factors(coefficient, r.0@, r.1@),
{
    let (c, d) = coefficient.components();
    let delta_d = gf256::GfElem(DELTA).mul(d);
    ([c.0, c.add(d).0], [delta_d.0, d.0])
}

impl WordMultiplier {
    fn new(coefficient: GfElem) -> (r: Self)
        ensures
            r.prepared(),
            r.factor() == coefficient,
    {
        let (same, cross) = factor_words(coefficient);
        WordMultiplier { coefficient, same, cross }
    }
}

impl Multiplier for WordMultiplier {
    spec fn factor(&self) -> GfElem {
        self.coefficient
    }

    spec fn prepared(&self) -> bool {
        are_factors(self.coefficient, self.same@, self.cross@)
    }

    fn scale(&self, value: GfElem) -> (r: GfElem) {
        let (a, b) = value.components();
        proof {
            product_components(self.coefficient, value);
        }
        let constant = gf256::GfElem(self.same[0]).mul(a).add(
            gf256::GfElem(self.cross[0]).mul(b),
        );
        let extension = gf256::GfElem(self.same[1]).mul(b).add(
            gf256::GfElem(self.cross[1]).mul(a),
        );
        GfElem::from_components(constant, extension)
    }
}

/// Looks the products of bytes up in nibble tables.
struct TableMultiplier {
    coefficient: GfElem,
    same_even: ScaleTable,
    same_odd: ScaleTable,
    cross_even: ScaleTable,
    cross_odd: ScaleTable,
}

impl TableMultiplier {
    fn new(coefficient: GfElem) -> (r: Self)
        ensures
            r.prepared(),
            r.factor() == coefficient,
    {
        let (c, d) = coefficient.components();
        TableMultiplier {
            coefficient,
            same_even: ScaleTable::new(c),
            same_odd: ScaleTable::new(c.add(d)),
            cross_even: ScaleTable::new(gf256::GfElem(DELTA).mul(d)),
            cross_odd: ScaleTable::new(d),
        }
    }
}

impl Multiplier for TableMultiplier {
    spec fn factor(&self) -> GfElem {
        self.coefficient
    }

    spec fn prepared(&self) -> bool {
        let c = low(self.coefficient);
        let d = high(self.coefficient);
        &&& self.same_even.valid() && self.same_even.coeff == c
        &&& self.same_odd.valid() && self.same_odd.coeff == c.plus(d)
        &&& self.cross_even.valid() && self.cross_even.coeff == delta().times(d)
        &&& self.cross_odd.valid() && self.cross_odd.coeff == d
    }

    fn scale(&self, value: GfElem) -> (r: GfElem) {
        let (a, b) = value.components();
        proof {
            product_components(self.coefficient, value);
        }
        let constant = gf256::GfElem(self.same_even.product(a.0)).add(
            gf256::GfElem(self.cross_even.product(b.0)),
        );
        let extension = gf256::GfElem(self.same_odd.product(b.0)).add(
            gf256::GfElem(self.cross_odd.product(a.0)),
        );
        GfElem::from_components(constant, extension)
    }
}

/// Multiplies bytes by shifting and adding.
struct ShiftMultiplier {
    coefficient: GfElem,
    same: [u8; 2],
    cross: [u8; 2],
}

/// The terms of a product that the bits of `factor` from `step` on select.
spec fn remaining_product(value: u8, factor: u8, step: nat) -> u8
    decreases 8 - step,
{
    if step >= 8 {
        0
    } else {
        pick(factor & 1 != 0, value) ^ remaining_product(xtime(value), factor >> 1, step + 1)
    }
}

/// Eight rounds of shifting and adding compute the field product.
proof fn rounds_are_product(value: u8, factor: u8)
    ensures
        remaining_product(value, factor, 0) == product(factor, value),
{
    reveal_with_fuel(remaining_product, 9);
    let v1 = xtime(value);
    let v2 = xtime(v1);
    let v3 = xtime(v2);
    let v4 = xtime(v3);
    let v5 = xtime(v4);
    let v6 = xtime(v5);
    let v7 = xtime(v6);
    assert((factor >> 1) & 1 == (factor & 2) >> 1 && ((factor >> 1) >> 1) & 1 == (factor & 4) >> 2
        && (((factor >> 1) >> 1) >> 1) & 1 == (factor & 8) >> 3 && ((((factor >> 1) >> 1) >> 1)
        >> 1) & 1 == (factor & 16) >> 4 && (((((factor >> 1) >> 1) >> 1) >> 1) >> 1) & 1 == (factor
        & 32) >> 5 && ((((((factor >> 1) >> 1) >> 1) >> 1) >> 1) >> 1) & 1 == (factor & 64) >> 6
        && (((((((factor >> 1) >> 1) >> 1) >> 1) >> 1) >> 1) >> 1) & 1 == (factor & 128) >> 7)
        by (bit_vector);
    assert(((factor & 2) >> 1 != 0) == (factor & 2 != 0) && ((factor & 4) >> 2 != 0) == (factor & 4
        != 0) && ((factor & 8) >> 3 != 0) == (factor & 8 != 0) && ((factor & 16) >> 4 != 0) == (
    factor & 16 != 0) && ((factor & 32) >> 5 != 0) == (factor & 32 != 0) && ((factor & 64) >> 6
        != 0) == (factor & 64 != 0) && ((factor & 128) >> 7 != 0) == (factor & 128 != 0))
        by (bit_vector);
    let p0 = pick(factor & 1 != 0, value);
    let p1 = pick(factor & 2 != 0, v1);
    let p2 = pick(factor & 4 != 0, v2);
    let p3 = pick(factor & 8 != 0, v3);
    let p4 = pick(factor & 16 != 0, v4);
    let p5 = pick(factor & 32 != 0, v5);
    let p6 = pick(factor & 64 != 0, v6);
    let p7 = pick(factor & 128 != 0, v7);
    assert(p0 ^ (p1 ^ (p2 ^ (p3 ^ (p4 ^ (p5 ^ (p6 ^ (p7 ^ 0))))))) == p0 ^ p1 ^ p2 ^ p3 ^ p4 ^ p5
        ^ p6 ^ p7) by (bit_vector);
}

/// The field product of two bytes, by eight rounds of shifting and adding.
fn multiply_base(value: u8, factor: u8) -> (r: u8)
    ensures
        gf256::GfElem(r) == gf256::GfElem(factor).times(gf256::GfElem(value)),
{
    let mut shifted: u8 = value;
    let mut rest: u8 = factor;
    let mut sum: u8 = 0;
    let mut round: u8 = 0;
    proof {
        rounds_are_product(value, factor);
        let p = product(factor, value);
        assert(0u8 ^ p == p) by (bit_vector);
    }
    while round < 8
        invariant
            round <= 8,
            sum ^ remaining_product(shifted, rest, round as nat) == product(factor, value),
        decreases 8 - round,
    {
        let term: u8 = if rest & 1 != 0 {
            shifted
        } else {
            0
        };
        let reduction: u8 = if shifted & 0x80 != 0 {
            0x1b
        } else {
            0
        };
        proof {
            let tail = remaining_product(xtime(shifted), rest >> 1, (round + 1) as nat);
            assert(sum ^ (term ^ tail) == (sum ^ term) ^ tail) by (bit_vector);
        }
        sum = sum ^ term;
        shifted = (shifted << 1) ^ reduction;
        rest = rest >> 1;
        round += 1;
    }
    proof {
        assert(sum ^ 0u8 == sum) by (bit_vector);
    }
    sum
}

impl ShiftMultiplier {
    fn new(coefficient: GfElem) -> (r: Self)
        ensures
            r.prepared(),
            r.factor() == coefficient,
    {
        let (same, cross) = factor_words(coefficient);
        ShiftMultiplier { coefficient, same, cross }
    }
}

impl Multiplier for ShiftMultiplier {
    spec fn factor(&self) -> GfElem {
        self.coefficient
    }

    spec fn prepared(&self) -> bool {
        are_factors(self.coefficient, self.same@, self.cross@)
    }

    fn scale(&self, value: GfElem) -> (r: GfElem) {
        let (a, b) = value.components();
        proof {
            product_components(self.coefficient, value);
        }
        let constant = gf256::GfElem(multiply_base(a.0, self.same[0])).add(
            gf256::GfElem(multiply_base(b.0, self.cross[0])),
        );
        let extension = gf256::GfElem(multiply_base(b.0, self.same[1])).add(
            gf256::GfElem(multiply_base(a.0, self.cross[1])),
        );
        GfElem::from_components(constant, extension)
    }
}

/// Reads lane `e`.
fn read_lane(bytes: &[u8], e: usize) -> (r: GfElem)
    requires
        e < lane_count::<GfElem>(bytes@.len() as int),
    ensures
        r == lane::<GfElem>(bytes@, bytes@.len() as int, 0, e as int),
{
    let available: usize = bytes.len();
    proof {
        assert(2 * e + 1 < available);
    }
    GfElem::from_bytes([bytes[2 * e], bytes[2 * e + 1]])
}

/// Writes lane `e`.
fn write_lane(bytes: &mut [u8], e: usize, value: GfElem)
    requires
        e < lane_count::<GfElem>(old(bytes)@.len() as int),
    ensures
        final(bytes)@.len() == old(bytes)@.len(),
        forall|i: int|
            0 <= i < lane_count::<GfElem>(old(bytes)@.len() as int) ==> #[trigger] lane::<GfElem>(
                final(bytes)@,
                old(bytes)@.len() as int,
                0,
                i,
            ) == if i == e {
                value
            } else {
                lane::<GfElem>(old(bytes)@, old(bytes)@.len() as int, 0, i)
            },
{
    let available: usize = bytes.len();
    proof {
        assert(2 * e + 1 < available);
    }
    let pair = value.to_bytes();
    bytes[2 * e] = pair[0];
    bytes[2 * e + 1] = pair[1];
    proof {
        join_parts(value, low(value), high(value));
    }
}

/// The forward butterfly, lane by lane.
fn forward_lanes<M: Multiplier>(low: &mut [u8], high: &mut [u8], multiplier: &M)
    requires
        old(low)@.len() == old(high)@.len(),
        old(low)@.len() % 2 == 0,
        multiplier.prepared(),
    ensures
        forward_into(old(low)@, old(high)@, final(low)@, final(high)@, multiplier.factor()),
{
    let count: usize = low.len() / 2;
    let ghost len = low@.len() as int;
    let mut e: usize = 0;
    while e < count
        invariant
            e <= count,
            count == lane_count::<GfElem>(len),
            len == low@.len() == high@.len() == old(low)@.len(),
            multiplier.prepared(),
            forall|i: int|
                #![trigger lane::<GfElem>(low@, len, 0, i)]
                #![trigger lane::<GfElem>(high@, len, 0, i)]
                0 <= i < count ==> {
                    let l = lane::<GfElem>(old(low)@, len, 0, i);
                    let h = lane::<GfElem>(old(high)@, len, 0, i);
                    let scaled = multiplier.factor().times(h);
                    &&& lane::<GfElem>(low@, len, 0, i) == if i < e {
                        l.plus(scaled)
                    } else {
                        l
                    }
                    &&& lane::<GfElem>(high@, len, 0, i) == if i < e {
                        h.plus(l.plus(scaled))
                    } else {
                        h
                    }
                },
        decreases count - e,
    {
        let l = read_lane(low, e);
        let h = read_lane(high, e);
        let new_low = l.add(multiplier.scale(h));
        let new_high = h.add(new_low);
        write_lane(low, e, new_low);
        write_lane(high, e, new_high);
        e += 1;
    }
}

/// The inverse butterfly, lane by lane.
fn inverse_lanes<M: Multiplier>(low: &mut [u8], high: &mut [u8], multiplier: &M)
    requires
        old(low)@.len() == old(high)@.len(),
        old(low)@.len() % 2 == 0,
        multiplier.prepared(),
    ensures
        inverse_into(old(low)@, old(high)@, final(low)@, final(high)@, multiplier.factor()),
{
    let count: usize = low.len() / 2;
    let ghost len = low@.len() as int;
    let mut e: usize = 0;
    while e < count
        invariant
            e <= count,
            count == lane_count::<GfElem>(len),
            len == low@.len() == high@.len() == old(low)@.len(),
            multiplier.prepared(),
            forall|i: int|
                #![trigger lane::<GfElem>(low@, len, 0, i)]
                #![trigger lane::<GfElem>(high@, len, 0, i)]
                0 <= i < count ==> {
                    let l = lane::<GfElem>(old(low)@, len, 0, i);
                    let h = lane::<GfElem>(old(high)@, len, 0, i);
                    &&& lane::<GfElem>(high@, len, 0, i) == if i < e {
                        h.plus(l)
                    } else {
                        h
                    }
                    &&& lane::<GfElem>(low@, len, 0, i) == if i < e {
                        l.plus(multiplier.factor().times(h.plus(l)))
                    } else {
                        l
                    }
                },
        decreases count - e,
    {
        let l = read_lane(low, e);
        let h = read_lane(high, e);
        let new_high = h.add(l);
        let new_low = l.add(multiplier.scale(new_high));
        write_lane(low, e, new_low);
        write_lane(high, e, new_high);
        e += 1;
    }
}

/// The forward butterfly in element arithmetic.
pub fn fused_forward_scalar(low: &mut [u8], high: &mut [u8], coefficient: GfElem)
    requires
        old(low)@.len() == old(high)@.len(),
        old(low)@.len() % 2 == 0,
    ensures
        forward_into(old(low)@, old(high)@, final(low)@, final(high)@, coefficient),
{
    let multiplier = ElementMultiplier { coefficient };
    forward_lanes(low, high, &multiplier);
}

/// The inverse butterfly in element arithmetic.
pub fn fused_inverse_scalar(low: &mut [u8], high: &mut [u8], coefficient: GfElem)
    requires
        old(low)@.len() == old(high)@.len(),
        old(low)@.len() % 2 == 0,
    ensures
        inverse_into(old(low)@, old(high)@, final(low)@, final(high)@, coefficient),
{
    let multiplier = ElementMultiplier { coefficient };
    inverse_lanes(low, high, &multiplier);
}

impl ButterflyBackend for ScalarBackend {
    fn forward_nonzero(low: &mut [u8], high: &mut [u8], coefficient: GfElem) {
        fused_forward_scalar(low, high, coefficient);
    }

    fn inverse_nonzero(low: &mut [u8], high: &mut [u8], coefficient: GfElem) {
        fused_inverse_scalar(low, high, coefficient);
    }
}

impl ButterflyBackend for GfniBackend {
    fn forward_nonzero(low: &mut [u8], high: &mut [u8], coefficient: GfElem) {
        let multiplier = WordMultiplier::new(coefficient);
        forward_lanes(low, high, &multiplier);
    }

    fn inverse_nonzero(low: &mut [u8], high: &mut [u8], coefficient: GfElem) {
        let multiplier = WordMultiplier::new(coefficient);
        inverse_lanes(low, high, &multiplier);
    }
}

impl ButterflyBackend for Avx2Backend {
    fn forward_nonzero(low: &mut [u8], high: &mut [u8], coefficient: GfElem) {
        let multiplier = TableMultiplier::new(coefficient);
        forward_lanes(low, high, &multiplier);
    }

    fn inverse_nonzero(low: &mut [u8], high: &mut [u8], coefficient: GfElem) {
        let multiplier = TableMultiplier::new(coefficient);
        inverse_lanes(low, high, &multiplier);
    }
}

impl ButterflyBackend for Ssse3Backend {
    fn forward_nonzero(low: &mut [u8], high: &mut [u8], coefficient: GfElem) {
        let multiplier = TableMultiplier::new(coefficient);
        forward_lanes(low, high, &multiplier);
    }

    fn inverse_nonzero(low: &mut [u8], high: &mut [u8], coefficient: GfElem) {
        let multiplier = TableMultiplier::new(coefficient);
        inverse_lanes(low, high, &multiplier);
    }
}

impl ButterflyBackend for NeonBackend {
    fn forward_nonzero(low: &mut [u8], high: &mut [u8], coefficient: GfElem) {
        let multiplier = ShiftMultiplier::new(coefficient);
        forward_lanes(low, high, &multiplier);
    }

    fn inverse_nonzero(low: &mut [u8], high: &mut [u8], coefficient: GfElem) {
        let multiplier = ShiftMultiplier::new(coefficient);
        inverse_lanes(low, high, &multiplier);
    }
}

/// Adds `low` to `high`: the coupling of a butterfly whose coefficient is zero.
///
/// Calls `fgf::ops::add_assign` for the tower field, which adds the elements of
/// the second slice to those of the first and panics unless both slices have the
/// same even length.
#[verifier::external_body]
fn xor_coupling(high: &mut [u8], low: &[u8])
    requires
        old(high)@.len() == low@.len(),
        low@.len() % 2 == 0,
    ensures
        final(high)@.len() == low@.len(),
        forall|e: int|
            0 <= e < lane_count::<GfElem>(low@.len() as int) ==> #[trigger] lane::<GfElem>(
                final(high)@,
                low@.len() as int,
                0,
                e,
            ) == lane::<GfElem>(old(high)@, low@.len() as int, 0, e).plus(
                lane::<GfElem>(low@, low@.len() as int, 0, e),
            ),
{
    fgf::ops::add_assign::<fgf::Gf16>(high, low);
}

/// Fused forward butterfly over two equal-length interleaved halves.
pub fn fused_forward<B: ButterflyBackend>(low: &mut [u8], high: &mut [u8], coefficient: GfElem)
    requires
        old(low)@.len() == old(high)@.len(),
        old(low)@.len() % 2 == 0,
    ensures
        forward_into(old(low)@, old(high)@, final(low)@, final(high)@, coefficient),
{
    if coefficient == GfElem(0) {
        xor_coupling(high, low);
        proof {
            let len = low@.len() as int;
            assert forall|e: int|
                #![trigger lane::<GfElem>(low@, len, 0, e)]
                #![trigger lane::<GfElem>(high@, len, 0, e)]
                0 <= e < lane_count::<GfElem>(len) implies {
                let l = lane::<GfElem>(old(low)@, len, 0, e);
                let h = lane::<GfElem>(old(high)@, len, 0, e);
                &&& lane::<GfElem>(low@, len, 0, e) == l.plus(coefficient.times(h))
                &&& lane::<GfElem>(high@, len, 0, e) == h.plus(l.plus(coefficient.times(h)))
            } by {
                let l = lane::<GfElem>(old(low)@, len, 0, e);
                let h = lane::<GfElem>(old(high)@, len, 0, e);
                left_identities(h);
                GfElem::plus_identity(l);
                assert(lane::<GfElem>(high@, len, 0, e) == h.plus(l));
            }
        }
    } else {
        B::forward_nonzero(low, high, coefficient);
    }
}

/// Fused inverse butterfly over two equal-length interleaved halves.
pub fn fused_inverse<B: ButterflyBackend>(low: &mut [u8], high: &mut [u8], coefficient: GfElem)
    requires
        old(low)@.len() == old(high)@.len(),
        old(low)@.len() % 2 == 0,
    ensures
        inverse_into(old(low)@, old(high)@, final(low)@, final(high)@, coefficient),
{
    if coefficient == GfElem(0) {
        xor_coupling(high, low);
        proof {
            let len = low@.len() as int;
            assert forall|e: int|
                #![trigger lane::<GfElem>(low@, len, 0, e)]
                #![trigger lane::<GfElem>(high@, len, 0, e)]
                0 <= e < lane_count::<GfElem>(len) implies {
                let l = lane::<GfElem>(old(low)@, len, 0, e);
                let h = lane::<GfElem>(old(high)@, len, 0, e);
                &&& lane::<GfElem>(high@, len, 0, e) == h.plus(l)
                &&& lane::<GfElem>(low@, len, 0, e) == l.plus(coefficient.times(h.plus(l)))
            } by {
                let l = lane::<GfElem>(old(low)@, len, 0, e);
                let h = lane::<GfElem>(old(high)@, len, 0, e);
                left_identities(h.plus(l));
                GfElem::plus_identity(l);
                assert(lane::<GfElem>(high@, len, 0, e) == h.plus(l));
            }
        }
    } else {
        B::inverse_nonzero(low, high, coefficient);
    }
}

/// Forward butterfly on the given backend.
pub fn fused_forward_bytes(
    backend: ButterflyBackendKind,
    low: &mut [u8],
    high: &mut [u8],
    coefficient: GfElem,
)
    requires
        old(low)@.len() == old(high)@.len(),
        old(low)@.len() % 2 == 0,
    ensures
        forward_into(old(low)@, old(high)@, final(low)@, final(high)@, coefficient),
{
    match backend {
        ButterflyBackendKind::Scalar => fused_forward::<ScalarBackend>(low, high, coefficient),
        ButterflyBackendKind::Gfni => fused_forward::<GfniBackend>(low, high, coefficient),
        ButterflyBackendKind::Avx2 => fused_forward::<Avx2Backend>(low, high, coefficient),
        ButterflyBackendKind::Ssse3 => fused_forward::<Ssse3Backend>(low, high, coefficient),
        ButterflyBackendKind::Neon => fused_forward::<NeonBackend>(low, high, coefficient),
    }
}

/// Inverse butterfly on the given backend.
pub fn fused_inverse_bytes(
    backend: ButterflyBackendKind,
    low: &mut [u8],
    high: &mut [u8],
    coefficient: GfElem,
)
    requires
        old(low)@.len() == old(high)@.len(),
        old(low)@.len() % 2 == 0,
    ensures
        inverse_into(old(low)@, old(high)@, final(low)@, final(high)@, coefficient),
{
    match backend {
        ButterflyBackendKind::Scalar => fused_inverse::<ScalarBackend>(low, high, coefficient),
        ButterflyBackendKind::Gfni => fused_inverse::<GfniBackend>(low, high, coefficient),
        ButterflyBackendKind::Avx2 => fused_inverse::<Avx2Backend>(low, high, coefficient),
        ButterflyBackendKind::Ssse3 => fused_inverse::<Ssse3Backend>(low, high, coefficient),
        ButterflyBackendKind::Neon => fused_inverse::<NeonBackend>(low, high, coefficient),
    }
}

} // verus!
