//! Compact multiplication tables and byte kernels for GF(256) payloads.
//!
//! A product with a fixed coefficient is the sum of the products of the two
//! nibbles, each looked up in a table of sixteen entries. The kernels are
//! written byte by byte; vector units look up many bytes at once in the same
//! tables.

use vstd::prelude::*;

use crate::algebra::field::{left_identities, FieldElement};
use crate::algebra::gf256::GfElem;
use crate::symbols::{lane, lane_count, scaled_into};

verus! {

/// Precomputed multiplication tables for one GF(256) coefficient.
#[derive(Clone, Debug)]
pub struct ScaleTable {
    /// The coefficient.
    pub coeff: GfElem,
    /// Products of the low nibbles.
    pub lo: [u8; 16],
    /// Products of the high nibbles.
    pub hi: [u8; 16],
}

/// The element with the given high nibble.
pub open spec fn high_nibble(n: u8) -> u8 {
    n << 4
}

/// A byte is the sum of its nibbles.
proof fn nibbles(x: u8)
    ensures
        (x & 0x0f) ^ high_nibble(x >> 4) == x,
        x & 0x0f < 16,
        x >> 4 < 16,
{
    assert((x & 0x0f) ^ ((x >> 4) << 4) == x && x & 0x0f < 16 && x >> 4 < 16) by (bit_vector);
}

impl ScaleTable {
    /// The tables hold the products with the coefficient.
    pub open spec fn valid(&self) -> bool {
        forall|n: u8|
            n < 16 ==> #[trigger] self.lo@[n as int] == GfElem(n).times(self.coeff).0
                && self.hi@[n as int] == GfElem(high_nibble(n)).times(self.coeff).0
    }

    /// Builds nibble tables for `coeff`.
    pub fn new(coeff: GfElem) -> (r: Self)
        ensures
            r.valid(),
            r.coeff == coeff,
    {
        let mut lo: [u8; 16] = [0u8; 16];
        let mut hi: [u8; 16] = [0u8; 16];
        let mut n: u8 = 0;
        while n < 16
            invariant
                n <= 16,
                forall|t: u8|
                    t < n ==> #[trigger] lo@[t as int] == GfElem(t).times(coeff).0 && hi@[t as int]
                        == GfElem(high_nibble(t)).times(coeff).0,
            decreases 16 - n,
        {
            let ghost low = lo@;
            let ghost high = hi@;
            let low_product: u8 = GfElem(n).mul(coeff).0;
            let high_product: u8 = GfElem(n << 4).mul(coeff).0;
            lo[n as usize] = low_product;
            hi[n as usize] = high_product;
            proof {
                assert(lo@ =~= low.update(n as int, low_product));
                assert(hi@ =~= high.update(n as int, high_product));
                assert forall|t: u8| t < n + 1 implies #[trigger] lo@[t as int] == GfElem(t).times(
                    coeff,
                ).0 && hi@[t as int] == GfElem(high_nibble(t)).times(coeff).0 by {
                    if t < n {
                        assert(low[t as int] == GfElem(t).times(coeff).0);
                    }
                }
            }
            n += 1;
        }
        let r = ScaleTable { coeff, lo, hi };
        proof {
            assert forall|t: u8| t < 16 implies #[trigger] r.lo@[t as int] == GfElem(t).times(
                r.coeff,
            ).0 && r.hi@[t as int] == GfElem(high_nibble(t)).times(r.coeff).0 by {
                assert(lo@[t as int] == GfElem(t).times(coeff).0);
            }
        }
        r
    }

    /// `x` times the coefficient.
    pub fn product(&self, x: u8) -> (r: u8)
        requires
            self.valid(),
        ensures
            GfElem(r) == GfElem(x).times(self.coeff),
            GfElem(r) == self.coeff.times(GfElem(x)),
    {
        proof {
            nibbles(x);
            let a = GfElem(x & 0x0f);
            let b = GfElem(high_nibble(x >> 4));
            assert(a.plus(b) == GfElem(x));
            crate::algebra::field::plus_times(a, b, self.coeff);
            GfElem::times_commutes(GfElem(x), self.coeff);
            assert(self.lo@[(x & 0x0f) as int] == a.times(self.coeff).0);
            assert(self.lo@[(x >> 4) as int] == GfElem(x >> 4).times(self.coeff).0);
        }
        self.lo[(x & 0x0f) as usize] ^ self.hi[(x >> 4) as usize]
    }
}

/// `dst <- dst ^ src`.
pub fn xor_bytes(dst: &mut [u8], src: &[u8])
    requires
        old(dst)@.len() == src@.len(),
    ensures
        final(dst)@ == Seq::new(src@.len(), |i: int| old(dst)@[i] ^ src@[i]),
{
    let len: usize = dst.len();
    let mut i: usize = 0;
    while i < len
        invariant
            i <= len,
            len == dst@.len() == src@.len() == old(dst)@.len(),
            forall|t: int|
                0 <= t < len ==> #[trigger] dst@[t] == if t < i {
                    old(dst)@[t] ^ src@[t]
                } else {
                    old(dst)@[t]
                },
        decreases len - i,
    {
        dst[i] = dst[i] ^ src[i];
        i += 1;
    }
    proof {
        assert(dst@ =~= Seq::new(src@.len(), |i: int| old(dst)@[i] ^ src@[i]));
    }
}

/// Adds the products of all bytes, looked up nibble by nibble.
fn xor_scaled_bytes_nibble_tail(dst: &mut [u8], scale: &ScaleTable, src: &[u8])
    requires
        old(dst)@.len() == src@.len(),
        scale.valid(),
    ensures
        scaled_into(old(dst)@, final(dst)@, scale.coeff, src@),
{
    let len: usize = dst.len();
    let mut i: usize = 0;
    while i < len
        invariant
            i <= len,
            len == dst@.len() == src@.len() == old(dst)@.len(),
            scale.valid(),
            forall|t: int|
                0 <= t < len ==> GfElem(#[trigger] dst@[t]) == if t < i {
                    GfElem(old(dst)@[t]).plus(scale.coeff.times(GfElem(src@[t])))
                } else {
                    GfElem(old(dst)@[t])
                },
        decreases len - i,
    {
        dst[i] = dst[i] ^ scale.product(src[i]);
        i += 1;
    }
    proof {
        bytes_are_lanes(old(dst)@, dst@, scale.coeff, src@);
    }
}

/// Over GF(256) every byte is a lane.
proof fn bytes_are_lanes(before: Seq<u8>, after: Seq<u8>, coefficient: GfElem, src: Seq<u8>)
    requires
        before.len() == after.len() == src.len(),
        forall|t: int|
            0 <= t < before.len() ==> GfElem(#[trigger] after[t]) == GfElem(before[t]).plus(
                coefficient.times(GfElem(src[t])),
            ),
    ensures
        scaled_into(before, after, coefficient, src),
{
    let len = before.len() as int;
    assert(lane_count::<GfElem>(len) == len);
    assert forall|e: int| 0 <= e < lane_count::<GfElem>(len) implies #[trigger] lane::<GfElem>(
        after,
        len,
        0,
        e,
    ) == lane::<GfElem>(before, len, 0, e).plus(
        coefficient.times(lane::<GfElem>(src, len, 0, e)),
    ) by {
        assert(GfElem(after[e]) == GfElem(before[e]).plus(coefficient.times(GfElem(src[e]))));
    }
}

/// `dst <- dst ^ scale.coeff * src` over GF(256).
pub fn xor_scaled_bytes(dst: &mut [u8], scale: &ScaleTable, src: &[u8])
    requires
        old(dst)@.len() == src@.len(),
        scale.valid(),
    ensures
        scaled_into(old(dst)@, final(dst)@, scale.coeff, src@),
{
    if scale.coeff == GfElem(0) {
        proof {
            assert forall|t: int| 0 <= t < dst@.len() implies GfElem(#[trigger] dst@[t]) == GfElem(
                dst@[t],
            ).plus(scale.coeff.times(GfElem(src@[t]))) by {
                left_identities(GfElem(src@[t]));
                GfElem::plus_identity(GfElem(dst@[t]));
            }
            bytes_are_lanes(old(dst)@, dst@, scale.coeff, src@);
        }
        return;
    }
    if scale.coeff == GfElem(1) {
        xor_bytes(dst, src);
        proof {
            assert forall|t: int| 0 <= t < dst@.len() implies GfElem(#[trigger] dst@[t]) == GfElem(
                old(dst)@[t],
            ).plus(scale.coeff.times(GfElem(src@[t]))) by {
                left_identities(GfElem(src@[t]));
            }
            bytes_are_lanes(old(dst)@, dst@, scale.coeff, src@);
        }
        return;
    }
    xor_scaled_bytes_nibble_tail(dst, scale, src);
}

/// Adds one source symbol, with distinct scales, to several destinations.
pub fn xor_scaled_bytes_many(destinations: &mut Vec<Vec<u8>>, scales: &[ScaleTable], src: &[u8])
    requires
        old(destinations)@.len() == scales@.len(),
        forall|t: int|
            0 <= t < scales@.len() ==> (#[trigger] old(destinations)@[t])@.len() == src@.len(),
        forall|t: int| 0 <= t < scales@.len() ==> (#[trigger] scales@[t]).valid(),
    ensures
        final(destinations)@.len() == scales@.len(),
        forall|t: int|
            0 <= t < scales@.len() ==> scaled_into(
                old(destinations)@[t]@,
                (#[trigger] final(destinations)@[t])@,
                scales@[t].coeff,
                src@,
            ),
{
    let ghost start = destinations@;
    let mut i: usize = 0;
    while i < scales.len()
        invariant
            i <= scales@.len(),
            start == old(destinations)@,
            start.len() == scales@.len(),
            destinations@.len() == scales@.len(),
            forall|t: int|
                0 <= t < scales@.len() ==> (#[trigger] start[t])@.len() == src@.len(),
            forall|t: int| 0 <= t < scales@.len() ==> (#[trigger] scales@[t]).valid(),
            forall|t: int|
                i <= t < scales@.len() ==> #[trigger] destinations@[t] == start[t],
            forall|t: int|
                0 <= t < i ==> scaled_into(
                    start[t]@,
                    (#[trigger] destinations@[t])@,
                    scales@[t].coeff,
                    src@,
                ),
        decreases scales@.len() - i,
    {
        proof {
            assert(destinations@[i as int] == start[i as int]);
        }
        let row = &mut destinations[i];
        xor_scaled_bytes(row.as_mut_slice(), &scales[i], src);
        i += 1;
    }
}

/// First byte of the range that row `t` of the listed rows stands for.
pub open spec fn range_start(
    row_stride: int,
    byte_offset: int,
    destination_indices: Seq<usize>,
    t: int,
) -> int {
    destination_indices[t] * row_stride + byte_offset
}

/// The ranges of the listed rows are in bounds and do not overlap.
pub open spec fn ranges_apart(
    len: int,
    row_stride: int,
    byte_offset: int,
    range_len: int,
    destination_indices: Seq<usize>,
) -> bool {
    &&& forall|t: int|
        0 <= t < destination_indices.len() ==> #[trigger] range_start(
            row_stride,
            byte_offset,
            destination_indices,
            t,
        ) + range_len <= len
    &&& forall|s: int, t: int|
        0 <= s < destination_indices.len() && 0 <= t < destination_indices.len() && s != t ==> {
            let a = #[trigger] range_start(row_stride, byte_offset, destination_indices, s);
            let b = #[trigger] range_start(row_stride, byte_offset, destination_indices, t);
            a + range_len <= b || b + range_len <= a
        }
}

/// Whether byte `p` is in the range of one of the first `count` listed rows.
pub open spec fn in_ranges(
    row_stride: int,
    byte_offset: int,
    range_len: int,
    destination_indices: Seq<usize>,
    count: int,
    p: int,
) -> bool {
    exists|t: int|
        0 <= t < count && #[trigger] range_start(row_stride, byte_offset, destination_indices, t)
            <= p < range_start(row_stride, byte_offset, destination_indices, t) + range_len
}

/// The range of a listed row starts `byte_offset` bytes into the row with its
/// index, rows being `row_stride` bytes apart, and a byte is in one of the ranges
/// exactly if it lies fewer than `range_len` bytes past such a start.
pub proof fn ranges_follow_the_indices(
    row_stride: int,
    byte_offset: int,
    range_len: int,
    destination_indices: Seq<usize>,
    p: int,
)
    ensures
        forall|t: int| #[trigger]
            range_start(row_stride, byte_offset, destination_indices, t) == row_stride
                * destination_indices[t] + byte_offset,
        in_ranges(
            row_stride,
            byte_offset,
            range_len,
            destination_indices,
            destination_indices.len() as int,
            p,
        ) <==> exists|t: int|
            0 <= t < destination_indices.len() && 0 <= p - (row_stride
                * #[trigger] destination_indices[t] + byte_offset) < range_len,
{
    assert forall|t: int| #[trigger]
        range_start(row_stride, byte_offset, destination_indices, t) == row_stride
            * destination_indices[t] + byte_offset by {
        assert(destination_indices[t] * row_stride == row_stride * destination_indices[t])
            by (nonlinear_arith);
    }
    let count = destination_indices.len() as int;
    if in_ranges(row_stride, byte_offset, range_len, destination_indices, count, p) {
        let t = choose|t: int|
            0 <= t < count && #[trigger] range_start(
                row_stride,
                byte_offset,
                destination_indices,
                t,
            ) <= p < range_start(row_stride, byte_offset, destination_indices, t) + range_len;
        assert(0 <= p - (row_stride * destination_indices[t] + byte_offset) < range_len);
    }
    if exists|t: int|
        0 <= t < destination_indices.len() && 0 <= p - (row_stride
            * #[trigger] destination_indices[t] + byte_offset) < range_len {
        let t = choose|t: int|
            0 <= t < destination_indices.len() && 0 <= p - (row_stride
                * #[trigger] destination_indices[t] + byte_offset) < range_len;
        assert(range_start(row_stride, byte_offset, destination_indices, t) <= p);
    }
}

/// Adds one source, with distinct scales, to a byte range of each listed row of a
/// flat buffer: `range_len` bytes from `byte_offset` on, in rows `row_stride`
/// apart. Every other byte stays as it is.
pub fn xor_scaled_bytes_many_indexed(
    dst: &mut [u8],
    row_stride: usize,
    byte_offset: usize,
    range_len: usize,
    destination_indices: &[usize],
    scales: &[ScaleTable],
    src: &[u8],
)
    requires
        src@.len() == range_len,
        destination_indices@.len() <= scales@.len(),
        ranges_apart(
            old(dst)@.len() as int,
            row_stride as int,
            byte_offset as int,
            range_len as int,
            destination_indices@,
        ),
        forall|t: int| 0 <= t < destination_indices@.len() ==> (#[trigger] scales@[t]).valid(),
    ensures
        final(dst)@.len() == old(dst)@.len(),
        forall|t: int|
            0 <= t < destination_indices@.len() ==> {
                let start = #[trigger] range_start(
                    row_stride as int,
                    byte_offset as int,
                    destination_indices@,
                    t,
                );
                scaled_into(
                    old(dst)@.subrange(start, start + range_len),
                    final(dst)@.subrange(start, start + range_len),
                    scales@[t].coeff,
                    src@,
                )
            },
        forall|p: int|
            0 <= p < old(dst)@.len() && !in_ranges(
                row_stride as int,
                byte_offset as int,
                range_len as int,
                destination_indices@,
                destination_indices@.len() as int,
                p,
            ) ==> #[trigger] final(dst)@[p] == old(dst)@[p],
{
    let ghost before = dst@;
    let ghost stride = row_stride as int;
    let ghost offset = byte_offset as int;
    let ghost wide = range_len as int;
    let ghost indices = destination_indices@;
    let mut i: usize = 0;
    while i < destination_indices.len()
        invariant
            i <= indices.len(),
            before == old(dst)@,
            dst@.len() == before.len(),
            stride == row_stride,
            offset == byte_offset,
            wide == range_len,
            indices == destination_indices@,
            src@.len() == range_len,
            indices.len() <= scales@.len(),
            ranges_apart(before.len() as int, stride, offset, wide, indices),
            forall|t: int| 0 <= t < indices.len() ==> (#[trigger] scales@[t]).valid(),
            forall|t: int|
                0 <= t < i ==> {
                    let start = #[trigger] range_start(stride, offset, indices, t);
                    scaled_into(
                        before.subrange(start, start + wide),
                        dst@.subrange(start, start + wide),
                        scales@[t].coeff,
                        src@,
                    )
                },
            forall|p: int|
                0 <= p < before.len() && !in_ranges(stride, offset, wide, indices, i as int, p)
                    ==> #[trigger] dst@[p] == before[p],
        decreases indices.len() - i,
    {
        let ghost held = dst@;
        let ghost from = range_start(stride, offset, indices, i as int);
        let available: usize = dst.len();
        proof {
            assert(from + wide <= available);
            assert(0 <= indices[i as int] * stride) by (nonlinear_arith)
                requires
                    0 <= stride,
            ;
        }
        let start: usize = destination_indices[i] * row_stride + byte_offset;
        let (_head, rest) = dst.split_at_mut(start);
        let (row, _tail) = rest.split_at_mut(range_len);
        let ghost old_row = row@;
        xor_scaled_bytes(row, &scales[i], src);
        let ghost new_row = row@;
        proof {
            assert(old_row =~= held.subrange(from, from + wide));
            assert(dst@.subrange(from, from + wide) =~= new_row);
            assert forall|p: int| 0 <= p < before.len() && !(from <= p < from + wide) implies
                #[trigger] dst@[p] == held[p] by {
            }
            assert forall|p: int| from <= p < from + wide implies held[p] == #[trigger] before[p] by {
                if in_ranges(stride, offset, wide, indices, i as int, p) {
                    let t = choose|t: int|
                        0 <= t < i && #[trigger] range_start(stride, offset, indices, t) <= p
                            < range_start(stride, offset, indices, t) + wide;
                    assert(t != i);
                }
            }
            assert(held.subrange(from, from + wide) =~= before.subrange(from, from + wide));
            assert forall|t: int| 0 <= t < i + 1 implies {
                let start = #[trigger] range_start(stride, offset, indices, t);
                scaled_into(
                    before.subrange(start, start + wide),
                    dst@.subrange(start, start + wide),
                    scales@[t].coeff,
                    src@,
                )
            } by {
                let at = range_start(stride, offset, indices, t);
                if t < i {
                    assert(0 <= indices[t] * stride) by (nonlinear_arith)
                        requires
                            0 <= stride,
                    ;
                    assert(at + wide <= from || from + wide <= at);
                    assert(dst@.subrange(at, at + wide) =~= held.subrange(at, at + wide));
                }
            }
            assert forall|p: int|
                0 <= p < before.len() && !in_ranges(stride, offset, wide, indices, i + 1, p) implies
                #[trigger] dst@[p] == before[p] by {
                if from <= p < from + wide {
                    assert(range_start(stride, offset, indices, i as int) <= p);
                }
                if in_ranges(stride, offset, wide, indices, i as int, p) {
                    let t = choose|t: int|
                        0 <= t < i && #[trigger] range_start(stride, offset, indices, t) <= p
                            < range_start(stride, offset, indices, t) + wide;
                    assert(0 <= t < i + 1);
                }
            }
        }
        i += 1;
    }
}

/// Adds one source, with four coefficients, to four rows of a flat buffer.
pub fn xor_scaled_bytes_4_indexed(
    dst: &mut [u8],
    row_stride: usize,
    destination_indices: &[usize; 4],
    coefficients: &[GfElem; 4],
    src: &[u8],
)
    requires
        ranges_apart(
            old(dst)@.len() as int,
            row_stride as int,
            0,
            src@.len() as int,
            destination_indices@,
        ),
    ensures
        final(dst)@.len() == old(dst)@.len(),
        forall|t: int|
            0 <= t < 4 ==> {
                let start = #[trigger] range_start(
                    row_stride as int,
                    0,
                    destination_indices@,
                    t,
                );
                scaled_into(
                    old(dst)@.subrange(start, start + src@.len()),
                    final(dst)@.subrange(start, start + src@.len()),
                    coefficients@[t],
                    src@,
                )
            },
        forall|p: int|
            0 <= p < old(dst)@.len() && !in_ranges(
                row_stride as int,
                0,
                src@.len() as int,
                destination_indices@,
                4,
                p,
            ) ==> #[trigger] final(dst)@[p] == old(dst)@[p],
{
    let mut scales: Vec<ScaleTable> = Vec::new();
    let mut slot: usize = 0;
    while slot < 4
        invariant
            slot <= 4,
            scales@.len() == slot,
            forall|t: int|
                0 <= t < slot ==> (#[trigger] scales@[t]).valid() && scales@[t].coeff
                    == coefficients@[t],
        decreases 4 - slot,
    {
        scales.push(ScaleTable::new(coefficients[slot]));
        slot += 1;
    }
    xor_scaled_bytes_many_indexed(
        dst,
        row_stride,
        0,
        src.len(),
        destination_indices.as_slice(),
        &scales,
        src,
    );
}

} // verus!
