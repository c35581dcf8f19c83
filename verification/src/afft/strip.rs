//! Strip-blocked systematic encoding.
//!
//! A block of `k` data rows and `m` repair rows is one truncated interpolation
//! (data values to coefficients) followed by one restricted evaluation
//! (coefficients to repair values). Both run over column strips: a fixed number
//! of bytes from every row at a time, sized so that a strip stays in cache.
//!
//! When `k` is a power of two and `m <= k`, the repair points are exactly the
//! upper half of the domain, and the interpolation output is evaluated in
//! place.

use vstd::prelude::*;

use crate::afft::code::{
    afft_code, afft_coef, evaluation_encodes, field_size, padded, padded_dimension, padded_facts,
    padded_fits,
};
use crate::afft::field::{pattern_basis, Field};
use crate::afft::profile::next_power_of_two;
use crate::afft::transform::{
    column, domains_are_judged, plan_fault, scratch_rows, PlanError, TransformLengthError,
    TransformPlan,
};
use crate::algebra::domains::{span_point, span_size, span_size_grows, span_size_is_injective};
use crate::algebra::field::FieldElement;
use crate::algebra::linear_code::codeword;
use crate::algebra::novel_basis::{novel, novel_value};
use crate::algebra::sums::sum_congruent;
use crate::codec::holds_repairs;
use crate::decoder::reduced::fill_zero;
use crate::payload::{copy_row, lane_of_zeros};
use crate::symbols::{
    lane, lane_bounds, lane_congruent, lane_count, lane_message, lane_of_row, read_congruent,
    row_bounds, row_of, rows_apart, symbol_from_lanes, whole_lanes,
};

verus! {

/// Target working set of a column strip with fewer than 1024 rows.
pub const SMALL_TRANSFORM_STRIP_BYTES: usize = 768 * 1024;

/// Target working set of a column strip with 1024 rows or more.
pub const LARGE_TRANSFORM_STRIP_BYTES: usize = 512 * 1024;

/// The widest strip whose working set fits the target for its row count, in
/// whole elements, at least one and at most a row.
pub open spec fn widest_strip(rows: int, row_len: int, width: int) -> int {
    let target = if rows >= 1024 {
        LARGE_TRANSFORM_STRIP_BYTES as int
    } else {
        SMALL_TRANSFORM_STRIP_BYTES as int
    };
    let fitting = target / rows / width;
    let elements = if fitting >= 1 {
        fitting
    } else {
        1
    };
    if elements * width <= row_len {
        elements * width
    } else {
        row_len
    }
}

/// A strip is as wide as its target allows: it is made of whole elements, no wider
/// than a row, within 512 KiB for 1024 rows or more and 768 KiB for fewer unless a
/// single element is already larger, and one more element would exceed that or
/// the row.
pub proof fn strips_fill_the_target(rows: int, row_len: int, width: int)
    requires
        rows > 0,
        row_len > 0,
        width == 1 || width == 2,
        row_len % width == 0,
    ensures
        ({
            let strip = widest_strip(rows, row_len, width);
            let target: int = if rows >= 1024 {
                524288
            } else {
                786432
            };
            &&& width <= strip <= row_len
            &&& strip % width == 0
            &&& strip > width ==> rows * strip <= target
            &&& strip < row_len ==> rows * (strip + width) > target
        }),
{
    let strip = widest_strip(rows, row_len, width);
    let target: int = if rows >= 1024 {
        524288
    } else {
        786432
    };
    let fitting = target / rows / width;
    assert(fitting >= 0 && rows * (fitting * width) <= target && rows * ((fitting + 1) * width)
        > target) by (nonlinear_arith)
        requires
            fitting == target / rows / width,
            rows > 0,
            width == 1 || width == 2,
            target >= 0,
    ;
    let elements = if fitting >= 1 {
        fitting
    } else {
        1
    };
    assert(elements * width % width == 0) by (nonlinear_arith)
        requires
            width == 1 || width == 2,
    ;
    if strip > width {
        assert(rows * strip <= rows * (fitting * width)) by (nonlinear_arith)
            requires
                strip <= fitting * width,
                rows > 0,
        ;
    }
    if strip < row_len {
        assert(strip + width == (elements + 1) * width) by (nonlinear_arith)
            requires
                strip == elements * width,
        ;
        assert(rows * ((elements + 1) * width) >= rows * ((fitting + 1) * width))
            by (nonlinear_arith)
            requires
                elements >= fitting,
                rows > 0,
                width >= 1,
        ;
    }
}

/// Width in bytes of a column strip.
pub fn strip_width<F: Field>(rows_per_strip: usize, row_len: usize) -> (r: usize)
    requires
        rows_per_strip > 0,
        row_len > 0,
        whole_lanes::<F>(row_len as int),
    ensures
        r == widest_strip(rows_per_strip as int, row_len as int, F::width()),
        0 < r <= row_len,
        whole_lanes::<F>(r as int),
        rows_per_strip <= 65536 ==> rows_per_strip * r <= 786432,
{
    let width: usize = F::element_width();
    proof {
        F::width_is_positive();
    }
    let target: usize = if rows_per_strip >= 1024 {
        LARGE_TRANSFORM_STRIP_BYTES
    } else {
        SMALL_TRANSFORM_STRIP_BYTES
    };
    let fitting: usize = target / rows_per_strip / width;
    let elements: usize = if fitting >= 1 {
        fitting
    } else {
        1
    };
    proof {
        let (t, rows, w, f, e) = (
            target as int,
            rows_per_strip as int,
            width as int,
            fitting as int,
            elements as int,
        );
        assert(f * w * rows <= t && f * w <= t) by (nonlinear_arith)
            requires
                f == t / rows / w,
                rows > 0,
                w > 0,
                t >= 0,
        ;
        assert(e * w % w == 0 && e * w > 0) by (nonlinear_arith)
            requires
                w > 0,
                e > 0,
        ;
        if rows <= 65536 {
            assert(rows * (e * w) <= 786432) by (nonlinear_arith)
                requires
                    f * w * rows <= t,
                    t <= 786432,
                    e == if f >= 1 {
                        f
                    } else {
                        1
                    },
                    f >= 0,
                    1 <= w <= 2,
                    0 < rows <= 65536,
            ;
        }
        if (row_len as int) < e * w {
            assert(rows * row_len <= rows * (e * w)) by (nonlinear_arith)
                requires
                    row_len < e * w,
                    rows > 0,
            ;
        }
    }
    if elements * width <= row_len {
        elements * width
    } else {
        row_len
    }
}

/// Reusable workspace for [`StripEncoder::encode`].
#[derive(Clone, Debug, Default)]
pub struct EncodeScratch {
    workspace: Vec<u8>,
}

impl EncodeScratch {
    /// Empty scratch, sized on first use.
    pub fn new() -> (r: Self)
        ensures
            r.bytes() == 0,
    {
        EncodeScratch { workspace: Vec::new() }
    }

    /// Bytes held.
    pub closed spec fn bytes(&self) -> int {
        self.workspace@.len() as int
    }
}

/// Overwrites `out` from `start` on with `src`.
fn copy_bytes(out: &mut [u8], start: usize, src: &[u8])
    requires
        start + src@.len() <= old(out)@.len(),
    ensures
        final(out)@.len() == old(out)@.len(),
        forall|t: int|
            0 <= t < final(out)@.len() ==> #[trigger] final(out)@[t] == if start <= t < start
                + src@.len() {
                src@[t - start]
            } else {
                old(out)@[t]
            },
{
    let available: usize = out.len();
    let mut b: usize = 0;
    while b < src.len()
        invariant
            b <= src@.len(),
            available == out@.len() == old(out)@.len(),
            start + src@.len() <= available,
            forall|t: int|
                0 <= t < available ==> #[trigger] out@[t] == if start <= t < start + b {
                    src@[t - start]
                } else {
                    old(out)@[t]
                },
        decreases src@.len() - b,
    {
        out[start + b] = src[b];
        b += 1;
    }
}

/// The columns from `from` on of row `row`.
pub open spec fn columns_of(
    data: Seq<u8>,
    row_len: int,
    row: int,
    from: int,
    w: int,
) -> Seq<u8> {
    data.subrange(row * row_len + from, row * row_len + from + w)
}

/// Copies a column strip of the first `count` rows.
fn gather_strip(
    strip: &mut [u8],
    w: usize,
    count: usize,
    data: &[u8],
    row_len: usize,
    from: usize,
)
    requires
        old(strip)@.len() >= count * w,
        data@.len() == count * row_len,
        from + w <= row_len,
    ensures
        final(strip)@.len() == old(strip)@.len(),
        forall|row: int|
            0 <= row < count ==> #[trigger] row_of(final(strip)@, w as int, row) == columns_of(
                data@,
                row_len as int,
                row,
                from as int,
                w as int,
            ),
{
    let available: usize = data.len();
    let mut row: usize = 0;
    while row < count
        invariant
            row <= count,
            available == data@.len(),
            strip@.len() == old(strip)@.len(),
            strip@.len() >= count * w,
            data@.len() == count * row_len,
            from + w <= row_len,
            forall|r: int|
                0 <= r < row ==> #[trigger] row_of(strip@, w as int, r) == columns_of(
                    data@,
                    row_len as int,
                    r,
                    from as int,
                    w as int,
                ),
        decreases count - row,
    {
        proof {
            row_bounds(row as int, count as int, row_len as int);
            row_bounds(row as int, count as int, w as int);
        }
        let start: usize = row * row_len + from;
        let source = vstd::slice::slice_subrange(data, start, start + w);
        let ghost before = strip@;
        copy_row(strip, row, w, source);
        proof {
            assert forall|r: int| 0 <= r < row + 1 implies #[trigger] row_of(strip@, w as int, r)
                == columns_of(data@, row_len as int, r, from as int, w as int) by {
                if r < row {
                    row_bounds(r, count as int, w as int);
                    assert(row_of(before, w as int, r) == columns_of(
                        data@,
                        row_len as int,
                        r,
                        from as int,
                        w as int,
                    ));
                }
            }
        }
        row += 1;
    }
}

/// Copies the strip rows from `first` on back into a column of `count` rows.
fn scatter_strip(
    rows: &mut [u8],
    row_len: usize,
    from: usize,
    strip: &[u8],
    w: usize,
    first: usize,
    count: usize,
)
    requires
        old(rows)@.len() == count * row_len,
        strip@.len() >= (first + count) * w,
        from + w <= row_len,
        first + count <= usize::MAX,
    ensures
        final(rows)@.len() == old(rows)@.len(),
        forall|j: int, b: int|
            #![trigger final(rows)@[j * row_len + b]]
            0 <= j < count && 0 <= b < row_len ==> final(rows)@[j * row_len + b] == if from <= b
                < from + w {
                strip@[(first + j) * w + (b - from)]
            } else {
                old(rows)@[j * row_len + b]
            },
{
    let available: usize = rows.len();
    let held: usize = strip.len();
    let ghost l = row_len as int;
    let ghost width = w as int;
    let mut j: usize = 0;
    while j < count
        invariant
            j <= count,
            available == rows@.len(),
            held == strip@.len(),
            l == row_len,
            width == w,
            rows@.len() == old(rows)@.len(),
            rows@.len() == count * row_len,
            strip@.len() >= (first + count) * w,
            from + w <= row_len,
            first + count <= usize::MAX,
            forall|i: int, b: int|
                #![trigger rows@[i * l + b]]
                0 <= i < count && 0 <= b < l ==> rows@[i * l + b] == if i < j && from <= b < from
                    + w {
                    strip@[(first + i) * width + (b - from)]
                } else {
                    old(rows)@[i * l + b]
                },
        decreases count - j,
    {
        proof {
            row_bounds(j as int, count as int, l);
            row_bounds(first + j, first + count, width);
        }
        let start: usize = (first + j) * w;
        let source = vstd::slice::slice_subrange(strip, start, start + w);
        let at: usize = j * row_len + from;
        let ghost before = rows@;
        copy_bytes(rows, at, source);
        proof {
            assert forall|i: int, b: int|
                #![trigger rows@[i * l + b]]
                0 <= i < count && 0 <= b < l implies rows@[i * l + b] == if i < j + 1 && from <= b
                < from + w {
                strip@[(first + i) * width + (b - from)]
            } else {
                old(rows)@[i * l + b]
            } by {
                row_bounds(i, count as int, l);
                assert(before[i * l + b] == if i < j && from <= b < from + w {
                    strip@[(first + i) * width + (b - from)]
                } else {
                    old(rows)@[i * l + b]
                });
                if i < j {
                    rows_apart(i, j as int, l);
                } else if i > j {
                    rows_apart(j as int, i, l);
                }
            }
        }
        j += 1;
    }
}

/// Lanes of a strip row are lanes of the row it was cut from.
proof fn strip_lane<F: FieldElement>(
    strip: Seq<u8>,
    w: int,
    r: int,
    data: Seq<u8>,
    row_len: int,
    row: int,
    first_lane: int,
    e: int,
)
    requires
        whole_lanes::<F>(w),
        0 <= e < lane_count::<F>(w),
        0 <= first_lane,
        0 <= r * w,
        r * w + w <= strip.len(),
        0 <= row * row_len + first_lane * F::width(),
        row * row_len + first_lane * F::width() + w <= data.len(),
        row_of(strip, w, r) == columns_of(data, row_len, row, first_lane * F::width(), w),
    ensures
        lane::<F>(strip, w, r, e) == lane::<F>(data, row_len, row, first_lane + e),
{
    lane_bounds::<F>(w, e);
    let width = F::width();
    let at = e * width;
    let from = first_lane * width;
    let cut = row_of(strip, w, r);
    let other = columns_of(data, row_len, row, from, w);
    assert((first_lane + e) * width == from + at) by (nonlinear_arith)
        requires
            from == first_lane * width,
            at == e * width,
    ;
    let b_at = row * row_len + (first_lane + e) * width;
    assert forall|p: int| #![trigger data[b_at + p]] 0 <= p < width implies strip[r * w + at + p]
        == data[b_at + p] by {
        assert(cut[at + p] == strip[r * w + at + p]);
        assert(other[at + p] == data[row * row_len + from + (at + p)]);
    }
    read_congruent::<F>(strip, r * w + at, data, b_at);
}

/// Systematic encoder over a power-of-two additive domain.
///
/// Data occupies evaluation points `0..data_points`, repairs the points that
/// follow. Rows are flat byte buffers of packed field elements, `row_len` bytes
/// each; the encoder never reserializes its input.
#[derive(Clone, Debug)]
pub struct StripEncoder<F: Field> {
    interpolation: TransformPlan<F>,
    evaluation: TransformPlan<F>,
    data_points: usize,
    repair_points: usize,
    row_len: usize,
    fused: bool,
}

/// Why a strip encoder cannot be built.
pub open spec fn strip_fault<F: Field>(data_points: int, repair_points: int) -> Option<PlanError> {
    if data_points == 0 || repair_points == 0 {
        Some(PlanError::InvalidSize { size: 0 })
    } else if padded(data_points + repair_points) > usize::MAX {
        Some(PlanError::InvalidSize { size: 0 })
    } else {
        match plan_fault(padded(data_points), F::bits()) {
            Some(e) => Some(e),
            None => plan_fault(padded(data_points + repair_points), F::bits()),
        }
    }
}

/// A strip encoder can be built exactly for at least one data and one repair row
/// that together are no more than the field has elements.
pub proof fn strip_encoders_cover_the_field<F: Field>(data_points: int, repair_points: int)
    requires
        data_points >= 0,
        repair_points >= 0,
    ensures
        strip_fault::<F>(data_points, repair_points) is None <==> data_points >= 1 && repair_points
            >= 1 && data_points + repair_points <= span_size(F::bits()),
{
    field_size::<F>();
    let n = data_points + repair_points;
    if data_points >= 1 && repair_points >= 1 {
        padded_facts(n);
        padded_facts(data_points);
        padded_grows(data_points, n);
        domains_are_judged(padded_dimension(data_points), F::bits());
        domains_are_judged(padded_dimension(n), F::bits());
        if n <= span_size(F::bits()) {
            padded_fits(n, F::bits());
        } else if padded_dimension(n) <= F::bits() {
            span_size_grows(padded_dimension(n), F::bits());
        }
    }
}

/// A smaller count has a smaller domain.
proof fn padded_grows(small: int, large: int)
    requires
        small <= large,
    ensures
        padded_dimension(small) <= padded_dimension(large),
        padded(small) <= padded(large),
{
    padded_facts(large);
    padded_fits(small, padded_dimension(large));
}

impl<F: Field> StripEncoder<F> {
    /// Number of data rows.
    pub closed spec fn data_rows(&self) -> int {
        self.data_points as int
    }

    /// Number of repair rows.
    pub closed spec fn repair_rows(&self) -> int {
        self.repair_points as int
    }

    /// Bytes per row.
    pub closed spec fn row_bytes(&self) -> int {
        self.row_len as int
    }

    /// Rows of one strip and its temporaries.
    pub closed spec fn strip_rows(&self) -> int {
        (if self.fused {
            self.data_points as int
        } else {
            padded(self.data_points + self.repair_points)
        }) + scratch_rows(padded(self.data_points as int), self.data_points as int)
    }

    /// Rows that hold points of the transform.
    pub closed spec fn point_rows(&self) -> int {
        if self.fused {
            self.data_points as int
        } else {
            padded(self.data_points + self.repair_points)
        }
    }

    /// Working set of one strip of the tuned width.
    pub open spec fn strip_bytes(&self) -> int {
        self.strip_rows() * widest_strip(self.point_rows(), self.row_bytes(), F::width())
    }

    /// The working set of a strip: a row per data point if the data fill one half
    /// of the evaluation domain and the repairs lie in the other, else a row per
    /// point of that domain, and in either case the temporaries of the
    /// interpolation, each as wide as the strip.
    pub proof fn strip_layout(&self)
        requires
            self.valid(),
        ensures
            ({
                let k = self.data_rows();
                let n = k + self.repair_rows();
                let points = if k >= 2 && padded(k) == k && padded(n) == 2 * k {
                    k
                } else {
                    padded(n)
                };
                self.strip_bytes() == (points + scratch_rows(padded(k), k)) * widest_strip(
                    points,
                    self.row_bytes(),
                    F::width(),
                )
            }),
    {
    }

    /// Strip row of the first repair.
    closed spec fn first_repair(&self) -> int {
        if self.fused {
            0
        } else {
            self.data_points as int
        }
    }

    /// The plans belong to the geometry.
    pub closed spec fn valid(&self) -> bool {
        &&& self.interpolation.valid()
        &&& self.evaluation.valid()
        &&& 1 <= self.data_points
        &&& 1 <= self.repair_points
        &&& 1 <= self.row_len
        &&& whole_lanes::<F>(self.row_len as int)
        &&& self.interpolation.ordered_basis() == pattern_basis::<F>(
            padded_dimension(self.data_points as int),
        )
        &&& self.evaluation.ordered_basis() == pattern_basis::<F>(
            padded_dimension(self.data_points + self.repair_points),
        )
        &&& padded(self.data_points + self.repair_points) * self.row_len <= usize::MAX
        &&& self.fused == (padded(self.data_points as int) == self.data_points && padded(
            self.data_points + self.repair_points,
        ) == 2 * self.data_points && self.data_points >= 2)
    }

    /// Builds an encoder for `data_points` data rows, `repair_points` repair
    /// rows, and rows of `row_len` bytes.
    pub fn new(data_points: usize, repair_points: usize, row_len: usize) -> (r: Result<
        Self,
        PlanError,
    >)
        requires
            data_points > 0 && repair_points > 0 ==> row_len > 0 && whole_lanes::<F>(
                row_len as int,
            ),
            data_points > 0 && repair_points > 0 && padded(data_points + repair_points)
                <= usize::MAX ==> padded(data_points + repair_points) * row_len <= usize::MAX,
        ensures
            match r {
                Ok(encoder) => strip_fault::<F>(data_points as int, repair_points as int) is None
                    && encoder.valid() && encoder.data_rows() == data_points
                    && encoder.repair_rows() == repair_points && encoder.row_bytes() == row_len,
                Err(error) => strip_fault::<F>(data_points as int, repair_points as int) == Some(
                    error,
                ),
            },
    {
        if data_points == 0 || repair_points == 0 {
            return Err(PlanError::InvalidSize { size: 0 });
        }
        proof {
            padded_facts(data_points + repair_points);
            padded_grows(data_points as int, data_points + repair_points);
        }
        let sum: usize = match data_points.checked_add(repair_points) {
            Some(sum) => sum,
            None => {
                return Err(PlanError::InvalidSize { size: 0 });
            },
        };
        let (total, padded_points) = match (
            next_power_of_two(sum),
            next_power_of_two(data_points),
        ) {
            (Some(total), Some(padded_points)) => (total, padded_points),
            _ => {
                return Err(PlanError::InvalidSize { size: 0 });
            },
        };
        let interpolation = match TransformPlan::<F>::new(padded_points) {
            Ok(plan) => plan,
            Err(error) => {
                return Err(error);
            },
        };
        let evaluation = match TransformPlan::<F>::new(total) {
            Ok(plan) => plan,
            Err(error) => {
                return Err(error);
            },
        };
        proof {
            span_size_is_injective(
                interpolation.ordered_basis().len(),
                padded_dimension(data_points as int),
            );
            span_size_is_injective(
                evaluation.ordered_basis().len(),
                padded_dimension(data_points + repair_points),
            );
        }
        let fused: bool = padded_points == data_points && data_points >= 2 && total / 2
            == data_points && total % 2 == 0;
        Ok(
            StripEncoder {
                interpolation,
                evaluation,
                data_points,
                repair_points,
                row_len,
                fused,
            },
        )
    }

    /// Sizes that follow from the invariant.
    proof fn sizes(&self)
        requires
            self.valid(),
        ensures
            self.data_points + self.repair_points <= padded(
                self.data_points + self.repair_points,
            ) <= 65536,
            self.data_points <= padded(self.data_points as int) <= padded(
                self.data_points + self.repair_points,
            ),
            padded_dimension(self.data_points as int) <= padded_dimension(
                self.data_points + self.repair_points,
            ) <= F::bits(),
            (self.data_points + self.repair_points) * self.row_len <= usize::MAX,
            0 <= self.data_points * self.row_len <= (self.data_points + self.repair_points)
                * self.row_len,
            0 <= self.repair_points * self.row_len <= (self.data_points + self.repair_points)
                * self.row_len,
            0 <= scratch_rows(padded(self.data_points as int), self.data_points as int) <= 65536,
            1 <= self.strip_rows() <= 131072,
    {
        let k = self.data_points as int;
        let m = self.repair_points as int;
        let n = k + m;
        let l = self.row_len as int;
        let p = padded(n);
        field_size::<F>();
        padded_facts(n);
        padded_facts(k);
        padded_grows(k, n);
        span_size_grows(self.evaluation.ordered_basis().len(), F::bits());
        assert(n * l <= p * l && 0 <= k * l <= n * l && 0 <= m * l <= n * l) by (nonlinear_arith)
            requires
                n <= p,
                n == k + m,
                0 <= k,
                0 <= m,
                0 <= l,
        ;
        scratch_rows_bound(padded(k), k);
    }

    /// Rows one strip holds, and the temporary rows its interpolation needs on
    /// top.
    fn strip_geometry(&self) -> (r: (usize, usize))
        requires
            self.valid(),
        ensures
            r.0 == if self.fused {
                self.data_points as int
            } else {
                padded(self.data_points + self.repair_points)
            },
            r.1 == scratch_rows(padded(self.data_points as int), self.data_points as int),
            1 <= r.0 <= 65536,
            r.1 <= 65536,
            2 * r.1 <= r.0,
            r.0 + r.1 == self.strip_rows(),
    {
        proof {
            self.sizes();
            scratch_rows_bound(padded(self.data_points as int), self.data_points as int);
        }
        let rows: usize = if self.fused {
            self.data_points
        } else {
            self.evaluation.size()
        };
        let temporaries: usize = F::truncated_scratch_rows(
            self.interpolation.basis(),
            self.data_points,
        );
        (rows, temporaries)
    }

    /// Allocates scratch for one column strip.
    pub fn scratch(&self) -> (r: EncodeScratch)
        requires
            self.valid(),
        ensures
            r.bytes() == self.strip_bytes(),
    {
        let (rows, temporaries) = self.strip_geometry();
        let width: usize = strip_width::<F>(rows, self.row_len);
        proof {
            assert(0 <= (rows + temporaries) * width <= 2 * 786432) by (nonlinear_arith)
                requires
                    rows * width <= 786432,
                    2 * temporaries <= rows,
                    0 <= width,
                    0 <= temporaries,
            ;
        }
        EncodeScratch { workspace: vec![0u8; (rows + temporaries) * width] }
    }

    /// Encodes all repair rows from all data rows.
    pub fn encode(&self, data: &[u8], repairs: &mut [u8], scratch: &mut EncodeScratch) -> (r:
        Result<(), TransformLengthError>)
        requires
            self.valid(),
        ensures
            strip_encoded(
                self,
                data@,
                old(repairs)@,
                final(repairs)@,
                r,
            ),
            r is Ok <==> data@.len() == self.data_rows() * self.row_bytes() && old(repairs)@.len()
                == self.repair_rows() * self.row_bytes(),
            r is Ok ==> forall|j: int|
                0 <= j < self.repair_rows() ==> #[trigger] row_of(
                    final(repairs)@,
                    self.row_bytes(),
                    j,
                ) == (afft_code::<F>(
                    self.data_rows(),
                    self.repair_rows(),
                    self.row_bytes(),
                ).symbol)(data@, self.data_rows() + j),
            r is Err ==> final(repairs)@ == old(repairs)@,
            r matches Err(e) ==> e.expected != e.got && if data@.len() != self.data_rows()
                * self.row_bytes() {
                e.expected == self.data_rows() * self.row_bytes() && e.got == data@.len()
            } else {
                e.expected == self.repair_rows() * self.row_bytes() && e.got == old(repairs)@.len()
            },
            r is Ok ==> final(scratch).bytes() == self.strip_bytes(),
            r is Err ==> *final(scratch) == *old(scratch),
    {
        let (rows, temporaries) = self.strip_geometry();
        let width: usize = strip_width::<F>(rows, self.row_len);
        proof {
            assert(0 <= (rows + temporaries) * width <= 2 * 786432) by (nonlinear_arith)
                requires
                    rows * width <= 786432,
                    2 * temporaries <= rows,
                    0 <= width,
                    0 <= temporaries,
            ;
        }
        self.encode_with_width(data, repairs, scratch, width)
    }

    /// [`StripEncoder::encode`] with an explicit strip width.
    pub fn encode_with_width(
        &self,
        data: &[u8],
        repairs: &mut [u8],
        scratch: &mut EncodeScratch,
        width: usize,
    ) -> (r: Result<(), TransformLengthError>)
        requires
            self.valid(),
            data@.len() == self.data_rows() * self.row_bytes() && old(repairs)@.len()
                == self.repair_rows() * self.row_bytes() ==> 0 < width <= self.row_bytes()
                && whole_lanes::<F>(width as int) && self.strip_rows() * width <= usize::MAX,
        ensures
            strip_encoded(
                self,
                data@,
                old(repairs)@,
                final(repairs)@,
                r,
            ),
            r is Ok <==> data@.len() == self.data_rows() * self.row_bytes() && old(repairs)@.len()
                == self.repair_rows() * self.row_bytes(),
            r is Ok ==> forall|j: int|
                0 <= j < self.repair_rows() ==> #[trigger] row_of(
                    final(repairs)@,
                    self.row_bytes(),
                    j,
                ) == (afft_code::<F>(
                    self.data_rows(),
                    self.repair_rows(),
                    self.row_bytes(),
                ).symbol)(data@, self.data_rows() + j),
            r is Err ==> final(repairs)@ == old(repairs)@,
            r matches Err(e) ==> e.expected != e.got && if data@.len() != self.data_rows()
                * self.row_bytes() {
                e.expected == self.data_rows() * self.row_bytes() && e.got == data@.len()
            } else {
                e.expected == self.repair_rows() * self.row_bytes() && e.got == old(repairs)@.len()
            },
            r is Ok ==> final(scratch).bytes() == self.strip_rows() * width,
            r is Err ==> *final(scratch) == *old(scratch),
    {
        let row_len: usize = self.row_len;
        proof {
            self.sizes();
        }
        let expected_data: usize = self.data_points * row_len;
        if data.len() != expected_data {
            return Err(TransformLengthError { expected: expected_data, got: data.len() });
        }
        let expected_repairs: usize = self.repair_points * row_len;
        if repairs.len() != expected_repairs {
            return Err(TransformLengthError { expected: expected_repairs, got: repairs.len() });
        }
        let (rows, temporaries) = self.strip_geometry();
        let capacity: usize = (rows + temporaries) * width;
        if scratch.workspace.len() != capacity {
            scratch.workspace.clear();
            scratch.workspace.resize(capacity, 0);
        }
        let ghost k = self.data_points as int;
        let ghost m = self.repair_points as int;
        let ghost l = row_len as int;
        let ghost coef = afft_coef::<F>(k);
        let ghost unit = F::width();
        let first: usize = if self.fused {
            0
        } else {
            self.data_points
        };
        proof {
            F::width_is_positive();
        }
        let mut from: usize = 0;
        let ghost mut done: int = 0;
        while from < row_len
            invariant
                self.valid(),
                from <= row_len,
                row_len == self.row_len,
                0 < width <= row_len,
                whole_lanes::<F>(width as int),
                whole_lanes::<F>(l),
                k == self.data_points,
                m == self.repair_points,
                l == row_len,
                coef == afft_coef::<F>(k),
                unit == F::width(),
                1 <= unit <= 2,
                done >= 0,
                from == done * unit,
                data@.len() == k * l,
                repairs@.len() == m * l,
                capacity == (rows + temporaries) * width,
                scratch.workspace@.len() == capacity,
                rows == if self.fused {
                    k
                } else {
                    padded(k + m)
                },
                temporaries == scratch_rows(padded(k), k),
                1 <= rows <= 65536,
                temporaries <= 65536,
                first == if self.fused {
                    0
                } else {
                    k
                },
                forall|j: int, e: int|
                    0 <= j < m && 0 <= e < done ==> #[trigger] lane::<F>(repairs@, l, j, e)
                        == codeword(coef, k, lane_message(data@, l, e), k + j),
            decreases row_len - from,
        {
            let w: usize = if width <= row_len - from {
                width
            } else {
                row_len - from
            };
            let ghost lanes = lane_count::<F>(w as int);
            proof {
                self.sizes();
                strip_remainder(row_len as int, from as int, width as int, unit, done);
                assert((rows + temporaries) * w <= (rows + temporaries) * width && rows * w >= 0
                    && (rows + temporaries) * w == rows * w + temporaries * w && temporaries * w
                    >= 0) by (nonlinear_arith)
                    requires
                        0 <= w <= width,
                        0 <= rows,
                        0 <= temporaries,
                ;
            }
            let used: usize = (rows + temporaries) * w;
            let body: usize = rows * w;
            let (active, _rest) = scratch.workspace.as_mut_slice().split_at_mut(used);
            let (strip, temporary) = active.split_at_mut(body);
            self.encode_strip(data, from, w, strip, temporary, Ghost(done));
            let ghost before = repairs@;
            let ghost ready = strip@;
            proof {
                if self.fused {
                    assert(first + m <= rows);
                } else {
                    assert(first + m <= rows);
                }
                row_bounds(0, first + m, w as int);
                assert((first + m) * w <= rows * w) by (nonlinear_arith)
                    requires
                        first + m <= rows,
                        0 <= w,
                ;
            }
            scatter_strip(repairs, row_len, from, strip, w, first, self.repair_points);
            proof {
                let wide = w as int;
                assert forall|j: int, e: int|
                    0 <= j < m && 0 <= e < done + lanes implies #[trigger] lane::<F>(
                    repairs@,
                    l,
                    j,
                    e,
                ) == codeword(coef, k, lane_message(data@, l, e), k + j) by {
                    let at = e * unit;
                    row_bounds(j, m, l);
                    if e < done {
                        assert(0 <= at && at + unit <= from) by (nonlinear_arith)
                            requires
                                0 <= e < done,
                                at == e * unit,
                                from == done * unit,
                                unit >= 1,
                        ;
                        assert forall|p: int|
                            #![trigger before[j * l + at + p]]
                            0 <= p < unit implies repairs@[j * l + at + p] == before[j * l + at
                            + p] by {
                            assert(repairs@[j * l + (at + p)] == before[j * l + (at + p)]);
                        }
                        read_congruent::<F>(repairs@, j * l + at, before, j * l + at);
                        assert(lane::<F>(before, l, j, e) == codeword(
                            coef,
                            k,
                            lane_message(data@, l, e),
                            k + j,
                        ));
                    } else {
                        let f = e - done;
                        lane_bounds::<F>(wide, f);
                        let inner = f * unit;
                        assert(at == from + inner) by (nonlinear_arith)
                            requires
                                at == e * unit,
                                from == done * unit,
                                inner == f * unit,
                                f == e - done,
                        ;
                        assert forall|p: int|
                            #![trigger ready[(first + j) * wide + inner + p]]
                            0 <= p < unit implies repairs@[j * l + at + p] == ready[(first + j)
                            * wide + inner + p] by {
                            assert(repairs@[j * l + (at + p)] == ready[(first + j) * wide + ((at
                                + p) - from)]);
                        }
                        read_congruent::<F>(
                            repairs@,
                            j * l + at,
                            ready,
                            (first + j) * wide + inner,
                        );
                        let row = first + j;
                        assert(lane::<F>(ready, wide, row, f) == codeword(
                            coef,
                            k,
                            lane_message(data@, l, done + f),
                            k + (row - first),
                        ));
                    }
                }
                done = done + lanes;
            }
            from += w;
        }
        proof {
            let code = afft_code::<F>(k, m, l);
            assert(done == lane_count::<F>(l)) by (nonlinear_arith)
                requires
                    l == done * unit,
                    unit >= 1,
                    lane_count::<F>(l) == l / unit,
            ;
            assert forall|j: int| 0 <= j < m implies row_of(repairs@, l, j)
                == #[trigger] (code.symbol)(data@, k + j) by {
                row_bounds(j, m, l);
                let cut = row_of(repairs@, l, j);
                assert forall|e: int| 0 <= e < lane_count::<F>(l) implies #[trigger] lane::<F>(
                    cut,
                    l,
                    0,
                    e,
                ) == codeword(coef, k, lane_message(data@, l, e), k + j) by {
                    lane_of_row::<F>(repairs@, l, j, m, e);
                    assert(lane::<F>(repairs@, l, j, e) == codeword(
                        coef,
                        k,
                        lane_message(data@, l, e),
                        k + j,
                    ));
                }
                symbol_from_lanes(coef, k, l, data@, k + j, cut);
            }
        }
        Ok(())
    }

    /// Encodes one column strip: the repair rows of the strip stand in its
    /// first rows when the upper half of the domain is evaluated in place, and
    /// after the data rows otherwise.
    fn encode_strip(
        &self,
        data: &[u8],
        from: usize,
        w: usize,
        strip: &mut [u8],
        temporary: &mut [u8],
        Ghost(done): Ghost<int>,
    )
        requires
            self.valid(),
            data@.len() == self.data_points * self.row_len,
            0 < w,
            from + w <= self.row_len,
            whole_lanes::<F>(w as int),
            done >= 0,
            from == done * F::width(),
            old(strip)@.len() == (if self.fused {
                self.data_points as int
            } else {
                padded(self.data_points + self.repair_points)
            }) * w,
            old(temporary)@.len() == scratch_rows(
                padded(self.data_points as int),
                self.data_points as int,
            ) * w,
        ensures
            final(strip)@.len() == old(strip)@.len(),
            final(temporary)@.len() == old(temporary)@.len(),
            forall|row: int, e: int|
                self.first_repair() <= row < self.first_repair() + self.repair_points && 0 <= e
                    < lane_count::<F>(w as int) ==> #[trigger] lane::<F>(
                    final(strip)@,
                    w as int,
                    row,
                    e,
                ) == codeword(
                    afft_coef::<F>(self.data_points as int),
                    self.data_points as int,
                    lane_message(data@, self.row_len as int, done + e),
                    self.data_points + (row - self.first_repair()),
                ),
    {
        let ghost k = self.data_points as int;
        let ghost m = self.repair_points as int;
        let ghost l = self.row_len as int;
        let ghost wide = w as int;
        let ghost small = padded_dimension(k);
        let ghost large = padded_dimension(k + m);
        let ghost lower = self.interpolation.ordered_basis();
        let ghost upper = self.evaluation.ordered_basis();
        proof {
            self.sizes();
            let total = padded(k + m);
            let size = padded(k);
            assert(k * wide <= size * wide <= total * wide) by (nonlinear_arith)
                requires
                    k <= size <= total,
                    0 <= wide,
            ;
        }
        gather_strip(strip, w, self.data_points, data, self.row_len, from);
        let ghost gathered = strip@;
        proof {
            assert forall|i: int, e: int|
                0 <= i < k && 0 <= e < lane_count::<F>(wide) implies #[trigger] lane::<F>(
                gathered,
                wide,
                i,
                e,
            ) == lane_message::<F>(data@, l, done + e)(i) by {
                row_bounds(i, k, l);
                row_bounds(i, k, wide);
                assert(row_of(gathered, wide, i) == columns_of(data@, l, i, from as int, wide));
                strip_lane::<F>(gathered, wide, i, data@, l, i, done, e);
            }
        }
        if self.fused {
            F::interpolate_truncated(
                self.interpolation.basis(),
                strip,
                w,
                self.data_points,
                temporary,
            );
            let ghost solved = strip@;
            proof {
                padded_facts(k);
                let s = span_size(small);
                assert(span_size(large) == 2 * s);
                span_size_is_injective(large, small + 1);
                span_size_grows(0, small);
                assert(large >= 2) by {
                    if small == 0 {
                        assert(span_size(0) == 1);
                    }
                }
                assert(2 * (k * wide) == (2 * k) * wide) by (nonlinear_arith);
            }
            F::evaluate_high_coset(self.evaluation.basis(), strip, w, self.repair_points);
            proof {
                assert forall|j: int, e: int|
                    0 <= j < m && 0 <= e < lane_count::<F>(wide) implies #[trigger] lane::<F>(
                    strip@,
                    wide,
                    j,
                    e,
                ) == codeword(afft_coef::<F>(k), k, lane_message(data@, l, done + e), k + j) by {
                    let c = column::<F>(solved, wide, e);
                    let message = lane_message::<F>(data@, l, done + e);
                    assert forall|i: int| 0 <= i < k implies #[trigger] message(i) == novel_value(
                        pattern_basis::<F>(small),
                        c,
                        k,
                        span_point(pattern_basis::<F>(small), i),
                    ) by {
                        assert(lane::<F>(gathered, wide, i, e) == novel_value(
                            lower,
                            c,
                            k,
                            span_point(lower, i),
                        ));
                    }
                    evaluation_encodes::<F>(small, large, k, c, message, k + j);
                    assert(lane::<F>(strip@, wide, j, e) == novel_value(
                        upper,
                        c,
                        k,
                        span_point(upper, k + j),
                    ));
                }
            }
        } else {
            let size: usize = self.interpolation.size();
            let total: usize = self.evaluation.size();
            let held: usize = strip.len();
            let boundary: usize = size * w;
            let (low, _high) = strip.split_at_mut(boundary);
            let ghost low_before = low@;
            F::interpolate_truncated(
                self.interpolation.basis(),
                low,
                w,
                self.data_points,
                temporary,
            );
            let ghost low_after = low@;
            proof {
                assert forall|i: int, e: int|
                    0 <= i < k && 0 <= e < lane_count::<F>(wide) implies #[trigger] lane::<F>(
                    low_before,
                    wide,
                    i,
                    e,
                ) == lane::<F>(gathered, wide, i, e) by {
                    row_bounds(i, k, wide);
                    lane_congruent::<F>(low_before, i, gathered, i, wide, e);
                }
            }
            let ghost solved = strip@;
            proof {
                assert forall|i: int, e: int|
                    0 <= i < k && 0 <= e < lane_count::<F>(wide) implies #[trigger] lane::<F>(
                    solved,
                    wide,
                    i,
                    e,
                ) == lane::<F>(low_after, wide, i, e) by {
                    row_bounds(i, k, wide);
                    lane_congruent::<F>(solved, i, low_after, i, wide, e);
                }
            }
            let rest_start: usize = self.data_points * w;
            let (head, tail) = strip.split_at_mut(rest_start);
            fill_zero(tail);
            let ghost head_kept = head@;
            let ghost tail_zero = tail@;
            let ghost cleared = strip@;
            proof {
                assert(cleared == head_kept + tail_zero);
                assert forall|i: int, e: int|
                    k <= i < span_size(upper.len()) && 0 <= e < lane_count::<F>(
                        wide,
                    ) implies #[trigger] lane::<F>(cleared, wide, i, e) == F::zero_elem() by {
                    row_bounds(i, total as int, wide);
                    rows_start(k, i, wide);
                    assert forall|t: int| 0 <= t < wide implies cleared[#[trigger] (i * wide + t)]
                        == 0 by {
                        assert(cleared[i * wide + t] == tail_zero[i * wide + t - k * wide]);
                    }
                    lane_of_zeros::<F>(cleared, wide, i, e);
                }
                assert forall|i: int, e: int|
                    0 <= i < k && 0 <= e < lane_count::<F>(wide) implies #[trigger] lane::<F>(
                    cleared,
                    wide,
                    i,
                    e,
                ) == lane::<F>(low_after, wide, i, e) by {
                    row_bounds(i, k, wide);
                    lane_congruent::<F>(cleared, i, solved, i, wide, e);
                    assert(lane::<F>(solved, wide, i, e) == lane::<F>(low_after, wide, i, e));
                }
            }
            F::evaluate_range(
                self.evaluation.basis(),
                strip,
                w,
                self.data_points,
                self.data_points,
                self.data_points + self.repair_points,
            );
            proof {
                assert forall|row: int, e: int|
                    k <= row < k + m && 0 <= e < lane_count::<F>(wide) implies #[trigger] lane::<
                    F,
                >(strip@, wide, row, e) == codeword(
                    afft_coef::<F>(k),
                    k,
                    lane_message(data@, l, done + e),
                    k + (row - k),
                ) by {
                    let j = row - k;
                    let c = column::<F>(low_after, wide, e);
                    let d = column::<F>(cleared, wide, e);
                    let message = lane_message::<F>(data@, l, done + e);
                    assert forall|i: int| 0 <= i < k implies #[trigger] message(i) == novel_value(
                        pattern_basis::<F>(small),
                        c,
                        k,
                        span_point(pattern_basis::<F>(small), i),
                    ) by {
                        assert(lane::<F>(gathered, wide, i, e) == message(i));
                        assert(lane::<F>(low_before, wide, i, e) == novel_value(
                            lower,
                            c,
                            k,
                            span_point(lower, i),
                        ));
                    }
                    evaluation_encodes::<F>(small, large, k, c, message, k + j);
                    let x = span_point(upper, k + j);
                    assert(lane::<F>(strip@, wide, k + j, e) == novel_value(upper, d, k, x));
                    let left = |i: int| c(i).times(novel(upper, i, x));
                    let right = |i: int| d(i).times(novel(upper, i, x));
                    assert forall|i: int| 0 <= i < k implies #[trigger] left(i) == right(i) by {
                        assert(lane::<F>(cleared, wide, i, e) == lane::<F>(low_after, wide, i, e));
                    }
                    sum_congruent(left, right, k);
                }
            }
        }
    }
}

/// Later rows start no earlier.
proof fn rows_start(a: int, b: int, w: int)
    requires
        a <= b,
        w >= 0,
    ensures
        a * w <= b * w,
{
    assert(a * w <= b * w) by (nonlinear_arith)
        requires
            a <= b,
            w >= 0,
    ;
}

/// What is left of a row is whole elements, and the next strip starts where
/// this one ends.
proof fn strip_remainder(row_len: int, from: int, width: int, unit: int, done: int)
    requires
        1 <= unit <= 2,
        row_len % unit == 0,
        width % unit == 0,
        width > 0,
        from == done * unit,
        0 <= from < row_len,
    ensures
        (row_len - from) % unit == 0,
        from + width == (done + width / unit) * unit,
        row_len == (done + (row_len - from) / unit) * unit,
{
    assert((row_len - from) % unit == 0 && from + width == (done + width / unit) * unit && row_len
        == (done + (row_len - from) / unit) * unit) by (nonlinear_arith)
        requires
            1 <= unit <= 2,
            row_len % unit == 0,
            width % unit == 0,
            from == done * unit,
    ;
}

/// Workspace is at most half the domain.
proof fn scratch_rows_bound(size: int, active: int)
    requires
        size >= 1,
    ensures
        0 <= scratch_rows(size, active),
        2 * scratch_rows(size, active) <= size,
        active >= size ==> scratch_rows(size, active) == 0,
    decreases size,
{
    if size > 1 && active < size && active <= size / 2 {
        scratch_rows_bound(size / 2, active);
    }
}

/// The outcome of a strip encode.
pub open spec fn strip_encoded<F: Field>(
    encoder: &StripEncoder<F>,
    data: Seq<u8>,
    before: Seq<u8>,
    after: Seq<u8>,
    r: Result<(), TransformLengthError>,
) -> bool {
    let k = encoder.data_rows();
    let m = encoder.repair_rows();
    let l = encoder.row_bytes();
    if data.len() != k * l {
        r == Err::<(), TransformLengthError>(
            TransformLengthError { expected: (k * l) as usize, got: data.len() as usize },
        ) && after == before
    } else if before.len() != m * l {
        r == Err::<(), TransformLengthError>(
            TransformLengthError { expected: (m * l) as usize, got: before.len() as usize },
        ) && after == before
    } else {
        r is Ok && holds_repairs(afft_code::<F>(k, m, l), data, after)
    }
}

} // verus!
