//! Repair symbols accumulated one data symbol at a time.

use vstd::prelude::*;

use crate::algebra::cauchy::cauchy_entry;
use crate::algebra::field::{times_zero, FieldElement};
use crate::algebra::linear_code::codeword;
use crate::algebra::sums::{sum_insert, sum_of_zeros};
use crate::codec::{fed_total, feed_fault, with_symbol, zero_block, Code};
use crate::decoder::reduced::fill_zero;
use crate::error::EncodeError;
use crate::matrices::coding_matrix::{
    is_coefficient_table, point_code, point_coef, PointSet,
};
use crate::payload::{lane_of_zeros, row_slice, PayloadElement};
use crate::symbols::{
    lane, lane_congruent, lane_count, lane_message, lane_of_row, row_bounds, row_of, rows_apart,
    symbol_from_lanes, whole_lanes,
};

verus! {

/// Flat repair buffers that reflect the data symbols seen so far.
pub struct RepairAccumulator<F: PayloadElement, P: PointSet<F>> {
    matrix: P,
    k: usize,
    m: usize,
    symbol_len: usize,
    /// Coefficients in data-major order: `coeffs[i * m + j] = C[i][j]`.
    coeffs: Vec<F>,
    /// `m` repair symbols of `symbol_len` bytes.
    repairs: Vec<u8>,
    /// Which data symbols have been fed.
    fed: Vec<bool>,
    fed_count: usize,
    /// The data fed so far; symbols not yet fed are zero.
    block: Ghost<Seq<u8>>,
}

/// Counting after one more index is marked.
pub proof fn fed_total_insert(f: spec_fn(int) -> bool, g: spec_fn(int) -> bool, x: int, k: int)
    requires
        0 <= x < k,
        !f(x),
        g(x),
        forall|i: int| 0 <= i < k && i != x ==> #[trigger] g(i) == f(i),
    ensures
        fed_total(g, k) == fed_total(f, k) + 1,
    decreases k,
{
    if x == k - 1 {
        fed_total_congruent(g, f, k - 1);
    } else {
        fed_total_insert(f, g, x, k - 1);
        assert(g(k - 1) == f(k - 1));
    }
}

/// Equal marks have equal counts.
pub proof fn fed_total_congruent(f: spec_fn(int) -> bool, g: spec_fn(int) -> bool, k: int)
    requires
        forall|i: int| 0 <= i < k ==> #[trigger] f(i) == g(i),
    ensures
        fed_total(f, k) == fed_total(g, k),
    decreases k,
{
    if k > 0 {
        fed_total_congruent(f, g, k - 1);
        assert(f(k - 1) == g(k - 1));
    }
}

/// At most `k` marks, and at least none.
pub proof fn fed_total_bounds(f: spec_fn(int) -> bool, k: int)
    ensures
        0 <= fed_total(f, k),
        k >= 0 ==> fed_total(f, k) <= k,
        (forall|i: int| 0 <= i < k ==> !(#[trigger] f(i))) ==> fed_total(f, k) == 0,
        k >= 0 && (exists|i: int| 0 <= i < k && !(#[trigger] f(i))) ==> fed_total(f, k) < k,
        k >= 0 && (forall|i: int| 0 <= i < k ==> #[trigger] f(i)) ==> fed_total(f, k) == k,
    decreases k,
{
    if k > 0 {
        fed_total_bounds(f, k - 1);
        if exists|i: int| 0 <= i < k && !(#[trigger] f(i)) {
            let i = choose|i: int| 0 <= i < k && !(#[trigger] f(i));
            if i < k - 1 {
                assert(!f(i));
            }
        }
    }
}

impl<F: PayloadElement, P: PointSet<F>> RepairAccumulator<F, P> {
    pub closed spec fn valid(&self) -> bool {
        let l = self.symbol_len as int;
        let k = self.k as int;
        let m = self.m as int;
        &&& self.code().well_shaped()
        &&& m * l <= usize::MAX
        &&& self.k + self.m <= P::point_count()
        &&& whole_lanes::<F>(l)
        &&& is_coefficient_table::<F, P>(k, m, self.coeffs@)
        &&& self.repairs@.len() == m * l
        &&& self.fed@.len() == k
        &&& self.block@.len() == k * l
        &&& self.fed_count == fed_total(|i: int| self.fed@[i], k)
        &&& forall|i: int, e: int|
            0 <= i < k && !self.fed@[i] && 0 <= e < lane_count::<F>(l) ==> #[trigger] lane::<F>(
                self.block@,
                l,
                i,
                e,
            ) == F::zero_elem()
        &&& forall|j: int, e: int|
            0 <= j < m && 0 <= e < lane_count::<F>(l) ==> #[trigger] lane::<F>(
                self.repairs@,
                l,
                j,
                e,
            ) == codeword(point_coef::<F, P>(k), k, lane_message(self.block@, l, e), k + j)
    }

    pub closed spec fn code(&self) -> Code {
        point_code::<F, P>(self.k as int, self.m as int, self.symbol_len as int)
    }

    pub closed spec fn fed_block(&self) -> Seq<u8> {
        self.block@
    }

    pub closed spec fn is_fed(&self, index: int) -> bool {
        self.fed@[index]
    }

    /// Starts with no data fed; `coeffs` is the coefficient table of the points.
    pub fn new(matrix: P, k: usize, m: usize, symbol_len: usize, coeffs: Vec<F>) -> (r: Self)
        requires
            k + m <= P::point_count(),
            whole_lanes::<F>(symbol_len as int),
            point_code::<F, P>(k as int, m as int, symbol_len as int).well_shaped(),
            m * symbol_len <= usize::MAX,
            is_coefficient_table::<F, P>(k as int, m as int, coeffs@),
        ensures
            r.valid(),
            r.code() == point_code::<F, P>(k as int, m as int, symbol_len as int),
            r.fed_block() == zero_block(k * symbol_len),
            forall|i: int| 0 <= i < k ==> !(#[trigger] r.is_fed(i)),
    {
        proof {
            assert(0 <= m * symbol_len <= (k + m) * symbol_len && 0 <= k * symbol_len)
                by (nonlinear_arith)
                requires
                    0 <= k,
                    0 <= m,
                    0 <= symbol_len,
            ;
        }
        let repairs: Vec<u8> = vec![0u8; m * symbol_len];
        let fed: Vec<bool> = vec![false; k];
        let r = RepairAccumulator {
            matrix,
            k,
            m,
            symbol_len,
            coeffs,
            repairs,
            fed,
            fed_count: 0,
            block: Ghost(zero_block(k * symbol_len)),
        };
        proof {
            zero_state::<F, P>(k as int, m as int, symbol_len as int, r.block@, r.repairs@);
            fed_total_bounds(|i: int| r.fed@[i], k as int);
        }
        r
    }

    /// Number of distinct data symbols fed so far.
    pub fn fed_count(&self) -> (r: usize)
        requires
            self.valid(),
        ensures
            r == fed_total(|i: int| self.is_fed(i), self.code().k),
    {
        proof {
            fed_total_congruent(
                |i: int| self.is_fed(i),
                |i: int| self.fed@[i],
                self.k as int,
            );
        }
        self.fed_count
    }

    pub fn k(&self) -> (r: usize)
        ensures
            r == self.code().k,
    {
        self.k
    }

    pub fn m(&self) -> (r: usize)
        ensures
            r == self.code().m,
    {
        self.m
    }

    pub fn symbol_len(&self) -> (r: usize)
        ensures
            r == self.code().symbol_len,
    {
        self.symbol_len
    }

    /// Adds one data symbol's contribution to every repair.
    pub fn feed(&mut self, index: usize, data: &[u8]) -> (r: Result<(), EncodeError>)
        requires
            old(self).valid(),
        ensures
            final(self).valid(),
            final(self).code() == old(self).code(),
            match feed_fault(
                old(self).code(),
                old(self).is_fed(index as int),
                index as int,
                data@.len() as int,
            ) {
                Some(e) => r == Err::<(), EncodeError>(e) && *final(self) == *old(self),
                None => r == Ok::<(), EncodeError>(()) && final(self).fed_block() == with_symbol(
                    old(self).fed_block(),
                    old(self).code().symbol_len,
                    index as int,
                    data@,
                ) && forall|i: int|
                    0 <= i < old(self).code().k ==> #[trigger] final(self).is_fed(i) == (i == index
                        || old(self).is_fed(i)),
            },
            r is Ok <==> index < old(self).code().k && data@.len() == old(self).code().symbol_len
                && !old(self).is_fed(
                index as int,
            ),
            index >= old(self).code().k <==> r matches Err(EncodeError::IndexOutOfRange { .. }),
            r is Ok ==> final(self).is_fed(index as int),
            r is Err ==> *final(self) == *old(self),
            match r {
                Ok(_) => true,
                Err(EncodeError::IndexOutOfRange { index: refused, n }) => refused == index
                    && n == old(self).code().k
                    + old(self).code().m,
                Err(EncodeError::WrongPayloadLen { expected, got }) => expected
                    == old(self).code().symbol_len && got
                    == data@.len() && got != expected && index < old(self).code().k,
                Err(EncodeError::DuplicateData { index: refused }) => refused == index
                    && old(self).is_fed(
                    index as int,
                ) && data@.len() == old(self).code().symbol_len,
                _ => false,
            },
    {
        if index >= self.k {
            return Err(EncodeError::IndexOutOfRange { index, n: self.k + self.m });
        }
        if data.len() != self.symbol_len {
            return Err(
                EncodeError::WrongPayloadLen { expected: self.symbol_len, got: data.len() },
            );
        }
        if self.fed[index] {
            return Err(EncodeError::DuplicateData { index });
        }
        let ghost k = self.k as int;
        let ghost m = self.m as int;
        let ghost l = self.symbol_len as int;
        let ghost old_block = self.block@;
        let ghost old_repairs = self.repairs@;
        let ghost old_fed = self.fed@;
        proof {
            P::point_count_is_bounded();
            fed_total_bounds(|i: int| old_fed[i], k);
            assert(!(|i: int| old_fed[i])(index as int));
            row_bounds(index as int, k, m);
        }
        let available: usize = self.coeffs.len();
        let start: usize = index * self.m;
        let row = vstd::slice::slice_subrange(&self.coeffs, start, start + self.m);
        F::scale_into_rows(&mut self.repairs, self.symbol_len, row, data);
        self.fed[index] = true;
        self.fed_count = self.fed_count + 1;
        self.block = Ghost(with_symbol(old_block, l, index as int, data@));
        proof {
            fed_total_insert(
                |i: int| old_fed[i],
                |i: int| self.fed@[i],
                index as int,
                k,
            );
            fed_lanes::<F>(k, l, old_block, index as int, data@);
            assert forall|j: int, e: int|
                0 <= j < m && 0 <= e < lane_count::<F>(l) implies #[trigger] lane::<F>(
                self.repairs@,
                l,
                j,
                e,
            ) == codeword(point_coef::<F, P>(k), k, lane_message(self.block@, l, e), k + j) by {
                let coef = point_coef::<F, P>(k);
                let before = lane_message::<F>(old_block, l, e);
                let after = lane_message::<F>(self.block@, l, e);
                let f = |i: int| coef(k + j - k, i).times(before(i));
                let g = |i: int| coef(k + j - k, i).times(after(i));
                assert(lane::<F>(old_block, l, index as int, e) == F::zero_elem());
                times_zero(coef(j, index as int));
                assert(f(index as int) == F::zero_elem());
                assert forall|i: int| 0 <= i < k && i != index implies #[trigger] g(i) == f(i) by {
                    assert(lane::<F>(self.block@, l, i, e) == lane::<F>(old_block, l, i, e));
                }
                sum_insert(f, g, index as int, k);
                assert(lane::<F>(self.block@, l, index as int, e) == lane::<F>(data@, l, 0, e));
                assert(self.coeffs@[index * m + j] == cauchy_entry(
                    P::point(k + j),
                    P::point(index as int),
                ));
                assert(row@[j] == self.coeffs@[index * m + j]);
            }
            assert forall|i: int, e: int|
                0 <= i < k && !self.fed@[i] && 0 <= e < lane_count::<F>(l) implies #[trigger] lane::<
                F,
            >(self.block@, l, i, e) == F::zero_elem() by {
                assert(lane::<F>(old_block, l, i, e) == F::zero_elem());
            }
        }
        Ok(())
    }

    /// Borrows repair symbol `index` of the data fed so far.
    pub fn repair(&self, index: usize) -> (r: Result<&[u8], EncodeError>)
        requires
            self.valid(),
        ensures
            index >= self.code().m ==> r == Err::<&[u8], EncodeError>(
                EncodeError::IndexOutOfRange {
                    index,
                    n: (self.code().k + self.code().m) as usize,
                },
            ),
            index < self.code().m ==> r is Ok && r->Ok_0@ == (self.code().symbol)(
                self.fed_block(),
                self.code().k + index,
            ),
    {
        if index >= self.m {
            return Err(EncodeError::IndexOutOfRange { index, n: self.k + self.m });
        }
        let ghost l = self.symbol_len as int;
        let ghost k = self.k as int;
        proof {
            row_bounds(index as int, self.m as int, l);
            let payload = row_of(self.repairs@, l, index as int);
            assert forall|e: int| 0 <= e < lane_count::<F>(l) implies #[trigger] lane::<F>(
                payload,
                l,
                0,
                e,
            ) == codeword(
                point_coef::<F, P>(k),
                k,
                lane_message(self.block@, l, e),
                k + index,
            ) by {
                lane_of_row::<F>(self.repairs@, l, index as int, self.m as int, e);
            }
            symbol_from_lanes(point_coef::<F, P>(k), k, l, self.block@, k + index, payload);
        }
        Ok(row_slice(&self.repairs, index, self.symbol_len))
    }

    /// Forgets the data fed so far.
    pub fn reset(&mut self)
        requires
            old(self).valid(),
        ensures
            final(self).valid(),
            final(self).code() == old(self).code(),
            final(self).fed_block() == zero_block(old(self).code().k * old(self).code().symbol_len),
            forall|i: int| 0 <= i < old(self).code().k ==> !(#[trigger] final(self).is_fed(i)),
    {
        fill_zero(&mut self.repairs);
        let mut i: usize = 0;
        let ghost k = self.k as int;
        while i < self.fed.len()
            invariant
                i <= self.fed@.len(),
                self.fed@.len() == old(self).fed@.len(),
                self.k == old(self).k,
                self.m == old(self).m,
                self.symbol_len == old(self).symbol_len,
                self.coeffs == old(self).coeffs,
                self.repairs@.len() == old(self).repairs@.len(),
                forall|t: int|
                    0 <= t < self.repairs@.len() ==> #[trigger] self.repairs@[t] == 0,
                forall|j: int| 0 <= j < i ==> !(#[trigger] self.fed@[j]),
            decreases self.fed@.len() - i,
        {
            self.fed[i] = false;
            i += 1;
        }
        self.fed_count = 0;
        self.block = Ghost(zero_block(self.k * self.symbol_len));
        proof {
            assert(0 <= k * self.symbol_len) by (nonlinear_arith)
                requires
                    0 <= k,
            ;
            zero_state::<F, P>(
                k,
                self.m as int,
                self.symbol_len as int,
                self.block@,
                self.repairs@,
            );
            fed_total_bounds(|i: int| self.fed@[i], k);
        }
    }

    /// Consumes the accumulator and returns all repair symbols.
    pub fn into_repairs(self) -> (r: Vec<Vec<u8>>)
        requires
            self.valid(),
        ensures
            r@.len() == self.code().m,
            forall|j: int|
                0 <= j < r@.len() ==> (#[trigger] r@[j])@ == (self.code().symbol)(
                    self.fed_block(),
                    self.code().k + j,
                ),
    {
        let mut symbols: Vec<Vec<u8>> = Vec::new();
        let mut j: usize = 0;
        while j < self.m
            invariant
                j <= self.m,
                self.valid(),
                symbols@.len() == j,
                forall|i: int|
                    0 <= i < j ==> (#[trigger] symbols@[i])@ == (self.code().symbol)(
                        self.fed_block(),
                        self.code().k + i,
                    ),
            decreases self.m - j,
        {
            match self.repair(j) {
                Ok(symbol) => symbols.push(vstd::slice::slice_to_vec(symbol)),
                Err(_) => {},
            }
            j += 1;
        }
        symbols
    }
}

/// A zero block has zero lanes and encodes to zero repairs.
proof fn zero_state<F: PayloadElement, P: PointSet<F>>(
    k: int,
    m: int,
    symbol_len: int,
    block: Seq<u8>,
    repairs: Seq<u8>,
)
    requires
        k >= 0,
        m >= 0,
        whole_lanes::<F>(symbol_len),
        block == zero_block(k * symbol_len),
        repairs.len() == m * symbol_len,
        forall|t: int| 0 <= t < repairs.len() ==> #[trigger] repairs[t] == 0,
        0 <= k * symbol_len,
    ensures
        forall|i: int, e: int|
            0 <= i < k && 0 <= e < lane_count::<F>(symbol_len) ==> #[trigger] lane::<F>(
                block,
                symbol_len,
                i,
                e,
            ) == F::zero_elem(),
        forall|j: int, e: int|
            0 <= j < m && 0 <= e < lane_count::<F>(symbol_len) ==> #[trigger] lane::<F>(
                repairs,
                symbol_len,
                j,
                e,
            ) == codeword(
                point_coef::<F, P>(k),
                k,
                lane_message(block, symbol_len, e),
                k + j,
            ),
{
    assert forall|i: int, e: int|
        0 <= i < k && 0 <= e < lane_count::<F>(symbol_len) implies #[trigger] lane::<F>(
        block,
        symbol_len,
        i,
        e,
    ) == F::zero_elem() by {
        row_bounds(i, k, symbol_len);
        lane_of_zeros::<F>(block, symbol_len, i, e);
    }
    assert forall|j: int, e: int|
        0 <= j < m && 0 <= e < lane_count::<F>(symbol_len) implies #[trigger] lane::<F>(
        repairs,
        symbol_len,
        j,
        e,
    ) == codeword(point_coef::<F, P>(k), k, lane_message(block, symbol_len, e), k + j) by {
        row_bounds(j, m, symbol_len);
        lane_of_zeros::<F>(repairs, symbol_len, j, e);
        let coef = point_coef::<F, P>(k);
        let message = lane_message::<F>(block, symbol_len, e);
        let f = |i: int| coef(k + j - k, i).times(message(i));
        assert forall|i: int| 0 <= i < k implies #[trigger] f(i) == F::zero_elem() by {
            assert(lane::<F>(block, symbol_len, i, e) == F::zero_elem());
            times_zero(coef(j, i));
        }
        sum_of_zeros(f, k);
    }
}

/// Replacing one symbol changes the lanes of that symbol only.
pub proof fn fed_lanes<F: FieldElement>(
    k: int,
    symbol_len: int,
    block: Seq<u8>,
    index: int,
    data: Seq<u8>,
)
    requires
        whole_lanes::<F>(symbol_len),
        block.len() == k * symbol_len,
        data.len() == symbol_len,
        0 <= index < k,
    ensures
        forall|i: int, e: int|
            0 <= i < k && 0 <= e < lane_count::<F>(symbol_len) ==> #[trigger] lane::<F>(
                with_symbol(block, symbol_len, index, data),
                symbol_len,
                i,
                e,
            ) == if i == index {
                lane::<F>(data, symbol_len, 0, e)
            } else {
                lane::<F>(block, symbol_len, i, e)
            },
{
    let after = with_symbol(block, symbol_len, index, data);
    assert forall|i: int, e: int|
        0 <= i < k && 0 <= e < lane_count::<F>(symbol_len) implies #[trigger] lane::<F>(
        after,
        symbol_len,
        i,
        e,
    ) == if i == index {
        lane::<F>(data, symbol_len, 0, e)
    } else {
        lane::<F>(block, symbol_len, i, e)
    } by {
        row_bounds(i, k, symbol_len);
        row_bounds(index, k, symbol_len);
        if i == index {
            assert forall|t: int|
                #![trigger data[0 * symbol_len + t]]
                0 <= t < symbol_len implies after[i * symbol_len + t] == data[0 * symbol_len
                + t] by {
            }
            lane_congruent::<F>(after, i, data, 0, symbol_len, e);
        } else {
            if i < index {
                rows_apart(i, index, symbol_len);
            } else {
                rows_apart(index, i, symbol_len);
            }
            assert forall|t: int|
                #![trigger block[i * symbol_len + t]]
                0 <= t < symbol_len implies after[i * symbol_len + t] == block[i * symbol_len
                + t] by {
            }
            lane_congruent::<F>(after, i, block, i, symbol_len, e);
        }
    }
}

} // verus!
