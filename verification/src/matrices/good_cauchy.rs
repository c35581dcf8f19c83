//! Good Cauchy matrices: geometric-progression points for fast encoding.
//!
//! With a generator `g` of the multiplicative group of GF(256), the points are
//! `X = {g^0, .., g^(k-1)}` and `Y = {g^k, .., g^(k+m-1)}`, so that
//!
//! ```text
//! C[i][j] = 1 / (g^i + g^(k+j)) = g^(-i) * 1 / (1 + g^(k+j-i))
//! ```
//!
//! depends only on `j - i` up to the row scale `g^(-i)`.

use vstd::prelude::*;

use crate::algebra::cauchy::cauchy_entry;
use crate::algebra::field::{plus_comm, plus_is_zero, recip_of_product, FieldElement};
use crate::algebra::generators::{
    gf256_generator_order, power_modulo, powers_are_distinct,
};
use crate::algebra::gf256::{GfElem, GENERATOR};
use crate::algebra::powers::{power, power_plus};
use crate::codec::Engine;
use crate::matrices::coding_matrix::{
    data_point, engine_points, fits_points, is_coefficient_table, CodingMatrix, PointSet,
};
use crate::payload::xor_scaled_bytes;
use crate::symbols::scaled_into;

verus! {

/// A Good Cauchy matrix view with geometric-progression index sets.
#[derive(Clone, Copy, Debug)]
pub struct GoodCauchyView {
    k: usize,
    m: usize,
}

impl PointSet<GfElem> for GoodCauchyView {
    open spec fn point(index: int) -> GfElem {
        power(GfElem(GENERATOR), index as nat)
    }

    open spec fn point_count() -> int {
        255
    }

    open spec fn engine_spec() -> Engine {
        Engine::GoodCauchy
    }

    proof fn points_are_distinct(i: int, j: int) {
        gf256_generator_order();
        powers_are_distinct(GfElem(GENERATOR), 255, i as nat, j as nat);
    }

    proof fn point_count_is_bounded() {
    }

    fn point_value(index: usize) -> (r: GfElem) {
        GfElem(exp(index))
    }
}

/// The exponential `g^e`; `e` counts modulo 255 because `g^255 = 1`.
pub fn exp(e: usize) -> (r: u8)
    ensures
        GfElem(r) == power(GfElem(GENERATOR), e as nat),
        e % 255 == 0 ==> r == 1,
{
    proof {
        gf256_generator_order();
        power_modulo(GfElem(GENERATOR), 255, e as nat);
    }
    GfElem(GENERATOR).pow((e % 255) as u32).0
}

impl GoodCauchyView {
    /// Constructs a view for `(k, m)`, or `None` if either is zero or
    /// `k + m > 255`.
    ///
    /// The cap is 255 because `g^0 .. g^(n-1)` must be `n` distinct nonzero
    /// elements and `g^255 = g^0`.
    pub fn new(k: usize, m: usize) -> (r: Option<Self>)
        ensures
            r is Some <==> (k != 0 && m != 0 && k + m <= 255),
            r matches Some(c) ==> c.data_symbols() == k && c.repair_symbols() == m,
    {
        if k == 0 || m == 0 || k > 255 || m > 255 - k {
            return None;
        }
        Some(GoodCauchyView { k, m })
    }

    /// Number of data symbols `k`.
    pub fn k(&self) -> (r: usize)
        ensures
            r == self.data_symbols(),
    {
        self.k
    }

    /// Number of repair symbols `m`.
    pub fn m(&self) -> (r: usize)
        ensures
            r == self.repair_symbols(),
    {
        self.m
    }

    /// Reads the `(i, j)` Good Cauchy coefficient `1 / (x_i + y_j)`.
    pub fn get(&self, i: usize, j: usize) -> (r: GfElem)
        requires
            fits_points(
                self.data_symbols(),
                self.repair_symbols(),
                Self::point_count(),
            ),
            i < self.data_symbols(),
            j < self.repair_symbols(),
        ensures
            r == cauchy_entry(Self::point(self.data_symbols() + j), Self::point(i as int)),
            r.times(power(GfElem(3), i as nat).plus(power(GfElem(3), (self.data_symbols()
                + j) as nat)))
                == GfElem(1),
    {
        proof {
            broadcast use plus_comm;

            Self::points_are_distinct(i as int, self.data_symbols() + j);
            let (x, y) = (Self::point(i as int), Self::point(self.data_symbols() + j));
            plus_is_zero(x, y);
            GfElem::times_recip(x.plus(y));
            GfElem::times_commutes(x.plus(y), x.plus(y).recip());
        }
        self.x_at(i).add(self.y_at(j)).inv()
    }

    /// Materializes coefficients via the diagonal factorization, which needs
    /// only `k + (k + m - 1)` inverses.
    pub fn coefficient_matrix(&self) -> (r: Vec<GfElem>)
        requires
            fits_points(
                self.data_symbols(),
                self.repair_symbols(),
                Self::point_count(),
            ),
        ensures
            is_coefficient_table::<GfElem, Self>(self.data_symbols(), self.repair_symbols(), r@),
    {
        let ghost g = GfElem(GENERATOR);
        let mut row_scale: Vec<GfElem> = Vec::new();
        let mut i: usize = 0;
        while i < self.k
            invariant
                i <= self.k,
                g == GfElem(GENERATOR),
                row_scale@.len() == i,
                forall|a: int|
                    0 <= a < i ==> #[trigger] row_scale@[a] == power(g, a as nat).recip(),
            decreases self.k - i,
        {
            row_scale.push(GfElem(exp(i)).inv());
            i += 1;
        }
        let max_d: usize = self.k + self.m - 1;
        let mut base: Vec<GfElem> = Vec::new();
        base.push(GfElem(0));
        let mut d: usize = 1;
        while d <= max_d
            invariant
                1 <= d <= max_d + 1,
                max_d < 255,
                g == GfElem(GENERATOR),
                base@.len() == d,
                forall|b: int|
                    1 <= b < d ==> #[trigger] base@[b] == GfElem(1).plus(
                        power(g, b as nat),
                    ).recip(),
            decreases max_d + 1 - d,
        {
            base.push(GfElem(1).add(GfElem(exp(d))).inv());
            d += 1;
        }
        let mut table: Vec<GfElem> = Vec::new();
        let mut row: usize = 0;
        while row < self.k
            invariant
                row <= self.k,
                fits_points(
                self.data_symbols(),
                self.repair_symbols(),
                Self::point_count(),
            ),
                max_d == self.k + self.m - 1,
                g == GfElem(GENERATOR),
                row_scale@.len() == self.k,
                base@.len() == max_d + 1,
                table@.len() == row * self.m,
                forall|a: int|
                    0 <= a < self.k ==> #[trigger] row_scale@[a] == power(g, a as nat).recip(),
                forall|b: int|
                    1 <= b <= max_d ==> #[trigger] base@[b] == GfElem(1).plus(
                        power(g, b as nat),
                    ).recip(),
                forall|a: int, b: int|
                    0 <= a < row && 0 <= b < self.m ==> table@[a * self.m + b]
                        == #[trigger] cauchy_entry(Self::point(self.k + b), Self::point(a)),
            decreases self.k - row,
        {
            let mut j: usize = 0;
            while j < self.m
                invariant
                    j <= self.m,
                    row < self.k,
                    fits_points(
                self.data_symbols(),
                self.repair_symbols(),
                Self::point_count(),
            ),
                    max_d == self.k + self.m - 1,
                    g == GfElem(GENERATOR),
                    row_scale@.len() == self.k,
                    base@.len() == max_d + 1,
                    table@.len() == row * self.m + j,
                    forall|a: int|
                        0 <= a < self.k ==> #[trigger] row_scale@[a] == power(
                            g,
                            a as nat,
                        ).recip(),
                    forall|b: int|
                        1 <= b <= max_d ==> #[trigger] base@[b] == GfElem(1).plus(
                            power(g, b as nat),
                        ).recip(),
                    forall|a: int, b: int|
                        0 <= a < row && 0 <= b < self.m ==> table@[a * self.m + b]
                            == #[trigger] cauchy_entry(Self::point(self.k + b), Self::point(a)),
                    forall|b: int|
                        0 <= b < j ==> table@[row * self.m + b] == #[trigger] cauchy_entry(
                            Self::point(self.k + b),
                            Self::point(row as int),
                        ),
                decreases self.m - j,
            {
                let ghost before = table@;
                let diagonal: usize = self.k + j - row;
                let entry = row_scale[row].mul(base[diagonal]);
                assert(entry == cauchy_entry(
                    Self::point(self.k + j),
                    Self::point(row as int),
                )) by {
                    diagonal_entry(row as nat, diagonal as nat);
                    assert(row as nat + diagonal as nat == (self.k + j) as nat);
                }
                table.push(entry);
                proof {
                    assert forall|a: int, b: int|
                        0 <= a < row && 0 <= b < self.m implies table@[a * self.m + b]
                        == #[trigger] cauchy_entry(Self::point(self.k + b), Self::point(a)) by {
                        crate::symbols::row_bounds(a, row as int, self.m as int);
                        assert(before[a * self.m + b] == cauchy_entry(
                            Self::point(self.k + b),
                            Self::point(a),
                        ));
                    }
                }
                j += 1;
            }
            proof {
                crate::symbols::row_bounds(row as int, self.k as int, self.m as int);
            }
            row += 1;
        }
        table
    }

    /// The point `x_i = g^i` of row `i`.
    fn x_at(&self, i: usize) -> (r: GfElem)
        requires
            i < self.data_symbols(),
        ensures
            r == Self::point(i as int),
    {
        GfElem(exp(i))
    }

    /// The point `y_j = g^(k+j)` of column `j`.
    fn y_at(&self, j: usize) -> (r: GfElem)
        requires
            fits_points(
                self.data_symbols(),
                self.repair_symbols(),
                Self::point_count(),
            ),
            j < self.repair_symbols(),
        ensures
            r == Self::point(self.data_symbols() + j),
    {
        GfElem(exp(self.k + j))
    }

    /// Row `i`: the coefficients of data symbol `i` in every repair symbol.
    pub fn row(&self, i: usize) -> (r: Vec<GfElem>)
        requires
            fits_points(
                self.data_symbols(),
                self.repair_symbols(),
                Self::point_count(),
            ),
            i < self.data_symbols(),
        ensures
            r@.len() == self.repair_symbols(),
            forall|j: int|
                0 <= j < self.repair_symbols() ==> #[trigger] r@[j] == cauchy_entry(
                    Self::point(self.data_symbols() + j),
                    Self::point(i as int),
                ),
    {
        let x = self.x_at(i);
        let mut row: Vec<GfElem> = Vec::new();
        let mut j: usize = 0;
        while j < self.m
            invariant
                j <= self.m,
                fits_points(
                self.data_symbols(),
                self.repair_symbols(),
                Self::point_count(),
            ),
                x == Self::point(i as int),
                row@.len() == j,
                forall|b: int|
                    0 <= b < j ==> #[trigger] row@[b] == cauchy_entry(
                        Self::point(self.data_symbols() + b),
                        Self::point(i as int),
                    ),
            decreases self.m - j,
        {
            proof {
                broadcast use plus_comm;

            }
            row.push(x.add(self.y_at(j)).inv());
            j += 1;
        }
        row
    }

    /// Materializes the full `k` by `m` matrix into a flat row-major buffer.
    pub fn to_vec(&self) -> (r: Vec<GfElem>)
        requires
            fits_points(
                self.data_symbols(),
                self.repair_symbols(),
                Self::point_count(),
            ),
        ensures
            is_coefficient_table::<GfElem, Self>(self.data_symbols(), self.repair_symbols(), r@),
    {
        self.coefficient_matrix()
    }

    /// Adds the contribution of data symbol `i` to every repair symbol.
    pub fn add_data_symbol(&self, i: usize, data: &[u8], repairs: &mut Vec<Vec<u8>>)
        requires
            fits_points(
                self.data_symbols(),
                self.repair_symbols(),
                Self::point_count(),
            ),
            i < self.data_symbols(),
            old(repairs)@.len() == self.repair_symbols(),
            forall|j: int|
                0 <= j < self.repair_symbols() ==> (#[trigger] old(repairs)@[j])@.len()
                    == data@.len(),
        ensures
            final(repairs)@.len() == old(repairs)@.len(),
            forall|j: int|
                0 <= j < self.repair_symbols() ==> scaled_into(
                    old(repairs)@[j]@,
                    (#[trigger] final(repairs)@[j])@,
                    cauchy_entry(Self::point(self.data_symbols() + j), Self::point(i as int)),
                    data@,
                ),
    {
        let x = self.x_at(i);
        let mut j: usize = 0;
        while j < self.m
            invariant
                j <= self.m,
                fits_points(
                self.data_symbols(),
                self.repair_symbols(),
                Self::point_count(),
            ),
                x == Self::point(i as int),
                repairs@.len() == old(repairs)@.len() == self.repair_symbols(),
                forall|b: int|
                    0 <= b < self.repair_symbols() ==> (#[trigger] old(repairs)@[b])@.len()
                        == data@.len(),
                forall|b: int|
                    0 <= b < j ==> scaled_into(
                        old(repairs)@[b]@,
                        (#[trigger] repairs@[b])@,
                        cauchy_entry(Self::point(self.data_symbols() + b), Self::point(i as int)),
                        data@,
                    ),
                forall|b: int|
                    j <= b < self.repair_symbols() ==> #[trigger] repairs@[b] == old(repairs)@[b],
            decreases self.m - j,
        {
            proof {
                broadcast use plus_comm;

            }
            let coefficient = x.add(self.y_at(j)).inv();
            let mut repair: Vec<u8> = Vec::new();
            std::mem::swap(&mut repair, &mut repairs[j]);
            xor_scaled_bytes(&mut repair, coefficient, data);
            repairs[j] = repair;
            j += 1;
        }
    }
}

/// `1 / (g^i + g^(i+d)) = g^(-i) * 1 / (1 + g^d)`.
proof fn diagonal_entry(i: nat, d: nat)
    ensures
        cauchy_entry(
            power(GfElem(GENERATOR), i + d),
            power(GfElem(GENERATOR), i),
        ) == power(GfElem(GENERATOR), i).recip().times(
            GfElem(1).plus(power(GfElem(GENERATOR), d)).recip(),
        ),
{
    let g = GfElem(GENERATOR);
    let gi = power(g, i);
    let gd = power(g, d);
    power_plus(g, i, d);
    GfElem::times_distributes(gi, GfElem(1), gd);
    GfElem::times_identity(gi);
    GfElem::plus_commutes(gi, power(g, i + d));
    recip_of_product(gi, GfElem(1).plus(gd));
}

impl CodingMatrix for GoodCauchyView {
    closed spec fn data_symbols(&self) -> int {
        self.k as int
    }

    closed spec fn repair_symbols(&self) -> int {
        self.m as int
    }

    proof fn capacity_is_point_count() {
    }

    proof fn points_follow_engine() {
        assert(data_point::<GfElem, Self>() =~= engine_points(Self::engine_spec()));
    }

    fn new(k: usize, m: usize) -> (r: Option<Self>) {
        GoodCauchyView::new(k, m)
    }

    fn capacity() -> (r: usize) {
        255
    }

    fn engine() -> (r: Engine) {
        Engine::GoodCauchy
    }

    fn k(&self) -> (r: usize) {
        self.k
    }

    fn m(&self) -> (r: usize) {
        self.m
    }

    fn get(&self, i: usize, j: usize) -> (r: GfElem) {
        GoodCauchyView::get(self, i, j)
    }

    fn x_var(&self, i: usize) -> (r: GfElem) {
        self.x_at(i)
    }

    fn y_var(&self, j: usize) -> (r: GfElem) {
        self.y_at(j)
    }

    fn coefficient_matrix(&self) -> (r: Vec<GfElem>) {
        GoodCauchyView::coefficient_matrix(self)
    }
}

} // verus!
