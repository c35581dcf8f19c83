//! The standard Cauchy matrix: points `0, 1, .., k + m - 1`.

use vstd::prelude::*;

use crate::algebra::cauchy::cauchy_entry;
use crate::algebra::field::{plus_comm, plus_is_zero, FieldElement};
use crate::algebra::gf256::GfElem;
use crate::codec::Engine;
use crate::matrices::coding_matrix::{
    data_point, engine_points, fits_points, tabulate, CodingMatrix, PointSet,
};

verus! {

/// A `k` by `m` Cauchy matrix with index sets `X = {0, .., k - 1}` and
/// `Y = {k, .., k + m - 1}`; entries are computed on the fly.
#[derive(Clone, Copy, Debug)]
pub struct CauchyView {
    k: usize,
    m: usize,
}

impl PointSet<GfElem> for CauchyView {
    open spec fn point(index: int) -> GfElem {
        GfElem(index as u8)
    }

    open spec fn point_count() -> int {
        256
    }

    open spec fn engine_spec() -> Engine {
        Engine::StandardCauchy
    }

    proof fn points_are_distinct(i: int, j: int) {
    }

    proof fn point_count_is_bounded() {
    }

    fn point_value(index: usize) -> (r: GfElem) {
        GfElem(index as u8)
    }
}

impl CauchyView {
    /// Constructs a view for `(k, m)`, or `None` if either is zero or
    /// `k + m > 256`.
    pub fn new(k: usize, m: usize) -> (r: Option<Self>)
        ensures
            r is Some <==> (k != 0 && m != 0 && k + m <= 256),
            r matches Some(c) ==> c.data_symbols() == k && c.repair_symbols() == m,
    {
        if k == 0 || m == 0 || k > 256 || m > 256 - k {
            return None;
        }
        Some(CauchyView { k, m })
    }

    /// Number of data symbols `k`.
    pub fn k(&self) -> (r: usize)
        ensures
            r == self.data_symbols(),
    {
        self.k
    }

    /// Number of repair symbols `m`.
    pub fn m(&self) -> (r: usize)
        ensures
            r == self.repair_symbols(),
    {
        self.m
    }

    /// Reads the `(i, j)` coefficient `1 / (x_i + y_j)`.
    pub fn get(&self, i: usize, j: usize) -> (r: GfElem)
        requires
            fits_points(
                self.data_symbols(),
                self.repair_symbols(),
                Self::point_count(),
            ),
            i < self.data_symbols(),
            j < self.repair_symbols(),
        ensures
            r == cauchy_entry(Self::point(self.data_symbols() + j), Self::point(i as int)),
            r.times(GfElem(i as u8).plus(GfElem((self.data_symbols() + j) as u8)))
                == GfElem(1),
    {
        proof {
            broadcast use plus_comm;

            Self::points_are_distinct(i as int, self.data_symbols() + j);
            let (x, y) = (Self::point(i as int), Self::point(self.data_symbols() + j));
            plus_is_zero(x, y);
            GfElem::times_recip(x.plus(y));
            GfElem::times_commutes(x.plus(y), x.plus(y).recip());
        }
        Self::point_value(i).add(Self::point_value(self.k + j)).inv()
    }
}

impl CodingMatrix for CauchyView {
    closed spec fn data_symbols(&self) -> int {
        self.k as int
    }

    closed spec fn repair_symbols(&self) -> int {
        self.m as int
    }

    proof fn capacity_is_point_count() {
    }

    proof fn points_follow_engine() {
        assert(data_point::<GfElem, Self>() =~= engine_points(Self::engine_spec()));
    }

    fn new(k: usize, m: usize) -> (r: Option<Self>) {
        CauchyView::new(k, m)
    }

    fn capacity() -> (r: usize) {
        256
    }

    fn engine() -> (r: Engine) {
        Engine::StandardCauchy
    }

    fn k(&self) -> (r: usize) {
        self.k
    }

    fn m(&self) -> (r: usize) {
        self.m
    }

    fn get(&self, i: usize, j: usize) -> (r: GfElem) {
        CauchyView::get(self, i, j)
    }

    fn x_var(&self, i: usize) -> (r: GfElem) {
        Self::point_value(i)
    }

    fn y_var(&self, j: usize) -> (r: GfElem) {
        Self::point_value(self.k + j)
    }

    fn coefficient_matrix(&self) -> (r: Vec<GfElem>) {
        tabulate::<GfElem, Self>(self.k, self.m)
    }
}

} // verus!
