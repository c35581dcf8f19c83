//! The tower Cauchy matrix: points `g^0, g^1, ..` in GF(65536).

use vstd::prelude::*;

use crate::algebra::cauchy::cauchy_entry;
use crate::algebra::field::{
    no_zero_divisors, plus_comm, plus_is_zero, recip_of_product, times_undoes, FieldElement,
};
use crate::algebra::generators::{gf65536_generator_order, powers_are_distinct};
use crate::algebra::gf65536::{GfElem, GENERATOR};
use crate::algebra::powers::power;
use crate::codec::Engine;
use crate::matrices::coding_matrix::{is_coefficient_table, tabulate, PointSet};

verus! {

/// The largest codeword length: the order of the multiplicative group.
pub const MAX_SYMBOLS: usize = 65535;

/// A `k` by `m` Cauchy matrix with index sets `X = {g^0, .., g^(k-1)}` and
/// `Y = {g^k, .., g^(k+m-1)}`; entries are computed on the fly.
#[derive(Clone, Copy, Debug)]
pub struct TowerCauchyView {
    k: usize,
    m: usize,
}

impl PointSet<GfElem> for TowerCauchyView {
    open spec fn point(index: int) -> GfElem {
        power(GfElem(GENERATOR), index as nat)
    }

    open spec fn point_count() -> int {
        65535
    }

    open spec fn engine_spec() -> Engine {
        Engine::Tower
    }

    proof fn points_are_distinct(i: int, j: int) {
        gf65536_generator_order();
        powers_are_distinct(GfElem(GENERATOR), 65535, i as nat, j as nat);
    }

    proof fn point_count_is_bounded() {
    }

    fn point_value(index: usize) -> (r: GfElem) {
        GfElem(GENERATOR).pow(index as u32)
    }
}

impl TowerCauchyView {
    pub closed spec fn data_symbols(&self) -> int {
        self.k as int
    }

    pub closed spec fn repair_symbols(&self) -> int {
        self.m as int
    }

    /// The matrix fits its points.
    pub open spec fn fits(&self) -> bool {
        &&& 1 <= self.data_symbols()
        &&& 1 <= self.repair_symbols()
        &&& self.data_symbols() + self.repair_symbols() <= 65535
    }

    /// Constructs the matrix for `(k, m)`, if both are nonzero and `k + m` is at
    /// most [`MAX_SYMBOLS`].
    pub fn new(k: usize, m: usize) -> (r: Option<Self>)
        ensures
            r is Some <==> (k != 0 && m != 0 && k + m <= MAX_SYMBOLS),
            r matches Some(c) ==> c.fits() && c.data_symbols() == k && c.repair_symbols() == m,
    {
        if k == 0 || m == 0 || k > MAX_SYMBOLS || m > MAX_SYMBOLS - k {
            return None;
        }
        Some(TowerCauchyView { k, m })
    }

    /// Number of data symbols `k`.
    pub fn k(&self) -> (r: usize)
        ensures
            r == self.data_symbols(),
    {
        self.k
    }

    /// Number of repair symbols `m`.
    pub fn m(&self) -> (r: usize)
        ensures
            r == self.repair_symbols(),
    {
        self.m
    }

    /// The point of data symbol `i`.
    pub fn x_var(&self, i: usize) -> (r: GfElem)
        requires
            self.fits(),
            i < self.data_symbols(),
        ensures
            r == Self::point(i as int),
    {
        Self::point_value(i)
    }

    /// The point of repair symbol `j`.
    pub fn y_var(&self, j: usize) -> (r: GfElem)
        requires
            self.fits(),
            j < self.repair_symbols(),
        ensures
            r == Self::point(self.data_symbols() + j),
    {
        Self::point_value(self.k + j)
    }

    /// The coefficient of data symbol `i` in repair symbol `j`.
    pub fn get(&self, i: usize, j: usize) -> (r: GfElem)
        requires
            self.fits(),
            i < self.data_symbols(),
            j < self.repair_symbols(),
        ensures
            r == cauchy_entry(Self::point(self.data_symbols() + j), Self::point(i as int)),
            r.times(power(GfElem(0x0108), i as nat).plus(power(GfElem(0x0108), (self.data_symbols()
                + j) as nat)))
                == GfElem(1),
    {
        proof {
            broadcast use plus_comm;

            Self::points_are_distinct(i as int, self.data_symbols() + j);
            let (x, y) = (Self::point(i as int), Self::point(self.data_symbols() + j));
            plus_is_zero(x, y);
            GfElem::times_recip(x.plus(y));
            GfElem::times_commutes(x.plus(y), x.plus(y).recip());
        }
        self.x_var(i).add(self.y_var(j)).inv()
    }

    /// All coefficients, row-major as `[data symbol][repair symbol]`.
    pub fn coefficient_matrix(&self) -> (r: Vec<GfElem>)
        requires
            self.fits(),
        ensures
            is_coefficient_table::<GfElem, Self>(self.data_symbols(), self.repair_symbols(), r@),
    {
        tabulate::<GfElem, Self>(self.k, self.m)
    }
}

/// The product of the first `count` values.
pub open spec fn prefix_product<F: FieldElement>(values: Seq<F>, count: int) -> F
    decreases count,
{
    if count <= 0 {
        F::one_elem()
    } else {
        prefix_product(values, count - 1).times(values[count - 1])
    }
}

/// A product of nonzero values is nonzero.
proof fn prefix_product_nonzero<F: FieldElement>(values: Seq<F>, count: int)
    requires
        0 <= count <= values.len(),
        forall|i: int| 0 <= i < values.len() ==> #[trigger] values[i] != F::zero_elem(),
    ensures
        prefix_product(values, count) != F::zero_elem(),
    decreases count,
{
    F::one_is_not_zero();
    if count > 0 {
        prefix_product_nonzero(values, count - 1);
        no_zero_divisors(prefix_product(values, count - 1), values[count - 1]);
    }
}

/// Dividing a product by its factors.
proof fn split_reciprocal<F: FieldElement>(product: F, value: F)
    requires
        product != F::zero_elem(),
        value != F::zero_elem(),
    ensures
        product.times(value).recip().times(product) == value.recip(),
        product.times(value).recip().times(value) == product.recip(),
{
    recip_of_product(product, value);
    let p = product.recip();
    let v = value.recip();
    F::times_commutes(p, v);
    F::times_associates(v, p, product);
    times_undoes(product, product);
    F::times_identity(v);
    F::times_associates(p, v, value);
    times_undoes(value, value);
    F::times_identity(p);
}

/// Inverts nonzero field elements in place with one inversion, keeping the
/// prefix products in `prefixes`.
pub fn batch_invert_into<F: FieldElement>(values: &mut [F], prefixes: &mut Vec<F>)
    requires
        forall|i: int| 0 <= i < old(values)@.len() ==> #[trigger] old(values)@[i] != F::zero_elem(),
    ensures
        final(values)@.len() == old(values)@.len(),
        forall|i: int|
            0 <= i < old(values)@.len() ==> #[trigger] final(values)@[i] == old(values)@[i].recip(),
        final(prefixes)@.len() == old(values)@.len(),
        forall|i: int|
            0 <= i < old(values)@.len() ==> #[trigger] final(prefixes)@[i] == prefix_product(
                old(values)@,
                i,
            ),
{
    let ghost start = values@;
    prefixes.clear();
    let mut product = F::one_value();
    let mut i: usize = 0;
    while i < values.len()
        invariant
            i <= values@.len(),
            values@ == start,
            prefixes@.len() == i,
            product == prefix_product(start, i as int),
            forall|t: int| 0 <= t < i ==> #[trigger] prefixes@[t] == prefix_product(start, t),
        decreases values@.len() - i,
    {
        prefixes.push(product);
        product = product.mul_value(values[i]);
        i += 1;
    }
    let mut reciprocal = product.inv_value();
    let mut left: usize = values.len();
    while left > 0
        invariant
            left <= start.len(),
            values@.len() == start.len(),
            prefixes@.len() == start.len(),
            start == old(values)@,
            forall|t: int| 0 <= t < start.len() ==> #[trigger] start[t] != F::zero_elem(),
            forall|t: int|
                0 <= t < start.len() ==> #[trigger] prefixes@[t] == prefix_product(start, t),
            reciprocal == prefix_product(start, left as int).recip(),
            forall|t: int|
                0 <= t < start.len() ==> #[trigger] values@[t] == if t < left {
                    start[t]
                } else {
                    start[t].recip()
                },
        decreases left,
    {
        let index: usize = left - 1;
        let value = values[index];
        proof {
            prefix_product_nonzero(start, index as int);
            assert(start[index as int] != F::zero_elem());
            split_reciprocal(prefix_product(start, index as int), start[index as int]);
        }
        values[index] = reciprocal.mul_value(prefixes[index]);
        reciprocal = reciprocal.mul_value(value);
        left = index;
    }
}

/// Inverts nonzero field elements in place with one inversion.
pub fn batch_invert<F: FieldElement>(values: &mut [F])
    requires
        forall|i: int| 0 <= i < old(values)@.len() ==> #[trigger] old(values)@[i] != F::zero_elem(),
    ensures
        final(values)@.len() == old(values)@.len(),
        forall|i: int|
            0 <= i < old(values)@.len() ==> #[trigger] final(values)@[i] == old(values)@[i].recip(),
{
    let mut prefixes: Vec<F> = Vec::new();
    batch_invert_into(values, &mut prefixes);
}

} // verus!
