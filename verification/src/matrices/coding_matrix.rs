//! Coding matrices given by one evaluation point per codeword position.
//!
//! A matrix with points `p(0), p(1), ..` has the entry
//! `1 / (p(i) + p(k + j))` for data symbol `i` and repair symbol `j`.

use vstd::prelude::*;

use crate::algebra::cauchy::cauchy_entry;
use crate::algebra::field::{plus_is_zero, times_undoes, FieldElement};
use crate::algebra::gf256::{GfElem, GENERATOR};
use crate::algebra::interpolation::distinct;
use crate::algebra::linear_code::{cauchy_code_is_mds, cauchy_coef, cauchy_points};
use crate::algebra::powers::power;
use crate::codec::{Code, Engine};
use crate::payload::PayloadElement;
use crate::symbols::{
    coefficient_code, coefficient_code_is_sound, lanes_determined, same_codeword_at, whole_lanes,
};

verus! {

/// One field element per codeword position, all different.
pub trait PointSet<F: PayloadElement>: Sized {
    /// The point of codeword position `index`.
    spec fn point(index: int) -> F;

    /// Number of positions with a point of their own.
    spec fn point_count() -> int;

    /// The engine that codes over these points.
    spec fn engine_spec() -> Engine;

    proof fn points_are_distinct(i: int, j: int)
        requires
            0 <= i < Self::point_count(),
            0 <= j < Self::point_count(),
            i != j,
        ensures
            Self::point(i) != Self::point(j),
    ;

    proof fn point_count_is_bounded()
        ensures
            2 <= Self::point_count() <= 65535 || Self::point_count() == 65536,
    ;

    fn point_value(index: usize) -> (r: F)
        requires
            index < Self::point_count(),
        ensures
            r == Self::point(index as int),
    ;
}

/// Points of the data symbols.
pub open spec fn data_point<F: PayloadElement, P: PointSet<F>>() -> spec_fn(int) -> F {
    |i: int| P::point(i)
}

/// The points that follow the first `k`.
pub open spec fn shifted<F>(x: spec_fn(int) -> F, k: int) -> spec_fn(int) -> F {
    |j: int| x(k + j)
}

/// Points of the repair symbols.
pub open spec fn repair_point<F: PayloadElement, P: PointSet<F>>(k: int) -> spec_fn(int) -> F {
    shifted(data_point::<F, P>(), k)
}

/// The coefficient of data symbol `i` in repair symbol `j`, for points `x`.
pub open spec fn coef_of_points<F: FieldElement>(x: spec_fn(int) -> F, k: int) -> spec_fn(
    int,
    int,
) -> F {
    cauchy_coef(x, shifted(x, k))
}

/// The coefficient of data symbol `i` in repair symbol `j`.
pub open spec fn point_coef<F: PayloadElement, P: PointSet<F>>(k: int) -> spec_fn(int, int) -> F {
    coef_of_points(data_point::<F, P>(), k)
}

/// The points of the GF(256) Cauchy engines.
pub open spec fn engine_points(engine: Engine) -> spec_fn(int) -> GfElem {
    |i: int|
        match engine {
            Engine::StandardCauchy => GfElem(i as u8),
            Engine::GoodCauchy => power(GfElem(GENERATOR), i as nat),
            _ => GfElem(0),
        }
}

/// The systematic Cauchy code over the points of `P`.
pub open spec fn point_code<F: PayloadElement, P: PointSet<F>>(
    k: int,
    m: int,
    symbol_len: int,
) -> Code {
    coefficient_code(P::engine_spec(), point_coef::<F, P>(k), k, m, symbol_len)
}

/// The points of a codeword that fits are Cauchy points.
pub proof fn points_fit<F: PayloadElement, P: PointSet<F>>(k: int, m: int)
    requires
        k >= 0,
        m >= 0,
        k + m <= P::point_count(),
    ensures
        cauchy_points(data_point::<F, P>(), repair_point::<F, P>(k), k, m),
{
    let x = data_point::<F, P>();
    let y = repair_point::<F, P>(k);
    assert forall|i: int, j: int| 0 <= i < k && 0 <= j < k && i != j implies #[trigger] x(i)
        != #[trigger] x(j) by {
        P::points_are_distinct(i, j);
    }
    assert forall|i: int, j: int| 0 <= i < m && 0 <= j < m && i != j implies #[trigger] y(i)
        != #[trigger] y(j) by {
        P::points_are_distinct(k + i, k + j);
    }
    assert forall|i: int, j: int| 0 <= i < k && 0 <= j < m implies #[trigger] x(i) != #[trigger] y(
        j,
    ) by {
        P::points_are_distinct(i, k + j);
    }
}

/// A Cauchy code over distinct points is systematic, and any `k` of its symbols
/// determine the data.
pub proof fn point_code_is_sound<F: PayloadElement, P: PointSet<F>>(
    k: int,
    m: int,
    symbol_len: int,
)
    requires
        k + m <= P::point_count(),
        whole_lanes::<F>(symbol_len),
        point_code::<F, P>(k, m, symbol_len).well_shaped(),
    ensures
        point_code::<F, P>(k, m, symbol_len).sound(),
{
    let coef = point_coef::<F, P>(k);
    points_fit::<F, P>(k, m);
    assert forall|
        first: spec_fn(int) -> F,
        second: spec_fn(int) -> F,
        indices: Seq<int>,
        at: int,
    |
        #![trigger same_codeword_at(coef, k, first, second, indices), first(at)]
        distinct(indices) && indices.len() == k && (forall|t: int|
            0 <= t < indices.len() ==> 0 <= #[trigger] indices[t] < k + m) && same_codeword_at(
            coef,
            k,
            first,
            second,
            indices,
        ) && 0 <= at < k implies first(at) == second(at) by {
        cauchy_code_is_mds(
            data_point::<F, P>(),
            repair_point::<F, P>(k),
            k,
            m,
            indices,
            first,
            second,
            at,
        );
    }
    assert(lanes_determined(coef, k, m));
    coefficient_code_is_sound(P::engine_spec(), coef, k, m, symbol_len);
}

/// `table[i * m + j]` is the coefficient of data symbol `i` in repair `j`.
pub open spec fn is_coefficient_table<F: PayloadElement, P: PointSet<F>>(
    k: int,
    m: int,
    table: Seq<F>,
) -> bool {
    &&& table.len() == k * m
    &&& forall|i: int, j: int|
        0 <= i < k && 0 <= j < m ==> table[i * m + j] == #[trigger] cauchy_entry(
            P::point(k + j),
            P::point(i),
        )
}

/// A coefficient table holds, data symbol by data symbol, what a data point and a
/// repair point together make one of: their sum times the entry is one.
pub proof fn tables_hold_reciprocals<F: PayloadElement, P: PointSet<F>>(
    k: int,
    m: int,
    table: Seq<F>,
    i: int,
    j: int,
)
    requires
        is_coefficient_table::<F, P>(k, m, table),
        k + m <= P::point_count(),
        0 <= i < k,
        0 <= j < m,
    ensures
        table.len() == k * m,
        table[i * m + j].times(P::point(i).plus(P::point(k + j))) == F::one_elem(),
{
    let (x, y) = (P::point(i), P::point(k + j));
    P::points_are_distinct(i, k + j);
    plus_is_zero(x, y);
    F::plus_commutes(x, y);
    assert(table[i * m + j] == cauchy_entry(y, x));
    times_undoes(x.plus(y), F::one_elem());
}

/// Tabulates every coefficient, data symbol by data symbol.
pub fn tabulate<F: PayloadElement, P: PointSet<F>>(k: usize, m: usize) -> (r: Vec<F>)
    requires
        k + m <= P::point_count(),
    ensures
        is_coefficient_table::<F, P>(k as int, m as int, r@),
{
    let mut table: Vec<F> = Vec::new();
    let mut i: usize = 0;
    proof {
        P::point_count_is_bounded();
    }
    while i < k
        invariant
            i <= k,
            k + m <= P::point_count() <= 65536,
            table@.len() == i * m,
            forall|a: int, b: int|
                0 <= a < i && 0 <= b < m ==> table@[a * m + b] == #[trigger] cauchy_entry(
                    P::point(k + b),
                    P::point(a),
                ),
        decreases k - i,
    {
        let x = P::point_value(i);
        let mut j: usize = 0;
        while j < m
            invariant
                j <= m,
                i < k,
                k + m <= P::point_count() <= 65536,
                x == P::point(i as int),
                table@.len() == i * m + j,
                forall|a: int, b: int|
                    0 <= a < i && 0 <= b < m ==> table@[a * m + b] == #[trigger] cauchy_entry(
                        P::point(k + b),
                        P::point(a),
                    ),
                forall|b: int|
                    0 <= b < j ==> table@[i * m + b] == #[trigger] cauchy_entry(
                        P::point(k + b),
                        P::point(i as int),
                    ),
            decreases m - j,
        {
            let ghost before = table@;
            let y = P::point_value(k + j);
            table.push(y.add_value(x).inv_value());
            proof {
                assert forall|a: int, b: int| 0 <= a < i && 0 <= b < m implies table@[a * m + b]
                    == #[trigger] cauchy_entry(P::point(k + b), P::point(a)) by {
                    crate::symbols::row_bounds(a, i as int, m as int);
                    assert(before[a * m + b] == cauchy_entry(P::point(k + b), P::point(a)));
                }
            }
            j += 1;
        }
        proof {
            crate::symbols::row_bounds(i as int, k as int, m as int);
        }
        i += 1;
    }
    table
}

/// There is a point for every symbol.
pub open spec fn fits_points(k: int, m: int, points: int) -> bool {
    1 <= k && 1 <= m && k + m <= points
}

/// A GF(256) coding matrix.
pub trait CodingMatrix: PointSet<GfElem> {
    /// Number of data symbols.
    spec fn data_symbols(&self) -> int;

    /// Number of repair symbols.
    spec fn repair_symbols(&self) -> int;

    proof fn capacity_is_point_count()
        ensures
            Self::point_count() == Self::engine_spec().capacity_spec(),
            Self::point_count() <= 256,
    ;

    proof fn points_follow_engine()
        ensures
            data_point::<GfElem, Self>() == engine_points(Self::engine_spec()),
    ;

    /// Constructs the matrix for `(k, m)`, if both are nonzero and `k + m` is
    /// within [`capacity`](CodingMatrix::capacity).
    fn new(k: usize, m: usize) -> (r: Option<Self>)
        ensures
            r is Some <==> (k != 0 && m != 0 && k + m <= Self::point_count()),
            r matches Some(c) ==> c.data_symbols() == k && c.repair_symbols() == m,
    ;

    /// The largest `k + m`.
    fn capacity() -> (r: usize)
        ensures
            r == Self::point_count(),
    ;

    /// The engine this matrix belongs to.
    fn engine() -> (r: Engine)
        ensures
            r == Self::engine_spec(),
    ;

    /// Number of data symbols `k`.
    fn k(&self) -> (r: usize)
        ensures
            r == self.data_symbols(),
    ;

    /// Number of repair symbols `m`.
    fn m(&self) -> (r: usize)
        ensures
            r == self.repair_symbols(),
    ;

    /// The coefficient of data symbol `i` in repair symbol `j`.
    fn get(&self, i: usize, j: usize) -> (r: GfElem)
        requires
            fits_points(
                self.data_symbols(),
                self.repair_symbols(),
                Self::point_count(),
            ),
            i < self.data_symbols(),
            j < self.repair_symbols(),
        ensures
            r == cauchy_entry(Self::point(self.data_symbols() + j), Self::point(i as int)),
    ;

    /// The point of data symbol `i`.
    fn x_var(&self, i: usize) -> (r: GfElem)
        requires
            fits_points(
                self.data_symbols(),
                self.repair_symbols(),
                Self::point_count(),
            ),
            i < self.data_symbols(),
        ensures
            r == Self::point(i as int),
    ;

    /// The point of repair symbol `j`.
    fn y_var(&self, j: usize) -> (r: GfElem)
        requires
            fits_points(
                self.data_symbols(),
                self.repair_symbols(),
                Self::point_count(),
            ),
            j < self.repair_symbols(),
        ensures
            r == Self::point(self.data_symbols() + j),
    ;

    /// All coefficients, row-major as `[data symbol][repair symbol]`.
    fn coefficient_matrix(&self) -> (r: Vec<GfElem>)
        requires
            fits_points(
                self.data_symbols(),
                self.repair_symbols(),
                Self::point_count(),
            ),
        ensures
            is_coefficient_table::<GfElem, Self>(self.data_symbols(), self.repair_symbols(), r@),
    ;
}

} // verus!
