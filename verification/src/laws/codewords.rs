//! What the symbols of a codeword are, engine by engine: the receiver of a code
//! has to know no more than this to agree with its sender.

use vstd::prelude::*;

use crate::afft::code::{afft_code, afft_coef, afft_point, afft_points_differ};
use crate::afft::field::Field;
use crate::algebra::domains::span_size;
use crate::algebra::evaluation_code::{codeword_is_evaluation, first_points};
use crate::algebra::field::FieldElement;
use crate::algebra::interpolation::{degree_below, distinct, interpolation_is_exact, lagrange};
use crate::algebra::powers::power;
use crate::algebra::sums::{sum, sum_congruent};
use crate::algebra::{gf256, gf65536};
use crate::codec::{Engine, Geometry};
use crate::matrices::cauchy::CauchyView;
use crate::matrices::coding_matrix::{point_code, point_coef, PointSet};
use crate::matrices::good_cauchy::GoodCauchyView;
use crate::payload::PayloadElement;
use crate::selector::{construction_fault, constructible_geometries, geometry_code};
use crate::symbols::{lane, lane_count, lane_message, lane_of_symbol, whole_lanes};
use crate::tower::cauchy::TowerCauchyView;

verus! {

/// Over GF(256) an element is a byte; over GF(65536) it is two, of which the first
/// is the low half of its value.
pub proof fn elements_are_bytes(bytes: Seq<u8>, symbol_len: int, row: int, e: int)
    ensures
        lane::<gf256::GfElem>(bytes, symbol_len, row, e).0 == bytes[row * symbol_len + e],
        lane::<gf65536::GfElem>(bytes, symbol_len, row, e).0 == bytes[row * symbol_len + 2 * e]
            + 256 * bytes[row * symbol_len + 2 * e + 1],
{
    let at = row * symbol_len + 2 * e;
    let (low, high) = (bytes[at], bytes[at + 1]);
    assert((low as u16) | ((high as u16) << 8u16) == low + 256 * high) by (bit_vector);
}

/// A repair lane of a point code is the sum of the data lanes, each divided by the
/// sum of its point and the repair's.
proof fn point_repairs<F: PayloadElement, P: PointSet<F>>(
    k: int,
    m: int,
    symbol_len: int,
    data: Seq<u8>,
    j: int,
    e: int,
)
    requires
        whole_lanes::<F>(symbol_len),
        0 <= e < lane_count::<F>(symbol_len),
        0 <= j,
    ensures
        lane::<F>((point_code::<F, P>(k, m, symbol_len).symbol)(data, k + j), symbol_len, 0, e)
            == sum(
            |i: int|
                P::point(k + j).plus(P::point(i)).recip().times(lane(data, symbol_len, i, e)),
            k,
        ),
{
    let coef = point_coef::<F, P>(k);
    lane_of_symbol(coef, k, symbol_len, data, k + j, e);
    let message = lane_message::<F>(data, symbol_len, e);
    let left = |i: int| coef(j, i).times(message(i));
    let right = |i: int|
        P::point(k + j).plus(P::point(i)).recip().times(lane::<F>(data, symbol_len, i, e));
    let shifted = |i: int| coef(k + j - k, i).times(message(i));
    assert forall|i: int| 0 <= i < k implies #[trigger] shifted(i) == right(i) by {
    }
    sum_congruent(shifted, right, k);
}

/// Standard Cauchy: byte `e` of repair symbol `j` is the sum over the data symbols
/// `i` of their bytes `e`, each divided by the sum of the elements `k + j` and
/// `i`.
pub proof fn standard_cauchy_repairs(geometry: Geometry, data: Seq<u8>, j: int, e: int)
    requires
        geometry.engine == Engine::StandardCauchy,
        geometry.k >= 0,
        geometry.m >= 0,
        geometry.symbol_len >= 0,
        construction_fault(geometry) is None,
        0 <= j < geometry.m,
        0 <= e < lane_count::<gf256::GfElem>(geometry.symbol_len),
    ensures
        lane::<gf256::GfElem>(
            (geometry_code(geometry).symbol)(data, geometry.k + j),
            geometry.symbol_len,
            0,
            e,
        ) == sum(
            |i: int|
                gf256::GfElem((geometry.k + j) as u8).plus(gf256::GfElem(i as u8)).recip().times(
                    lane(data, geometry.symbol_len, i, e),
                ),
            geometry.k,
        ),
{
    let (k, l) = (geometry.k, geometry.symbol_len);
    point_repairs::<gf256::GfElem, CauchyView>(k, geometry.m, l, data, j, e);
    let left = |i: int|
        CauchyView::point(k + j).plus(CauchyView::point(i)).recip().times(
            lane::<gf256::GfElem>(data, l, i, e),
        );
    let right = |i: int|
        gf256::GfElem((k + j) as u8).plus(gf256::GfElem(i as u8)).recip().times(
            lane::<gf256::GfElem>(data, l, i, e),
        );
    sum_congruent(left, right, k);
}

/// Good Cauchy: byte `e` of repair symbol `j` is the sum over the data symbols `i`
/// of their bytes `e`, each divided by the sum of the powers `k + j` and `i` of
/// the generator `x + 1`.
pub proof fn good_cauchy_repairs(geometry: Geometry, data: Seq<u8>, j: int, e: int)
    requires
        geometry.engine == Engine::GoodCauchy,
        geometry.k >= 0,
        geometry.m >= 0,
        geometry.symbol_len >= 0,
        construction_fault(geometry) is None,
        0 <= j < geometry.m,
        0 <= e < lane_count::<gf256::GfElem>(geometry.symbol_len),
    ensures
        lane::<gf256::GfElem>(
            (geometry_code(geometry).symbol)(data, geometry.k + j),
            geometry.symbol_len,
            0,
            e,
        ) == sum(
            |i: int|
                power(gf256::GfElem(3), (geometry.k + j) as nat).plus(
                    power(gf256::GfElem(3), i as nat),
                ).recip().times(lane(data, geometry.symbol_len, i, e)),
            geometry.k,
        ),
{
    let (k, l) = (geometry.k, geometry.symbol_len);
    point_repairs::<gf256::GfElem, GoodCauchyView>(k, geometry.m, l, data, j, e);
    let left = |i: int|
        GoodCauchyView::point(k + j).plus(GoodCauchyView::point(i)).recip().times(
            lane::<gf256::GfElem>(data, l, i, e),
        );
    let right = |i: int|
        power(gf256::GfElem(3), (k + j) as nat).plus(
            power(gf256::GfElem(3), i as nat),
        ).recip().times(lane::<gf256::GfElem>(data, l, i, e));
    sum_congruent(left, right, k);
}

/// Tower: element `e` of repair symbol `j` is the sum over the data symbols `i` of
/// their elements `e`, each divided by the sum of the powers `k + j` and `i` of
/// the generator `8 + u`.
pub proof fn tower_repairs(geometry: Geometry, data: Seq<u8>, j: int, e: int)
    requires
        geometry.engine == Engine::Tower,
        geometry.k >= 0,
        geometry.m >= 0,
        geometry.symbol_len >= 0,
        construction_fault(geometry) is None,
        0 <= j < geometry.m,
        0 <= e < lane_count::<gf65536::GfElem>(geometry.symbol_len),
    ensures
        lane::<gf65536::GfElem>(
            (geometry_code(geometry).symbol)(data, geometry.k + j),
            geometry.symbol_len,
            0,
            e,
        ) == sum(
            |i: int|
                power(gf65536::GfElem(0x0108), (geometry.k + j) as nat).plus(
                    power(gf65536::GfElem(0x0108), i as nat),
                ).recip().times(lane(data, geometry.symbol_len, i, e)),
            geometry.k,
        ),
{
    let (k, l) = (geometry.k, geometry.symbol_len);
    point_repairs::<gf65536::GfElem, TowerCauchyView>(k, geometry.m, l, data, j, e);
    let left = |i: int|
        TowerCauchyView::point(k + j).plus(TowerCauchyView::point(i)).recip().times(
            lane::<gf65536::GfElem>(data, l, i, e),
        );
    let right = |i: int|
        power(gf65536::GfElem(0x0108), (k + j) as nat).plus(
            power(gf65536::GfElem(0x0108), i as nat),
        ).recip().times(lane::<gf65536::GfElem>(data, l, i, e));
    sum_congruent(left, right, k);
}

/// A repair lane of a transform code is the value, at the element with the
/// repair's bit pattern, of the polynomial of degree below `k` that takes the
/// data lanes at the elements with the bit patterns below `k`.
proof fn transform_repairs<F: Field>(
    geometry: Geometry,
    data: Seq<u8>,
    f: spec_fn(F) -> F,
    j: int,
    e: int,
)
    requires
        geometry_code(geometry) == afft_code::<F>(
            geometry.k,
            geometry.m,
            geometry.symbol_len,
        ),
        geometry.k >= 1,
        geometry.k + geometry.m <= span_size(F::bits()),
        whole_lanes::<F>(geometry.symbol_len),
        0 <= j < geometry.m,
        0 <= e < lane_count::<F>(geometry.symbol_len),
        degree_below(f, geometry.k),
        forall|i: int|
            0 <= i < geometry.k ==> f(#[trigger] F::of_raw(i)) == lane::<F>(
                data,
                geometry.symbol_len,
                i,
                e,
            ),
    ensures
        lane::<F>(
            (geometry_code(geometry).symbol)(data, geometry.k + j),
            geometry.symbol_len,
            0,
            e,
        ) == f(F::of_raw(geometry.k + j)),
{
    let (k, l) = (geometry.k, geometry.symbol_len);
    let coef = afft_coef::<F>(k);
    let message = lane_message::<F>(data, l, e);
    let point = afft_point::<F>();
    let x = F::of_raw(k + j);
    lane_of_symbol(coef, k, l, data, k + j, e);
    afft_points_differ::<F>(k);
    codeword_is_evaluation(point, k, message, k + j);
    let nodes = first_points(point, k);
    assert(distinct(nodes)) by {
        assert forall|a: int, b: int|
            0 <= a < nodes.len() && 0 <= b < nodes.len() && a != b implies #[trigger] nodes[a]
            != #[trigger] nodes[b] by {
            assert(point(a) != point(b));
        }
    }
    interpolation_is_exact(nodes, f, x);
    let left = |i: int| f(nodes[i]).times(lagrange(nodes, i, x));
    let right = |i: int| message(i).times(lagrange(nodes, i, x));
    assert forall|i: int| 0 <= i < k implies #[trigger] left(i) == right(i) by {
        assert(nodes[i] == F::of_raw(i));
    }
    sum_congruent(left, right, k);
    assert(point(k + j) == x);
}

/// GF(256) transform: byte `e` of repair symbol `j` is the value at `k + j` of the
/// polynomial of degree below `k` whose values at `0..k` are the bytes `e` of the
/// data symbols.
pub proof fn gf8_transform_repairs(
    geometry: Geometry,
    data: Seq<u8>,
    f: spec_fn(gf256::GfElem) -> gf256::GfElem,
    j: int,
    e: int,
)
    requires
        geometry.engine == Engine::Gf8Afft,
        geometry.k >= 0,
        geometry.m >= 0,
        geometry.symbol_len >= 0,
        construction_fault(geometry) is None,
        0 <= j < geometry.m,
        0 <= e < lane_count::<gf256::GfElem>(geometry.symbol_len),
        degree_below(f, geometry.k),
        forall|i: int|
            0 <= i < geometry.k ==> f(gf256::GfElem(i as u8)) == #[trigger] lane::<gf256::GfElem>(
                data,
                geometry.symbol_len,
                i,
                e,
            ),
    ensures
        lane::<gf256::GfElem>(
            (geometry_code(geometry).symbol)(data, geometry.k + j),
            geometry.symbol_len,
            0,
            e,
        ) == f(gf256::GfElem((geometry.k + j) as u8)),
{
    constructible_geometries(geometry);
    reveal_with_fuel(span_size, 9);
    assert forall|i: int| 0 <= i < geometry.k implies f(
        #[trigger] <gf256::GfElem as Field>::of_raw(i),
    ) == lane::<gf256::GfElem>(data, geometry.symbol_len, i, e) by {
        assert(<gf256::GfElem as Field>::of_raw(i) == gf256::GfElem(i as u8));
    }
    transform_repairs::<gf256::GfElem>(geometry, data, f, j, e);
}

/// GF(65536) transform: element `e` of repair symbol `j` is the value at `k + j` of
/// the polynomial of degree below `k` whose values at `0..k` are the elements `e`
/// of the data symbols.
pub proof fn gf16_transform_repairs(
    geometry: Geometry,
    data: Seq<u8>,
    f: spec_fn(gf65536::GfElem) -> gf65536::GfElem,
    j: int,
    e: int,
)
    requires
        geometry.engine == Engine::Gf16Afft,
        geometry.k >= 0,
        geometry.m >= 0,
        geometry.symbol_len >= 0,
        construction_fault(geometry) is None,
        0 <= j < geometry.m,
        0 <= e < lane_count::<gf65536::GfElem>(geometry.symbol_len),
        degree_below(f, geometry.k),
        forall|i: int|
            0 <= i < geometry.k ==> f(gf65536::GfElem(i as u16)) == #[trigger] lane::<
                gf65536::GfElem,
            >(data, geometry.symbol_len, i, e),
    ensures
        lane::<gf65536::GfElem>(
            (geometry_code(geometry).symbol)(data, geometry.k + j),
            geometry.symbol_len,
            0,
            e,
        ) == f(gf65536::GfElem((geometry.k + j) as u16)),
{
    constructible_geometries(geometry);
    reveal_with_fuel(span_size, 17);
    assert forall|i: int| 0 <= i < geometry.k implies f(
        #[trigger] <gf65536::GfElem as Field>::of_raw(i),
    ) == lane::<gf65536::GfElem>(data, geometry.symbol_len, i, e) by {
        assert(<gf65536::GfElem as Field>::of_raw(i) == gf65536::GfElem(i as u16));
    }
    transform_repairs::<gf65536::GfElem>(geometry, data, f, j, e);
}

} // verus!
