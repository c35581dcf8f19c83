//! The code of the additive-transform engines.
//!
//! Data symbols are the values of a polynomial of degree below `k` at the field
//! elements with bit patterns `0..k`, repairs its values at the patterns
//! `k..k + m`.

use vstd::prelude::*;

use crate::afft::field::{
    pattern_basis, pattern_basis_is_independent, pattern_point, patterns_differ, Field,
};
use crate::algebra::domains::{span_point, span_points, span_size, span_size_grows};
use crate::algebra::evaluation_code::{
    codeword_is_evaluation, first_points, interpolant, interpolant_at_node, interpolant_degree,
    known_value, lagrange_code_is_mds, lagrange_coef, points_differ,
};
use crate::algebra::index_lists::{indices_where, indices_where_facts};
use crate::algebra::interpolation::{distinct, interpolation_is_exact, lagrange};
use crate::algebra::linear_code::{codeword, points_of};
use crate::algebra::novel_basis::{
    novel_slope, novel_value, novel_value_is_smooth, novel_value_prefix, smooth,
};
use crate::algebra::sums::sum_congruent;
use crate::codec::{config_fault, Code};
use crate::error::ConfigError;
use crate::symbols::{coefficient_code, coefficient_code_is_sound, whole_lanes};

verus! {

/// Evaluation point of each codeword position.
pub open spec fn afft_point<F: Field>() -> spec_fn(int) -> F {
    |i: int| F::of_raw(i)
}

/// Repair coefficients.
pub open spec fn afft_coef<F: Field>(k: int) -> spec_fn(int, int) -> F {
    lagrange_coef(afft_point::<F>(), k)
}

/// The code.
pub open spec fn afft_code<F: Field>(k: int, m: int, symbol_len: int) -> Code {
    coefficient_code(F::engine_spec(), afft_coef::<F>(k), k, m, symbol_len)
}

/// Dimension of the smallest domain with at least `n` points.
pub open spec fn padded_dimension(n: int) -> nat
    decreases n,
{
    if n <= 1 {
        0
    } else {
        padded_dimension((n + 1) / 2) + 1
    }
}

/// Size of the smallest domain with at least `n` points.
pub open spec fn padded(n: int) -> int {
    span_size(padded_dimension(n)) as int
}

/// The smallest domain is large enough, and half of it is not.
pub proof fn padded_facts(n: int)
    ensures
        n <= padded(n),
        n > 1 ==> padded(n) < 2 * n && padded_dimension(n) > 0 && span_size(
            (padded_dimension(n) - 1) as nat,
        ) < n,
        padded(n) >= 1,
    decreases n,
{
    span_size_grows(0, padded_dimension(n));
    if n > 1 {
        let half = (n + 1) / 2;
        padded_facts(half);
        if half <= 1 {
            assert(padded_dimension(half) == 0);
            assert(padded_dimension(n) == 1);
            assert(span_size(0) == 1);
            assert(span_size(1) == 2 * span_size(0));
        } else {
            let d = padded_dimension(half);
            assert(span_size(d) < 2 * half);
            assert(span_size(d) % 2 == 0);
        }
    }
}

/// A dimension that is large enough and whose half is not is the smallest.
pub proof fn padded_is(n: int, dimension: nat)
    requires
        n <= span_size(dimension),
        dimension > 0 ==> span_size((dimension - 1) as nat) < n,
    ensures
        padded_dimension(n) == dimension,
{
    padded_facts(n);
    let d = padded_dimension(n);
    if d < dimension {
        span_size_grows(d, (dimension - 1) as nat);
    } else if dimension < d {
        if n <= 1 {
        } else {
            span_size_grows(dimension, (d - 1) as nat);
        }
    }
}

/// A domain no larger than the field has at most as many dimensions as bits.
pub proof fn padded_fits(n: int, bits: nat)
    requires
        n <= span_size(bits),
    ensures
        padded_dimension(n) <= bits,
        padded(n) <= span_size(bits),
{
    padded_facts(n);
    let d = padded_dimension(n);
    if d > bits {
        span_size_grows(bits, (d - 1) as nat);
        span_size_grows(0, bits);
    } else {
        span_size_grows(d, bits);
    }
}

/// Why an additive-transform engine refuses a geometry: as every engine does,
/// and also when the rows of a whole domain are too large to address.
pub open spec fn afft_fault<F: Field>(k: int, m: int, symbol_len: int) -> Option<ConfigError> {
    let cap = span_size(F::bits()) as usize;
    match config_fault(k, m, symbol_len, F::width(), cap) {
        Some(e) => Some(e),
        None => if padded(k + m) * symbol_len > usize::MAX {
            Some(ConfigError::TooManySymbols { cap })
        } else {
            None
        },
    }
}

/// A geometry the engines accept.
pub open spec fn afft_shape<F: Field>(k: int, m: int, symbol_len: int) -> bool {
    &&& 1 <= k
    &&& 1 <= m
    &&& 1 <= symbol_len
    &&& whole_lanes::<F>(symbol_len)
    &&& k + m <= span_size(F::bits())
    &&& padded(k + m) * symbol_len <= usize::MAX
}

/// Domains hold at most as many points as the widest field has elements.
pub proof fn field_size<F: Field>()
    ensures
        span_size(F::bits()) <= 65536,
        4 <= span_size(F::bits()),
{
    F::bits_are_few();
    span_size_grows(F::bits(), 16);
    span_size_grows(2, F::bits());
    assert(span_size(16) == 65536 && span_size(2) == 4) by {
        reveal_with_fuel(span_size, 17);
    }
}

/// An accepted geometry has a well-shaped code.
pub proof fn shape_facts<F: Field>(k: int, m: int, symbol_len: int)
    requires
        afft_shape::<F>(k, m, symbol_len),
    ensures
        afft_code::<F>(k, m, symbol_len).well_shaped(),
        afft_code::<F>(k, m, symbol_len).fits_memory(),
        (k + m) * symbol_len <= padded(k + m) * symbol_len,
        padded_dimension(k + m) <= F::bits(),
        padded_dimension(k) <= padded_dimension(k + m),
        0 <= k * symbol_len <= (k + m) * symbol_len,
        0 <= m * symbol_len <= (k + m) * symbol_len,
        k + m <= padded(k + m) <= 65536,
        k <= padded(k) <= padded(k + m),
{
    field_size::<F>();
    padded_facts(k + m);
    padded_facts(k);
    padded_fits(k + m, F::bits());
    let n = k + m;
    let p = padded(n);
    padded_fits(k, padded_dimension(n));
    assert(n * symbol_len <= p * symbol_len && 0 <= k * symbol_len <= n * symbol_len && 0 <= m
        * symbol_len <= n * symbol_len) by (nonlinear_arith)
        requires
            n <= p,
            n == k + m,
            0 <= k,
            0 <= m,
            0 <= symbol_len,
    ;
}

/// Evaluation points of different positions differ.
pub proof fn afft_points_differ<F: Field>(n: int)
    requires
        n <= span_size(F::bits()),
    ensures
        points_differ(afft_point::<F>(), n),
{
    let point = afft_point::<F>();
    assert forall|i: int, j: int| 0 <= i < n && 0 <= j < n && i != j implies #[trigger] point(i)
        != #[trigger] point(j) by {
        patterns_differ::<F>(i, j);
    }
}

/// The code is systematic, and any `k` symbols determine the data.
pub proof fn afft_code_is_sound<F: Field>(k: int, m: int, symbol_len: int)
    requires
        afft_shape::<F>(k, m, symbol_len),
    ensures
        afft_code::<F>(k, m, symbol_len).sound(),
{
    shape_facts::<F>(k, m, symbol_len);
    afft_points_differ::<F>(k + m);
    lagrange_code_is_mds(afft_point::<F>(), k, m);
    coefficient_code_is_sound(F::engine_spec(), afft_coef::<F>(k), k, m, symbol_len);
}

/// Interpolating the data over one domain and evaluating over a larger one
/// encodes.
pub proof fn evaluation_encodes<F: Field>(
    small: nat,
    large: nat,
    k: int,
    coefficient: spec_fn(int) -> F,
    message: spec_fn(int) -> F,
    index: int,
)
    requires
        small <= large <= F::bits(),
        1 <= k <= span_size(small),
        k <= index < span_size(large),
        forall|i: int|
            0 <= i < k ==> #[trigger] message(i) == novel_value(
                pattern_basis::<F>(small),
                coefficient,
                k,
                span_point(pattern_basis::<F>(small), i),
            ),
    ensures
        novel_value(
            pattern_basis::<F>(large),
            coefficient,
            k,
            span_point(pattern_basis::<F>(large), index),
        ) == codeword(afft_coef::<F>(k), k, message, index),
{
    let basis = pattern_basis::<F>(large);
    let prefix = basis.subrange(0, small as int);
    assert(prefix =~= pattern_basis::<F>(small));
    span_size_grows(small, large);
    span_size_grows(large, F::bits());
    let p = |x: F| novel_value(basis, coefficient, k, x);
    novel_value_is_smooth(basis, coefficient, k);
    let d = |x: F| novel_slope(basis, coefficient, k, x);
    assert(smooth(p, d, k));
    let point = afft_point::<F>();
    let nodes = first_points(point, k);
    afft_points_differ::<F>(span_size(F::bits()) as int);
    assert(distinct(nodes)) by {
        assert forall|i: int, j: int|
            0 <= i < nodes.len() && 0 <= j < nodes.len() && i != j implies #[trigger] nodes[i]
            != #[trigger] nodes[j] by {
            assert(point(i) != point(j));
        }
    }
    pattern_point::<F>(large, index);
    let x = point(index);
    interpolation_is_exact(nodes, p, x);
    let left = |i: int| p(nodes[i]).times(lagrange(nodes, i, x));
    let right = |i: int| message(i).times(lagrange(nodes, i, x));
    assert forall|i: int| 0 <= i < k implies #[trigger] left(i) == right(i) by {
        pattern_point::<F>(small, i);
        novel_value_prefix(basis, small, coefficient, k, nodes[i]);
    }
    sum_congruent(left, right, k);
    codeword_is_evaluation(point, k, message, index);
}

/// A message taken from the polynomial through `k` known values encodes to each
/// of them.
pub proof fn known_values_encode<F: Field>(
    dimension: nat,
    k: int,
    known: spec_fn(int) -> bool,
    value: spec_fn(int) -> F,
    message: spec_fn(int) -> F,
    index: int,
)
    requires
        dimension <= F::bits(),
        1 <= k <= span_size(dimension),
        indices_where(known, span_size(dimension) as int).len() == k,
        0 <= index < span_size(dimension),
        known(index),
        forall|i: int|
            0 <= i < k ==> #[trigger] message(i) == known_value(
                |j: int| span_point(pattern_basis::<F>(dimension), j),
                known,
                span_size(dimension) as int,
                value,
                span_point(pattern_basis::<F>(dimension), i),
            ),
    ensures
        codeword(afft_coef::<F>(k), k, message, index) == value(index),
{
    let basis = pattern_basis::<F>(dimension);
    let n = span_size(dimension) as int;
    span_size_grows(dimension, F::bits());
    let spanned = |j: int| span_point(basis, j);
    let list = indices_where(known, n);
    indices_where_facts(known, n);
    let nodes = points_of(spanned, list);
    let own = |t: int| value(list[t]);
    let f = |x: F| interpolant(nodes, own, x);
    pattern_basis_is_independent::<F>(dimension);
    let points = span_points(basis);
    assert(distinct(nodes)) by {
        assert forall|i: int, j: int|
            0 <= i < nodes.len() && 0 <= j < nodes.len() && i != j implies #[trigger] nodes[i]
            != #[trigger] nodes[j] by {
            assert(list[i] != list[j]);
            assert(points[list[i]] != points[list[j]]);
        }
    }
    interpolant_degree(nodes, own);
    let point = afft_point::<F>();
    let first = first_points(point, k);
    afft_points_differ::<F>(span_size(F::bits()) as int);
    assert(distinct(first)) by {
        assert forall|i: int, j: int|
            0 <= i < first.len() && 0 <= j < first.len() && i != j implies #[trigger] first[i]
            != #[trigger] first[j] by {
            assert(point(i) != point(j));
        }
    }
    let x = point(index);
    pattern_point::<F>(dimension, index);
    interpolation_is_exact(first, f, x);
    let left = |i: int| f(first[i]).times(lagrange(first, i, x));
    let right = |i: int| message(i).times(lagrange(first, i, x));
    assert forall|i: int| 0 <= i < k implies #[trigger] left(i) == right(i) by {
        pattern_point::<F>(dimension, i);
        assert(message(i) == known_value(spanned, known, n, value, span_point(basis, i)));
    }
    sum_congruent(left, right, k);
    codeword_is_evaluation(point, k, message, index);
    assert(list.contains(index));
    let t = choose|t: int| 0 <= t < list.len() && list[t] == index;
    assert(nodes[t] == x);
    interpolant_at_node(nodes, own, t);
}

/// A known value is the value there of the polynomial through the known values.
pub proof fn known_value_at_known<F: Field>(
    dimension: nat,
    known: spec_fn(int) -> bool,
    value: spec_fn(int) -> F,
    index: int,
)
    requires
        dimension <= F::bits(),
        0 <= index < span_size(dimension),
        known(index),
    ensures
        known_value(
            |j: int| span_point(pattern_basis::<F>(dimension), j),
            known,
            span_size(dimension) as int,
            value,
            span_point(pattern_basis::<F>(dimension), index),
        ) == value(index),
{
    let basis = pattern_basis::<F>(dimension);
    let n = span_size(dimension) as int;
    let spanned = |j: int| span_point(basis, j);
    let list = indices_where(known, n);
    indices_where_facts(known, n);
    let nodes = points_of(spanned, list);
    let own = |t: int| value(list[t]);
    pattern_basis_is_independent::<F>(dimension);
    let points = span_points(basis);
    assert(distinct(nodes)) by {
        assert forall|i: int, j: int|
            0 <= i < nodes.len() && 0 <= j < nodes.len() && i != j implies #[trigger] nodes[i]
            != #[trigger] nodes[j] by {
            assert(list[i] != list[j]);
            assert(points[list[i]] != points[list[j]]);
        }
    }
    assert(list.contains(index));
    let t = choose|t: int| 0 <= t < list.len() && list[t] == index;
    assert(nodes[t] == spanned(index));
    interpolant_at_node(nodes, own, t);
}

} // verus!
