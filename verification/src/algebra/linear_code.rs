//! Systematic linear codes over a field, and what it takes to decode them.

use vstd::prelude::*;

use crate::algebra::cauchy::{
    avoids, cauchy_entry, cauchy_variables, fused_at_columns, fused_entry, inverse_entry,
    inverse_times_column, matrix_times_inverse,
};
use crate::algebra::field::{
    left_identities, plus_is_zero, plus_undoes, times_zero, FieldElement,
};
use crate::algebra::index_lists::{
    distinct_list_count, indices_where, indices_where_complement, indices_where_congruent,
    indices_where_facts, indices_where_split,
};
use crate::algebra::interpolation::distinct;
use crate::algebra::sums::{
    sum, sum_congruent, sum_exchange, sum_of_zeros, sum_plus, sum_scale, sum_single,
};

verus! {

/// Symbol `index` of the codeword for `message`: the message itself at the
/// first `k` positions, a fixed combination of it at the others.
pub open spec fn codeword<F: FieldElement>(
    coef: spec_fn(int, int) -> F,
    k: int,
    message: spec_fn(int) -> F,
    index: int,
) -> F {
    if index < k {
        message(index)
    } else {
        sum(|i: int| coef(index - k, i).times(message(i)), k)
    }
}

/// `a` and `b` together list every position below `k` exactly once.
pub open spec fn partition(a: Seq<int>, b: Seq<int>, k: int) -> bool {
    &&& distinct(a)
    &&& distinct(b)
    &&& forall|t: int| 0 <= t < a.len() ==> 0 <= #[trigger] a[t] < k
    &&& forall|t: int| 0 <= t < b.len() ==> 0 <= #[trigger] b[t] < k
    &&& forall|s: int, t: int|
        0 <= s < a.len() && 0 <= t < b.len() ==> #[trigger] a[s] != #[trigger] b[t]
    &&& forall|i: int| 0 <= i < k ==> #[trigger] a.contains(i) || b.contains(i)
}

/// One on the diagonal, zero off it.
pub open spec fn unit<F: FieldElement>(i: int, j: int) -> F {
    if i == j {
        F::one_elem()
    } else {
        F::zero_elem()
    }
}

/// `inverse` is the two-sided inverse of the coefficients of the repairs
/// `repairs` at the data positions `missing`.
pub open spec fn inverts<F: FieldElement>(
    coef: spec_fn(int, int) -> F,
    missing: Seq<int>,
    repairs: Seq<int>,
    inverse: spec_fn(int, int) -> F,
) -> bool {
    &&& missing.len() == repairs.len()
    &&& forall|a: int, c: int|
        0 <= a < missing.len() && 0 <= c < missing.len() ==> #[trigger] folded(
            coef,
            repairs,
            inverse,
            a,
            missing[c],
        ) == unit::<F>(a, c)
    &&& forall|b: int, c: int|
        0 <= b < repairs.len() && 0 <= c < repairs.len() ==> #[trigger] unfolded(
            coef,
            missing,
            repairs,
            inverse,
            b,
            c,
        ) == unit::<F>(b, c)
}

/// The coefficients of repair `b` applied to column `c` of the inverse.
pub open spec fn unfolded<F: FieldElement>(
    coef: spec_fn(int, int) -> F,
    missing: Seq<int>,
    repairs: Seq<int>,
    inverse: spec_fn(int, int) -> F,
    b: int,
    c: int,
) -> F {
    sum(|a: int| coef(repairs[b], missing[a]).times(inverse(a, c)), missing.len() as int)
}

/// Row `a` of the inverse applied to the coefficients of data position `i`.
pub open spec fn folded<F: FieldElement>(
    coef: spec_fn(int, int) -> F,
    repairs: Seq<int>,
    inverse: spec_fn(int, int) -> F,
    a: int,
    i: int,
) -> F {
    sum(|b: int| inverse(a, b).times(coef(repairs[b], i)), repairs.len() as int)
}

/// The value of missing position `a`, from the repair values and the present
/// data values.
pub open spec fn solved<F: FieldElement>(
    coef: spec_fn(int, int) -> F,
    present: Seq<int>,
    repairs: Seq<int>,
    inverse: spec_fn(int, int) -> F,
    repair_value: spec_fn(int) -> F,
    present_value: spec_fn(int) -> F,
    a: int,
) -> F {
    sum(|b: int| inverse(a, b).times(repair_value(b)), repairs.len() as int).plus(
        sum(
            |p: int| folded(coef, repairs, inverse, a, present[p]).times(present_value(p)),
            present.len() as int,
        ),
    )
}

/// A sum over a list of positions is the sum over the positions it lists.
pub proof fn sum_over_list<F: FieldElement>(h: spec_fn(int) -> F, list: Seq<int>, k: int)
    requires
        distinct(list),
        forall|t: int| 0 <= t < list.len() ==> 0 <= #[trigger] list[t] < k,
    ensures
        sum(|t: int| h(list[t]), list.len() as int) == sum(
            |i: int|
                if list.contains(i) {
                    h(i)
                } else {
                    F::zero_elem()
                },
            k,
        ),
    decreases list.len(),
{
    let over = |t: int| h(list[t]);
    let masked = |i: int|
        if list.contains(i) {
            h(i)
        } else {
            F::zero_elem()
        };
    if list.len() == 0 {
        assert forall|i: int| 0 <= i < k implies #[trigger] masked(i) == F::zero_elem() by {}
        sum_of_zeros(masked, k);
    } else {
        let front = list.drop_last();
        let x = list.last();
        let n = list.len() as int;
        assert(list[n - 1] == x);
        assert(forall|t: int| 0 <= t < front.len() ==> front[t] == list[t]);
        sum_over_list(h, front, k);
        let over_front = |t: int| h(front[t]);
        sum_congruent(over, over_front, n - 1);
        let masked_front = |i: int|
            if front.contains(i) {
                h(i)
            } else {
                F::zero_elem()
            };
        let single = |i: int|
            if i == x {
                h(x)
            } else {
                F::zero_elem()
            };
        let both = |i: int| masked_front(i).plus(single(i));
        assert(!front.contains(x)) by {
            if front.contains(x) {
                let t = choose|t: int| 0 <= t < front.len() && front[t] == x;
                assert(list[t] == x);
            }
        }
        assert forall|i: int| 0 <= i < k implies #[trigger] masked(i) == both(i) by {
            if i == x {
                left_identities(h(x));
                assert(list.contains(x));
            } else {
                F::plus_identity(masked_front(i));
                if list.contains(i) {
                    let t = choose|t: int| 0 <= t < list.len() && list[t] == i;
                    assert(front[t] == i);
                }
                if front.contains(i) {
                    let t = choose|t: int| 0 <= t < front.len() && front[t] == i;
                    assert(list[t] == i);
                }
            }
        }
        sum_congruent(masked, both, k);
        sum_plus(masked_front, single, k);
        sum_single(single, k, x);
    }
}

/// A sum over all positions is the sum over the two parts of a partition.
pub proof fn sum_over_partition<F: FieldElement>(
    h: spec_fn(int) -> F,
    a: Seq<int>,
    b: Seq<int>,
    k: int,
)
    requires
        partition(a, b, k),
    ensures
        sum(h, k) == sum(|t: int| h(a[t]), a.len() as int).plus(
            sum(|t: int| h(b[t]), b.len() as int),
        ),
{
    let masked_a = |i: int|
        if a.contains(i) {
            h(i)
        } else {
            F::zero_elem()
        };
    let masked_b = |i: int|
        if b.contains(i) {
            h(i)
        } else {
            F::zero_elem()
        };
    sum_over_list(h, a, k);
    sum_over_list(h, b, k);
    let both = |i: int| masked_a(i).plus(masked_b(i));
    assert forall|i: int| 0 <= i < k implies #[trigger] h(i) == both(i) by {
        assert(a.contains(i) || b.contains(i));
        assert(!(a.contains(i) && b.contains(i)));
        F::plus_identity(h(i));
        left_identities(h(i));
    }
    sum_congruent(h, both, k);
    sum_plus(masked_a, masked_b, k);
}

/// Applying the inverse to the repairs with the present data removed gives the
/// solved value.
pub proof fn solved_is_inverse_of_residuals<F: FieldElement>(
    coef: spec_fn(int, int) -> F,
    present: Seq<int>,
    repairs: Seq<int>,
    inverse: spec_fn(int, int) -> F,
    repair_value: spec_fn(int) -> F,
    present_value: spec_fn(int) -> F,
    a: int,
)
    ensures
        solved(coef, present, repairs, inverse, repair_value, present_value, a) == sum(
            |b: int|
                inverse(a, b).times(
                    repair_value(b).plus(
                        sum(
                            |p: int| coef(repairs[b], present[p]).times(present_value(p)),
                            present.len() as int,
                        ),
                    ),
                ),
            repairs.len() as int,
        ),
{
    let r = repairs.len() as int;
    let s = present.len() as int;
    let tail = |b: int| sum(|p: int| coef(repairs[b], present[p]).times(present_value(p)), s);
    let direct = |b: int| inverse(a, b).times(repair_value(b));
    let through = |b: int| inverse(a, b).times(tail(b));
    let whole = |b: int| inverse(a, b).times(repair_value(b).plus(tail(b)));
    let both = |b: int| direct(b).plus(through(b));
    assert forall|b: int| 0 <= b < r implies #[trigger] whole(b) == both(b) by {
        F::times_distributes(inverse(a, b), repair_value(b), tail(b));
    }
    sum_congruent(whole, both, r);
    sum_plus(direct, through, r);
    // sum_b inverse(a, b) * tail(b), with the sums exchanged.
    let f = |b: int, p: int|
        inverse(a, b).times(coef(repairs[b], present[p]).times(present_value(p)));
    let rows = |b: int| sum(|p: int| f(b, p), s);
    assert forall|b: int| 0 <= b < r implies #[trigger] through(b) == rows(b) by {
        let g = |p: int| coef(repairs[b], present[p]).times(present_value(p));
        sum_scale(inverse(a, b), g, s);
        sum_congruent(|p: int| inverse(a, b).times(g(p)), |p: int| f(b, p), s);
    }
    sum_congruent(through, rows, r);
    sum_exchange(f, r, s);
    let cols = |p: int| sum(|b: int| f(b, p), r);
    let target = |p: int|
        folded(coef, repairs, inverse, a, present[p]).times(present_value(p));
    assert forall|p: int| 0 <= p < s implies #[trigger] cols(p) == target(p) by {
        let g = |b: int| inverse(a, b).times(coef(repairs[b], present[p]));
        let v = present_value(p);
        let scaled = |b: int| v.times(g(b));
        let column = |b: int| f(b, p);
        assert forall|b: int| 0 <= b < r implies #[trigger] column(b) == scaled(b) by {
            F::times_associates(inverse(a, b), coef(repairs[b], present[p]), v);
            F::times_commutes(v, g(b));
        }
        sum_congruent(column, scaled, r);
        sum_scale(v, g, r);
        F::times_commutes(v, sum(g, r));
    }
    sum_congruent(cols, target, s);
    let stated = |b: int|
        inverse(a, b).times(
            repair_value(b).plus(
                sum(
                    |p: int| coef(repairs[b], present[p]).times(present_value(p)),
                    present.len() as int,
                ),
            ),
        );
    sum_congruent(stated, whole, r);
}

/// A message whose missing positions are solved agrees with every repair it was
/// solved from.
pub proof fn solved_message_agrees<F: FieldElement>(
    coef: spec_fn(int, int) -> F,
    k: int,
    missing: Seq<int>,
    present: Seq<int>,
    repairs: Seq<int>,
    inverse: spec_fn(int, int) -> F,
    repair_value: spec_fn(int) -> F,
    message: spec_fn(int) -> F,
    at: int,
)
    requires
        partition(missing, present, k),
        inverts(coef, missing, repairs, inverse),
        forall|a: int|
            0 <= a < missing.len() ==> message(#[trigger] missing[a]) == solved(
                coef,
                present,
                repairs,
                inverse,
                repair_value,
                |p: int| message(present[p]),
                a,
            ),
        0 <= at < repairs.len(),
        0 <= repairs[at],
    ensures
        codeword(coef, k, message, k + repairs[at]) == repair_value(at),
{
    let r = repairs.len() as int;
    let s = present.len() as int;
    let row = repairs[at];
    let present_value = |p: int| message(present[p]);
    let h = |i: int| coef(row, i).times(message(i));
    sum_over_partition(h, missing, present, k);
    let tail = |b: int| sum(|p: int| coef(repairs[b], present[p]).times(present_value(p)), s);
    let w = |b: int| repair_value(b).plus(tail(b));
    // sum_a coef(row, missing[a]) * sum_b inverse(a, b) * w(b)
    let f = |a: int, b: int| coef(row, missing[a]).times(inverse(a, b).times(w(b)));
    let over_missing = |t: int| h(missing[t]);
    let rows = |a: int| sum(|b: int| f(a, b), r);
    assert forall|a: int| 0 <= a < r implies #[trigger] over_missing(a) == rows(a) by {
        solved_is_inverse_of_residuals(
            coef,
            present,
            repairs,
            inverse,
            repair_value,
            present_value,
            a,
        );
        let g = |b: int| inverse(a, b).times(w(b));
        let stated = |b: int|
            inverse(a, b).times(
                repair_value(b).plus(
                    sum(
                        |p: int| coef(repairs[b], present[p]).times(present_value(p)),
                        present.len() as int,
                    ),
                ),
            );
        sum_congruent(stated, g, r);
        assert(message(missing[a]) == sum(g, r));
        sum_scale(coef(row, missing[a]), g, r);
        sum_congruent(|b: int| coef(row, missing[a]).times(g(b)), |b: int| f(a, b), r);
    }
    sum_congruent(over_missing, rows, r);
    sum_exchange(f, r, r);
    let cols = |b: int| sum(|a: int| f(a, b), r);
    let picked = |b: int| w(b).times(unit::<F>(at, b));
    assert forall|b: int| 0 <= b < r implies #[trigger] cols(b) == picked(b) by {
        let g = |a: int| coef(repairs[at], missing[a]).times(inverse(a, b));
        let column = |a: int| f(a, b);
        let scaled = |a: int| w(b).times(g(a));
        assert forall|a: int| 0 <= a < r implies #[trigger] column(a) == scaled(a) by {
            F::times_associates(coef(row, missing[a]), inverse(a, b), w(b));
            F::times_commutes(w(b), g(a));
        }
        sum_congruent(column, scaled, r);
        sum_scale(w(b), g, r);
        assert(unfolded(coef, missing, repairs, inverse, at, b) == unit::<F>(at, b));
    }
    sum_congruent(cols, picked, r);
    assert forall|b: int| 0 <= b < r && b != at implies #[trigger] picked(b)
        == F::zero_elem() by {
        times_zero(w(b));
    }
    sum_single(picked, r, at);
    F::times_identity(w(at));
    let over_present = |t: int| h(present[t]);
    sum_congruent(
        over_present,
        |p: int| coef(repairs[at], present[p]).times(present_value(p)),
        s,
    );
    assert(sum(over_present, s) == tail(at));
    plus_undoes(repair_value(at), tail(at));
}

/// Two messages that agree at the present positions and in the repairs are
/// equal.
pub proof fn message_is_determined<F: FieldElement>(
    coef: spec_fn(int, int) -> F,
    k: int,
    missing: Seq<int>,
    present: Seq<int>,
    repairs: Seq<int>,
    inverse: spec_fn(int, int) -> F,
    first: spec_fn(int) -> F,
    second: spec_fn(int) -> F,
    at: int,
)
    requires
        partition(missing, present, k),
        inverts(coef, missing, repairs, inverse),
        forall|p: int|
            0 <= p < present.len() ==> first(#[trigger] present[p]) == second(present[p]),
        forall|b: int|
            0 <= b < repairs.len() ==> 0 <= #[trigger] repairs[b] && codeword(
                coef,
                k,
                first,
                k + repairs[b],
            ) == codeword(coef, k, second, k + repairs[b]),
        0 <= at < k,
    ensures
        first(at) == second(at),
{
    let r = repairs.len() as int;
    let s = present.len() as int;
    let diff = |i: int| first(i).plus(second(i));
    plus_is_zero(first(at), second(at));
    assert(missing.contains(at) || present.contains(at));
    if present.contains(at) {
        let p = choose|p: int| 0 <= p < present.len() && present[p] == at;
        assert(first(present[p]) == second(present[p]));
    } else {
        let c = choose|c: int| 0 <= c < missing.len() && missing[c] == at;
        let column = |b: int|
            sum(|a: int| coef(repairs[b], missing[a]).times(diff(missing[a])), r);
        assert forall|b: int| 0 <= b < r implies #[trigger] column(b) == F::zero_elem() by {
            let row = repairs[b];
            let hf = |i: int| coef(row, i).times(first(i));
            let hs = |i: int| coef(row, i).times(second(i));
            let hd = |i: int| coef(row, i).times(diff(i));
            let both = |i: int| hf(i).plus(hs(i));
            assert forall|i: int| 0 <= i < k implies #[trigger] hd(i) == both(i) by {
                F::times_distributes(coef(row, i), first(i), second(i));
            }
            sum_congruent(hd, both, k);
            sum_plus(hf, hs, k);
            assert(codeword(coef, k, first, k + row) == sum(hf, k)) by {
                sum_congruent(|i: int| coef(k + row - k, i).times(first(i)), hf, k);
            }
            assert(codeword(coef, k, second, k + row) == sum(hs, k)) by {
                sum_congruent(|i: int| coef(k + row - k, i).times(second(i)), hs, k);
            }
            F::plus_cancels(sum(hf, k));
            assert(sum(hd, k) == F::zero_elem());
            sum_over_partition(hd, missing, present, k);
            let over_present = |t: int| hd(present[t]);
            assert forall|t: int| 0 <= t < s implies #[trigger] over_present(t)
                == F::zero_elem() by {
                assert(first(present[t]) == second(present[t]));
                F::plus_cancels(first(present[t]));
                times_zero(coef(row, present[t]));
            }
            sum_of_zeros(over_present, s);
            let over_missing = |t: int| hd(missing[t]);
            F::plus_identity(sum(over_missing, r));
            sum_congruent(
                over_missing,
                |a: int| coef(repairs[b], missing[a]).times(diff(missing[a])),
                r,
            );
        }
        let f = |b: int, a: int|
            inverse(c, b).times(coef(repairs[b], missing[a]).times(diff(missing[a])));
        let rows = |b: int| sum(|a: int| f(b, a), r);
        assert forall|b: int| 0 <= b < r implies #[trigger] rows(b) == F::zero_elem() by {
            let g = |a: int| coef(repairs[b], missing[a]).times(diff(missing[a]));
            sum_scale(inverse(c, b), g, r);
            sum_congruent(|a: int| f(b, a), |a: int| inverse(c, b).times(g(a)), r);
            assert(column(b) == F::zero_elem());
            times_zero(inverse(c, b));
        }
        sum_of_zeros(rows, r);
        sum_exchange(f, r, r);
        let cols = |a: int| sum(|b: int| f(b, a), r);
        let picked = |a: int| diff(missing[a]).times(unit::<F>(c, a));
        assert forall|a: int| 0 <= a < r implies #[trigger] cols(a) == picked(a) by {
            let g = |b: int| inverse(c, b).times(coef(repairs[b], missing[a]));
            let col = |b: int| f(b, a);
            let d = diff(missing[a]);
            let scaled = |b: int| d.times(g(b));
            assert forall|b: int| 0 <= b < r implies #[trigger] col(b) == scaled(b) by {
                F::times_associates(inverse(c, b), coef(repairs[b], missing[a]), d);
                F::times_commutes(d, g(b));
            }
            sum_congruent(col, scaled, r);
            sum_scale(d, g, r);
            assert(folded(coef, repairs, inverse, c, missing[a]) == unit::<F>(c, a));
        }
        sum_congruent(cols, picked, r);
        assert forall|a: int| 0 <= a < r && a != c implies #[trigger] picked(a)
            == F::zero_elem() by {
            times_zero(diff(missing[a]));
        }
        sum_single(picked, r, c);
        F::times_identity(diff(missing[c]));
    }
}

/// The data positions below `k` that do not occur in `indices`.
pub open spec fn missing_positions(indices: Seq<int>, k: int) -> Seq<int> {
    indices_where(|i: int| !indices.contains(i), k)
}

/// The data positions below `k` that occur in `indices`.
pub open spec fn present_positions(indices: Seq<int>, k: int) -> Seq<int> {
    indices_where(|i: int| indices.contains(i), k)
}

/// The repair numbers below `m` whose codeword position occurs in `indices`.
pub open spec fn repair_positions(indices: Seq<int>, k: int, m: int) -> Seq<int> {
    indices_where(|j: int| indices.contains(k + j), m)
}

/// Any `k` distinct codeword positions hold as many repairs as data positions
/// are missing.
pub proof fn positions_split(indices: Seq<int>, k: int, m: int)
    requires
        k >= 0,
        m >= 0,
        distinct(indices),
        indices.len() == k,
        forall|t: int| 0 <= t < indices.len() ==> 0 <= #[trigger] indices[t] < k + m,
    ensures
        partition(missing_positions(indices, k), present_positions(indices, k), k),
        missing_positions(indices, k).len() == repair_positions(indices, k, m).len(),
{
    let holds = |i: int| indices.contains(i);
    let lacks = |i: int| !indices.contains(i);
    let high = |j: int| indices.contains(k + j);
    distinct_list_count(indices, k + m);
    indices_where_split(holds, k, m);
    indices_where_congruent(|j: int| holds(k + j), high, m);
    indices_where_complement(holds, k);
    indices_where_congruent(|i: int| !holds(i), lacks, k);
    indices_where_facts(holds, k);
    indices_where_facts(lacks, k);
    let a = missing_positions(indices, k);
    let b = present_positions(indices, k);
    assert forall|i: int| 0 <= i < k implies #[trigger] a.contains(i) || b.contains(i) by {
        assert(holds(i) || lacks(i));
    }
    assert forall|s: int, t: int|
        0 <= s < a.len() && 0 <= t < b.len() implies #[trigger] a[s] != #[trigger] b[t] by {
        assert(lacks(a[s]));
        assert(holds(b[t]));
    }
}

/// Coefficients `1 / (y_j + x_i)` over point sets `x` and `y`.
pub open spec fn cauchy_coef<F: FieldElement>(
    x: spec_fn(int) -> F,
    y: spec_fn(int) -> F,
) -> spec_fn(int, int) -> F {
    |j: int, i: int| cauchy_entry(y(j), x(i))
}

/// The points of the first `k` data positions and the first `m` repairs are
/// all different.
pub open spec fn cauchy_points<F: FieldElement>(
    x: spec_fn(int) -> F,
    y: spec_fn(int) -> F,
    k: int,
    m: int,
) -> bool {
    &&& forall|i: int, j: int|
        0 <= i < k && 0 <= j < k && i != j ==> #[trigger] x(i) != #[trigger] x(j)
    &&& forall|i: int, j: int|
        0 <= i < m && 0 <= j < m && i != j ==> #[trigger] y(i) != #[trigger] y(j)
    &&& forall|i: int, j: int|
        0 <= i < k && 0 <= j < m ==> #[trigger] x(i) != #[trigger] y(j)
}

/// The points selected by a list of positions.
pub open spec fn points_of<F: FieldElement>(f: spec_fn(int) -> F, list: Seq<int>) -> Seq<F> {
    Seq::new(list.len(), |t: int| f(list[t]))
}

/// The closed-form inverse as a matrix.
pub open spec fn cauchy_inverse<F: FieldElement>(
    rows: Seq<F>,
    cols: Seq<F>,
) -> spec_fn(int, int) -> F {
    |a: int, b: int| inverse_entry(rows, cols, a, b)
}

/// Lists of distinct positions select valid Cauchy variables.
pub proof fn selected_variables<F: FieldElement>(
    x: spec_fn(int) -> F,
    y: spec_fn(int) -> F,
    k: int,
    m: int,
    missing: Seq<int>,
    repairs: Seq<int>,
)
    requires
        cauchy_points(x, y, k, m),
        missing.len() == repairs.len(),
        distinct(missing),
        distinct(repairs),
        forall|t: int| 0 <= t < missing.len() ==> 0 <= #[trigger] missing[t] < k,
        forall|t: int| 0 <= t < repairs.len() ==> 0 <= #[trigger] repairs[t] < m,
    ensures
        cauchy_variables(points_of(y, repairs), points_of(x, missing)),
        forall|i: int| 0 <= i < k ==> avoids(points_of(y, repairs), #[trigger] x(i)),
{
    let rows = points_of(y, repairs);
    let cols = points_of(x, missing);
    assert forall|s: int, t: int|
        0 <= s < rows.len() && 0 <= t < rows.len() && s != t implies #[trigger] rows[s]
        != #[trigger] rows[t] by {
        assert(repairs[s] != repairs[t]);
        assert(y(repairs[s]) != y(repairs[t]));
    }
    assert forall|s: int, t: int|
        0 <= s < cols.len() && 0 <= t < cols.len() && s != t implies #[trigger] cols[s]
        != #[trigger] cols[t] by {
        assert(missing[s] != missing[t]);
        assert(x(missing[s]) != x(missing[t]));
    }
    assert forall|s: int, t: int|
        0 <= s < rows.len() && 0 <= t < cols.len() implies #[trigger] rows[s]
        != #[trigger] cols[t] by {
        assert(x(missing[t]) != y(repairs[s]));
    }
    assert forall|i: int| 0 <= i < k implies avoids(rows, #[trigger] x(i)) by {
        assert forall|s: int| 0 <= s < rows.len() implies #[trigger] rows[s] != x(i) by {
            assert(x(i) != y(repairs[s]));
        }
    }
}

/// The closed form inverts the Cauchy coefficients, and its fused coefficients
/// are the inverse applied to the present columns.
pub proof fn cauchy_inverts<F: FieldElement>(
    x: spec_fn(int) -> F,
    y: spec_fn(int) -> F,
    k: int,
    m: int,
    missing: Seq<int>,
    repairs: Seq<int>,
)
    requires
        cauchy_points(x, y, k, m),
        missing.len() == repairs.len(),
        distinct(missing),
        distinct(repairs),
        forall|t: int| 0 <= t < missing.len() ==> 0 <= #[trigger] missing[t] < k,
        forall|t: int| 0 <= t < repairs.len() ==> 0 <= #[trigger] repairs[t] < m,
    ensures
        inverts(
            cauchy_coef(x, y),
            missing,
            repairs,
            cauchy_inverse(points_of(y, repairs), points_of(x, missing)),
        ),
        forall|a: int, i: int|
            0 <= a < missing.len() && 0 <= i < k ==> #[trigger] folded(
                cauchy_coef(x, y),
                repairs,
                cauchy_inverse(points_of(y, repairs), points_of(x, missing)),
                a,
                i,
            ) == fused_entry(points_of(y, repairs), points_of(x, missing), a, x(i)),
{
    let coef = cauchy_coef(x, y);
    let rows = points_of(y, repairs);
    let cols = points_of(x, missing);
    let inverse = cauchy_inverse(rows, cols);
    let r = repairs.len() as int;
    selected_variables(x, y, k, m, missing, repairs);
    assert forall|a: int, i: int| 0 <= a < missing.len() && 0 <= i < k implies #[trigger] folded(
        coef,
        repairs,
        inverse,
        a,
        i,
    ) == fused_entry(rows, cols, a, x(i)) by {
        assert(avoids(rows, x(i)));
        inverse_times_column(rows, cols, a, x(i));
        sum_congruent(
            |b: int| inverse(a, b).times(coef(repairs[b], i)),
            |b: int| inverse_entry(rows, cols, a, b).times(cauchy_entry(rows[b], x(i))),
            r,
        );
    }
    assert forall|a: int, c: int|
        0 <= a < missing.len() && 0 <= c < missing.len() implies #[trigger] folded(
        coef,
        repairs,
        inverse,
        a,
        missing[c],
    ) == unit::<F>(a, c) by {
        assert(cols[c] == x(missing[c]));
        fused_at_columns(rows, cols, a, c);
    }
    assert forall|b: int, c: int|
        0 <= b < repairs.len() && 0 <= c < repairs.len() implies #[trigger] unfolded(
        coef,
        missing,
        repairs,
        inverse,
        b,
        c,
    ) == unit::<F>(b, c) by {
        matrix_times_inverse(rows, cols, b, c);
        sum_congruent(
            |a: int| coef(repairs[b], missing[a]).times(inverse(a, c)),
            |j: int| cauchy_entry(rows[b], cols[j]).times(inverse_entry(rows, cols, j, c)),
            r,
        );
    }
}

/// A Cauchy code is maximum distance separable: two messages whose codewords
/// agree at any `k` distinct positions are equal.
pub proof fn cauchy_code_is_mds<F: FieldElement>(
    x: spec_fn(int) -> F,
    y: spec_fn(int) -> F,
    k: int,
    m: int,
    indices: Seq<int>,
    first: spec_fn(int) -> F,
    second: spec_fn(int) -> F,
    at: int,
)
    requires
        cauchy_points(x, y, k, m),
        m >= 0,
        distinct(indices),
        indices.len() == k,
        forall|t: int| 0 <= t < indices.len() ==> 0 <= #[trigger] indices[t] < k + m,
        forall|t: int|
            0 <= t < indices.len() ==> codeword(cauchy_coef(x, y), k, first, #[trigger] indices[t])
                == codeword(cauchy_coef(x, y), k, second, indices[t]),
        0 <= at < k,
    ensures
        first(at) == second(at),
{
    let coef = cauchy_coef(x, y);
    let missing = missing_positions(indices, k);
    let present = present_positions(indices, k);
    let repairs = repair_positions(indices, k, m);
    positions_split(indices, k, m);
    indices_where_facts(|j: int| indices.contains(k + j), m);
    indices_where_facts(|i: int| indices.contains(i), k);
    let inverse = cauchy_inverse(points_of(y, repairs), points_of(x, missing));
    cauchy_inverts(x, y, k, m, missing, repairs);
    assert forall|p: int| 0 <= p < present.len() implies first(#[trigger] present[p]) == second(
        present[p],
    ) by {
        assert(indices.contains(present[p]));
        let t = choose|t: int| 0 <= t < indices.len() && indices[t] == present[p];
        assert(codeword(coef, k, first, indices[t]) == codeword(coef, k, second, indices[t]));
    }
    assert forall|b: int| 0 <= b < repairs.len() implies 0 <= #[trigger] repairs[b] && codeword(
        coef,
        k,
        first,
        k + repairs[b],
    ) == codeword(coef, k, second, k + repairs[b]) by {
        assert(indices.contains(k + repairs[b]));
        let t = choose|t: int| 0 <= t < indices.len() && indices[t] == k + repairs[b];
        assert(codeword(coef, k, first, indices[t]) == codeword(coef, k, second, indices[t]));
    }
    message_is_determined(coef, k, missing, present, repairs, inverse, first, second, at);
}

} // verus!
