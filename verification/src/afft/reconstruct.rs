//! The two ways to rebuild missing data symbols.
//!
//! Both take the payloads of the received repairs, then of the present data
//! symbols, and write the block that encodes to all of them.

use vstd::prelude::*;

use crate::afft::code::{
    afft_coef, afft_point, afft_points_differ, afft_shape, known_value_at_known,
    known_values_encode, padded, padded_dimension, shape_facts,
};
use crate::afft::decoder::fit;
use crate::afft::field::{pattern_basis, pattern_point, Field};
use crate::afft::generator::{generator_row, systematic_pattern};
use crate::afft::locator::{known_in, zeroes, ErasureLocator, LocatorScratch};
use crate::afft::recovery::{
    holds_product, holds_recovered, holds_slopes, locates_means, recover_rows, recovered_lane, RecoveryScratch,
};
use crate::afft::tables::LogExpTables;
use crate::afft::targeted::{
    embeds, is_reduced_table, reduced_system_is_regular, table_inverse_inverts, TargetedInverse,
};
use crate::afft::transform::{column, entry, table_inverts, TransformPlan};
use crate::algebra::domains::{span_point, span_size};
use crate::algebra::evaluation_code::{first_points, lagrange_code_is_mds};
use crate::algebra::index_lists::{distinct_list_count, indices_where, indices_where_congruent};
use crate::algebra::interpolation::{distinct, lagrange};
use crate::algebra::linear_code::{codeword, solved, solved_is_inverse_of_residuals};
use crate::algebra::sums::{sum, sum_congruent};
use crate::batch::plan::holds_rows;
use crate::decoder::reduced::{assemble, ints, term_index, valid_split};
use crate::payload::{copy_row, lane_of_zeros, row_slice};
use crate::symbols::{
    codeword_symbol, lane, lane_count, lane_message, lane_of_row, payload_lane, row_bounds, row_of,
    solved_block_agrees, symbol_from_lanes, systematic_symbol, whole_lanes,
};

verus! {

/// `out` encodes to every source.
pub open spec fn sources_encoded<F: Field>(
    k: int,
    symbol_len: int,
    present: Seq<int>,
    repairs: Seq<int>,
    sources: Seq<&[u8]>,
    out: Seq<u8>,
) -> bool {
    forall|t: int|
        0 <= t < k ==> (#[trigger] sources[t])@ == codeword_symbol(
            afft_coef::<F>(k),
            k,
            symbol_len,
            out,
            term_index(k, present, repairs, t),
        )
}

/// The plan of the whole evaluation domain.
pub open spec fn plans<F: Field>(plan: &TransformPlan<F>, k: int, m: int) -> bool {
    &&& plan.valid()
    &&& plan.ordered_basis() == pattern_basis::<F>(padded_dimension(k + m))
    &&& plan.domain() == padded(k + m)
}

/// What both rebuilds need of their input.
pub open spec fn rebuildable<F: Field>(
    k: int,
    m: int,
    symbol_len: int,
    missing: Seq<usize>,
    present: Seq<usize>,
    repairs: Seq<usize>,
    sources: Seq<&[u8]>,
) -> bool {
    &&& afft_shape::<F>(k, m, symbol_len)
    &&& valid_split(k, m, ints(missing), ints(present), ints(repairs))
    &&& sources.len() == k
    &&& forall|t: int| 0 <= t < sources.len() ==> (#[trigger] sources[t])@.len() == symbol_len
}

/// Generator rows of the received repairs, `k` entries each.
pub open spec fn is_generator<F: Field>(k: int, repairs: Seq<int>, generator: Seq<F>) -> bool {
    &&& generator.len() == repairs.len() * k
    &&& forall|b: int, d: int|
        0 <= b < repairs.len() && 0 <= d < k ==> #[trigger] entry(generator, k, b, d)
            == afft_coef::<F>(k)(repairs[b], d)
}

/// Appends every element of `row`.
fn append_row<F: Field>(table: &mut Vec<F>, row: &[F])
    ensures
        final(table)@ == old(table)@ + row@,
{
    let mut d: usize = 0;
    while d < row.len()
        invariant
            d <= row@.len(),
            table@ == old(table)@ + row@.take(d as int),
        decreases row@.len() - d,
    {
        table.push(row[d]);
        d += 1;
        proof {
            assert(table@ =~= old(table)@ + row@.take(d as int));
        }
    }
    proof {
        assert(row@.take(d as int) =~= row@);
    }
}

/// Computes the generator rows of the received repairs.
fn generator_rows<F: Field>(
    plan: &TransformPlan<F>,
    tables: &LogExpTables<F>,
    locator: &ErasureLocator<F>,
    k: usize,
    m: usize,
    repairs: &[usize],
) -> (r: Vec<F>)
    requires
        plans(plan, k as int, m as int),
        tables.valid(),
        k + m <= plan.domain() <= 65536,
        locator.locates(plan.ordered_basis(), systematic_pattern(k as int)),
        forall|t: int| 0 <= t < repairs@.len() ==> #[trigger] repairs@[t] < m,
    ensures
        is_generator(k as int, ints(repairs@), r@),
{
    let ghost dimension = padded_dimension(k + m);
    let ghost width = k as int;
    let mut generator: Vec<F> = Vec::new();
    let mut b: usize = 0;
    while b < repairs.len()
        invariant
            b <= repairs@.len(),
            plans(plan, k as int, m as int),
            tables.valid(),
            dimension == padded_dimension(k + m),
            width == k,
            k + m <= plan.domain() <= 65536,
            locator.locates(plan.ordered_basis(), systematic_pattern(k as int)),
            forall|t: int| 0 <= t < repairs@.len() ==> #[trigger] repairs@[t] < m,
            generator@.len() == b * k,
            forall|t: int, d: int|
                0 <= t < b && 0 <= d < k ==> #[trigger] entry(generator@, width, t, d)
                    == afft_coef::<F>(width)(repairs@[t] as int, d),
        decreases repairs@.len() - b,
    {
        let mut row: Vec<F> = zeroes::<F>(k);
        let point: usize = k + repairs[b];
        generator_row(plan, tables, locator, point, row.as_mut_slice());
        proof {
            let nodes = first_points(plan.points(), k as int);
            let own = first_points(afft_point::<F>(), k as int);
            assert(plan.ordered_basis().len() == dimension);
            assert(nodes =~= own) by {
                assert forall|i: int| 0 <= i < k implies #[trigger] nodes[i] == own[i] by {
                    pattern_point::<F>(dimension, i);
                }
            }
            pattern_point::<F>(dimension, point as int);
            assert forall|d: int| 0 <= d < k implies #[trigger] row@[d] == afft_coef::<F>(
                k as int,
            )(repairs@[b as int] as int, d) by {
                assert(row@[d] == lagrange(nodes, d, (plan.points())(point as int)));
            }
        }
        let ghost before = generator@;
        append_row(&mut generator, row.as_slice());
        proof {
            row_bounds(b as int, b + 1, width);
            assert forall|t: int, d: int| 0 <= t < b + 1 && 0 <= d < k implies #[trigger] entry(
                generator@,
                width,
                t,
                d,
            ) == afft_coef::<F>(width)(repairs@[t] as int, d) by {
                if t < b {
                    row_bounds(t, b as int, width);
                    assert(generator@[t * width + d] == before[t * width + d]);
                    assert(entry(before, width, t, d) == afft_coef::<F>(width)(
                        repairs@[t] as int,
                        d,
                    ));
                } else {
                    assert(generator@[b * width + d] == row@[d]);
                }
            }
        }
        b += 1;
    }
    proof {
        assert forall|t: int, d: int|
            0 <= t < repairs@.len() && 0 <= d < k implies #[trigger] entry(
            generator@,
            width,
            t,
            d,
        ) == afft_coef::<F>(width)(ints(repairs@)[t], d) by {
            assert(ints(repairs@)[t] == repairs@[t]);
        }
    }
    generator
}

/// The generator at the missing columns, row by row.
fn reduced_table<F: Field>(
    k: usize,
    missing: &[usize],
    repairs: &[usize],
    generator: &[F],
) -> (r: Vec<F>)
    requires
        is_generator(k as int, ints(repairs@), generator@),
        missing@.len() == repairs@.len(),
        forall|t: int| 0 <= t < missing@.len() ==> #[trigger] missing@[t] < k,
    ensures
        is_reduced_table(afft_coef::<F>(k as int), ints(missing@), ints(repairs@), r@),
{
    let r: usize = missing.len();
    let held: usize = generator.len();
    let ghost n = r as int;
    let ghost coef = afft_coef::<F>(k as int);
    let ghost lost = ints(missing@);
    let ghost used = ints(repairs@);
    let mut table: Vec<F> = Vec::new();
    let mut b: usize = 0;
    while b < r
        invariant
            b <= r,
            held == generator@.len(),
            r == missing@.len(),
            n == r,
            coef == afft_coef::<F>(k as int),
            lost == ints(missing@),
            used == ints(repairs@),
            is_generator(k as int, used, generator@),
            missing@.len() == repairs@.len(),
            forall|t: int| 0 <= t < missing@.len() ==> #[trigger] missing@[t] < k,
            table@.len() == b * r,
            forall|i: int, c: int|
                0 <= i < b && 0 <= c < r ==> #[trigger] entry(table@, n, i, c) == coef(
                    used[i],
                    lost[c],
                ),
        decreases r - b,
    {
        let ghost before = table@;
        let mut c: usize = 0;
        while c < r
            invariant
                b < r,
                c <= r,
                held == generator@.len(),
                r == missing@.len(),
                n == r,
                coef == afft_coef::<F>(k as int),
                lost == ints(missing@),
                used == ints(repairs@),
                is_generator(k as int, used, generator@),
                missing@.len() == repairs@.len(),
                forall|t: int| 0 <= t < missing@.len() ==> #[trigger] missing@[t] < k,
                before.len() == b * r,
                table@.len() == b * r + c,
                forall|t: int| 0 <= t < before.len() ==> #[trigger] table@[t] == before[t],
                forall|d: int|
                    0 <= d < c ==> #[trigger] entry(table@, n, b as int, d) == coef(
                        used[b as int],
                        lost[d],
                    ),
            decreases r - c,
        {
            let ghost earlier = table@;
            let index: usize = missing[c];
            proof {
                row_bounds(b as int, r as int, k as int);
            }
            table.push(generator[b * k + index]);
            proof {
                assert(entry(generator@, k as int, b as int, index as int) == coef(
                    used[b as int],
                    index as int,
                ));
                assert forall|d: int| 0 <= d < c + 1 implies #[trigger] entry(
                    table@,
                    n,
                    b as int,
                    d,
                ) == coef(used[b as int], lost[d]) by {
                    if d < c {
                        assert(entry(earlier, n, b as int, d) == coef(used[b as int], lost[d]));
                    }
                }
            }
            c += 1;
        }
        proof {
            row_bounds(b as int, n, n);
            assert forall|i: int, d: int| 0 <= i < b + 1 && 0 <= d < r implies #[trigger] entry(
                table@,
                n,
                i,
                d,
            ) == coef(used[i], lost[d]) by {
                if i < b {
                    crate::symbols::rows_apart(i, b as int, n);
                    assert(0 <= i * n) by (nonlinear_arith)
                        requires
                            0 <= i,
                            0 <= n,
                    ;
                    assert(table@[i * n + d] == before[i * n + d]);
                    assert(entry(before, n, i, d) == coef(used[i], lost[d]));
                }
            }
        }
        b += 1;
    }
    table
}

/// `residuals` holds the repairs with the present data folded out; `payload` gives
/// the repairs, then the present data symbols.
pub open spec fn holds_residuals<F: Field>(
    k: int,
    symbol_len: int,
    present: Seq<int>,
    repairs: Seq<int>,
    payload: spec_fn(int) -> Seq<u8>,
    residuals: Seq<u8>,
) -> bool {
    &&& residuals.len() == repairs.len() * symbol_len
    &&& forall|b: int, e: int|
        0 <= b < repairs.len() && 0 <= e < lane_count::<F>(symbol_len) ==> #[trigger] lane::<F>(
            residuals,
            symbol_len,
            b,
            e,
        ) == lane::<F>(payload(b), symbol_len, 0, e).plus(
            sum(
                |p: int|
                    afft_coef::<F>(k)(repairs[b], present[p]).times(
                        lane::<F>(payload(repairs.len() + p), symbol_len, 0, e),
                    ),
                present.len() as int,
            ),
        )
}

/// The repairs with the present data folded out.
fn fold_present<F: Field>(
    k: usize,
    symbol_len: usize,
    present: &[usize],
    r: usize,
    generator: &[F],
    sources: &[&[u8]],
    residuals: &mut Vec<u8>,
    Ghost(repairs): Ghost<Seq<int>>,
)
    requires
        r == repairs.len(),
        is_generator(k as int, repairs, generator@),
        repairs.len() + present@.len() == k,
        sources@.len() == k,
        whole_lanes::<F>(symbol_len as int),
        repairs.len() * symbol_len <= usize::MAX,
        forall|t: int| 0 <= t < sources@.len() ==> (#[trigger] sources@[t])@.len() == symbol_len,
        forall|t: int| 0 <= t < present@.len() ==> #[trigger] present@[t] < k,
    ensures
        holds_residuals::<F>(
            k as int,
            symbol_len as int,
            ints(present@),
            repairs,
            |t: int| sources@[t]@,
            final(residuals)@,
        ),
{
    let ghost l = symbol_len as int;
    let ghost coef = afft_coef::<F>(k as int);
    let ghost kept = ints(present@);
    let ghost term = |b: int, e: int|
        |p: int|
            coef(repairs[b], kept[p]).times(
                lane::<F>(sources@[repairs.len() + p]@, l, 0, e),
            );
    let _ = fit(residuals, r * symbol_len);
    let mut b: usize = 0;
    while b < r
        invariant
            b <= r,
            r == repairs.len(),
            l == symbol_len,
            r <= k,
            sources@.len() == k,
            residuals@.len() == r * symbol_len,
            forall|t: int|
                0 <= t < sources@.len() ==> (#[trigger] sources@[t])@.len() == symbol_len,
            forall|i: int|
                0 <= i < b ==> row_of(residuals@, l, i) == (#[trigger] sources@[i])@,
        decreases r - b,
    {
        proof {
            row_bounds(b as int, r as int, l);
        }
        let ghost before = residuals@;
        copy_row(residuals.as_mut_slice(), b, symbol_len, sources[b]);
        proof {
            assert forall|i: int| 0 <= i < b + 1 implies row_of(residuals@, l, i)
                == (#[trigger] sources@[i])@ by {
                if i < b {
                    row_bounds(i, r as int, l);
                    assert(row_of(before, l, i) == sources@[i]@);
                }
            }
        }
        b += 1;
    }
    proof {
        assert forall|i: int, e: int|
            0 <= i < r && 0 <= e < lane_count::<F>(l) implies #[trigger] lane::<F>(
            residuals@,
            l,
            i,
            e,
        ) == lane::<F>(sources@[i]@, l, 0, e).plus(sum(term(i, e), 0)) by {
            lane_of_row::<F>(residuals@, l, i, r as int, e);
            assert(row_of(residuals@, l, i) == sources@[i]@);
            F::plus_identity(lane::<F>(sources@[i]@, l, 0, e));
        }
    }
    let mut p: usize = 0;
    while p < present.len()
        invariant
            p <= present@.len(),
            r == repairs.len(),
            l == symbol_len,
            r + present@.len() == k,
            coef == afft_coef::<F>(k as int),
            kept == ints(present@),
            is_generator(k as int, repairs, generator@),
            sources@.len() == k,
            whole_lanes::<F>(l),
            residuals@.len() == r * symbol_len,
            term == (|b: int, e: int|
                |p: int|
                    coef(repairs[b], kept[p]).times(
                        lane::<F>(sources@[repairs.len() + p]@, l, 0, e),
                    )),
            forall|t: int|
                0 <= t < sources@.len() ==> (#[trigger] sources@[t])@.len() == symbol_len,
            forall|t: int| 0 <= t < present@.len() ==> #[trigger] present@[t] < k,
            forall|i: int, e: int|
                0 <= i < r && 0 <= e < lane_count::<F>(l) ==> #[trigger] lane::<F>(
                    residuals@,
                    l,
                    i,
                    e,
                ) == lane::<F>(sources@[i]@, l, 0, e).plus(sum(term(i, e), p as int)),
        decreases present@.len() - p,
    {
        let index: usize = present[p];
        let coefficients = generator_column(generator, r, k, index, Ghost(repairs));
        let ghost before = residuals@;
        F::scale_into_rows(
            residuals.as_mut_slice(),
            symbol_len,
            coefficients.as_slice(),
            sources[r + p],
        );
        proof {
            assert forall|i: int, e: int|
                0 <= i < r && 0 <= e < lane_count::<F>(l) implies #[trigger] lane::<F>(
                residuals@,
                l,
                i,
                e,
            ) == lane::<F>(sources@[i]@, l, 0, e).plus(sum(term(i, e), p + 1)) by {
                let base = lane::<F>(sources@[i]@, l, 0, e);
                let so_far = sum(term(i, e), p as int);
                let next = term(i, e)(p as int);
                assert(lane::<F>(before, l, i, e) == base.plus(so_far));
                assert(coefficients@[i] == coef(repairs[i], index as int));
                assert(kept[p as int] == index);
                F::plus_associates(base, so_far, next);
            }
        }
        p += 1;
    }
    proof {
        let payload = |t: int| sources@[t]@;
        assert forall|i: int, e: int|
            0 <= i < r && 0 <= e < lane_count::<F>(l) implies #[trigger] lane::<F>(
            residuals@,
            l,
            i,
            e,
        ) == lane::<F>(payload(i), l, 0, e).plus(
            sum(
                |p: int|
                    coef(repairs[i], kept[p]).times(
                        lane::<F>(payload(repairs.len() + p), l, 0, e),
                    ),
                kept.len() as int,
            ),
        ) by {
            sum_congruent(
                term(i, e),
                |p: int|
                    coef(repairs[i], kept[p]).times(
                        lane::<F>(payload(repairs.len() + p), l, 0, e),
                    ),
                kept.len() as int,
            );
        }
        assert(holds_residuals::<F>(k as int, l, kept, repairs, payload, residuals@));
    }
}

/// One column of the generator rows.
fn generator_column<F: Field>(
    generator: &[F],
    rows: usize,
    k: usize,
    index: usize,
    Ghost(repairs): Ghost<Seq<int>>,
) -> (r: Vec<F>)
    requires
        rows == repairs.len(),
        is_generator(k as int, repairs, generator@),
        index < k,
    ensures
        r@.len() == repairs.len(),
        forall|b: int|
            0 <= b < r@.len() ==> #[trigger] r@[b] == afft_coef::<F>(k as int)(
                repairs[b],
                index as int,
            ),
{
    let held: usize = generator.len();
    let mut out: Vec<F> = Vec::new();
    let mut b: usize = 0;
    while b < rows
        invariant
            b <= rows,
            rows == repairs.len(),
            held == generator@.len(),
            index < k,
            is_generator(k as int, repairs, generator@),
            out@.len() == b,
            forall|i: int|
                0 <= i < b ==> #[trigger] out@[i] == afft_coef::<F>(k as int)(
                    repairs[i],
                    index as int,
                ),
        decreases rows - b,
    {
        proof {
            row_bounds(b as int, rows as int, k as int);
            assert(entry(generator@, k as int, b as int, index as int) == afft_coef::<F>(k as int)(
                repairs[b as int],
                index as int,
            ));
        }
        out.push(generator[b * k + index]);
        b += 1;
    }
    out
}

/// The last column of a square table.
pub open spec fn is_last_column<F: Field>(table: Seq<F>, order: int, last: Seq<F>) -> bool {
    &&& last.len() == order
    &&& forall|i: int| 0 <= i < order ==> #[trigger] last[i] == entry(table, order, i, order - 1)
}

/// The inverse applied to the residuals. `coefficients` is left with the last
/// column that was combined.
fn apply_inverse<F: Field>(
    r: usize,
    symbol_len: usize,
    inverse: &[F],
    residuals: &[u8],
    coefficients: &mut Vec<F>,
    recovered: &mut Vec<u8>,
)
    requires
        0 < r,
        inverse@.len() == r * r,
        residuals@.len() == r * symbol_len,
        whole_lanes::<F>(symbol_len as int),
    ensures
        is_last_column(inverse@, r as int, final(coefficients)@),
        final(recovered)@.len() == r * symbol_len,
        forall|a: int, e: int|
            0 <= a < r && 0 <= e < lane_count::<F>(symbol_len as int) ==> #[trigger] lane::<F>(
                final(recovered)@,
                symbol_len as int,
                a,
                e,
            ) == sum(
                |b: int|
                    entry(inverse@, r as int, a, b).times(
                        lane::<F>(residuals@, symbol_len as int, b, e),
                    ),
                r as int,
            ),
{
    let ghost l = symbol_len as int;
    let ghost n = r as int;
    let held: usize = residuals.len();
    let available: usize = inverse.len();
    let ghost term = |a: int, e: int|
        |b: int| entry(inverse@, n, a, b).times(lane::<F>(residuals@, l, b, e));
    let _ = fit(recovered, r * symbol_len);
    proof {
        assert forall|a: int, e: int|
            0 <= a < r && 0 <= e < lane_count::<F>(l) implies #[trigger] lane::<F>(
            recovered@,
            l,
            a,
            e,
        ) == sum(term(a, e), 0) by {
            row_bounds(a, n, l);
            lane_of_zeros::<F>(recovered@, l, a, e);
        }
    }
    let mut b: usize = 0;
    while b < r
        invariant
            b <= r,
            n == r,
            l == symbol_len,
            held == residuals@.len(),
            available == inverse@.len(),
            inverse@.len() == r * r,
            residuals@.len() == r * symbol_len,
            whole_lanes::<F>(l),
            recovered@.len() == r * symbol_len,
            term == (|a: int, e: int|
                |b: int| entry(inverse@, n, a, b).times(lane::<F>(residuals@, l, b, e))),
            forall|a: int, e: int|
                0 <= a < r && 0 <= e < lane_count::<F>(l) ==> #[trigger] lane::<F>(
                    recovered@,
                    l,
                    a,
                    e,
                ) == sum(term(a, e), b as int),
            b > 0 ==> coefficients@.len() == r,
            b > 0 ==> forall|i: int|
                0 <= i < r ==> #[trigger] coefficients@[i] == entry(inverse@, n, i, b - 1),
        decreases r - b,
    {
        coefficients.clear();
        let mut a: usize = 0;
        while a < r
            invariant
                a <= r,
                b < r,
                n == r,
                available == inverse@.len(),
                inverse@.len() == r * r,
                coefficients@.len() == a,
                forall|i: int|
                    0 <= i < a ==> #[trigger] coefficients@[i] == entry(inverse@, n, i, b as int),
            decreases r - a,
        {
            proof {
                row_bounds(a as int, n, n);
            }
            coefficients.push(inverse[a * r + b]);
            a += 1;
        }
        let ghost before = recovered@;
        proof {
            row_bounds(b as int, n, l);
        }
        let source = row_slice(residuals, b, symbol_len);
        F::scale_into_rows(
            recovered.as_mut_slice(),
            symbol_len,
            coefficients.as_slice(),
            source,
        );
        proof {
            assert forall|a: int, e: int|
                0 <= a < r && 0 <= e < lane_count::<F>(l) implies #[trigger] lane::<F>(
                recovered@,
                l,
                a,
                e,
            ) == sum(term(a, e), b + 1) by {
                lane_of_row::<F>(residuals@, l, b as int, n, e);
                assert(lane::<F>(before, l, a, e) == sum(term(a, e), b as int));
                assert(term(a, e)(b as int) == coefficients@[a].times(
                    lane::<F>(source@, l, 0, e),
                ));
            }
        }
        b += 1;
    }
    proof {
        assert forall|a: int, e: int|
            0 <= a < r && 0 <= e < lane_count::<F>(l) implies #[trigger] lane::<F>(
            recovered@,
            l,
            a,
            e,
        ) == sum(
            |b: int| entry(inverse@, n, a, b).times(lane::<F>(residuals@, l, b, e)),
            n,
        ) by {
            sum_congruent(
                term(a, e),
                |b: int| entry(inverse@, n, a, b).times(lane::<F>(residuals@, l, b, e)),
                n,
            );
        }
    }
}

/// Tables of one dense solve.
#[derive(Clone, Debug)]
pub struct TargetedTables<F: Field> {
    /// Codeword positions of the received repairs.
    pub repair_indices: Vec<usize>,
    /// Generator rows of those repairs, `k` entries each.
    pub generator: Vec<F>,
    /// The generator at the missing columns.
    pub system: Vec<F>,
    /// The inverse of the system.
    pub inverse: Vec<F>,
    /// Scalars of the last row combination.
    pub coefficients: Vec<F>,
    /// The repairs with the present data folded out.
    pub residuals: Vec<u8>,
}

impl<F: Field> TargetedTables<F> {
    /// Tables of no solve.
    pub fn new() -> (r: Self)
        ensures
            r.repair_indices@.len() == 0,
            r.generator@.len() == 0,
            r.system@.len() == 0,
            r.inverse@.len() == 0,
            r.coefficients@.len() == 0,
            r.residuals@.len() == 0,
    {
        TargetedTables {
            repair_indices: Vec::new(),
            generator: Vec::new(),
            system: Vec::new(),
            inverse: Vec::new(),
            coefficients: Vec::new(),
            residuals: Vec::new(),
        }
    }
}

/// The tables are those of the dense solve for this receipt; `payload` gives the
/// repairs, then the present data symbols.
pub open spec fn holds_solve<F: Field>(
    tables: TargetedTables<F>,
    k: int,
    symbol_len: int,
    missing: Seq<int>,
    present: Seq<int>,
    repairs: Seq<int>,
    payload: spec_fn(int) -> Seq<u8>,
) -> bool {
    &&& ints(tables.repair_indices@) == Seq::new(repairs.len(), |b: int| k + repairs[b])
    &&& is_generator(k, repairs, tables.generator@)
    &&& is_reduced_table(afft_coef::<F>(k), missing, repairs, tables.system@)
    &&& table_inverts(tables.system@, tables.inverse@, missing.len() as int)
    &&& is_last_column(tables.inverse@, missing.len() as int, tables.coefficients@)
    &&& holds_residuals::<F>(k, symbol_len, present, repairs, payload, tables.residuals@)
}

/// The tables of a dense solve, entry by entry: the codeword position of every
/// repair used, its generator row, and the last column of the inverse.
pub proof fn solves_show_their_tables<F: Field>(
    tables: TargetedTables<F>,
    k: int,
    symbol_len: int,
    missing: Seq<int>,
    present: Seq<int>,
    repairs: Seq<int>,
    payload: spec_fn(int) -> Seq<u8>,
    b: int,
    d: int,
)
    requires
        holds_solve(tables, k, symbol_len, missing, present, repairs, payload),
        repairs.len() == missing.len(),
        0 <= b < missing.len(),
        0 <= d < k,
    ensures
        tables.repair_indices@.len() == missing.len(),
        tables.repair_indices@[b] == k + repairs[b],
        tables.generator@.len() == missing.len() * k,
        tables.generator@[b * k + d] == afft_coef::<F>(k)(repairs[b], d),
        tables.coefficients@.len() == missing.len(),
        tables.coefficients@[b] == tables.inverse@[b * missing.len() + missing.len() - 1],
        tables.residuals@.len() == missing.len() * symbol_len,
{
    assert(ints(tables.repair_indices@).len() == repairs.len());
    assert(ints(tables.repair_indices@)[b] == k + repairs[b]);
    assert(entry(tables.generator@, k, b, d) == afft_coef::<F>(k)(repairs[b], d));
    assert(tables.coefficients@[b] == entry(
        tables.inverse@,
        missing.len() as int,
        b,
        missing.len() - 1,
    ));
}

/// A point is marked as known exactly if its symbol was received: a data symbol
/// among those present, or a repair among those used.
pub proof fn marks_follow_the_receipt(
    k: int,
    present: Seq<int>,
    repairs: Seq<int>,
    known: Seq<bool>,
    i: int,
)
    requires
        marks_sources(k, present, repairs, known),
        0 <= i < known.len(),
    ensures
        i < k ==> (known[i] <==> present.contains(i)),
        i >= k ==> (known[i] <==> repairs.contains(i - k)),
{
}

/// A dense solve depends on the payloads of its sources only.
pub proof fn solve_congruent<F: Field>(
    tables: TargetedTables<F>,
    k: int,
    symbol_len: int,
    missing: Seq<int>,
    present: Seq<int>,
    repairs: Seq<int>,
    payload: spec_fn(int) -> Seq<u8>,
    other: spec_fn(int) -> Seq<u8>,
)
    requires
        holds_solve(tables, k, symbol_len, missing, present, repairs, payload),
        forall|t: int|
            0 <= t < repairs.len() + present.len() ==> #[trigger] other(t) == payload(t),
    ensures
        holds_solve(tables, k, symbol_len, missing, present, repairs, other),
{
    let coef = afft_coef::<F>(k);
    assert forall|b: int, e: int|
        0 <= b < repairs.len() && 0 <= e < lane_count::<F>(symbol_len) implies #[trigger] lane::<F>(
        tables.residuals@,
        symbol_len,
        b,
        e,
    ) == lane::<F>(other(b), symbol_len, 0, e).plus(
        sum(
            |p: int|
                coef(repairs[b], present[p]).times(
                    lane::<F>(other(repairs.len() + p), symbol_len, 0, e),
                ),
            present.len() as int,
        ),
    ) by {
        assert(other(b) == payload(b));
        let f = |p: int|
            coef(repairs[b], present[p]).times(
                lane::<F>(payload(repairs.len() + p), symbol_len, 0, e),
            );
        let g = |p: int|
            coef(repairs[b], present[p]).times(
                lane::<F>(other(repairs.len() + p), symbol_len, 0, e),
            );
        assert forall|p: int| 0 <= p < present.len() implies #[trigger] f(p) == g(p) by {
            assert(other(repairs.len() + p) == payload(repairs.len() + p));
        }
        sum_congruent(f, g, present.len() as int);
    }
}

/// Codeword positions of repairs.
fn repair_positions(k: usize, repairs: &[usize]) -> (r: Vec<usize>)
    requires
        forall|t: int| 0 <= t < repairs@.len() ==> k + #[trigger] repairs@[t] <= usize::MAX,
    ensures
        ints(r@) == Seq::new(repairs@.len(), |b: int| k + ints(repairs@)[b]),
{
    let mut positions: Vec<usize> = Vec::new();
    let mut b: usize = 0;
    while b < repairs.len()
        invariant
            b <= repairs@.len(),
            forall|t: int| 0 <= t < repairs@.len() ==> k + #[trigger] repairs@[t] <= usize::MAX,
            positions@.len() == b,
            forall|t: int| 0 <= t < b ==> #[trigger] positions@[t] == k + repairs@[t],
        decreases repairs@.len() - b,
    {
        positions.push(k + repairs[b]);
        b += 1;
    }
    proof {
        assert(ints(positions@) =~= Seq::new(repairs@.len(), |b: int| k + ints(repairs@)[b]));
    }
    positions
}

/// Rebuilds the block by a dense solve against the received repair rows.
///
/// Builds the generator rows for the repair points received, inverts their
/// missing columns, folds the present data out of the repairs, and applies the
/// inverse.
pub fn rebuild_targeted<F: Field>(
    plan: &TransformPlan<F>,
    tables: &LogExpTables<F>,
    locator: &ErasureLocator<F>,
    workspace: &mut TargetedInverse<F>,
    k: usize,
    m: usize,
    symbol_len: usize,
    missing: &[usize],
    present: &[usize],
    repairs: &[usize],
    sources: &[&[u8]],
    solve: &mut TargetedTables<F>,
    recovered: &mut Vec<u8>,
    out: &mut [u8],
)
    requires
        plans(plan, k as int, m as int),
        tables.valid(),
        locator.locates(plan.ordered_basis(), systematic_pattern(k as int)),
        old(workspace).valid(),
        0 < missing@.len() <= old(workspace).capacity(),
        rebuildable::<F>(
            k as int,
            m as int,
            symbol_len as int,
            missing@,
            present@,
            repairs@,
            sources@,
        ),
        old(out)@.len() == k * symbol_len,
    ensures
        final(workspace).valid(),
        final(workspace).capacity() == old(workspace).capacity(),
        embeds(
            final(workspace).embedded_table(),
            final(workspace).capacity(),
            final(solve).system@,
            missing@.len() as int,
        ),
        holds_solve(
            *final(solve),
            k as int,
            symbol_len as int,
            ints(missing@),
            ints(present@),
            ints(repairs@),
            |t: int| sources@[t]@,
        ),
        holds_rows(symbol_len as int, final(out)@, ints(missing@), final(recovered)@),
        final(out)@.len() == k * symbol_len,
        sources_encoded::<F>(
            k as int,
            symbol_len as int,
            ints(present@),
            ints(repairs@),
            sources@,
            final(out)@,
        ),
{
    let ghost l = symbol_len as int;
    let ghost lost = ints(missing@);
    let ghost kept = ints(present@);
    let ghost used = ints(repairs@);
    let ghost coef = afft_coef::<F>(k as int);
    let r: usize = missing.len();
    proof {
        shape_facts::<F>(k as int, m as int, l);
        assert forall|t: int| 0 <= t < repairs@.len() implies #[trigger] repairs@[t] < m by {
            assert(used[t] == repairs@[t]);
        }
        assert forall|t: int| 0 <= t < missing@.len() implies #[trigger] missing@[t] < k by {
            assert(lost[t] == missing@[t]);
        }
        assert forall|t: int| 0 <= t < present@.len() implies #[trigger] present@[t] < k by {
            assert(kept[t] == present@[t]);
        }
        let cap = workspace.capacity();
        assert(0 <= r * r <= cap * cap && 0 <= r * l <= k * l) by (nonlinear_arith)
            requires
                0 <= r <= cap,
                r <= k,
                0 <= l,
        ;
    }
    let positions = repair_positions(k, repairs);
    let generator = generator_rows(plan, tables, locator, k, m, repairs);
    let system = reduced_table(k, missing, repairs, generator.as_slice());
    let mut inverse: Vec<F> = zeroes::<F>(r * r);
    let regular: bool = workspace.invert_into(system.as_slice(), r, inverse.as_mut_slice());
    proof {
        afft_points_differ::<F>(k + m);
        lagrange_code_is_mds(afft_point::<F>(), k as int, m as int);
        assert(system@.subrange(0, r * r) =~= system@);
        reduced_system_is_regular(coef, k as int, m as int, lost, kept, used, system@);
        assert(regular);
        table_inverse_inverts(coef, lost, used, system@, inverse@);
    }
    let mut residuals: Vec<u8> = Vec::new();
    std::mem::swap(&mut residuals, &mut solve.residuals);
    fold_present(
        k,
        symbol_len,
        present,
        r,
        generator.as_slice(),
        sources,
        &mut residuals,
        Ghost(used),
    );
    let mut coefficients: Vec<F> = Vec::new();
    std::mem::swap(&mut coefficients, &mut solve.coefficients);
    apply_inverse(
        r,
        symbol_len,
        inverse.as_slice(),
        residuals.as_slice(),
        &mut coefficients,
        recovered,
    );
    assemble(k, symbol_len, missing, present, sources, recovered.as_slice(), out);
    proof {
        let inv = |a: int, b: int| entry(inverse@, r as int, a, b);
        let payload = |t: int| sources@[t]@;
        let repair_payload = |b: int| sources@[b]@;
        let present_payload = |p: int| sources@[used.len() + p]@;
        assert forall|a: int, e: int|
            0 <= a < lost.len() && 0 <= e < lane_count::<F>(l) implies #[trigger] lane::<F>(
            out@,
            l,
            lost[a],
            e,
        ) == solved(
            coef,
            kept,
            used,
            inv,
            payload_lane(repair_payload, l, e),
            payload_lane(present_payload, l, e),
            a,
        ) by {
            assert(0 <= lost[a] < k);
            assert(row_of(out@, l, lost[a]) == row_of(recovered@, l, a));
            lane_of_row::<F>(out@, l, lost[a], k as int, e);
            lane_of_row::<F>(recovered@, l, a, r as int, e);
            let repair_value = payload_lane::<F>(repair_payload, l, e);
            let present_value = payload_lane::<F>(present_payload, l, e);
            solved_is_inverse_of_residuals(
                coef,
                kept,
                used,
                inv,
                repair_value,
                present_value,
                a,
            );
            let left = |b: int| entry(inverse@, r as int, a, b).times(
                lane::<F>(residuals@, l, b, e),
            );
            let right = |b: int|
                inv(a, b).times(
                    repair_value(b).plus(
                        sum(
                            |p: int| coef(used[b], kept[p]).times(present_value(p)),
                            kept.len() as int,
                        ),
                    ),
                );
            assert forall|b: int| 0 <= b < r implies #[trigger] left(b) == right(b) by {
                assert(lane::<F>(residuals@, l, b, e) == lane::<F>(payload(b), l, 0, e).plus(
                    sum(
                        |p: int|
                            coef(used[b], kept[p]).times(
                                lane::<F>(payload(used.len() + p), l, 0, e),
                            ),
                        kept.len() as int,
                    ),
                ));
                sum_congruent(
                    |p: int|
                        coef(used[b], kept[p]).times(
                            lane::<F>(payload(used.len() + p), l, 0, e),
                        ),
                    |p: int| coef(used[b], kept[p]).times(present_value(p)),
                    kept.len() as int,
                );
            }
            sum_congruent(left, right, r as int);
            assert(lane::<F>(recovered@, l, a, e) == sum(left, r as int)) by {
                sum_congruent(
                    |b: int|
                        entry(inverse@, r as int, a, b).times(lane::<F>(residuals@, l, b, e)),
                    left,
                    r as int,
                );
            }
        }
        assert forall|p: int| 0 <= p < kept.len() implies #[trigger] present_payload(p) == row_of(
            out@,
            l,
            kept[p],
        ) by {
            assert(row_of(out@, l, kept[p]) == sources@[missing@.len() + p]@);
        }
        assert forall|t: int| 0 <= t < k implies (#[trigger] sources@[t])@ == codeword_symbol(
            coef,
            k as int,
            l,
            out@,
            term_index(k as int, kept, used, t),
        ) by {
            if t < used.len() {
                assert(repair_payload(t) == sources@[t]@);
                assert(0 <= used[t]);
                solved_block_agrees(
                    coef,
                    k as int,
                    l,
                    lost,
                    kept,
                    used,
                    inv,
                    present_payload,
                    repair_payload,
                    out@,
                    t,
                );
            } else {
                let p = t - used.len();
                assert(present_payload(p) == row_of(out@, l, kept[p]));
                assert(0 <= kept[p] < k);
                systematic_symbol(coef, k as int, l, out@, kept[p]);
            }
        }
    }
    proof {
        assert(holds_rows(l, out@, lost, recovered@));
    }
    solve.repair_indices = positions;
    solve.generator = generator;
    solve.system = system;
    solve.inverse = inverse;
    solve.coefficients = coefficients;
    solve.residuals = residuals;
}

/// `known` marks the positions of the sources and no other.
pub open spec fn marks_sources(
    k: int,
    present: Seq<int>,
    repairs: Seq<int>,
    known: Seq<bool>,
) -> bool {
    forall|i: int|
        0 <= i < known.len() ==> (#[trigger] known[i] == (present.contains(i) && i < k
            || repairs.contains(i - k) && i >= k))
}

/// Rebuilds the block by recovery over the whole evaluation domain.
///
/// Fixed cost of three domain-sized transforms, whatever the erasure count.
/// Domain points past the codeword were never transmitted and count as erased.
pub fn rebuild_located<F: Field>(
    plan: &TransformPlan<F>,
    tables: &LogExpTables<F>,
    locator: &mut ErasureLocator<F>,
    locator_scratch: &mut LocatorScratch,
    recovery: &mut RecoveryScratch,
    k: usize,
    m: usize,
    symbol_len: usize,
    missing: &[usize],
    present: &[usize],
    repairs: &[usize],
    sources: &[&[u8]],
    received: &[u8],
    known: &[bool],
    recovered: &mut Vec<u8>,
    out: &mut [u8],
)
    requires
        plans(plan, k as int, m as int),
        tables.valid(),
        rebuildable::<F>(
            k as int,
            m as int,
            symbol_len as int,
            missing@,
            present@,
            repairs@,
            sources@,
        ),
        forall|s: int, t: int|
            0 <= s < t < missing@.len() ==> #[trigger] missing@[s] < #[trigger] missing@[t],
        known@.len() == plan.domain(),
        marks_sources(k as int, ints(present@), ints(repairs@), known@),
        received@.len() == plan.domain() * symbol_len,
        forall|t: int|
            0 <= t < k ==> row_of(
                received@,
                symbol_len as int,
                term_index(k as int, ints(present@), ints(repairs@), t),
            ) == (#[trigger] sources@[t])@,
        old(out)@.len() == k * symbol_len,
    ensures
        final(locator).locates(plan.ordered_basis(), known_in(known@)),
        missing@.len() > 0 ==> holds_product(
            plan.ordered_basis(),
            final(locator),
            received@,
            symbol_len as int,
            final(recovery).product_rows(),
        ) && holds_slopes(
            plan.ordered_basis(),
            known_in(known@),
            final(locator),
            received@,
            symbol_len as int,
            missing@,
            final(recovery).derivative_rows(),
        ),
        holds_rows(symbol_len as int, final(out)@, ints(missing@), final(recovered)@),
        final(out)@.len() == k * symbol_len,
        sources_encoded::<F>(
            k as int,
            symbol_len as int,
            ints(present@),
            ints(repairs@),
            sources@,
            final(out)@,
        ),
{
    let ghost l = symbol_len as int;
    let ghost lost = ints(missing@);
    let ghost kept = ints(present@);
    let ghost used = ints(repairs@);
    let ghost coef = afft_coef::<F>(k as int);
    let ghost basis = plan.ordered_basis();
    let ghost dimension = padded_dimension(k + m);
    let ghost n = plan.domain();
    let ghost pattern = known_in(known@);
    let r: usize = missing.len();
    proof {
        shape_facts::<F>(k as int, m as int, l);
        assert(0 <= r * l <= k * l) by (nonlinear_arith)
            requires
                0 <= r <= k,
                0 <= l,
        ;
        assert(basis.len() == dimension);
    }
    let _ = locator.recompute(plan, tables, known, locator_scratch);
    proof {
        assert(locator.locates(basis, pattern));
        assert forall|t: int| 0 <= t < missing@.len() implies #[trigger] missing@[t]
            < plan.domain() && locator.value_table()[missing@[t] as int] == F::zero_elem() by {
            let i = lost[t];
            assert(0 <= i < k);
            assert(!known@[i]) by {
                assert(known@[i] == (kept.contains(i) && i < k || used.contains(i - k) && i >= k));
                if kept.contains(i) {
                    let p = choose|p: int| 0 <= p < kept.len() && kept[p] == i;
                    assert(lost[t] != kept[p]);
                }
            }
            locates_means(locator, basis, pattern, i);
        }
    }
    let _ = fit(recovered, r * symbol_len);
    let _ = recover_rows(
        plan,
        locator,
        received,
        symbol_len,
        missing,
        recovery,
        recovered.as_mut_slice(),
    );
    assemble(k, symbol_len, missing, present, sources, recovered.as_slice(), out);
    proof {
        assert(holds_recovered(basis, pattern, received@, l, missing@, recovered@));
        known_count(k as int, m as int, n, lost, kept, used, known@);
        assert forall|t: int| 0 <= t < k implies (#[trigger] sources@[t])@ == codeword_symbol(
            coef,
            k as int,
            l,
            out@,
            term_index(k as int, kept, used, t),
        ) by {
            let index = term_index(k as int, kept, used, t);
            source_is_known(k as int, m as int, n, lost, kept, used, known@, t);
            assert forall|e: int| 0 <= e < lane_count::<F>(l) implies #[trigger] lane::<F>(
                sources@[t]@,
                l,
                0,
                e,
            ) == codeword(coef, k as int, lane_message(out@, l, e), index) by {
                let value = column::<F>(received@, l, e);
                let message = lane_message::<F>(out@, l, e);
                assert forall|i: int| 0 <= i < k implies #[trigger] message(i)
                    == crate::algebra::evaluation_code::known_value(
                    |j: int| span_point(pattern_basis::<F>(dimension), j),
                    pattern,
                    span_size(dimension) as int,
                    value,
                    span_point(pattern_basis::<F>(dimension), i),
                ) by {
                    lane_of_row::<F>(out@, l, i, k as int, e);
                    assert(lost.contains(i) || kept.contains(i));
                    if kept.contains(i) {
                        let p = choose|p: int| 0 <= p < kept.len() && kept[p] == i;
                        let s = used.len() + p;
                        assert(term_index(k as int, kept, used, s) == i);
                        assert(row_of(received@, l, i) == sources@[s]@);
                        assert(row_of(out@, l, kept[p]) == sources@[missing@.len() + p]@);
                        lane_of_row::<F>(received@, l, i, n, e);
                        assert(known@[i]);
                        known_value_at_known::<F>(dimension, pattern, value, i);
                    } else {
                        let a = choose|a: int| 0 <= a < lost.len() && lost[a] == i;
                        assert(row_of(out@, l, lost[a]) == row_of(recovered@, l, a));
                        lane_of_row::<F>(recovered@, l, a, r as int, e);
                        assert(lane::<F>(recovered@, l, a, e) == recovered_lane(
                            basis,
                            pattern,
                            received@,
                            l,
                            missing@[a] as int,
                            e,
                        ));
                    }
                }
                known_values_encode::<F>(
                    dimension,
                    k as int,
                    pattern,
                    value,
                    message,
                    index,
                );
                lane_of_row::<F>(received@, l, index, n, e);
                assert(row_of(received@, l, index) == sources@[t]@);
            }
            symbol_from_lanes(coef, k as int, l, out@, index, sources@[t]@);
        }
    }
}

/// The positions of the sources.
spec fn source_positions(k: int, present: Seq<int>, repairs: Seq<int>) -> Seq<int> {
    Seq::new(k as nat, |t: int| term_index(k, present, repairs, t))
}

/// Sources stand at known positions of the domain.
proof fn source_is_known(
    k: int,
    m: int,
    n: int,
    missing: Seq<int>,
    present: Seq<int>,
    repairs: Seq<int>,
    known: Seq<bool>,
    t: int,
)
    requires
        valid_split(k, m, missing, present, repairs),
        k + m <= n,
        m >= 0,
        known.len() == n,
        marks_sources(k, present, repairs, known),
        0 <= t < k,
    ensures
        0 <= term_index(k, present, repairs, t) < k + m,
        known[term_index(k, present, repairs, t)],
{
    let i = term_index(k, present, repairs, t);
    if t < repairs.len() {
        assert(0 <= repairs[t] < m);
        assert(repairs.contains(i - k));
    } else {
        let p = t - repairs.len();
        assert(0 <= present[p] < k);
        assert(present.contains(i));
    }
    assert(known[i] == (present.contains(i) && i < k || repairs.contains(i - k) && i >= k));
}

/// Exactly `k` positions are known.
proof fn known_count(
    k: int,
    m: int,
    n: int,
    missing: Seq<int>,
    present: Seq<int>,
    repairs: Seq<int>,
    known: Seq<bool>,
)
    requires
        k >= 0,
        m >= 0,
        valid_split(k, m, missing, present, repairs),
        k + m <= n,
        known.len() == n,
        marks_sources(k, present, repairs, known),
    ensures
        indices_where(known_in(known), n).len() == k,
{
    let list = source_positions(k, present, repairs);
    assert(distinct(list)) by {
        assert forall|s: int, t: int|
            0 <= s < list.len() && 0 <= t < list.len() && s != t implies #[trigger] list[s]
            != #[trigger] list[t] by {
            source_is_known(k, m, n, missing, present, repairs, known, s);
            source_is_known(k, m, n, missing, present, repairs, known, t);
            let r = repairs.len() as int;
            if s < r && t < r {
                assert(repairs[s] != repairs[t]);
            } else if s >= r && t >= r {
                assert(present[s - r] != present[t - r]);
            } else if s < r {
                assert(0 <= repairs[s]);
                assert(present[t - r] < k);
            } else {
                assert(0 <= repairs[t]);
                assert(present[s - r] < k);
            }
        }
    }
    assert forall|t: int| 0 <= t < list.len() implies 0 <= #[trigger] list[t] < n by {
        source_is_known(k, m, n, missing, present, repairs, known, t);
    }
    distinct_list_count(list, n);
    let held = |i: int| list.contains(i);
    let pattern = known_in(known);
    assert forall|i: int| 0 <= i < n implies #[trigger] held(i) == pattern(i) by {
        assert(known[i] == (present.contains(i) && i < k || repairs.contains(i - k) && i >= k));
        if list.contains(i) {
            let t = choose|t: int| 0 <= t < list.len() && list[t] == i;
            source_is_known(k, m, n, missing, present, repairs, known, t);
        }
        if present.contains(i) && i < k {
            let p = choose|p: int| 0 <= p < present.len() && present[p] == i;
            assert(list[repairs.len() + p] == i);
        }
        if repairs.contains(i - k) && i >= k {
            let b = choose|b: int| 0 <= b < repairs.len() && repairs[b] == i - k;
            assert(list[b] == i);
        }
    }
    indices_where_congruent(held, pattern, n);
}

} // verus!
