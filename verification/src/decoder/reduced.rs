//! The reduced erasure system shared by every Cauchy decoder.
//!
//! With `r` data symbols missing and `r` repairs at hand, every received symbol
//! carries one coefficient per missing output: the inverse of the `r` by `r`
//! Cauchy submatrix for a repair, the inverse applied to its column for a
//! present data symbol.

use vstd::prelude::*;

use crate::algebra::cauchy::{avoids, fused_entry, inverse_entry};
use crate::algebra::field::{left_identities, FieldElement};
use crate::algebra::interpolation::distinct;
use crate::algebra::linear_code::{
    cauchy_inverse, cauchy_inverts, cauchy_points, folded, partition, points_of, selected_variables,
    solved,
};
use crate::algebra::sums::{sum_congruent, sum_split};
use crate::decoder::cauchy_inverse::{rational_lagrange_coefficients, reduced_system};
use crate::matrices::coding_matrix::{
    coef_of_points, data_point, point_coef, points_fit, repair_point, shifted, PointSet,
};
use crate::payload::{
    copy_row, flat_coefficient, lane_of_zeros, row_slice, source_bytes, PayloadElement, RowCombiner,
};
use crate::symbols::{
    codeword_symbol, lane, lane_count, lane_of_row, payload_lane, row_bounds, row_of,
    solved_block_agrees, systematic_symbol, terms_at, whole_lanes,
};

verus! {

/// A list of indices as integers.
pub open spec fn ints(list: Seq<usize>) -> Seq<int> {
    Seq::new(list.len(), |t: int| list[t] as int)
}

/// Every data symbol is missing or present, and there is one repair per missing
/// symbol.
pub open spec fn valid_split(
    k: int,
    m: int,
    missing: Seq<int>,
    present: Seq<int>,
    repairs: Seq<int>,
) -> bool {
    &&& partition(missing, present, k)
    &&& distinct(repairs)
    &&& missing.len() == repairs.len()
    &&& missing.len() + present.len() == k
    &&& forall|t: int| 0 <= t < repairs.len() ==> 0 <= #[trigger] repairs[t] < m
}

/// The inverse of the reduced system.
pub open spec fn reduced_inverse<F: FieldElement>(
    x: spec_fn(int) -> F,
    k: int,
    missing: Seq<int>,
    repairs: Seq<int>,
) -> spec_fn(int, int) -> F {
    cauchy_inverse(points_of(shifted(x, k), repairs), points_of(x, missing))
}

/// The coefficient of source `t` for missing output `a`; the repairs come
/// first, then the present data symbols.
pub open spec fn source_coefficient<F: FieldElement>(
    x: spec_fn(int) -> F,
    k: int,
    missing: Seq<int>,
    present: Seq<int>,
    repairs: Seq<int>,
    t: int,
    a: int,
) -> F {
    if t < repairs.len() {
        reduced_inverse(x, k, missing, repairs)(a, t)
    } else {
        folded(
            coef_of_points(x, k),
            repairs,
            reduced_inverse(x, k, missing, repairs),
            a,
            present[t - repairs.len()],
        )
    }
}

/// `table` holds the coefficients of every source, one row per source.
pub open spec fn is_fused_table<F: FieldElement>(
    x: spec_fn(int) -> F,
    k: int,
    missing: Seq<int>,
    present: Seq<int>,
    repairs: Seq<int>,
    table: Seq<F>,
) -> bool {
    &&& table.len() == k * missing.len()
    &&& forall|t: int, a: int|
        0 <= t < k && 0 <= a < missing.len() ==> table[t * missing.len() + a]
            == #[trigger] source_coefficient(x, k, missing, present, repairs, t, a)
}

/// Points of the listed positions.
fn gather_points<F: PayloadElement, P: PointSet<F>>(list: &[usize], offset: usize) -> (r: Vec<F>)
    requires
        forall|t: int| 0 <= t < list@.len() ==> offset + #[trigger] list@[t] < P::point_count(),
        P::point_count() <= 65536,
    ensures
        r@ == points_of(repair_point::<F, P>(offset as int), ints(list@)),
{
    let mut points: Vec<F> = Vec::new();
    let mut t: usize = 0;
    while t < list.len()
        invariant
            t <= list@.len(),
            P::point_count() <= 65536,
            forall|t: int|
                0 <= t < list@.len() ==> offset + #[trigger] list@[t] < P::point_count(),
            points@.len() == t,
            forall|s: int|
                0 <= s < t ==> #[trigger] points@[s] == P::point(offset + list@[s]),
        decreases list@.len() - t,
    {
        points.push(P::point_value(offset + list[t]));
        t += 1;
    }
    proof {
        assert(points@ =~= points_of(repair_point::<F, P>(offset as int), ints(list@)));
    }
    points
}

/// The selected points form a reduced Cauchy system.
proof fn split_is_reduced<F: PayloadElement, P: PointSet<F>>(
    k: int,
    m: int,
    missing: Seq<int>,
    present: Seq<int>,
    repairs: Seq<int>,
)
    requires
        k >= 0,
        m >= 0,
        k + m <= P::point_count(),
        valid_split(k, m, missing, present, repairs),
    ensures
        reduced_system(
            points_of(repair_point::<F, P>(k), repairs),
            points_of(data_point::<F, P>(), missing),
            points_of(data_point::<F, P>(), present),
        ),
{
    points_fit::<F, P>(k, m);
    let rows = points_of(repair_point::<F, P>(k), repairs);
    let columns = points_of(data_point::<F, P>(), missing);
    let others = points_of(data_point::<F, P>(), present);
    selected_variables(data_point::<F, P>(), repair_point::<F, P>(k), k, m, missing, repairs);
    assert forall|z: int| 0 <= z < others.len() implies avoids(rows, #[trigger] others[z]) by {
        assert forall|i: int| 0 <= i < rows.len() implies #[trigger] rows[i] != others[z] by {
            assert(0 <= repairs[i] < m);
            assert(0 <= present[z] < k);
            P::points_are_distinct(present[z], k + repairs[i]);
        }
    }
}

/// Computes the coefficients of every source.
pub fn fused_coefficients<F: PayloadElement, P: PointSet<F>>(
    k: usize,
    m: usize,
    missing: &[usize],
    present: &[usize],
    repairs: &[usize],
) -> (r: Vec<F>)
    requires
        k + m <= P::point_count(),
        valid_split(k as int, m as int, ints(missing@), ints(present@), ints(repairs@)),
    ensures
        is_fused_table(data_point::<F, P>(), k as int,
            ints(missing@),
            ints(present@),
            ints(repairs@),
            r@,
        ),
{
    let ghost gk = k as int;
    let ghost lost = ints(missing@);
    let ghost kept = ints(present@);
    let ghost used = ints(repairs@);
    let ghost rows = points_of(repair_point::<F, P>(gk), used);
    let ghost columns = points_of(data_point::<F, P>(), lost);
    let ghost others = points_of(data_point::<F, P>(), kept);
    proof {
        P::point_count_is_bounded();
        assert forall|t: int| 0 <= t < repairs@.len() implies k + #[trigger] repairs@[t]
            < P::point_count() by {
            assert(0 <= used[t] < m);
        }
        assert forall|t: int| 0 <= t < missing@.len() implies 0 + #[trigger] missing@[t]
            < P::point_count() by {
            assert(0 <= lost[t] < k);
        }
        assert forall|t: int| 0 <= t < present@.len() implies 0 + #[trigger] present@[t]
            < P::point_count() by {
            assert(0 <= kept[t] < k);
        }
        split_is_reduced::<F, P>(gk, m as int, lost, kept, used);
        crate::algebra::index_lists::distinct_list_count(used, m as int);
    }
    let row_vars: Vec<F> = gather_points::<F, P>(repairs, k);
    let col_vars: Vec<F> = gather_points::<F, P>(missing, 0);
    let present_vars: Vec<F> = gather_points::<F, P>(present, 0);
    proof {
        assert(col_vars@ =~= columns);
        assert(present_vars@ =~= others);
    }
    let n: usize = missing.len();
    proof {
        assert(n <= k && n <= m && 2 * n <= 65536) by {
            bounded_count(used, m as int);
        }
        let p = present@.len() as int;
        assert(n * n + 8 * n + p + 2 <= 0xffff_ffff && p * n <= 0xffff_ffff && 0 <= n * n)
            by (nonlinear_arith)
            requires
                0 <= n <= 32768,
                0 <= p <= 65536,
        ;
    }
    let solution = rational_lagrange_coefficients(&row_vars, &col_vars, &present_vars);
    let mut table: Vec<F> = Vec::new();
    let mut t: usize = 0;
    proof {
        points_fit::<F, P>(gk, m as int);
        cauchy_inverts(
            data_point::<F, P>(),
            repair_point::<F, P>(gk),
            gk,
            m as int,
            lost,
            used,
        );
    }
    while t < k
        invariant
            t <= k,
            k + m <= P::point_count() <= 65536,
            n == missing@.len() == repairs@.len(),
            n + present@.len() == k,
            gk == k,
            lost == ints(missing@),
            kept == ints(present@),
            used == ints(repairs@),
            valid_split(gk, m as int, lost, kept, used),
            rows == points_of(repair_point::<F, P>(gk), used),
            columns == points_of(data_point::<F, P>(), lost),
            others == points_of(data_point::<F, P>(), kept),
            solution.inverse@.len() == n * n,
            solution.present@.len() == present@.len() * n,
            forall|j: int, i: int|
                0 <= j < n && 0 <= i < n ==> solution.inverse@[j * n + i]
                    == #[trigger] inverse_entry(rows, columns, j, i),
            forall|z: int, j: int|
                0 <= z < present@.len() && 0 <= j < n ==> solution.present@[z * n + j]
                    == #[trigger] fused_entry(rows, columns, j, others[z]),
            forall|a: int, i: int|
                0 <= a < n && 0 <= i < k ==> #[trigger] folded(
                    point_coef::<F, P>(gk),
                    used,
                    cauchy_inverse(rows, columns),
                    a,
                    i,
                ) == fused_entry(rows, columns, a, data_point::<F, P>()(i)),
            table@.len() == t * n,
            forall|s: int, a: int|
                0 <= s < t && 0 <= a < n ==> table@[s * n + a] == #[trigger] source_coefficient(data_point::<F, P>(), gk, lost, kept, used, s, a),
        decreases k - t,
    {
        let mut a: usize = 0;
        while a < n
            invariant
                a <= n,
                t < k,
                k + m <= P::point_count() <= 65536,
                n == missing@.len() == repairs@.len(),
                n + present@.len() == k,
                gk == k,
                lost == ints(missing@),
                kept == ints(present@),
                used == ints(repairs@),
                valid_split(gk, m as int, lost, kept, used),
                rows == points_of(repair_point::<F, P>(gk), used),
                columns == points_of(data_point::<F, P>(), lost),
                others == points_of(data_point::<F, P>(), kept),
                solution.inverse@.len() == n * n,
                solution.present@.len() == present@.len() * n,
                forall|j: int, i: int|
                    0 <= j < n && 0 <= i < n ==> solution.inverse@[j * n + i]
                        == #[trigger] inverse_entry(rows, columns, j, i),
                forall|z: int, j: int|
                    0 <= z < present@.len() && 0 <= j < n ==> solution.present@[z * n + j]
                        == #[trigger] fused_entry(rows, columns, j, others[z]),
                forall|a: int, i: int|
                    0 <= a < n && 0 <= i < k ==> #[trigger] folded(
                        point_coef::<F, P>(gk),
                        used,
                        cauchy_inverse(rows, columns),
                        a,
                        i,
                    ) == fused_entry(rows, columns, a, data_point::<F, P>()(i)),
                table@.len() == t * n + a,
                forall|s: int, b: int|
                    0 <= s < t && 0 <= b < n ==> table@[s * n + b]
                        == #[trigger] source_coefficient(data_point::<F, P>(), gk, lost, kept, used, s, b),
                forall|b: int|
                    0 <= b < a ==> table@[t * n + b] == #[trigger] source_coefficient(data_point::<F, P>(), gk,
                        lost,
                        kept,
                        used,
                        t as int,
                        b,
                    ),
            decreases n - a,
        {
            let ghost before = table@;
            let held: usize = solution.inverse.len();
            let held_present: usize = solution.present.len();
            if t < n {
                proof {
                    row_bounds(a as int, n as int, n as int);
                    assert(solution.inverse@[a * n + t] == inverse_entry(
                        rows,
                        columns,
                        a as int,
                        t as int,
                    ));
                    assert(source_coefficient(data_point::<F, P>(), gk, lost, kept, used, t as int, a as int)
                        == inverse_entry(rows, columns, a as int, t as int));
                }
                table.push(solution.inverse[a * n + t]);
            } else {
                let z: usize = t - n;
                proof {
                    row_bounds(z as int, present@.len() as int, n as int);
                    assert(solution.present@[z * n + a] == fused_entry(
                        rows,
                        columns,
                        a as int,
                        others[z as int],
                    ));
                    assert(0 <= kept[z as int] < k);
                    assert(folded(
                        point_coef::<F, P>(gk),
                        used,
                        cauchy_inverse(rows, columns),
                        a as int,
                        kept[z as int],
                    ) == fused_entry(
                        rows,
                        columns,
                        a as int,
                        data_point::<F, P>()(kept[z as int]),
                    ));
                }
                table.push(solution.present[z * n + a]);
            }
            proof {
                assert forall|s: int, b: int| 0 <= s < t && 0 <= b < n implies table@[s * n + b]
                    == #[trigger] source_coefficient(data_point::<F, P>(), gk, lost, kept, used, s, b) by {
                    row_bounds(s, t as int, n as int);
                    assert(before[s * n + b] == source_coefficient(data_point::<F, P>(), gk,
                        lost,
                        kept,
                        used,
                        s,
                        b,
                    ));
                }
            }
            a += 1;
        }
        proof {
            row_bounds(t as int, k as int, n as int);
        }
        t += 1;
    }
    table
}

/// A list of distinct indices below `m` has at most `m` entries.
pub proof fn bounded_count(list: Seq<int>, m: int)
    requires
        m >= 0,
        distinct(list),
        forall|t: int| 0 <= t < list.len() ==> 0 <= #[trigger] list[t] < m,
    ensures
        list.len() <= m,
{
    crate::algebra::index_lists::distinct_list_count(list, m);
    crate::algebra::index_lists::indices_where_complement(|i: int| list.contains(i), m);
}

/// What the sources contribute to lane `e` of missing output `a`.
pub open spec fn combined<F: PayloadElement>(
    table: Seq<F>,
    sources: Seq<&[u8]>,
    r: int,
    symbol_len: int,
    a: int,
    e: int,
) -> F {
    terms_at(
        flat_coefficient(table, r),
        source_bytes(sources),
        sources.len() as int,
        symbol_len,
        a,
        e,
    )
}

/// `rows` holds the combination of all sources for every missing output.
pub open spec fn holds_combined<F: PayloadElement>(
    table: Seq<F>,
    sources: Seq<&[u8]>,
    r: int,
    symbol_len: int,
    rows: Seq<u8>,
) -> bool {
    &&& rows.len() == r * symbol_len
    &&& forall|a: int, e: int|
        0 <= a < r && 0 <= e < lane_count::<F>(symbol_len) ==> #[trigger] lane::<F>(
            rows,
            symbol_len,
            a,
            e,
        ) == combined(table, sources, r, symbol_len, a, e)
}

/// Sets every byte to zero.
pub fn fill_zero(bytes: &mut [u8])
    ensures
        final(bytes)@.len() == old(bytes)@.len(),
        forall|t: int| 0 <= t < final(bytes)@.len() ==> #[trigger] final(bytes)@[t] == 0,
{
    let mut t: usize = 0;
    while t < bytes.len()
        invariant
            t <= bytes@.len(),
            bytes@.len() == old(bytes)@.len(),
            forall|s: int| 0 <= s < t ==> #[trigger] bytes@[s] == 0,
        decreases bytes@.len() - t,
    {
        bytes[t] = 0;
        t += 1;
    }
}

/// Overwrites `rows` with the combination of all sources.
pub fn combine_sources<F: RowCombiner>(
    table: &[F],
    sources: &[&[u8]],
    r: usize,
    symbol_len: usize,
    rows: &mut [u8],
)
    requires
        old(rows)@.len() == r * symbol_len,
        table@.len() == sources@.len() * r,
        forall|t: int| 0 <= t < sources@.len() ==> (#[trigger] sources@[t])@.len() == symbol_len,
        whole_lanes::<F>(symbol_len as int),
    ensures
        holds_combined(table@, sources@, r as int, symbol_len as int, final(rows)@),
{
    let ghost l = symbol_len as int;
    fill_zero(rows);
    let ghost before = rows@;
    F::combine_into_rows(rows, symbol_len, r, table, sources);
    proof {
        assert forall|a: int, e: int|
            0 <= a < r && 0 <= e < lane_count::<F>(l) implies #[trigger] lane::<F>(rows@, l, a, e)
            == combined(table@, sources@, r as int, l, a, e) by {
            row_bounds(a, r as int, l);
            lane_of_zeros::<F>(before, l, a, e);
            left_identities(combined(table@, sources@, r as int, l, a, e));
        }
    }
}

/// The combination of all sources is the solution of the reduced system.
proof fn combined_is_solved<F: PayloadElement>(
    x: spec_fn(int) -> F,
    k: int,
    missing: Seq<int>,
    present: Seq<int>,
    repairs: Seq<int>,
    table: Seq<F>,
    sources: Seq<&[u8]>,
    symbol_len: int,
    a: int,
    e: int,
)
    requires
        is_fused_table(x, k, missing, present, repairs, table),
        missing.len() == repairs.len(),
        missing.len() + present.len() == k,
        sources.len() == k,
        0 <= a < missing.len(),
    ensures
        combined(table, sources, missing.len() as int, symbol_len, a, e) == solved(
            coef_of_points(x, k),
            present,
            repairs,
            reduced_inverse(x, k, missing, repairs),
            payload_lane(|b: int| sources[b]@, symbol_len, e),
            payload_lane(|p: int| sources[repairs.len() + p]@, symbol_len, e),
            a,
        ),
{
    let r = missing.len() as int;
    let p = present.len() as int;
    let coef = coef_of_points(x, k);
    let inverse = reduced_inverse(x, k, missing, repairs);
    let repair_value = payload_lane::<F>(|b: int| sources[b]@, symbol_len, e);
    let present_value = payload_lane::<F>(|p: int| sources[repairs.len() + p]@, symbol_len, e);
    let flat = flat_coefficient(table, r);
    let bytes = source_bytes(sources);
    let term = |t: int| flat(t, a).times(lane::<F>(bytes(t), symbol_len, 0, e));
    sum_split(term, r, p);
    let from_repairs = |b: int| inverse(a, b).times(repair_value(b));
    assert forall|b: int| 0 <= b < r implies #[trigger] term(b) == from_repairs(b) by {
        assert(table[b * r + a] == source_coefficient(x, k, missing, present, repairs, b, a));
    }
    sum_congruent(term, from_repairs, r);
    let shifted = |i: int| term(r + i);
    let from_present = |i: int| folded(coef, repairs, inverse, a, present[i]).times(
        present_value(i),
    );
    assert forall|i: int| 0 <= i < p implies #[trigger] shifted(i) == from_present(i) by {
        assert(table[(r + i) * r + a] == source_coefficient(x, k,
            missing,
            present,
            repairs,
            r + i,
            a,
        ));
    }
    sum_congruent(shifted, from_present, p);
}

/// A block whose present rows are the present sources and whose missing rows are
/// the combined rows encodes to every source.
pub proof fn assembled_block_agrees<F: PayloadElement>(
    x: spec_fn(int) -> F,
    k: int,
    m: int,
    symbol_len: int,
    missing: Seq<int>,
    present: Seq<int>,
    repairs: Seq<int>,
    table: Seq<F>,
    sources: Seq<&[u8]>,
    rows: Seq<u8>,
    out: Seq<u8>,
)
    requires
        k >= 0,
        m >= 0,
        cauchy_points(x, shifted(x, k), k, m),
        whole_lanes::<F>(symbol_len),
        valid_split(k, m, missing, present, repairs),
        is_fused_table(x, k, missing, present, repairs, table),
        sources.len() == k,
        forall|t: int| 0 <= t < sources.len() ==> (#[trigger] sources[t])@.len() == symbol_len,
        holds_combined(table, sources, missing.len() as int, symbol_len, rows),
        out.len() == k * symbol_len,
        forall|p: int|
            0 <= p < present.len() ==> row_of(out, symbol_len, #[trigger] present[p])
                == sources[repairs.len() + p]@,
        forall|a: int|
            0 <= a < missing.len() ==> row_of(out, symbol_len, #[trigger] missing[a]) == row_of(
                rows,
                symbol_len,
                a,
            ),
    ensures
        forall|t: int|
            0 <= t < k ==> (#[trigger] sources[t])@ == codeword_symbol(
                coef_of_points(x, k),
                k,
                symbol_len,
                out,
                term_index(k, present, repairs, t),
            ),
{
    let r = missing.len() as int;
    let coef = coef_of_points(x, k);
    let inverse = reduced_inverse(x, k, missing, repairs);
    let repair_payload = |b: int| sources[b]@;
    let present_payload = |p: int| sources[repairs.len() + p]@;
    cauchy_inverts(x, shifted(x, k), k, m, missing, repairs);
    assert forall|a: int, e: int|
        0 <= a < r && 0 <= e < lane_count::<F>(symbol_len) implies #[trigger] lane::<F>(
        out,
        symbol_len,
        missing[a],
        e,
    ) == solved(
        coef,
        present,
        repairs,
        inverse,
        payload_lane(repair_payload, symbol_len, e),
        payload_lane(present_payload, symbol_len, e),
        a,
    ) by {
        assert(0 <= missing[a] < k);
        assert(row_of(out, symbol_len, missing[a]) == row_of(rows, symbol_len, a));
        lane_of_row::<F>(out, symbol_len, missing[a], k, e);
        lane_of_row::<F>(rows, symbol_len, a, r, e);
        combined_is_solved(
            x,
            k,
            missing,
            present,
            repairs,
            table,
            sources,
            symbol_len,
            a,
            e,
        );
    }
    assert forall|p: int| 0 <= p < present.len() implies #[trigger] present_payload(p) == row_of(
        out,
        symbol_len,
        present[p],
    ) by {
        assert(row_of(out, symbol_len, present[p]) == sources[repairs.len() + p]@);
    }
    assert forall|b: int| 0 <= b < repairs.len() implies (#[trigger] sources[b])@
        == codeword_symbol(coef, k, symbol_len, out, k + repairs[b]) by {
        assert(repair_payload(b) == sources[b]@);
        solved_block_agrees(
            coef,
            k,
            symbol_len,
            missing,
            present,
            repairs,
            inverse,
            present_payload,
            repair_payload,
            out,
            b,
        );
    }
    assert forall|p: int| 0 <= p < present.len() implies sources[repairs.len() + p]@
        == codeword_symbol(coef, k, symbol_len, out, #[trigger] present[p]) by {
        assert(0 <= present[p] < k);
        systematic_symbol(coef, k, symbol_len, out, present[p]);
    }
    assert forall|t: int| 0 <= t < k implies (#[trigger] sources[t])@ == codeword_symbol(
        coef,
        k,
        symbol_len,
        out,
        term_index(k, present, repairs, t),
    ) by {
        if t >= repairs.len() {
            let p = t - repairs.len();
            assert(sources[repairs.len() + p]@ == codeword_symbol(
                coef,
                k,
                symbol_len,
                out,
                present[p],
            ));
        }
    }
}

/// Codeword index of source `t`; the repairs come first.
pub open spec fn term_index(k: int, present: Seq<int>, repairs: Seq<int>, t: int) -> int {
    if t < repairs.len() {
        k + repairs[t]
    } else {
        present[t - repairs.len()]
    }
}

/// The sources are the repairs, in their order, followed by the present data
/// symbols, in theirs.
pub proof fn sources_are_repairs_then_data(k: int, present: Seq<int>, repairs: Seq<int>)
    ensures
        Seq::new(repairs.len() + present.len(), |t: int| term_index(k, present, repairs, t))
            == Seq::new(repairs.len(), |b: int| k + repairs[b]) + present,
{
    assert(Seq::new(
        repairs.len() + present.len(),
        |t: int| term_index(k, present, repairs, t),
    ) =~= Seq::new(repairs.len(), |b: int| k + repairs[b]) + present);
}

/// One byte of the block made of the present sources and the combined rows.
spec fn assembled_byte(
    symbol_len: int,
    missing: Seq<int>,
    present: Seq<int>,
    sources: Seq<&[u8]>,
    rows: Seq<u8>,
    t: int,
) -> u8 {
    let i = t / symbol_len;
    let b = t % symbol_len;
    if present.contains(i) {
        sources[missing.len() + present.index_of(i)]@[b]
    } else {
        rows[missing.index_of(i) * symbol_len + b]
    }
}

/// There is a block made of the present sources and the combined rows.
pub proof fn assembled_block(
    k: int,
    symbol_len: int,
    missing: Seq<int>,
    present: Seq<int>,
    sources: Seq<&[u8]>,
    rows: Seq<u8>,
) -> (out: Seq<u8>)
    requires
        k >= 0,
        symbol_len > 0,
        partition(missing, present, k),
        missing.len() + present.len() == k,
        sources.len() == k,
        forall|t: int| 0 <= t < sources.len() ==> (#[trigger] sources[t])@.len() == symbol_len,
        rows.len() == missing.len() * symbol_len,
    ensures
        out.len() == k * symbol_len,
        forall|p: int|
            0 <= p < present.len() ==> row_of(out, symbol_len, #[trigger] present[p])
                == sources[missing.len() + p]@,
        forall|a: int|
            0 <= a < missing.len() ==> row_of(out, symbol_len, #[trigger] missing[a]) == row_of(
                rows,
                symbol_len,
                a,
            ),
{
    assert(0 <= k * symbol_len) by (nonlinear_arith)
        requires
            k >= 0,
            symbol_len > 0,
    ;
    let out = Seq::new(
        (k * symbol_len) as nat,
        |t: int| assembled_byte(symbol_len, missing, present, sources, rows, t),
    );
    assert forall|p: int| 0 <= p < present.len() implies row_of(
        out,
        symbol_len,
        #[trigger] present[p],
    ) == sources[missing.len() + p]@ by {
        let i = present[p];
        row_bounds(i, k, symbol_len);
        assert(present.contains(i));
        assert(present.index_of(i) == p);
        let cut = row_of(out, symbol_len, i);
        assert forall|b: int| 0 <= b < symbol_len implies #[trigger] cut[b]
            == sources[missing.len() + p]@[b] by {
            row_position(i, b, symbol_len);
        }
        assert(cut =~= sources[missing.len() + p]@);
    }
    assert forall|a: int| 0 <= a < missing.len() implies row_of(
        out,
        symbol_len,
        #[trigger] missing[a],
    ) == row_of(rows, symbol_len, a) by {
        let i = missing[a];
        row_bounds(i, k, symbol_len);
        row_bounds(a, missing.len() as int, symbol_len);
        assert(!present.contains(i));
        assert(missing.contains(i));
        assert(missing.index_of(i) == a);
        let cut = row_of(out, symbol_len, i);
        let other = row_of(rows, symbol_len, a);
        assert forall|b: int| 0 <= b < symbol_len implies #[trigger] cut[b] == other[b] by {
            row_position(i, b, symbol_len);
        }
        assert(cut =~= other);
    }
    out
}

/// A byte position splits into its row and its place in the row.
pub proof fn row_position(row: int, b: int, symbol_len: int)
    requires
        0 <= row,
        0 <= b < symbol_len,
    ensures
        (row * symbol_len + b) / symbol_len == row,
        (row * symbol_len + b) % symbol_len == b,
{
    assert((row * symbol_len + b) / symbol_len == row && (row * symbol_len + b) % symbol_len == b)
        by (nonlinear_arith)
        requires
            0 <= row,
            0 <= b < symbol_len,
    ;
}

/// Copies the present sources and the combined rows into place.
pub fn assemble(
    k: usize,
    symbol_len: usize,
    missing: &[usize],
    present: &[usize],
    sources: &[&[u8]],
    rows: &[u8],
    out: &mut [u8],
)
    requires
        partition(ints(missing@), ints(present@), k as int),
        missing@.len() + present@.len() == k,
        sources@.len() == k,
        forall|t: int| 0 <= t < sources@.len() ==> (#[trigger] sources@[t])@.len() == symbol_len,
        rows@.len() == missing@.len() * symbol_len,
        old(out)@.len() == k * symbol_len,
    ensures
        final(out)@.len() == k * symbol_len,
        forall|p: int|
            0 <= p < present@.len() ==> row_of(
                final(out)@,
                symbol_len as int,
                #[trigger] ints(present@)[p],
            ) == sources@[missing@.len() + p]@,
        forall|a: int|
            0 <= a < missing@.len() ==> row_of(
                final(out)@,
                symbol_len as int,
                #[trigger] ints(missing@)[a],
            ) == row_of(rows@, symbol_len as int, a),
{
    let ghost l = symbol_len as int;
    let ghost lost = ints(missing@);
    let ghost kept = ints(present@);
    let r: usize = missing.len();
    let mut p: usize = 0;
    while p < present.len()
        invariant
            p <= present@.len(),
            l == symbol_len,
            r == missing@.len(),
            r + present@.len() == k,
            lost == ints(missing@),
            kept == ints(present@),
            partition(lost, kept, k as int),
            sources@.len() == k,
            forall|t: int|
                0 <= t < sources@.len() ==> (#[trigger] sources@[t])@.len() == symbol_len,
            out@.len() == k * symbol_len,
            forall|q: int|
                0 <= q < p ==> row_of(out@, l, #[trigger] kept[q]) == sources@[r + q]@,
        decreases present@.len() - p,
    {
        let index: usize = present[p];
        proof {
            assert(kept[p as int] == index);
            row_bounds(index as int, k as int, l);
        }
        let ghost before = out@;
        copy_row(out, index, symbol_len, sources[r + p]);
        proof {
            assert forall|q: int| 0 <= q < p + 1 implies row_of(out@, l, #[trigger] kept[q])
                == sources@[r + q]@ by {
                if q < p {
                    assert(kept[q] != kept[p as int]);
                    row_bounds(kept[q], k as int, l);
                    assert(row_of(before, l, kept[q]) == sources@[r + q]@);
                }
            }
        }
        p += 1;
    }
    let mut a: usize = 0;
    while a < r
        invariant
            a <= r,
            l == symbol_len,
            r == missing@.len(),
            lost == ints(missing@),
            kept == ints(present@),
            partition(lost, kept, k as int),
            rows@.len() == r * symbol_len,
            out@.len() == k * symbol_len,
            forall|q: int|
                0 <= q < kept.len() ==> row_of(out@, l, #[trigger] kept[q]) == sources@[r + q]@,
            forall|b: int|
                0 <= b < a ==> row_of(out@, l, #[trigger] lost[b]) == row_of(rows@, l, b),
        decreases r - a,
    {
        let index: usize = missing[a];
        proof {
            assert(lost[a as int] == index);
            row_bounds(index as int, k as int, l);
            row_bounds(a as int, r as int, l);
        }
        let ghost before = out@;
        copy_row(out, index, symbol_len, row_slice(rows, a, symbol_len));
        proof {
            assert forall|q: int| 0 <= q < kept.len() implies row_of(out@, l, #[trigger] kept[q])
                == sources@[r + q]@ by {
                assert(lost[a as int] != kept[q]);
                row_bounds(kept[q], k as int, l);
                assert(row_of(before, l, kept[q]) == sources@[r + q]@);
            }
            assert forall|b: int| 0 <= b < a + 1 implies row_of(out@, l, #[trigger] lost[b])
                == row_of(rows@, l, b) by {
                if b < a {
                    assert(lost[b] != lost[a as int]);
                    row_bounds(lost[b], k as int, l);
                    assert(row_of(before, l, lost[b]) == row_of(rows@, l, b));
                }
            }
        }
        a += 1;
    }
}

} // verus!
