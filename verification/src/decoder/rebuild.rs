//! Reconstruction of the data block from recorded symbols.

use vstd::prelude::*;

use crate::batch::plan::holds_rows;
use crate::codec::recovers;
use crate::decoder::pattern::SymbolSet;
use crate::decoder::reduced::{
    assemble, assembled_block_agrees, combine_sources, ints, is_fused_table, term_index,
};
use crate::decoder::store::{missing_marks, present_marks, repair_marks, SymbolStore};
use crate::matrices::coding_matrix::{
    data_point, point_code, points_fit, PointSet,
};
use crate::payload::RowCombiner;
use crate::symbols::whole_lanes;

verus! {

/// The payloads of the received repairs, then of the present data symbols.
pub fn stored_sources<'a, S: SymbolSet>(
    store: &'a SymbolStore<S>,
    k: usize,
    present: &[usize],
    repairs: &[usize],
) -> (r: Vec<&'a [u8]>)
    requires
        store.valid(),
        k <= 65536,
        forall|t: int|
            0 <= t < present@.len() ==> store.stored().contains_key(
                #[trigger] present@[t] as int,
            ),
        forall|t: int|
            0 <= t < repairs@.len() ==> #[trigger] repairs@[t] <= 65536
                && store.stored().contains_key(k + repairs@[t]),
    ensures
        r@.len() == repairs@.len() + present@.len(),
        forall|t: int|
            0 <= t < r@.len() ==> (#[trigger] r@[t])@ == store.stored()[term_index(
                k as int,
                ints(present@),
                ints(repairs@),
                t,
            )],
{
    let mut sources: Vec<&'a [u8]> = Vec::new();
    let mut b: usize = 0;
    while b < repairs.len()
        invariant
            b <= repairs@.len(),
            store.valid(),
            k <= 65536,
            forall|t: int|
                0 <= t < repairs@.len() ==> #[trigger] repairs@[t] <= 65536
                    && store.stored().contains_key(k + repairs@[t]),
            sources@.len() == b,
            forall|t: int|
                0 <= t < b ==> (#[trigger] sources@[t])@ == store.stored()[term_index(
                    k as int,
                    ints(present@),
                    ints(repairs@),
                    t,
                )],
        decreases repairs@.len() - b,
    {
        sources.push(store.payload(k + repairs[b]));
        b += 1;
    }
    let mut p: usize = 0;
    while p < present.len()
        invariant
            p <= present@.len(),
            store.valid(),
            forall|t: int|
                0 <= t < present@.len() ==> store.stored().contains_key(
                    #[trigger] present@[t] as int,
                ),
            sources@.len() == repairs@.len() + p,
            forall|t: int|
                0 <= t < sources@.len() ==> (#[trigger] sources@[t])@ == store.stored()[term_index(
                    k as int,
                    ints(present@),
                    ints(repairs@),
                    t,
                )],
        decreases present@.len() - p,
    {
        sources.push(store.payload(present[p]));
        p += 1;
    }
    sources
}

/// Writes the block that the recorded symbols determine, and returns its missing
/// rows.
pub fn rebuild<F: RowCombiner, P: PointSet<F>, S: SymbolSet>(
    store: &SymbolStore<S>,
    k: usize,
    m: usize,
    symbol_len: usize,
    missing: &[usize],
    present: &[usize],
    repairs: &[usize],
    table: &[F],
    out: &mut [u8],
) -> (r: Vec<u8>)
    requires
        store.valid(),
        store.shaped(point_code::<F, P>(k as int, m as int, symbol_len as int)),
        store.stored().len() >= k,
        point_code::<F, P>(k as int, m as int, symbol_len as int).well_shaped(),
        (k + m) * symbol_len <= usize::MAX,
        k + m <= P::point_count(),
        whole_lanes::<F>(symbol_len as int),
        ints(missing@) == missing_marks(store.pattern(), k as int),
        ints(present@) == present_marks(store.pattern(), k as int),
        ints(repairs@) == repair_marks(store.pattern(), k as int, m as int),
        is_fused_table(
            data_point::<F, P>(),
            k as int,
            ints(missing@),
            ints(present@),
            ints(repairs@),
            table@,
        ),
        old(out)@.len() == k * symbol_len,
    ensures
        recovers(
            point_code::<F, P>(k as int, m as int, symbol_len as int),
            final(out)@,
            store.stored(),
        ),
        holds_rows(symbol_len as int, final(out)@, ints(missing@), r@),
{
    let ghost code = point_code::<F, P>(k as int, m as int, symbol_len as int);
    let ghost lost = ints(missing@);
    let ghost kept = ints(present@);
    let ghost used = ints(repairs@);
    proof {
        store.split_is_valid(code);
        store.stored_facts(code);
        assert forall|t: int| 0 <= t < present@.len() implies store.stored().contains_key(
            #[trigger] present@[t] as int,
        ) by {
            assert(kept[t] == present@[t]);
        }
        assert forall|t: int| 0 <= t < repairs@.len() implies #[trigger] repairs@[t] <= 65536
            && store.stored().contains_key(k + repairs@[t]) by {
            assert(used[t] == repairs@[t]);
        }
        crate::batch::plan::split_fits(k as int, m as int, symbol_len as int, lost, kept);
    }
    let sources = stored_sources(store, k, present, repairs);
    proof {
        assert forall|t: int| 0 <= t < sources@.len() implies (#[trigger] sources@[t])@.len()
            == symbol_len by {
            let i = term_index(k as int, kept, used, t);
            if t < used.len() {
                assert(store.stored().contains_key(k + used[t]));
            } else {
                assert(store.stored().contains_key(kept[t - used.len()]));
            }
            assert(store.stored()[i].len() == code.symbol_len);
        }
    }
    let count: usize = missing.len();
    let mut rows: Vec<u8> = vec![0u8; count * symbol_len];
    combine_sources(table, &sources, count, symbol_len, &mut rows);
    assemble(k, symbol_len, missing, present, &sources, &rows, out);
    proof {
        points_fit::<F, P>(k as int, m as int);
        assembled_block_agrees(
            data_point::<F, P>(),
            k as int,
            m as int,
            symbol_len as int,
            lost,
            kept,
            used,
            table@,
            sources@,
            rows@,
            out@,
        );
        assert forall|i: int| #[trigger] store.stored().contains_key(i) implies store.stored()[i]
            == (code.symbol)(out@, i) by {
            if kept.contains(i) {
                let p = choose|p: int| 0 <= p < kept.len() && kept[p] == i;
                let t = used.len() + p;
                assert(term_index(k as int, kept, used, t) == i);
                assert(sources@[t]@ == store.stored()[i]);
            } else {
                let b = choose|b: int| 0 <= b < used.len() && used[b] == i - k;
                assert(term_index(k as int, kept, used, b) == i);
                assert(sources@[b]@ == store.stored()[i]);
            }
        }
    }
    rows
}

} // verus!
