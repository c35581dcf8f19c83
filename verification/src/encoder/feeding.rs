//! What an incremental encoder holds after any accepted feeds.

use vstd::prelude::*;

use crate::algebra::field::{times_zero, FieldElement};
use crate::algebra::sums::{sum, sum_congruent, sum_insert, sum_of_zeros};
use crate::codec::{fed_total, feed_fault, with_symbol, zero_block, IncrementalEncoder};
use crate::encoder::accumulator::{
    fed_lanes, fed_total_bounds, fed_total_congruent, fed_total_insert,
};
use crate::matrices::coding_matrix::{point_code, point_coef, PointSet};
use crate::payload::{lane_of_zeros, PayloadElement};
use crate::symbols::{
    lane, lane_count, lane_message, lane_of_symbol, row_bounds, row_of, rows_apart, whole_lanes,
};

verus! {

/// The block an encoder holds after `feeds`, each an index and its payload.
pub open spec fn block_after(k: int, symbol_len: int, feeds: Seq<(int, Seq<u8>)>) -> Seq<u8>
    decreases feeds.len(),
{
    if feeds.len() == 0 {
        zero_block(k * symbol_len)
    } else {
        with_symbol(
            block_after(k, symbol_len, feeds.drop_last()),
            symbol_len,
            feeds.last().0,
            feeds.last().1,
        )
    }
}

/// Whether one of `feeds` has this index.
pub open spec fn feeds_index(feeds: Seq<(int, Seq<u8>)>, index: int) -> bool {
    exists|t: int| 0 <= t < feeds.len() && (#[trigger] feeds[t]).0 == index
}

/// Feeds that none refuses: indices of data symbols, each once, with payloads of
/// the symbol length.
pub open spec fn accepted(k: int, symbol_len: int, feeds: Seq<(int, Seq<u8>)>) -> bool {
    &&& forall|t: int|
        0 <= t < feeds.len() ==> 0 <= (#[trigger] feeds[t]).0 < k && feeds[t].1.len() == symbol_len
    &&& forall|s: int, t: int|
        0 <= s < t < feeds.len() ==> (#[trigger] feeds[s]).0 != (#[trigger] feeds[t]).0
}

/// The encoder is what accepting `feeds` makes of an empty one.
pub open spec fn fed_by<E: IncrementalEncoder>(encoder: &E, feeds: Seq<(int, Seq<u8>)>) -> bool {
    &&& accepted(encoder.code().k, encoder.code().symbol_len, feeds)
    &&& encoder.fed_block() == block_after(encoder.code().k, encoder.code().symbol_len, feeds)
    &&& forall|i: int|
        0 <= i < encoder.code().k ==> #[trigger] encoder.is_fed(i) == feeds_index(feeds, i)
}

/// One more accepted feed.
proof fn feeds_index_push(feeds: Seq<(int, Seq<u8>)>, feed: (int, Seq<u8>))
    ensures
        forall|i: int| #[trigger]
            feeds_index(feeds.push(feed), i) == (i == feed.0 || feeds_index(feeds, i)),
{
    assert forall|i: int| #[trigger]
        feeds_index(feeds.push(feed), i) == (i == feed.0 || feeds_index(feeds, i)) by {
        let whole = feeds.push(feed);
        if i == feed.0 {
            assert(whole[feeds.len() as int].0 == i);
        }
        if feeds_index(feeds, i) {
            let t = choose|t: int| 0 <= t < feeds.len() && (#[trigger] feeds[t]).0 == i;
            assert(whole[t].0 == i);
        }
        if feeds_index(whole, i) && i != feed.0 {
            let t = choose|t: int| 0 <= t < whole.len() && (#[trigger] whole[t]).0 == i;
            assert(feeds[t].0 == i);
        }
    }
}

/// What a feed that is not refused does to an encoder, as
/// [`IncrementalEncoder::feed`] states it, adds that feed.
pub proof fn feeds_accumulate<E: IncrementalEncoder>(
    before: &E,
    after: &E,
    feeds: Seq<(int, Seq<u8>)>,
    index: int,
    data: Seq<u8>,
)
    requires
        fed_by(before, feeds),
        0 <= index,
        feed_fault(before.code(), before.is_fed(index), index, data.len() as int) is None,
        after.code() == before.code(),
        after.fed_block() == with_symbol(
            before.fed_block(),
            before.code().symbol_len,
            index,
            data,
        ),
        forall|i: int|
            0 <= i < before.code().k ==> #[trigger] after.is_fed(i) == (i == index
                || before.is_fed(i)),
    ensures
        fed_by(after, feeds.push((index, data))),
{
    let whole = feeds.push((index, data));
    assert(whole.drop_last() =~= feeds);
    feeds_index_push(feeds, (index, data));
    assert forall|s: int, t: int| 0 <= s < t < whole.len() implies (#[trigger] whole[s]).0
        != (#[trigger] whole[t]).0 by {
        if t == feeds.len() {
            assert(feeds[s].0 == whole[s].0);
            assert(!before.is_fed(index));
            assert(!feeds_index(feeds, index));
        }
    }
}

/// An encoder that has been fed nothing.
pub proof fn empty_encoder_is_fed_by_nothing<E: IncrementalEncoder>(encoder: &E)
    requires
        encoder.fed_block() == zero_block(encoder.code().k * encoder.code().symbol_len),
        forall|i: int| 0 <= i < encoder.code().k ==> !(#[trigger] encoder.is_fed(i)),
    ensures
        fed_by(encoder, Seq::empty()),
{
}

/// The encoder holds every fed symbol at its index and zeros elsewhere.
pub proof fn fed_rows(k: int, symbol_len: int, feeds: Seq<(int, Seq<u8>)>)
    requires
        k >= 0,
        symbol_len >= 0,
        accepted(k, symbol_len, feeds),
    ensures
        block_after(k, symbol_len, feeds).len() == k * symbol_len,
        forall|t: int|
            0 <= t < feeds.len() ==> row_of(
                block_after(k, symbol_len, feeds),
                symbol_len,
                (#[trigger] feeds[t]).0,
            ) == feeds[t].1,
        forall|i: int|
            0 <= i < k && !feeds_index(feeds, i) ==> #[trigger] row_of(
                block_after(k, symbol_len, feeds),
                symbol_len,
                i,
            ) == zero_block(symbol_len),
    decreases feeds.len(),
{
    let block = block_after(k, symbol_len, feeds);
    assert(0 <= k * symbol_len) by (nonlinear_arith)
        requires
            0 <= k,
            0 <= symbol_len,
    ;
    if feeds.len() == 0 {
        assert forall|i: int| 0 <= i < k implies #[trigger] row_of(block, symbol_len, i)
            == zero_block(symbol_len) by {
            row_bounds(i, k, symbol_len);
            assert(row_of(block, symbol_len, i) =~= zero_block(symbol_len));
        }
    } else {
        let front = feeds.drop_last();
        let feed = feeds.last();
        let before = block_after(k, symbol_len, front);
        assert(feeds =~= front.push(feed));
        feeds_index_push(front, feed);
        assert forall|t: int| 0 <= t < front.len() implies 0 <= (#[trigger] front[t]).0 < k
            && front[t].1.len() == symbol_len by {
            assert(front[t] == feeds[t]);
        }
        assert forall|s: int, t: int| 0 <= s < t < front.len() implies (#[trigger] front[s]).0
            != (#[trigger] front[t]).0 by {
            assert(front[s] == feeds[s] && front[t] == feeds[t]);
        }
        fed_rows(k, symbol_len, front);
        assert(feeds[feeds.len() - 1] == feed);
        row_bounds(feed.0, k, symbol_len);
        assert(row_of(block, symbol_len, feed.0) =~= feed.1);
        assert forall|i: int| 0 <= i < k && i != feed.0 implies #[trigger] row_of(
            block,
            symbol_len,
            i,
        ) == row_of(before, symbol_len, i) by {
            row_bounds(i, k, symbol_len);
            if i < feed.0 {
                rows_apart(i, feed.0, symbol_len);
            } else {
                rows_apart(feed.0, i, symbol_len);
            }
            assert(row_of(block, symbol_len, i) =~= row_of(before, symbol_len, i));
        }
        assert forall|t: int| 0 <= t < feeds.len() implies row_of(
            block,
            symbol_len,
            (#[trigger] feeds[t]).0,
        ) == feeds[t].1 by {
            if t < front.len() {
                assert(front[t] == feeds[t]);
                assert(feeds[t].0 != feeds[feeds.len() - 1].0);
            }
        }
    }
}

/// Blocks with equal rows are equal.
proof fn blocks_from_rows(first: Seq<u8>, second: Seq<u8>, k: int, symbol_len: int)
    requires
        symbol_len >= 1,
        first.len() == k * symbol_len,
        second.len() == k * symbol_len,
        forall|i: int|
            0 <= i < k ==> #[trigger] row_of(first, symbol_len, i) == row_of(
                second,
                symbol_len,
                i,
            ),
    ensures
        first == second,
{
    let l = symbol_len;
    assert forall|t: int| 0 <= t < first.len() implies first[t] == second[t] by {
        let i = t / l;
        let b = t % l;
        vstd::arithmetic::div_mod::lemma_fundamental_div_mod(t, l);
        assert(0 <= i < k && 0 <= b < l && i * l + b == t) by (nonlinear_arith)
            requires
                0 <= t < k * l,
                l >= 1,
                i == t / l,
                b == t % l,
        ;
        row_bounds(i, k, l);
        assert(row_of(first, l, i)[b] == first[t]);
        assert(row_of(second, l, i)[b] == second[t]);
    }
    assert(first =~= second);
}

/// The order of the feeds does not matter: the same symbols fed in any two orders
/// leave the same block, and so the same repairs.
pub proof fn feeds_in_any_order_agree(
    k: int,
    symbol_len: int,
    first: Seq<(int, Seq<u8>)>,
    second: Seq<(int, Seq<u8>)>,
)
    requires
        k >= 0,
        symbol_len >= 1,
        accepted(k, symbol_len, first),
        accepted(k, symbol_len, second),
        forall|feed: (int, Seq<u8>)| #[trigger] first.contains(feed) == second.contains(feed),
    ensures
        block_after(k, symbol_len, first) == block_after(k, symbol_len, second),
{
    fed_rows(k, symbol_len, first);
    fed_rows(k, symbol_len, second);
    let a = block_after(k, symbol_len, first);
    let b = block_after(k, symbol_len, second);
    assert forall|i: int| 0 <= i < k implies #[trigger] row_of(a, symbol_len, i) == row_of(
        b,
        symbol_len,
        i,
    ) by {
        if feeds_index(first, i) {
            let t = choose|t: int| 0 <= t < first.len() && (#[trigger] first[t]).0 == i;
            assert(first.contains(first[t]));
            let s = choose|s: int| 0 <= s < second.len() && second[s] == first[t];
            assert(row_of(b, symbol_len, second[s].0) == second[s].1);
        } else if feeds_index(second, i) {
            let s = choose|s: int| 0 <= s < second.len() && (#[trigger] second[s]).0 == i;
            assert(second.contains(second[s]));
            assert(first.contains(second[s]));
            let t = choose|t: int| 0 <= t < first.len() && first[t] == second[s];
            assert(first[t].0 == i);
        }
    }
    blocks_from_rows(a, b, k, symbol_len);
}

/// Once every symbol of a block has been fed, in whatever order, the encoder
/// holds the block, so its repairs are those of the codeword for the block.
pub proof fn complete_feeds_give_the_block(
    k: int,
    symbol_len: int,
    feeds: Seq<(int, Seq<u8>)>,
    data: Seq<u8>,
)
    requires
        k >= 0,
        symbol_len >= 1,
        accepted(k, symbol_len, feeds),
        data.len() == k * symbol_len,
        forall|t: int|
            0 <= t < feeds.len() ==> (#[trigger] feeds[t]).1 == row_of(
                data,
                symbol_len,
                feeds[t].0,
            ),
        forall|i: int| 0 <= i < k ==> #[trigger] feeds_index(feeds, i),
    ensures
        block_after(k, symbol_len, feeds) == data,
{
    fed_rows(k, symbol_len, feeds);
    let block = block_after(k, symbol_len, feeds);
    assert forall|i: int| 0 <= i < k implies #[trigger] row_of(block, symbol_len, i) == row_of(
        data,
        symbol_len,
        i,
    ) by {
        assert(feeds_index(feeds, i));
        let t = choose|t: int| 0 <= t < feeds.len() && (#[trigger] feeds[t]).0 == i;
        assert(row_of(block, symbol_len, feeds[t].0) == feeds[t].1);
    }
    blocks_from_rows(block, data, k, symbol_len);
}

/// The repair coefficient of one feed times its element in a lane.
pub open spec fn feed_term<F: FieldElement>(
    coef: spec_fn(int, int) -> F,
    symbol_len: int,
    feeds: Seq<(int, Seq<u8>)>,
    j: int,
    e: int,
    t: int,
) -> F {
    coef(j, feeds[t].0).times(lane::<F>(feeds[t].1, symbol_len, 0, e))
}

/// Combining the lanes of the block is combining those of the feeds.
proof fn fed_lane_sum<F: FieldElement>(
    coef: spec_fn(int, int) -> F,
    k: int,
    symbol_len: int,
    feeds: Seq<(int, Seq<u8>)>,
    j: int,
    e: int,
)
    requires
        k >= 0,
        whole_lanes::<F>(symbol_len),
        accepted(k, symbol_len, feeds),
        0 <= e < lane_count::<F>(symbol_len),
    ensures
        sum(
            |i: int| coef(j, i).times(lane::<F>(block_after(k, symbol_len, feeds), symbol_len, i, e)),
            k,
        ) == sum(
            |t: int| feed_term(coef, symbol_len, feeds, j, e, t),
            feeds.len() as int,
        ),
    decreases feeds.len(),
{
    let block = block_after(k, symbol_len, feeds);
    let g = |i: int| coef(j, i).times(lane::<F>(block, symbol_len, i, e));
    let terms = |t: int| feed_term(coef, symbol_len, feeds, j, e, t);
    if feeds.len() == 0 {
        assert forall|i: int| 0 <= i < k implies #[trigger] g(i) == F::zero_elem() by {
            row_bounds(i, k, symbol_len);
            lane_of_zeros::<F>(block, symbol_len, i, e);
            times_zero(coef(j, i));
        }
        sum_of_zeros(g, k);
    } else {
        let front = feeds.drop_last();
        let feed = feeds.last();
        assert(feeds[feeds.len() - 1] == feed);
        assert(accepted(k, symbol_len, front)) by {
            assert forall|t: int| 0 <= t < front.len() implies 0 <= (#[trigger] front[t]).0 < k
                && front[t].1.len() == symbol_len by {
                assert(front[t] == feeds[t]);
            }
            assert forall|s: int, t: int| 0 <= s < t < front.len() implies (#[trigger] front[s]).0
                != (#[trigger] front[t]).0 by {
                assert(front[s] == feeds[s] && front[t] == feeds[t]);
            }
        }
        fed_lane_sum(coef, k, symbol_len, front, j, e);
        let before = block_after(k, symbol_len, front);
        let f = |i: int| coef(j, i).times(lane::<F>(before, symbol_len, i, e));
        let old_terms = |t: int| feed_term(coef, symbol_len, front, j, e, t);
        fed_rows(k, symbol_len, front);
        assert(!feeds_index(front, feed.0)) by {
            if feeds_index(front, feed.0) {
                let t = choose|t: int| 0 <= t < front.len() && (#[trigger] front[t]).0 == feed.0;
                assert(feeds[t].0 != feeds[feeds.len() - 1].0);
            }
        }
        let at = feed.0;
        assert(f(at) == F::zero_elem()) by {
            row_bounds(at, k, symbol_len);
            assert forall|t: int| 0 <= t < symbol_len implies before[#[trigger] (at * symbol_len
                + t)] == 0 by {
                assert(row_of(before, symbol_len, at)[t] == zero_block(symbol_len)[t]);
            }
            lane_of_zeros::<F>(before, symbol_len, at, e);
            times_zero(coef(j, at));
        }
        fed_lanes::<F>(k, symbol_len, before, at, feed.1);
        assert forall|i: int| 0 <= i < k && i != at implies #[trigger] g(i) == f(i) by {
            assert(lane::<F>(block, symbol_len, i, e) == lane::<F>(before, symbol_len, i, e));
        }
        assert(lane::<F>(block, symbol_len, at, e) == lane::<F>(feed.1, symbol_len, 0, e));
        sum_insert(f, g, at, k);
        assert forall|t: int| 0 <= t < front.len() implies #[trigger] terms(t) == old_terms(t) by {
            assert(front[t] == feeds[t]);
        }
        sum_congruent(terms, old_terms, front.len() as int);
        assert(terms(feeds.len() - 1) == g(at));
    }
}

/// A repair symbol is, lane by lane, the sum over the fed symbols of the repair
/// coefficient times the symbol: nothing else enters it.
pub proof fn repairs_sum_the_fed_symbols<F: PayloadElement, P: PointSet<F>>(
    k: int,
    m: int,
    symbol_len: int,
    feeds: Seq<(int, Seq<u8>)>,
    j: int,
    e: int,
)
    requires
        k >= 0,
        whole_lanes::<F>(symbol_len),
        accepted(k, symbol_len, feeds),
        0 <= j < m,
        0 <= e < lane_count::<F>(symbol_len),
    ensures
        (point_code::<F, P>(k, m, symbol_len).symbol)(
            block_after(k, symbol_len, feeds),
            k + j,
        ).len() == symbol_len,
        lane::<F>(
            (point_code::<F, P>(k, m, symbol_len).symbol)(
                block_after(k, symbol_len, feeds),
                k + j,
            ),
            symbol_len,
            0,
            e,
        ) == sum(
            |t: int| feed_term(point_coef::<F, P>(k), symbol_len, feeds, j, e, t),
            feeds.len() as int,
        ),
{
    let coef = point_coef::<F, P>(k);
    let block = block_after(k, symbol_len, feeds);
    lane_of_symbol(coef, k, symbol_len, block, k + j, e);
    fed_lane_sum(coef, k, symbol_len, feeds, j, e);
    let message = lane_message::<F>(block, symbol_len, e);
    sum_congruent(
        |i: int| coef(k + j - k, i).times(message(i)),
        |i: int| coef(j, i).times(lane::<F>(block, symbol_len, i, e)),
        k,
    );
}

/// As many indices are marked as there are accepted feeds.
proof fn feeds_are_counted(k: int, symbol_len: int, feeds: Seq<(int, Seq<u8>)>)
    requires
        k >= 0,
        accepted(k, symbol_len, feeds),
    ensures
        fed_total(|i: int| feeds_index(feeds, i), k) == feeds.len(),
    decreases feeds.len(),
{
    let after = |i: int| feeds_index(feeds, i);
    if feeds.len() == 0 {
        fed_total_bounds(after, k);
    } else {
        let front = feeds.drop_last();
        let feed = feeds.last();
        assert(feeds =~= front.push(feed));
        assert(feeds[feeds.len() - 1] == feed);
        feeds_index_push(front, feed);
        assert forall|t: int| 0 <= t < front.len() implies 0 <= (#[trigger] front[t]).0 < k
            && front[t].1.len() == symbol_len by {
            assert(front[t] == feeds[t]);
        }
        assert forall|s: int, t: int| 0 <= s < t < front.len() implies (#[trigger] front[s]).0
            != (#[trigger] front[t]).0 by {
            assert(front[s] == feeds[s] && front[t] == feeds[t]);
        }
        feeds_are_counted(k, symbol_len, front);
        let before = |i: int| feeds_index(front, i);
        assert(!before(feed.0)) by {
            if feeds_index(front, feed.0) {
                let t = choose|t: int| 0 <= t < front.len() && (#[trigger] front[t]).0 == feed.0;
                assert(feeds[t].0 != feeds[feeds.len() - 1].0);
            }
        }
        fed_total_insert(before, after, feed.0, k);
    }
}

/// The count of an encoder is the number of feeds it accepted. It never exceeds
/// `k`, and it is `k` exactly when every data symbol has been fed.
pub proof fn fed_count_counts_the_feeds<E: IncrementalEncoder>(
    encoder: &E,
    feeds: Seq<(int, Seq<u8>)>,
)
    requires
        encoder.valid(),
        fed_by(encoder, feeds),
    ensures
        fed_total(|i: int| encoder.is_fed(i), encoder.code().k) == feeds.len(),
        feeds.len() <= encoder.code().k,
        feeds.len() == encoder.code().k <==> forall|i: int|
            0 <= i < encoder.code().k ==> #[trigger] encoder.is_fed(i),
{
    let k = encoder.code().k;
    let fed = |i: int| encoder.is_fed(i);
    encoder.code_is_sound();
    feeds_are_counted(k, encoder.code().symbol_len, feeds);
    fed_total_congruent(fed, |i: int| feeds_index(feeds, i), k);
    fed_total_bounds(fed, k);
    if feeds.len() == k {
        assert forall|i: int| 0 <= i < k implies #[trigger] encoder.is_fed(i) by {
            assert(fed(i));
        }
    }
}

} // verus!
