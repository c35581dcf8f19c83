//! Validation and partitioning of a set of received symbols.

use vstd::prelude::*;

use crate::algebra::index_lists::{
    distinct_list_count, indices_where, indices_where_complement, indices_where_congruent,
    indices_where_facts,
};
use crate::algebra::interpolation::distinct;
use crate::algebra::linear_code::missing_positions;
use crate::codec::indices_of;
use crate::decoder::reduced::{ints, valid_split};
use crate::error::DecodeError;

verus! {

/// Index `symbols[s].0` occurs before position `s`.
pub open spec fn occurs_before(symbols: Seq<(usize, &[u8])>, s: int) -> bool {
    exists|t: int| 0 <= t < s && (#[trigger] symbols[t]).0 == symbols[s].0
}

/// Why symbol `s` is refused: its index, an earlier symbol with the same index,
/// or its length.
pub open spec fn symbol_fault(
    n: int,
    symbol_len: int,
    symbols: Seq<(usize, &[u8])>,
    s: int,
) -> Option<DecodeError> {
    if symbols[s].0 >= n {
        Some(DecodeError::IndexOutOfRange { index: symbols[s].0, n: n as usize })
    } else if occurs_before(symbols, s) {
        Some(DecodeError::DuplicateIndex { index: symbols[s].0 })
    } else if symbols[s].1@.len() != symbol_len {
        Some(
            DecodeError::WrongPayloadLen {
                expected: symbol_len as usize,
                got: symbols[s].1@.len() as usize,
            },
        )
    } else {
        None
    }
}

/// The fault of the first refused symbol among the first `count`.
pub open spec fn first_symbol_fault(
    n: int,
    symbol_len: int,
    symbols: Seq<(usize, &[u8])>,
    count: int,
) -> Option<DecodeError>
    decreases count,
{
    if count <= 0 {
        None
    } else {
        match first_symbol_fault(n, symbol_len, symbols, count - 1) {
            Some(e) => Some(e),
            None => symbol_fault(n, symbol_len, symbols, count - 1),
        }
    }
}

/// The first fault stays the first fault of a longer prefix.
pub proof fn fault_persists(
    n: int,
    symbol_len: int,
    symbols: Seq<(usize, &[u8])>,
    count: int,
    whole: int,
)
    requires
        0 <= count <= whole,
        first_symbol_fault(n, symbol_len, symbols, count) is Some,
    ensures
        first_symbol_fault(n, symbol_len, symbols, whole) == first_symbol_fault(
            n,
            symbol_len,
            symbols,
            count,
        ),
    decreases whole,
{
    if count < whole {
        fault_persists(n, symbol_len, symbols, count, whole - 1);
    }
}

/// Without a fault every symbol is in range, of the right length, and unlike the
/// others.
pub proof fn no_fault_means(
    n: int,
    symbol_len: int,
    symbols: Seq<(usize, &[u8])>,
    count: int,
    s: int,
)
    requires
        0 <= s < count,
        first_symbol_fault(n, symbol_len, symbols, count) is None,
    ensures
        symbol_fault(n, symbol_len, symbols, s) is None,
    decreases count,
{
    if s < count - 1 {
        no_fault_means(n, symbol_len, symbols, count - 1, s);
    }
}

/// The symbols have no fault exactly when each is at a position below `n` of its
/// own and has `symbol_len` bytes, and a fault names an index or a length that
/// one of them has.
pub proof fn symbol_faults_are_judged(
    n: int,
    symbol_len: int,
    symbols: Seq<(usize, &[u8])>,
    count: int,
)
    requires
        0 <= count <= symbols.len(),
        0 <= n <= usize::MAX,
        0 <= symbol_len <= usize::MAX,
    ensures
        first_symbol_fault(n, symbol_len, symbols, count) is None <==> {
            &&& forall|s: int|
                0 <= s < count ==> (#[trigger] symbols[s]).0 < n && symbols[s].1@.len()
                    == symbol_len
            &&& forall|s: int, t: int|
                0 <= t < s < count ==> (#[trigger] symbols[t]).0 != (#[trigger] symbols[s]).0
        },
        first_symbol_fault(n, symbol_len, symbols, count) matches Some(e) ==> match e {
            DecodeError::IndexOutOfRange { index, n: limit } => limit == n && index >= n && exists|
                s: int,
            |
                0 <= s < count && (#[trigger] symbols[s]).0 == index,
            DecodeError::DuplicateIndex { index } => index < n && exists|s: int, t: int|
                0 <= t < s < count && (#[trigger] symbols[t]).0 == index
                    && (#[trigger] symbols[s]).0
                    == index,
            DecodeError::WrongPayloadLen { expected, got } => expected == symbol_len && got
                != expected && exists|s: int|
                0 <= s < count && (#[trigger] symbols[s]).1@.len() == got,
            _ => false,
        },
    decreases count,
{
    if count > 0 {
        symbol_faults_are_judged(n, symbol_len, symbols, count - 1);
        let s = count - 1;
        assert(symbols[s].1.len() == symbols[s].1@.len());
        if first_symbol_fault(n, symbol_len, symbols, count - 1) is None && occurs_before(
            symbols,
            s,
        ) {
            let t = choose|t: int| 0 <= t < s && (#[trigger] symbols[t]).0 == symbols[s].0;
            assert(symbols[t].0 == symbols[s].0);
        }
    }
}

/// Of several faults the first symbol's is reported, and of one symbol first its
/// index, then that an earlier symbol has the same index, then its length.
pub proof fn first_symbol_fault_is_reported(
    n: int,
    symbol_len: int,
    symbols: Seq<(usize, &[u8])>,
    count: int,
    s: int,
)
    requires
        0 <= s < count <= symbols.len(),
        0 <= n <= usize::MAX,
        0 <= symbol_len <= usize::MAX,
        forall|t: int|
            0 <= t < s ==> (#[trigger] symbols[t]).0 < n && symbols[t].1@.len() == symbol_len,
        forall|t: int, u: int|
            0 <= t < u < s ==> (#[trigger] symbols[t]).0 != (#[trigger] symbols[u]).0,
    ensures
        symbols[s].0 >= n ==> first_symbol_fault(n, symbol_len, symbols, count) == Some(
            DecodeError::IndexOutOfRange { index: symbols[s].0, n: n as usize },
        ),
        symbols[s].0 < n && (exists|t: int|
            0 <= t < s && (#[trigger] symbols[t]).0 == symbols[s].0) ==> first_symbol_fault(
            n,
            symbol_len,
            symbols,
            count,
        ) == Some(DecodeError::DuplicateIndex { index: symbols[s].0 }),
        symbols[s].0 < n && symbols[s].1@.len() != symbol_len && (forall|t: int|
            0 <= t < s ==> (#[trigger] symbols[t]).0 != symbols[s].0) ==> first_symbol_fault(
            n,
            symbol_len,
            symbols,
            count,
        ) == Some(
            DecodeError::WrongPayloadLen {
                expected: symbol_len as usize,
                got: symbols[s].1@.len() as usize,
            },
        ),
{
    symbol_faults_are_judged(n, symbol_len, symbols, s);
    if first_symbol_fault(n, symbol_len, symbols, s + 1) is Some {
        fault_persists(n, symbol_len, symbols, s + 1, count);
    }
}

/// Every symbol is listed with its payload: a present data symbol after the
/// repairs, a repair symbol among the first sources.
pub open spec fn sourced(
    k: int,
    symbols: Seq<(usize, &[u8])>,
    present: Seq<int>,
    repairs: Seq<int>,
    sources: Seq<&[u8]>,
) -> bool {
    &&& forall|s: int|
        0 <= s < symbols.len() && (#[trigger] symbols[s]).0 < k ==> exists|p: int|
            0 <= p < present.len() && #[trigger] present[p] == symbols[s].0
                && sources[repairs.len() + p]@ == symbols[s].1@
    &&& forall|s: int|
        0 <= s < symbols.len() && (#[trigger] symbols[s]).0 >= k ==> exists|b: int|
            0 <= b < repairs.len() && #[trigger] repairs[b] == symbols[s].0 - k && sources[b]@
                == symbols[s].1@
}

/// Data indices among the first `count` indices, in their order.
pub open spec fn data_in_order(indices: Seq<int>, k: int, count: int) -> Seq<int>
    decreases count,
{
    if count <= 0 {
        Seq::empty()
    } else {
        let front = data_in_order(indices, k, count - 1);
        if indices[count - 1] < k {
            front.push(indices[count - 1])
        } else {
            front
        }
    }
}

/// Repair columns among the first `count` indices, in their order.
pub open spec fn repairs_in_order(indices: Seq<int>, k: int, count: int) -> Seq<int>
    decreases count,
{
    if count <= 0 {
        Seq::empty()
    } else {
        let front = repairs_in_order(indices, k, count - 1);
        if indices[count - 1] < k {
            front
        } else {
            front.push(indices[count - 1] - k)
        }
    }
}

/// Arrival order is kept: what a longer arrival adds comes after what was there,
/// and a single arrival is listed as data or as a repair column by its index.
pub proof fn arrivals_stay_in_order(first: Seq<int>, second: Seq<int>, k: int)
    ensures
        data_in_order(first + second, k, (first + second).len() as int) == data_in_order(
            first,
            k,
            first.len() as int,
        ) + data_in_order(second, k, second.len() as int),
        repairs_in_order(first + second, k, (first + second).len() as int) == repairs_in_order(
            first,
            k,
            first.len() as int,
        ) + repairs_in_order(second, k, second.len() as int),
        second.len() == 1 && second[0] < k ==> data_in_order(second, k, 1) == seq![second[0]]
            && repairs_in_order(second, k, 1) == Seq::<int>::empty(),
        second.len() == 1 && second[0] >= k ==> repairs_in_order(second, k, 1) == seq![
            second[0] - k,
        ] && data_in_order(second, k, 1) == Seq::<int>::empty(),
    decreases second.len(),
{
    reveal_with_fuel(data_in_order, 2);
    reveal_with_fuel(repairs_in_order, 2);
    let whole = first + second;
    let n = whole.len() as int;
    if second.len() == 0 {
        assert(whole =~= first);
        assert(data_in_order(second, k, 0) =~= Seq::<int>::empty());
        assert(repairs_in_order(second, k, 0) =~= Seq::<int>::empty());
    } else {
        let front = second.drop_last();
        arrivals_stay_in_order(first, front, k);
        in_order_congruent(whole, first + front, k, n - 1);
        in_order_congruent(second, front, k, second.len() - 1);
        assert(whole[n - 1] == second[second.len() - 1]);
    }
    assert(data_in_order(whole, k, n) =~= data_in_order(first, k, first.len() as int)
        + data_in_order(second, k, second.len() as int));
    assert(repairs_in_order(whole, k, n) =~= repairs_in_order(first, k, first.len() as int)
        + repairs_in_order(second, k, second.len() as int));
    if second.len() == 1 {
        assert(data_in_order(second, k, 1) =~= if second[0] < k {
            seq![second[0]]
        } else {
            Seq::<int>::empty()
        });
        assert(repairs_in_order(second, k, 1) =~= if second[0] < k {
            Seq::<int>::empty()
        } else {
            seq![second[0] - k]
        });
    }
}

/// The lists depend on the listed indices alone.
proof fn in_order_congruent(a: Seq<int>, b: Seq<int>, k: int, count: int)
    requires
        0 <= count <= a.len(),
        count <= b.len(),
        forall|t: int| 0 <= t < count ==> #[trigger] a[t] == b[t],
    ensures
        data_in_order(a, k, count) == data_in_order(b, k, count),
        repairs_in_order(a, k, count) == repairs_in_order(b, k, count),
    decreases count,
{
    if count > 0 {
        in_order_congruent(a, b, k, count - 1);
        assert(a[count - 1] == b[count - 1]);
    }
}

/// A validated set of received symbols.
pub struct Receipt<'a> {
    /// Data indices not received, ascending.
    pub missing: Vec<usize>,
    /// Data indices received, in arrival order.
    pub present: Vec<usize>,
    /// Repair columns received, in arrival order.
    pub repairs: Vec<usize>,
    /// Payloads of the repairs, then of the present data symbols.
    pub sources: Vec<&'a [u8]>,
}

/// Lists the unmarked positions in ascending order.
pub fn unmarked(marks: &[bool], k: usize) -> (r: Vec<usize>)
    requires
        k <= marks@.len(),
    ensures
        ints(r@) == indices_where(|i: int| !marks@[i], k as int),
{
    let ghost lacks = |i: int| !marks@[i];
    let mut list: Vec<usize> = Vec::new();
    let mut i: usize = 0;
    proof {
        assert(ints(list@) =~= indices_where(lacks, 0));
    }
    while i < k
        invariant
            i <= k,
            k <= marks@.len(),
            lacks == (|i: int| !marks@[i]),
            ints(list@) == indices_where(lacks, i as int),
        decreases k - i,
    {
        let ghost before = list@;
        if !marks[i] {
            list.push(i);
            proof {
                assert(ints(list@) =~= ints(before).push(i as int));
            }
        }
        i += 1;
    }
    list
}

/// Positions missing from a list of distinct present ones complete it.
pub proof fn missing_completes(
    marks: Seq<bool>,
    k: int,
    m: int,
    missing: Seq<int>,
    present: Seq<int>,
    repairs: Seq<int>,
)
    requires
        k >= 0,
        k <= marks.len(),
        missing == indices_where(|i: int| !marks[i], k),
        distinct(present),
        distinct(repairs),
        forall|t: int| 0 <= t < present.len() ==> 0 <= #[trigger] present[t] < k,
        forall|t: int| 0 <= t < repairs.len() ==> 0 <= #[trigger] repairs[t] < m,
        forall|i: int| 0 <= i < k ==> #[trigger] marks[i] == present.contains(i),
        present.len() + repairs.len() == k,
    ensures
        valid_split(k, m, missing, present, repairs),
{
    let lacks = |i: int| !marks[i];
    let holds = |i: int| present.contains(i);
    let not_held = |i: int| !holds(i);
    indices_where_facts(lacks, k);
    indices_where_congruent(lacks, not_held, k);
    indices_where_complement(holds, k);
    distinct_list_count(present, k);
    assert forall|i: int| 0 <= i < k implies #[trigger] missing.contains(i) || present.contains(
        i,
    ) by {
        if !marks[i] {
            assert(lacks(i));
        }
    }
    assert forall|s: int, t: int|
        0 <= s < missing.len() && 0 <= t < present.len() implies #[trigger] missing[s]
        != #[trigger] present[t] by {
        assert(lacks(missing[s]));
        assert(present.contains(present[t]));
    }
}

/// Validates `symbols` one by one and splits them into present data symbols and
/// repairs. Nothing is copied or combined here.
pub fn partition_symbols<'a>(
    k: usize,
    m: usize,
    symbol_len: usize,
    symbols: &[(usize, &'a [u8])],
) -> (r: Result<Receipt<'a>, DecodeError>)
    requires
        k + m <= 65536,
        symbols@.len() == k,
    ensures
        match first_symbol_fault(k + m, symbol_len as int, symbols@, k as int) {
            Some(e) => r == Err::<Receipt<'a>, DecodeError>(e),
            None => r is Ok,
        },
        r matches Ok(receipt) ==> {
            &&& valid_split(
                k as int,
                m as int,
                ints(receipt.missing@),
                ints(receipt.present@),
                ints(receipt.repairs@),
            )
            &&& receipt.sources@.len() == k
            &&& forall|t: int|
                0 <= t < k ==> (#[trigger] receipt.sources@[t])@.len() == symbol_len
            &&& sourced(
                k as int,
                symbols@,
                ints(receipt.present@),
                ints(receipt.repairs@),
                receipt.sources@,
            )
            &&& ints(receipt.missing@) == missing_positions(indices_of(symbols@), k as int)
            &&& ints(receipt.present@) == data_in_order(
                indices_of(symbols@),
                k as int,
                k as int,
            )
            &&& ints(receipt.repairs@) == repairs_in_order(
                indices_of(symbols@),
                k as int,
                k as int,
            )
            &&& forall|i: int|
                0 <= i < k + m ==> #[trigger] indices_of(symbols@).contains(i) == (ints(
                    receipt.present@,
                ).contains(i) || ints(receipt.repairs@).contains(i - k))
        },
{
    let n: usize = k + m;
    let ghost l = symbol_len as int;
    let mut seen: Vec<bool> = vec![false; n];
    let mut present: Vec<usize> = Vec::new();
    let mut repairs: Vec<usize> = Vec::new();
    let mut present_sources: Vec<&'a [u8]> = Vec::new();
    let mut sources: Vec<&'a [u8]> = Vec::new();
    let mut s: usize = 0;
    proof {
        assert(ints(present@) =~= data_in_order(indices_of(symbols@), k as int, 0));
        assert(ints(repairs@) =~= repairs_in_order(indices_of(symbols@), k as int, 0));
    }
    while s < symbols.len()
        invariant
            s <= symbols@.len(),
            ints(present@) == data_in_order(indices_of(symbols@), k as int, s as int),
            ints(repairs@) == repairs_in_order(indices_of(symbols@), k as int, s as int),
            symbols@.len() == k,
            n == k + m,
            l == symbol_len,
            seen@.len() == n,
            first_symbol_fault(n as int, l, symbols@, s as int) is None,
            forall|i: int|
                0 <= i < n ==> #[trigger] seen@[i] == exists|t: int|
                    0 <= t < s && (#[trigger] symbols@[t]).0 == i,
            forall|i: int|
                0 <= i < k ==> #[trigger] seen@[i] == ints(present@).contains(i),
            present@.len() + repairs@.len() == s,
            present_sources@.len() == present@.len(),
            sources@.len() == repairs@.len(),
            distinct(ints(present@)),
            distinct(ints(repairs@)),
            forall|t: int|
                0 <= t < present@.len() ==> 0 <= #[trigger] ints(present@)[t] < k,
            forall|t: int|
                0 <= t < repairs@.len() ==> 0 <= #[trigger] ints(repairs@)[t] < m && seen@[k
                    + ints(repairs@)[t]],
            forall|t: int|
                0 <= t < present@.len() ==> (#[trigger] present_sources@[t])@.len() == symbol_len,
            forall|t: int|
                0 <= t < repairs@.len() ==> (#[trigger] sources@[t])@.len() == symbol_len,
            forall|t: int|
                0 <= t < s && (#[trigger] symbols@[t]).0 < k ==> exists|p: int|
                    0 <= p < present@.len() && #[trigger] ints(present@)[p] == symbols@[t].0
                        && present_sources@[p]@ == symbols@[t].1@,
            forall|t: int|
                0 <= t < s && (#[trigger] symbols@[t]).0 >= k ==> exists|b: int|
                    0 <= b < repairs@.len() && #[trigger] ints(repairs@)[b] == symbols@[t].0 - k
                        && sources@[b]@ == symbols@[t].1@,
        decreases symbols@.len() - s,
    {
        let index: usize = symbols[s].0;
        let payload: &'a [u8] = symbols[s].1;
        proof {
            assert(symbols@[s as int].0 == index);
            if symbol_fault(n as int, l, symbols@, s as int) is Some {
                fault_persists(n as int, l, symbols@, s + 1, k as int);
            }
        }
        if index >= n {
            return Err(DecodeError::IndexOutOfRange { index, n });
        }
        proof {
            assert(seen@[index as int] == occurs_before(symbols@, s as int));
        }
        if seen[index] {
            return Err(DecodeError::DuplicateIndex { index });
        }
        if payload.len() != symbol_len {
            return Err(
                DecodeError::WrongPayloadLen { expected: symbol_len, got: payload.len() },
            );
        }
        let ghost old_present = present@;
        let ghost old_repairs = repairs@;
        let ghost old_sources = sources@;
        let ghost old_present_sources = present_sources@;
        let ghost old_seen = seen@;
        seen[index] = true;
        if index < k {
            proof {
                assert(!ints(old_present).contains(index as int));
            }
            present.push(index);
            present_sources.push(payload);
            proof {
                assert(ints(present@) =~= ints(old_present).push(index as int));
            }
        } else {
            proof {
                if ints(old_repairs).contains(index - k) {
                    let b = choose|b: int|
                        0 <= b < old_repairs.len() && ints(old_repairs)[b] == index - k;
                    assert(old_seen[k + ints(old_repairs)[b]]);
                }
            }
            repairs.push(index - k);
            sources.push(payload);
            proof {
                assert(ints(repairs@) =~= ints(old_repairs).push(index - k));
            }
        }
        proof {
            assert forall|i: int| 0 <= i < n implies #[trigger] seen@[i] == exists|t: int|
                0 <= t < s + 1 && (#[trigger] symbols@[t]).0 == i by {
                if i == index {
                    assert(symbols@[s as int].0 == i);
                } else {
                    assert(old_seen[i] == exists|t: int|
                        0 <= t < s && (#[trigger] symbols@[t]).0 == i);
                }
            }
            assert forall|i: int| 0 <= i < k implies #[trigger] seen@[i] == ints(
                present@,
            ).contains(i) by {
                assert(old_seen[i] == ints(old_present).contains(i));
                if index < k {
                    assert(ints(present@)[old_present.len() as int] == index);
                    if ints(old_present).contains(i) {
                        let t = choose|t: int|
                            0 <= t < old_present.len() && ints(old_present)[t] == i;
                        assert(ints(present@)[t] == i);
                    }
                    if ints(present@).contains(i) && i != index {
                        let t = choose|t: int| 0 <= t < present@.len() && ints(present@)[t] == i;
                        assert(ints(old_present)[t] == i);
                    }
                }
            }
            assert forall|t: int|
                0 <= t < s + 1 && (#[trigger] symbols@[t]).0 < k implies exists|p: int|
                0 <= p < present@.len() && #[trigger] ints(present@)[p] == symbols@[t].0
                    && present_sources@[p]@ == symbols@[t].1@ by {
                if t < s {
                    let p = choose|p: int|
                        0 <= p < old_present.len() && #[trigger] ints(old_present)[p]
                            == symbols@[t].0 && old_present_sources[p]@ == symbols@[t].1@;
                    assert(ints(present@)[p] == symbols@[t].0);
                } else {
                    assert(ints(present@)[old_present.len() as int] == symbols@[t].0);
                }
            }
            assert forall|t: int|
                0 <= t < s + 1 && (#[trigger] symbols@[t]).0 >= k implies exists|b: int|
                0 <= b < repairs@.len() && #[trigger] ints(repairs@)[b] == symbols@[t].0 - k
                    && sources@[b]@ == symbols@[t].1@ by {
                if t < s {
                    let b = choose|b: int|
                        0 <= b < old_repairs.len() && #[trigger] ints(old_repairs)[b]
                            == symbols@[t].0 - k && old_sources[b]@ == symbols@[t].1@;
                    assert(ints(repairs@)[b] == symbols@[t].0 - k);
                } else {
                    assert(ints(repairs@)[old_repairs.len() as int] == symbols@[t].0 - k);
                }
            }
        }
        s += 1;
    }
    let missing = unmarked(&seen, k);
    proof {
        missing_completes(
            seen@,
            k as int,
            m as int,
            ints(missing@),
            ints(present@),
            ints(repairs@),
        );
    }
    let ghost repair_sources = sources@;
    let count: usize = repairs.len();
    let mut p: usize = 0;
    while p < present_sources.len()
        invariant
            p <= present_sources@.len(),
            count == repair_sources.len(),
            sources@.len() == count + p,
            forall|t: int| 0 <= t < count ==> #[trigger] sources@[t] == repair_sources[t],
            forall|q: int|
                0 <= q < p ==> sources@[count + q] == #[trigger] present_sources@[q],
        decreases present_sources@.len() - p,
    {
        sources.push(present_sources[p]);
        p += 1;
    }
    proof {
        let kept = ints(present@);
        let used = ints(repairs@);
        assert forall|t: int| 0 <= t < k implies (#[trigger] sources@[t])@.len() == symbol_len by {
            if t < count {
                assert(sources@[t] == repair_sources[t]);
            } else {
                assert(sources@[count + (t - count)] == present_sources@[t - count]);
            }
        }
        assert forall|t: int|
            0 <= t < symbols@.len() && (#[trigger] symbols@[t]).0 < k implies exists|p: int|
            0 <= p < kept.len() && #[trigger] kept[p] == symbols@[t].0 && sources@[used.len()
                + p]@ == symbols@[t].1@ by {
            let p = choose|p: int|
                0 <= p < present@.len() && #[trigger] ints(present@)[p] == symbols@[t].0
                    && present_sources@[p]@ == symbols@[t].1@;
            assert(kept[p] == symbols@[t].0);
            assert(sources@[count + p] == present_sources@[p]);
        }
        assert forall|t: int|
            0 <= t < symbols@.len() && (#[trigger] symbols@[t]).0 >= k implies exists|b: int|
            0 <= b < used.len() && #[trigger] used[b] == symbols@[t].0 - k && sources@[b]@
                == symbols@[t].1@ by {
            let b = choose|b: int|
                0 <= b < repairs@.len() && #[trigger] ints(repairs@)[b] == symbols@[t].0 - k
                    && repair_sources[b]@ == symbols@[t].1@;
            assert(used[b] == symbols@[t].0 - k);
            assert(sources@[b] == repair_sources[b]);
        }
        let indices = indices_of(symbols@);
        assert forall|i: int| 0 <= i < n implies #[trigger] indices.contains(i) == seen@[i] by {
            if indices.contains(i) {
                let t = choose|t: int| 0 <= t < indices.len() && indices[t] == i;
                assert(symbols@[t].0 == i);
            }
            if seen@[i] {
                let t = choose|t: int| 0 <= t < s && (#[trigger] symbols@[t]).0 == i;
                assert(indices[t] == i);
            }
        }
        indices_where_congruent(|i: int| !seen@[i], |i: int| !indices.contains(i), k as int);
        assert forall|i: int| 0 <= i < n implies #[trigger] indices.contains(i) == (kept.contains(i)
            || used.contains(i - k)) by {
            assert(indices.contains(i) == seen@[i]);
            if i < k {
                if used.contains(i - k) {
                    let b = choose|b: int| 0 <= b < used.len() && used[b] == i - k;
                    assert(0 <= used[b]);
                }
            } else {
                if used.contains(i - k) {
                    let b = choose|b: int| 0 <= b < used.len() && used[b] == i - k;
                    assert(seen@[k + used[b]]);
                }
                if kept.contains(i) {
                    let p = choose|p: int| 0 <= p < kept.len() && kept[p] == i;
                    assert(kept[p] < k);
                }
                if seen@[i] {
                    let t = choose|t: int| 0 <= t < s && (#[trigger] symbols@[t]).0 == i;
                    let b = choose|b: int|
                        0 <= b < used.len() && #[trigger] used[b] == symbols@[t].0 - k
                            && sources@[b]@ == symbols@[t].1@;
                    assert(used[b] == i - k);
                }
            }
        }
    }
    Ok(Receipt { missing, present, repairs, sources })
}

} // verus!
