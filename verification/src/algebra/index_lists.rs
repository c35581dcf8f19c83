//! Ascending lists of the positions at which a predicate holds.

use vstd::prelude::*;

use crate::algebra::interpolation::distinct;

verus! {

/// The positions below `n` at which `p` holds, ascending.
pub open spec fn indices_where(p: spec_fn(int) -> bool, n: int) -> Seq<int>
    decreases n,
{
    if n <= 0 {
        Seq::empty()
    } else if p(n - 1) {
        indices_where(p, n - 1).push(n - 1)
    } else {
        indices_where(p, n - 1)
    }
}

/// What the list holds: every position below `n` with `p`, once, ascending.
pub proof fn indices_where_facts(p: spec_fn(int) -> bool, n: int)
    ensures
        indices_where(p, n).len() <= n || n < 0,
        forall|t: int|
            #![trigger indices_where(p, n)[t]]
            0 <= t < indices_where(p, n).len() ==> 0 <= indices_where(p, n)[t] < n && p(
                indices_where(p, n)[t],
            ),
        forall|i: int| 0 <= i < n && #[trigger] p(i) ==> indices_where(p, n).contains(i),
        forall|s: int, t: int|
            0 <= s < t < indices_where(p, n).len() ==> #[trigger] indices_where(p, n)[s]
                < #[trigger] indices_where(p, n)[t],
        distinct(indices_where(p, n)),
    decreases n,
{
    if n > 0 {
        indices_where_facts(p, n - 1);
        let front = indices_where(p, n - 1);
        let all = indices_where(p, n);
        assert forall|i: int| 0 <= i < n && #[trigger] p(i) implies all.contains(i) by {
            if i == n - 1 {
                assert(all[all.len() - 1] == i);
            } else {
                assert(front.contains(i));
                let t = choose|t: int| 0 <= t < front.len() && front[t] == i;
                assert(all[t] == i);
            }
        }
    }
}

/// Equal predicates give equal lists.
pub proof fn indices_where_congruent(p: spec_fn(int) -> bool, q: spec_fn(int) -> bool, n: int)
    requires
        forall|i: int| 0 <= i < n ==> #[trigger] p(i) == q(i),
    ensures
        indices_where(p, n) == indices_where(q, n),
    decreases n,
{
    if n > 0 {
        indices_where_congruent(p, q, n - 1);
        assert(p(n - 1) == q(n - 1));
    }
}

/// A predicate and its negation split the positions.
pub proof fn indices_where_complement(p: spec_fn(int) -> bool, n: int)
    requires
        n >= 0,
    ensures
        indices_where(p, n).len() + indices_where(|i: int| !p(i), n).len() == n,
    decreases n,
{
    let q = |i: int| !p(i);
    if n > 0 {
        indices_where_complement(p, n - 1);
        assert(q(n - 1) == !p(n - 1));
    }
}

/// Counting a range in two parts.
pub proof fn indices_where_split(p: spec_fn(int) -> bool, a: int, b: int)
    requires
        a >= 0,
        b >= 0,
    ensures
        indices_where(p, a + b).len() == indices_where(p, a).len() + indices_where(
            |i: int| p(a + i),
            b,
        ).len(),
    decreases b,
{
    let q = |i: int| p(a + i);
    if b > 0 {
        indices_where_split(p, a, b - 1);
        assert(q(b - 1) == p(a + b - 1));
        assert(a + b > 0);
    }
}

/// Adding one position lengthens the list by one.
pub proof fn indices_where_insert(p: spec_fn(int) -> bool, q: spec_fn(int) -> bool, x: int, n: int)
    requires
        0 <= x < n,
        !p(x),
        q(x),
        forall|i: int| 0 <= i < n && i != x ==> #[trigger] q(i) == p(i),
    ensures
        indices_where(q, n).len() == indices_where(p, n).len() + 1,
    decreases n,
{
    if x == n - 1 {
        indices_where_congruent(q, p, n - 1);
    } else {
        indices_where_insert(p, q, x, n - 1);
        assert(q(n - 1) == p(n - 1));
    }
}

/// A list of distinct positions below `n` is as long as the set it lists.
pub proof fn distinct_list_count(list: Seq<int>, n: int)
    requires
        distinct(list),
        forall|t: int| 0 <= t < list.len() ==> 0 <= #[trigger] list[t] < n,
    ensures
        indices_where(|i: int| list.contains(i), n).len() == list.len(),
    decreases list.len(),
{
    let q = |i: int| list.contains(i);
    if list.len() == 0 {
        indices_where_facts(q, n);
        if indices_where(q, n).len() > 0 {
            assert(q(indices_where(q, n)[0]));
        }
    } else {
        let front = list.drop_last();
        let p = |i: int| front.contains(i);
        let x = list.last();
        assert(forall|t: int| 0 <= t < front.len() ==> front[t] == list[t]);
        distinct_list_count(front, n);
        assert(list[list.len() - 1] == x);
        assert(!p(x)) by {
            if front.contains(x) {
                let t = choose|t: int| 0 <= t < front.len() && front[t] == x;
                assert(list[t] == x);
            }
        }
        assert(q(x));
        assert forall|i: int| 0 <= i < n && i != x implies #[trigger] q(i) == p(i) by {
            if list.contains(i) {
                let t = choose|t: int| 0 <= t < list.len() && list[t] == i;
                assert(front[t] == i);
            }
            if front.contains(i) {
                let t = choose|t: int| 0 <= t < front.len() && front[t] == i;
                assert(list[t] == i);
            }
        }
        indices_where_insert(p, q, x, n);
    }
}

} // verus!
