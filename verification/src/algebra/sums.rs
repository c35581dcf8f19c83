//! Finite sums over a field.

use vstd::prelude::*;

use crate::algebra::field::{left_identities, plus_swap_inner, times_zero, FieldElement};

verus! {

/// `f(0) + f(1) + ... + f(n - 1)`.
pub open spec fn sum<F: FieldElement>(f: spec_fn(int) -> F, n: int) -> F
    decreases n,
{
    if n <= 0 {
        F::zero_elem()
    } else {
        sum(f, n - 1).plus(f(n - 1))
    }
}

/// Sums of equal terms are equal.
pub proof fn sum_congruent<F: FieldElement>(f: spec_fn(int) -> F, g: spec_fn(int) -> F, n: int)
    requires
        forall|i: int| 0 <= i < n ==> #[trigger] f(i) == g(i),
    ensures
        sum(f, n) == sum(g, n),
    decreases n,
{
    if n > 0 {
        sum_congruent(f, g, n - 1);
        assert(f(n - 1) == g(n - 1));
    }
}

/// A sum of zeros is zero.
pub proof fn sum_of_zeros<F: FieldElement>(f: spec_fn(int) -> F, n: int)
    requires
        forall|i: int| 0 <= i < n ==> #[trigger] f(i) == F::zero_elem(),
    ensures
        sum(f, n) == F::zero_elem(),
    decreases n,
{
    if n > 0 {
        sum_of_zeros(f, n - 1);
        assert(f(n - 1) == F::zero_elem());
        F::plus_identity(F::zero_elem());
    }
}

/// The sum of termwise sums is the sum of the sums.
pub proof fn sum_plus<F: FieldElement>(f: spec_fn(int) -> F, g: spec_fn(int) -> F, n: int)
    ensures
        sum(|i: int| f(i).plus(g(i)), n) == sum(f, n).plus(sum(g, n)),
    decreases n,
{
    let h = |i: int| f(i).plus(g(i));
    if n > 0 {
        sum_plus(f, g, n - 1);
        plus_swap_inner(sum(f, n - 1), sum(g, n - 1), f(n - 1), g(n - 1));
        assert(h(n - 1) == f(n - 1).plus(g(n - 1)));
    } else {
        F::plus_identity(F::zero_elem());
    }
}

/// A common factor can be taken out of a sum.
pub proof fn sum_scale<F: FieldElement>(c: F, f: spec_fn(int) -> F, n: int)
    ensures
        sum(|i: int| c.times(f(i)), n) == c.times(sum(f, n)),
    decreases n,
{
    let h = |i: int| c.times(f(i));
    if n > 0 {
        sum_scale(c, f, n - 1);
        F::times_distributes(c, sum(f, n - 1), f(n - 1));
        assert(h(n - 1) == c.times(f(n - 1)));
    } else {
        times_zero(c);
    }
}

/// A sum with at most one nonzero term is that term.
pub proof fn sum_single<F: FieldElement>(f: spec_fn(int) -> F, n: int, j: int)
    requires
        0 <= j < n,
        forall|i: int| 0 <= i < n && i != j ==> #[trigger] f(i) == F::zero_elem(),
    ensures
        sum(f, n) == f(j),
    decreases n,
{
    if j == n - 1 {
        sum_of_zeros(f, n - 1);
        left_identities(f(j));
    } else {
        sum_single(f, n - 1, j);
        assert(f(n - 1) == F::zero_elem());
        F::plus_identity(f(j));
    }
}

/// The first term can be split off.
pub proof fn sum_first<F: FieldElement>(f: spec_fn(int) -> F, n: int)
    requires
        n > 0,
    ensures
        sum(f, n) == f(0).plus(sum(|i: int| f(i + 1), n - 1)),
    decreases n,
{
    let g = |i: int| f(i + 1);
    if n == 1 {
        assert(sum(f, 1) == sum(f, 0).plus(f(0)));
        left_identities(f(0));
        F::plus_identity(f(0));
    } else {
        sum_first(f, n - 1);
        assert(g(n - 2) == f(n - 1));
        assert(sum(g, n - 1) == sum(g, n - 2).plus(g(n - 2)));
        F::plus_associates(f(0), sum(g, n - 2), f(n - 1));
    }
}

/// A sum can be cut in two.
pub proof fn sum_split<F: FieldElement>(f: spec_fn(int) -> F, a: int, b: int)
    requires
        a >= 0,
        b >= 0,
    ensures
        sum(f, a + b) == sum(f, a).plus(sum(|i: int| f(a + i), b)),
    decreases b,
{
    let g = |i: int| f(a + i);
    if b == 0 {
        F::plus_identity(sum(f, a));
    } else {
        sum_split(f, a, b - 1);
        assert(g(b - 1) == f(a + b - 1));
        F::plus_associates(sum(f, a), sum(g, b - 1), f(a + b - 1));
    }
}

/// The order of a double sum does not matter.
pub proof fn sum_exchange<F: FieldElement>(f: spec_fn(int, int) -> F, n: int, m: int)
    ensures
        sum(|i: int| sum(|j: int| f(i, j), m), n) == sum(|j: int| sum(|i: int| f(i, j), n), m),
    decreases n,
{
    let rows = |i: int| sum(|j: int| f(i, j), m);
    let cols = |j: int| sum(|i: int| f(i, j), n);
    if n <= 0 {
        sum_of_zeros(cols, m);
    } else {
        sum_exchange(f, n - 1, m);
        let shorter = |j: int| sum(|i: int| f(i, j), n - 1);
        let last = |j: int| f(n - 1, j);
        sum_plus(shorter, last, m);
        let both = |j: int| shorter(j).plus(last(j));
        assert forall|j: int| 0 <= j < m implies #[trigger] cols(j) == both(j) by {
            let c = |i: int| f(i, j);
            assert(sum(c, n) == sum(c, n - 1).plus(c(n - 1)));
        }
        sum_congruent(cols, both, m);
        assert(rows(n - 1) == sum(last, m));
    }
}

/// Changing one term from zero adds it to the sum.
pub proof fn sum_insert<F: FieldElement>(
    f: spec_fn(int) -> F,
    g: spec_fn(int) -> F,
    x: int,
    n: int,
)
    requires
        0 <= x < n,
        f(x) == F::zero_elem(),
        forall|i: int| 0 <= i < n && i != x ==> #[trigger] g(i) == f(i),
    ensures
        sum(g, n) == sum(f, n).plus(g(x)),
    decreases n,
{
    if x == n - 1 {
        sum_congruent(g, f, n - 1);
        F::plus_identity(sum(f, n - 1));
    } else {
        sum_insert(f, g, x, n - 1);
        let a = sum(f, n - 1);
        assert(g(n - 1) == f(n - 1));
        F::plus_associates(a, g(x), f(n - 1));
        F::plus_commutes(g(x), f(n - 1));
        F::plus_associates(a, f(n - 1), g(x));
    }
}

} // verus!
