//! Determinants over a field of characteristic two.

use vstd::prelude::*;

use crate::algebra::field::{
    left_identities, plus_is_zero, plus_times, times_zero, FieldElement,
};
use crate::algebra::sums::{
    sum, sum_congruent, sum_insert, sum_of_zeros, sum_plus, sum_scale, sum_single,
};

verus! {

/// A matrix without its first column and one of its rows.
pub open spec fn minor<F>(a: spec_fn(int, int) -> F, row: int) -> spec_fn(int, int) -> F {
    |r: int, c: int|
        a(
            if r < row {
                r
            } else {
                r + 1
            },
            c + 1,
        )
}

/// The determinant of an `n` by `n` matrix, expanded along the first column.
/// Signs do not matter in characteristic two.
pub open spec fn determinant<F: FieldElement>(a: spec_fn(int, int) -> F, n: int) -> F
    decreases n, n + 1,
{
    if n <= 0 {
        F::one_elem()
    } else {
        expansion(a, n, n)
    }
}

/// The first `count` terms of the expansion along the first column.
pub open spec fn expansion<F: FieldElement>(a: spec_fn(int, int) -> F, n: int, count: int) -> F
    decreases n, count,
{
    if n <= 0 || count <= 0 {
        F::zero_elem()
    } else {
        expansion(a, n, count - 1).plus(
            a(count - 1, 0).times(determinant(minor(a, count - 1), n - 1)),
        )
    }
}

/// The term of row `r` in the expansion.
pub open spec fn expansion_term<F: FieldElement>(a: spec_fn(int, int) -> F, n: int, r: int) -> F {
    a(r, 0).times(determinant(minor(a, r), n - 1))
}

proof fn expansion_is_sum<F: FieldElement>(a: spec_fn(int, int) -> F, n: int, count: int)
    requires
        n > 0,
    ensures
        expansion(a, n, count) == sum(|r: int| expansion_term(a, n, r), count),
    decreases count,
{
    let f = |r: int| expansion_term(a, n, r);
    if count > 0 {
        expansion_is_sum(a, n, count - 1);
        assert(f(count - 1) == expansion_term(a, n, count - 1));
    }
}

proof fn determinant_expands<F: FieldElement>(a: spec_fn(int, int) -> F, n: int)
    requires
        n > 0,
    ensures
        determinant(a, n) == sum(|r: int| expansion_term(a, n, r), n),
{
    expansion_is_sum(a, n, n);
}

/// Both matrices have the same entries.
pub open spec fn same_entries<F>(
    a: spec_fn(int, int) -> F,
    b: spec_fn(int, int) -> F,
    n: int,
) -> bool {
    forall|r: int, c: int| 0 <= r < n && 0 <= c < n ==> #[trigger] a(r, c) == b(r, c)
}

/// Only the entries count.
pub proof fn determinant_congruent<F: FieldElement>(
    a: spec_fn(int, int) -> F,
    b: spec_fn(int, int) -> F,
    n: int,
)
    requires
        same_entries(a, b, n),
    ensures
        determinant(a, n) == determinant(b, n),
    decreases n,
{
    if n > 0 {
        determinant_expands(a, n);
        determinant_expands(b, n);
        let f = |r: int| expansion_term(a, n, r);
        let g = |r: int| expansion_term(b, n, r);
        assert forall|r: int| 0 <= r < n implies #[trigger] f(r) == g(r) by {
            assert(a(r, 0) == b(r, 0));
            determinant_congruent(minor(a, r), minor(b, r), n - 1);
        }
        sum_congruent(f, g, n);
    }
}

/// The matrices differ in row `row` only.
pub open spec fn same_but_row<F>(
    a: spec_fn(int, int) -> F,
    b: spec_fn(int, int) -> F,
    n: int,
    row: int,
) -> bool {
    forall|r: int, c: int|
        0 <= r < n && 0 <= c < n && r != row ==> #[trigger] a(r, c) == b(r, c)
}

/// `x * (s * p + t * q) = s * (x * p) + t * (x * q)`.
proof fn factor_through<F: FieldElement>(x: F, s: F, p: F, t: F, q: F)
    ensures
        x.times(s.times(p).plus(t.times(q))) == s.times(x.times(p)).plus(t.times(x.times(q))),
{
    F::times_distributes(x, s.times(p), t.times(q));
    F::times_associates(x, s, p);
    F::times_commutes(x, s);
    F::times_associates(s, x, p);
    F::times_associates(x, t, q);
    F::times_commutes(x, t);
    F::times_associates(t, x, q);
}

/// The determinant is linear in each row.
pub proof fn determinant_row_linear<F: FieldElement>(
    a: spec_fn(int, int) -> F,
    b: spec_fn(int, int) -> F,
    c: spec_fn(int, int) -> F,
    n: int,
    row: int,
    s: F,
    t: F,
)
    requires
        0 <= row < n,
        same_but_row(a, c, n, row),
        same_but_row(b, c, n, row),
        forall|j: int|
            0 <= j < n ==> #[trigger] c(row, j) == s.times(a(row, j)).plus(t.times(b(row, j))),
    ensures
        determinant(c, n) == s.times(determinant(a, n)).plus(t.times(determinant(b, n))),
    decreases n,
{
    determinant_expands(a, n);
    determinant_expands(b, n);
    determinant_expands(c, n);
    let fa = |r: int| expansion_term(a, n, r);
    let fb = |r: int| expansion_term(b, n, r);
    let fc = |r: int| expansion_term(c, n, r);
    let sa = |r: int| s.times(fa(r));
    let tb = |r: int| t.times(fb(r));
    let both = |r: int| sa(r).plus(tb(r));
    assert forall|r: int| 0 <= r < n implies #[trigger] fc(r) == both(r) by {
        let ma = minor(a, r);
        let mb = minor(b, r);
        let mc = minor(c, r);
        if r == row {
            assert(same_entries(ma, mc, n - 1));
            assert(same_entries(mb, mc, n - 1));
            determinant_congruent(ma, mc, n - 1);
            determinant_congruent(mb, mc, n - 1);
            let d = determinant(mc, n - 1);
            plus_times(s.times(a(r, 0)), t.times(b(r, 0)), d);
            F::times_associates(s, a(r, 0), d);
            F::times_associates(t, b(r, 0), d);
        } else {
            let inner = if row < r {
                row
            } else {
                row - 1
            };
            assert forall|j: int| 0 <= j < n - 1 implies #[trigger] mc(inner, j) == s.times(
                ma(inner, j),
            ).plus(t.times(mb(inner, j))) by {
                assert(c(row, j + 1) == s.times(a(row, j + 1)).plus(t.times(b(row, j + 1))));
            }
            determinant_row_linear(ma, mb, mc, n - 1, inner, s, t);
            assert(a(r, 0) == c(r, 0));
            assert(b(r, 0) == c(r, 0));
            factor_through(
                c(r, 0),
                s,
                determinant(ma, n - 1),
                t,
                determinant(mb, n - 1),
            );
        }
    }
    sum_congruent(fc, both, n);
    sum_plus(sa, tb, n);
    sum_scale(s, fa, n);
    sum_scale(t, fb, n);
}

/// Multiplying a row multiplies the determinant.
pub proof fn determinant_row_scaled<F: FieldElement>(
    a: spec_fn(int, int) -> F,
    b: spec_fn(int, int) -> F,
    n: int,
    row: int,
    s: F,
)
    requires
        0 <= row < n,
        same_but_row(a, b, n, row),
        forall|j: int| 0 <= j < n ==> #[trigger] b(row, j) == s.times(a(row, j)),
    ensures
        determinant(b, n) == s.times(determinant(a, n)),
{
    let z = F::zero_elem();
    assert forall|j: int| 0 <= j < n implies #[trigger] b(row, j) == s.times(a(row, j)).plus(
        z.times(a(row, j)),
    ) by {
        left_identities(a(row, j));
        F::plus_identity(s.times(a(row, j)));
    }
    determinant_row_linear(a, a, b, n, row, s, z);
    left_identities(determinant(a, n));
    F::plus_identity(s.times(determinant(a, n)));
}

/// Two equal adjacent rows make the determinant zero.
proof fn adjacent_equal_rows<F: FieldElement>(a: spec_fn(int, int) -> F, n: int, p: int)
    requires
        0 <= p,
        p + 1 < n,
        forall|j: int| 0 <= j < n ==> #[trigger] a(p, j) == a(p + 1, j),
    ensures
        determinant(a, n) == F::zero_elem(),
    decreases n,
{
    determinant_expands(a, n);
    let f = |r: int| expansion_term(a, n, r);
    assert forall|r: int| 0 <= r < n && r != p && r != p + 1 implies #[trigger] f(r)
        == F::zero_elem() by {
        let m = minor(a, r);
        let q = if p < r {
            p
        } else {
            p - 1
        };
        assert forall|j: int| 0 <= j < n - 1 implies #[trigger] m(q, j) == m(q + 1, j) by {
            assert(a(p, j + 1) == a(p + 1, j + 1));
        }
        adjacent_equal_rows(m, n - 1, q);
        times_zero(a(r, 0));
    }
    assert(f(p) == f(p + 1)) by {
        let first = minor(a, p);
        let second = minor(a, p + 1);
        assert forall|r: int, c: int| 0 <= r < n - 1 && 0 <= c < n - 1 implies #[trigger] first(
            r,
            c,
        ) == second(r, c) by {
            assert(a(p, c + 1) == a(p + 1, c + 1));
        }
        determinant_congruent(first, second, n - 1);
        assert(a(p, 0) == a(p + 1, 0));
    }
    let g = |r: int|
        if r == p {
            F::zero_elem()
        } else {
            f(r)
        };
    assert forall|r: int| 0 <= r < n && r != p + 1 implies #[trigger] g(r) == F::zero_elem() by {
        if r != p {
            assert(f(r) == F::zero_elem());
        }
    }
    sum_single(g, n, p + 1);
    sum_insert(g, f, p, n);
    F::plus_cancels(f(p));
}

/// A matrix with rows `p` and `q` replaced.
spec fn with_rows<F>(
    a: spec_fn(int, int) -> F,
    p: int,
    x: spec_fn(int) -> F,
    q: int,
    y: spec_fn(int) -> F,
) -> spec_fn(int, int) -> F {
    |r: int, c: int|
        if r == p {
            x(c)
        } else if r == q {
            y(c)
        } else {
            a(r, c)
        }
}

/// Swapping two adjacent rows keeps the determinant.
proof fn adjacent_rows_swap<F: FieldElement>(
    a: spec_fn(int, int) -> F,
    n: int,
    p: int,
    x: spec_fn(int) -> F,
    y: spec_fn(int) -> F,
)
    requires
        0 <= p,
        p + 1 < n,
    ensures
        determinant(with_rows(a, p, x, p + 1, y), n) == determinant(
            with_rows(a, p, y, p + 1, x),
            n,
        ),
{
    let q = p + 1;
    let one = F::one_elem();
    let xy = |c: int| x(c).plus(y(c));
    let all = with_rows(a, p, xy, q, xy);
    let top = with_rows(a, p, x, q, xy);
    let bottom = with_rows(a, p, y, q, xy);
    assert forall|c: int| 0 <= c < n implies #[trigger] xy(c) == one.times(x(c)).plus(
        one.times(y(c)),
    ) by {
        left_identities(x(c));
        left_identities(y(c));
    }
    assert forall|j: int| 0 <= j < n implies #[trigger] all(p, j) == one.times(top(p, j)).plus(
        one.times(bottom(p, j)),
    ) by {
        assert(all(p, j) == xy(j));
    }
    determinant_row_linear(top, bottom, all, n, p, one, one);
    adjacent_equal_rows(all, n, p);
    let tt = with_rows(a, p, x, q, x);
    let tb = with_rows(a, p, x, q, y);
    assert forall|j: int| 0 <= j < n implies #[trigger] top(q, j) == one.times(tt(q, j)).plus(
        one.times(tb(q, j)),
    ) by {
        assert(top(q, j) == xy(j));
    }
    determinant_row_linear(tt, tb, top, n, q, one, one);
    adjacent_equal_rows(tt, n, p);
    let bt = with_rows(a, p, y, q, x);
    let bb = with_rows(a, p, y, q, y);
    assert forall|j: int| 0 <= j < n implies #[trigger] bottom(q, j) == one.times(bt(q, j)).plus(
        one.times(bb(q, j)),
    ) by {
        assert(bottom(q, j) == xy(j));
    }
    determinant_row_linear(bt, bb, bottom, n, q, one, one);
    adjacent_equal_rows(bb, n, p);
    let u = determinant(tb, n);
    let v = determinant(bt, n);
    left_identities(u);
    left_identities(v);
    left_identities(determinant(top, n));
    left_identities(determinant(bottom, n));
    left_identities(F::zero_elem());
    F::plus_identity(v);
    plus_is_zero(u, v);
}

/// Where row `i` comes from when rows `p` and `q` trade places.
pub open spec fn transposed(i: int, p: int, q: int) -> int {
    if i == p {
        q
    } else if i == q {
        p
    } else {
        i
    }
}

/// A matrix with two rows swapped.
pub open spec fn with_swapped<F>(a: spec_fn(int, int) -> F, p: int, q: int) -> spec_fn(
    int,
    int,
) -> F {
    |r: int, c: int| a(transposed(r, p, q), c)
}

/// Swapping two rows keeps the determinant.
pub proof fn determinant_rows_swapped<F: FieldElement>(
    a: spec_fn(int, int) -> F,
    n: int,
    p: int,
    q: int,
)
    requires
        0 <= p < q < n,
    ensures
        determinant(with_swapped(a, p, q), n) == determinant(a, n),
    decreases q - p,
{
    if q == p + 1 {
        let x = |c: int| a(p, c);
        let y = |c: int| a(q, c);
        adjacent_rows_swap(a, n, p, x, y);
        determinant_congruent(a, with_rows(a, p, x, q, y), n);
        determinant_congruent(with_swapped(a, p, q), with_rows(a, p, y, q, x), n);
    } else {
        let b = with_swapped(a, q - 1, q);
        let c = with_swapped(b, p, q - 1);
        determinant_rows_swapped(a, n, q - 1, q);
        determinant_rows_swapped(b, n, p, q - 1);
        determinant_rows_swapped(c, n, q - 1, q);
        determinant_congruent(with_swapped(a, p, q), with_swapped(c, q - 1, q), n);
    }
}

/// Two equal rows make the determinant zero.
pub proof fn determinant_equal_rows<F: FieldElement>(
    a: spec_fn(int, int) -> F,
    n: int,
    p: int,
    q: int,
)
    requires
        0 <= p < q < n,
        forall|j: int| 0 <= j < n ==> #[trigger] a(p, j) == a(q, j),
    ensures
        determinant(a, n) == F::zero_elem(),
{
    if q == p + 1 {
        adjacent_equal_rows(a, n, p);
    } else {
        let b = with_swapped(a, p + 1, q);
        determinant_rows_swapped(a, n, p + 1, q);
        assert forall|j: int| 0 <= j < n implies #[trigger] b(p, j) == b(p + 1, j) by {
            assert(a(p, j) == a(q, j));
        }
        adjacent_equal_rows(b, n, p);
    }
}

/// Adding a multiple of another row keeps the determinant.
pub proof fn determinant_row_added<F: FieldElement>(
    a: spec_fn(int, int) -> F,
    b: spec_fn(int, int) -> F,
    n: int,
    row: int,
    other: int,
    factor: F,
)
    requires
        0 <= row < n,
        0 <= other < n,
        row != other,
        same_but_row(a, b, n, row),
        forall|j: int|
            0 <= j < n ==> #[trigger] b(row, j) == a(row, j).plus(factor.times(a(other, j))),
    ensures
        determinant(b, n) == determinant(a, n),
{
    let one = F::one_elem();
    let d = |r: int, c: int|
        if r == row {
            a(other, c)
        } else {
            a(r, c)
        };
    assert forall|j: int| 0 <= j < n implies #[trigger] b(row, j) == one.times(a(row, j)).plus(
        factor.times(d(row, j)),
    ) by {
        left_identities(a(row, j));
    }
    determinant_row_linear(a, d, b, n, row, one, factor);
    if row < other {
        assert forall|j: int| 0 <= j < n implies #[trigger] d(row, j) == d(other, j) by {}
        determinant_equal_rows(d, n, row, other);
    } else {
        assert forall|j: int| 0 <= j < n implies #[trigger] d(other, j) == d(row, j) by {}
        determinant_equal_rows(d, n, other, row);
    }
    times_zero(factor);
    left_identities(determinant(a, n));
    F::plus_identity(determinant(a, n));
}

/// The lower right block from `t` on.
pub open spec fn block_from<F>(a: spec_fn(int, int) -> F, t: int) -> spec_fn(int, int) -> F {
    |r: int, c: int| a(r + t, c + t)
}

/// The first `t` columns are unit vectors.
pub open spec fn unit_columns<F: FieldElement>(
    a: spec_fn(int, int) -> F,
    n: int,
    t: int,
) -> bool {
    forall|r: int, c: int|
        0 <= r < n && 0 <= c < t ==> #[trigger] a(r, c) == if r == c {
            F::one_elem()
        } else {
            F::zero_elem()
        }
}

/// Unit columns leave the determinant of the remaining block.
pub proof fn determinant_peels<F: FieldElement>(a: spec_fn(int, int) -> F, n: int, t: int)
    requires
        0 <= t <= n,
        unit_columns(a, n, t),
    ensures
        determinant(a, n) == determinant(block_from(a, t), n - t),
    decreases t,
{
    if t == 0 {
        determinant_congruent(a, block_from(a, 0), n);
    } else {
        determinant_expands(a, n);
        let f = |r: int| expansion_term(a, n, r);
        assert forall|r: int| 0 <= r < n && r != 0 implies #[trigger] f(r) == F::zero_elem() by {
            assert(a(r, 0) == F::zero_elem());
            left_identities(determinant(minor(a, r), n - 1));
        }
        sum_single(f, n, 0);
        let m = minor(a, 0);
        assert(a(0, 0) == F::one_elem());
        left_identities(determinant(m, n - 1));
        assert forall|r: int, c: int| 0 <= r < n - 1 && 0 <= c < t - 1 implies #[trigger] m(r, c)
            == if r == c {
            F::one_elem()
        } else {
            F::zero_elem()
        } by {
            assert(a(r + 1, c + 1) == if r + 1 == c + 1 {
                F::one_elem()
            } else {
                F::zero_elem()
            });
        }
        determinant_peels(m, n - 1, t - 1);
        determinant_congruent(block_from(m, t - 1), block_from(a, t), n - t);
    }
}

/// A matrix whose first column is zero has determinant zero.
pub proof fn determinant_zero_column<F: FieldElement>(a: spec_fn(int, int) -> F, n: int)
    requires
        n > 0,
        forall|r: int| 0 <= r < n ==> #[trigger] a(r, 0) == F::zero_elem(),
    ensures
        determinant(a, n) == F::zero_elem(),
{
    determinant_expands(a, n);
    let f = |r: int| expansion_term(a, n, r);
    assert forall|r: int| 0 <= r < n implies #[trigger] f(r) == F::zero_elem() by {
        assert(a(r, 0) == F::zero_elem());
        left_identities(determinant(minor(a, r), n - 1));
    }
    sum_of_zeros(f, n);
}

} // verus!
