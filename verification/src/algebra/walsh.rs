//! The Walsh-Hadamard transform, and convolution over exclusive-or of indices.

use vstd::prelude::*;

use crate::algebra::domains::{span_point, span_size};
use crate::algebra::field::{plus_swap_inner, FieldElement};

verus! {

/// The Walsh-Hadamard transform of a sequence whose length is a power of two:
/// sums of the transformed halves, then their differences.
pub open spec fn walsh(a: Seq<int>) -> Seq<int>
    decreases a.len(),
{
    if a.len() <= 1 {
        a
    } else {
        let half = a.len() as int / 2;
        let low = walsh(a.subrange(0, half));
        let high = walsh(a.subrange(half, a.len() as int));
        Seq::new(
            a.len(),
            |i: int|
                if i < half {
                    low[i] + high[i]
                } else {
                    low[i - half] - high[i - half]
                },
        )
    }
}

/// The convolution of two sequences of the same power-of-two length: entry `x`
/// sums the products of entries whose indices combine to `x` by exclusive or.
pub open spec fn convolution(a: Seq<int>, b: Seq<int>) -> Seq<int>
    decreases a.len(),
{
    if a.len() <= 1 {
        Seq::new(a.len(), |i: int| a[i] * b[i])
    } else {
        let n = a.len() as int;
        let half = n / 2;
        let a0 = a.subrange(0, half);
        let a1 = a.subrange(half, n);
        let b0 = b.subrange(0, half);
        let b1 = b.subrange(half, n);
        Seq::new(
            a.len(),
            |i: int|
                if i < half {
                    convolution(a0, b0)[i] + convolution(a1, b1)[i]
                } else {
                    convolution(a0, b1)[i - half] + convolution(a1, b0)[i - half]
                },
        )
    }
}

/// The entrywise product.
pub open spec fn products(a: Seq<int>, b: Seq<int>) -> Seq<int> {
    Seq::new(a.len(), |i: int| a[i] * b[i])
}

/// The transform keeps the length.
pub proof fn walsh_length(a: Seq<int>)
    ensures
        walsh(a).len() == a.len(),
{
}

/// The halves of a span-sized sequence are span-sized.
proof fn halves(a: Seq<int>, dimension: nat)
    requires
        a.len() == span_size(dimension),
        dimension > 0,
    ensures
        a.len() == 2 * span_size((dimension - 1) as nat),
        a.len() as int / 2 == span_size((dimension - 1) as nat),
        span_size((dimension - 1) as nat) >= 1,
        a.len() >= 2,
{
    crate::algebra::domains::span_size_grows(0, (dimension - 1) as nat);
}

/// The transform is linear.
pub proof fn walsh_linear(a: Seq<int>, b: Seq<int>, c: Seq<int>, p: int, q: int, dimension: nat)
    requires
        a.len() == span_size(dimension),
        b.len() == a.len(),
        c.len() == a.len(),
        forall|i: int| 0 <= i < c.len() ==> #[trigger] c[i] == p * a[i] + q * b[i],
    ensures
        forall|i: int|
            0 <= i < c.len() ==> #[trigger] walsh(c)[i] == p * walsh(a)[i] + q * walsh(b)[i],
    decreases dimension,
{
    if dimension > 0 {
        halves(a, dimension);
        let n = a.len() as int;
        let half = n / 2;
        let d = (dimension - 1) as nat;
        let a0 = a.subrange(0, half);
        let a1 = a.subrange(half, n);
        let b0 = b.subrange(0, half);
        let b1 = b.subrange(half, n);
        let c0 = c.subrange(0, half);
        let c1 = c.subrange(half, n);
        assert forall|i: int| 0 <= i < half implies #[trigger] c1[i] == p * a1[i] + q * b1[i] by {
            assert(c[half + i] == p * a[half + i] + q * b[half + i]);
        }
        walsh_linear(a0, b0, c0, p, q, d);
        walsh_linear(a1, b1, c1, p, q, d);
        assert forall|i: int| 0 <= i < n implies #[trigger] walsh(c)[i] == p * walsh(a)[i] + q
            * walsh(b)[i] by {
            let j = if i < half {
                i
            } else {
                i - half
            };
            walsh_length(a0);
            walsh_length(c0);
            walsh_length(c1);
            let (u, v, w, z) = (walsh(a0)[j], walsh(a1)[j], walsh(b0)[j], walsh(b1)[j]);
            assert(walsh(c0)[j] == p * u + q * w);
            assert(walsh(c1)[j] == p * v + q * z);
            assert((p * u + q * w) + (p * v + q * z) == p * (u + v) + q * (w + z) && (p * u + q * w)
                - (p * v + q * z) == p * (u - v) + q * (w - z)) by (nonlinear_arith);
        }
    }
}

/// Transforming twice scales by the length.
pub proof fn walsh_is_its_own_inverse(a: Seq<int>, dimension: nat)
    requires
        a.len() == span_size(dimension),
    ensures
        forall|i: int| 0 <= i < a.len() ==> #[trigger] walsh(walsh(a))[i] == a.len() * a[i],
    decreases dimension,
{
    let w = walsh(a);
    walsh_length(a);
    walsh_length(w);
    if dimension > 0 {
        halves(a, dimension);
        let n = a.len() as int;
        let half = n / 2;
        let d = (dimension - 1) as nat;
        let a0 = a.subrange(0, half);
        let a1 = a.subrange(half, n);
        let low = walsh(a0);
        let high = walsh(a1);
        walsh_length(a0);
        walsh_length(a1);
        let sums = w.subrange(0, half);
        let gaps = w.subrange(half, n);
        assert forall|i: int| 0 <= i < half implies #[trigger] sums[i] == 1 * low[i] + 1
            * high[i] by {}
        assert forall|i: int| 0 <= i < half implies #[trigger] gaps[i] == 1 * low[i] + (-1)
            * high[i] by {
            assert(gaps[i] == w[half + i]);
        }
        walsh_linear(low, high, sums, 1, 1, d);
        walsh_linear(low, high, gaps, 1, -1, d);
        walsh_is_its_own_inverse(a0, d);
        walsh_is_its_own_inverse(a1, d);
        assert forall|i: int| 0 <= i < n implies #[trigger] walsh(w)[i] == n * a[i] by {
            let j = if i < half {
                i
            } else {
                i - half
            };
            walsh_length(sums);
            walsh_length(gaps);
            assert(walsh(sums)[j] == 1 * walsh(low)[j] + 1 * walsh(high)[j]);
            assert(walsh(gaps)[j] == 1 * walsh(low)[j] + (-1) * walsh(high)[j]);
            assert(walsh(low)[j] == half * a0[j]);
            assert(walsh(high)[j] == half * a1[j]);
            let (u, v) = (a0[j], a1[j]);
            assert(half * u + half * u == (2 * half) * u && half * v + half * v == (2 * half) * v)
                by (nonlinear_arith);
            assert(a[i] == if i < half {
                u
            } else {
                v
            });
        }
    } else {
        assert(w[0] == a[0]);
    }
}

/// Transforming the product of two transforms convolves, up to the length.
pub proof fn walsh_convolves(a: Seq<int>, b: Seq<int>, dimension: nat)
    requires
        a.len() == span_size(dimension),
        b.len() == a.len(),
    ensures
        forall|i: int|
            0 <= i < a.len() ==> #[trigger] walsh(products(walsh(a), walsh(b)))[i] == a.len()
                * convolution(a, b)[i],
    decreases dimension,
{
    walsh_length(a);
    walsh_length(b);
    let prod = products(walsh(a), walsh(b));
    walsh_length(prod);
    if dimension > 0 {
        halves(a, dimension);
        let n = a.len() as int;
        let half = n / 2;
        let d = (dimension - 1) as nat;
        let a0 = a.subrange(0, half);
        let a1 = a.subrange(half, n);
        let b0 = b.subrange(0, half);
        let b1 = b.subrange(half, n);
        let (s0, s1, t0, t1) = (walsh(a0), walsh(a1), walsh(b0), walsh(b1));
        walsh_length(a0);
        walsh_length(a1);
        walsh_length(b0);
        walsh_length(b1);
        let p = prod.subrange(0, half);
        let q = prod.subrange(half, n);
        let (m00, m11, m01, m10) = (
            products(s0, t0),
            products(s1, t1),
            products(s0, t1),
            products(s1, t0),
        );
        // p + q = 2 * (m00 + m11) and p - q = 2 * (m01 + m10).
        let sums = Seq::new(half as nat, |i: int| 2 * m00[i] + 2 * m11[i]);
        let gaps = Seq::new(half as nat, |i: int| 2 * m01[i] + 2 * m10[i]);
        assert forall|i: int| 0 <= i < half implies #[trigger] sums[i] == 1 * p[i] + 1 * q[i]
            && gaps[i] == 1 * p[i] + (-1) * q[i] by {
            assert(p[i] == (s0[i] + s1[i]) * (t0[i] + t1[i]));
            assert(q[i] == prod[half + i]);
            assert(q[i] == (s0[i] - s1[i]) * (t0[i] - t1[i]));
            let (u, v, w, z) = (s0[i], s1[i], t0[i], t1[i]);
            assert(2 * (u * w) + 2 * (v * z) == (u + v) * (w + z) + (u - v) * (w - z) && 2 * (u * z)
                + 2 * (v * w) == (u + v) * (w + z) - (u - v) * (w - z)) by (nonlinear_arith);
        }
        assert forall|i: int| 0 <= i < half implies #[trigger] gaps[i] == 1 * p[i] + (-1) * q[i] by {
            assert(sums[i] == 1 * p[i] + 1 * q[i]);
        }
        walsh_linear(p, q, sums, 1, 1, d);
        walsh_linear(p, q, gaps, 1, -1, d);
        walsh_linear(m00, m11, sums, 2, 2, d);
        walsh_linear(m01, m10, gaps, 2, 2, d);
        walsh_convolves(a0, b0, d);
        walsh_convolves(a1, b1, d);
        walsh_convolves(a0, b1, d);
        walsh_convolves(a1, b0, d);
        assert forall|i: int| 0 <= i < n implies #[trigger] walsh(prod)[i] == n * convolution(
            a,
            b,
        )[i] by {
            let j = if i < half {
                i
            } else {
                i - half
            };
            walsh_length(p);
            walsh_length(sums);
            walsh_length(gaps);
            assert(walsh(sums)[j] == 1 * walsh(p)[j] + 1 * walsh(q)[j]);
            assert(walsh(gaps)[j] == 1 * walsh(p)[j] + (-1) * walsh(q)[j]);
            assert(walsh(sums)[j] == 2 * walsh(m00)[j] + 2 * walsh(m11)[j]);
            assert(walsh(gaps)[j] == 2 * walsh(m01)[j] + 2 * walsh(m10)[j]);
            let (u, v, w, z) = (
                convolution(a0, b0)[j],
                convolution(a1, b1)[j],
                convolution(a0, b1)[j],
                convolution(a1, b0)[j],
            );
            assert(walsh(m00)[j] == half * u);
            assert(walsh(m11)[j] == half * v);
            assert(walsh(m01)[j] == half * w);
            assert(walsh(m10)[j] == half * z);
            assert(2 * (half * u) + 2 * (half * v) == (2 * half) * (u + v) && 2 * (half * w) + 2 * (
            half * z) == (2 * half) * (w + z)) by (nonlinear_arith);
        }
    } else {
        assert(prod[0] == a[0] * b[0]);
    }
}

/// Congruent sequences have congruent transforms.
pub proof fn walsh_congruent(a: Seq<int>, b: Seq<int>, modulus: int, dimension: nat)
    requires
        modulus > 0,
        a.len() == span_size(dimension),
        b.len() == a.len(),
        forall|i: int| 0 <= i < a.len() ==> #[trigger] a[i] % modulus == b[i] % modulus,
    ensures
        forall|i: int|
            0 <= i < a.len() ==> #[trigger] walsh(a)[i] % modulus == walsh(b)[i] % modulus,
    decreases dimension,
{
    if dimension > 0 {
        halves(a, dimension);
        let n = a.len() as int;
        let half = n / 2;
        let d = (dimension - 1) as nat;
        let a0 = a.subrange(0, half);
        let a1 = a.subrange(half, n);
        let b0 = b.subrange(0, half);
        let b1 = b.subrange(half, n);
        assert forall|i: int| 0 <= i < half implies #[trigger] a1[i] % modulus == b1[i]
            % modulus by {
            assert(a[half + i] % modulus == b[half + i] % modulus);
        }
        walsh_congruent(a0, b0, modulus, d);
        walsh_congruent(a1, b1, modulus, d);
        walsh_length(a0);
        walsh_length(a1);
        assert forall|i: int| 0 <= i < n implies #[trigger] walsh(a)[i] % modulus == walsh(b)[i]
            % modulus by {
            let j = if i < half {
                i
            } else {
                i - half
            };
            let (u, v, w, z) = (walsh(a0)[j], walsh(a1)[j], walsh(b0)[j], walsh(b1)[j]);
            assert(u % modulus == w % modulus);
            assert(v % modulus == z % modulus);
            residues_combine(u, v, w, z, modulus);
        }
    }
}

/// Sums and differences of congruent integers are congruent.
pub proof fn residues_combine(u: int, v: int, w: int, z: int, modulus: int)
    requires
        modulus > 0,
        u % modulus == w % modulus,
        v % modulus == z % modulus,
    ensures
        (u + v) % modulus == (w + z) % modulus,
        (u - v) % modulus == (w - z) % modulus,
{
    vstd::arithmetic::div_mod::lemma_add_mod_noop(u, v, modulus);
    vstd::arithmetic::div_mod::lemma_add_mod_noop(w, z, modulus);
    vstd::arithmetic::div_mod::lemma_sub_mod_noop(u, v, modulus);
    vstd::arithmetic::div_mod::lemma_sub_mod_noop(w, z, modulus);
}

/// The sum of the first `n` integers of a sequence.
pub open spec fn total(f: spec_fn(int) -> int, n: int) -> int
    decreases n,
{
    if n <= 0 {
        0
    } else {
        total(f, n - 1) + f(n - 1)
    }
}

proof fn total_split(f: spec_fn(int) -> int, a: int, b: int)
    requires
        a >= 0,
        b >= 0,
    ensures
        total(f, a + b) == total(f, a) + total(|i: int| f(a + i), b),
    decreases b,
{
    let g = |i: int| f(a + i);
    if b > 0 {
        total_split(f, a, b - 1);
        assert(g(b - 1) == f(a + b - 1));
    }
}

pub proof fn total_congruent(f: spec_fn(int) -> int, g: spec_fn(int) -> int, n: int)
    requires
        forall|i: int| 0 <= i < n ==> #[trigger] f(i) == g(i),
    ensures
        total(f, n) == total(g, n),
    decreases n,
{
    if n > 0 {
        total_congruent(f, g, n - 1);
        assert(f(n - 1) == g(n - 1));
    }
}

/// A function of the domain points, shifted by `c`, tabulated over the domain.
pub open spec fn tabulated<F: FieldElement>(
    basis: Seq<F>,
    c: F,
    f: spec_fn(F) -> int,
) -> Seq<int> {
    Seq::new(span_size(basis.len()), |i: int| f(span_point(basis, i).plus(c)))
}

/// Convolving with a tabulated function sums it over differences of points.
pub proof fn convolution_of_points<F: FieldElement>(
    basis: Seq<F>,
    c: F,
    f: spec_fn(F) -> int,
    a: Seq<int>,
    x: int,
)
    requires
        a.len() == span_size(basis.len()),
        0 <= x < span_size(basis.len()),
    ensures
        convolution(a, tabulated(basis, c, f))[x] == total(
            |e: int| a[e] * f(span_point(basis, x).plus(span_point(basis, e)).plus(c)),
            span_size(basis.len()) as int,
        ),
    decreases basis.len(),
{
    let n = span_size(basis.len()) as int;
    let b = tabulated(basis, c, f);
    let px = span_point(basis, x);
    let stated = |e: int| a[e] * f(px.plus(span_point(basis, e)).plus(c));
    if basis.len() == 0 {
        assert(n == 1 && x == 0);
        assert(total(stated, 1) == total(stated, 0) + stated(0));
        F::plus_identity(F::zero_elem());
        assert(b[0] == f(F::zero_elem().plus(c)));
    } else {
        let front = basis.drop_last();
        let last = basis.last();
        let half = span_size(front.len()) as int;
        halves(a, basis.len());
        let moved = last.plus(c);
        let a0 = a.subrange(0, half);
        let a1 = a.subrange(half, n);
        let b0 = b.subrange(0, half);
        let b1 = b.subrange(half, n);
        assert(b0 =~= tabulated(front, c, f));
        assert(b1 =~= tabulated(front, moved, f)) by {
            assert forall|i: int| 0 <= i < half implies #[trigger] b1[i] == tabulated(
                front,
                moved,
                f,
            )[i] by {
                assert(b1[i] == b[half + i]);
                F::plus_associates(span_point(front, i), last, c);
            }
        }
        let high = x >= half;
        let y = if high {
            x - half
        } else {
            x
        };
        let py = span_point(front, y);
        assert(px == if high {
            py.plus(last)
        } else {
            py
        });
        // The shift that each half of the erasures sees.
        let (c0, c1) = if high {
            (moved, c)
        } else {
            (c, moved)
        };
        convolution_of_points(front, c0, f, a0, y);
        convolution_of_points(front, c1, f, a1, y);
        let low_terms = |e: int| a0[e] * f(py.plus(span_point(front, e)).plus(c0));
        let high_terms = |e: int| a1[e] * f(py.plus(span_point(front, e)).plus(c1));
        total_split(stated, half, half);
        let upper = |e: int| stated(half + e);
        assert forall|e: int| 0 <= e < half implies #[trigger] low_terms(e) == stated(e) by {
            assert(a0[e] == a[e]);
            shifted_difference(py, span_point(front, e), last, c);
        }
        assert forall|e: int| 0 <= e < half implies #[trigger] high_terms(e) == upper(e) by {
            assert(a1[e] == a[half + e]);
            shifted_difference(py, span_point(front, e), last, c);
        }
        total_congruent(low_terms, stated, half);
        total_congruent(high_terms, upper, half);
    }
}

/// How a basis element on either side moves a difference of points.
proof fn shifted_difference<F: FieldElement>(p: F, q: F, b: F, c: F)
    ensures
        p.plus(b).plus(q).plus(c) == p.plus(q).plus(b.plus(c)),
        p.plus(q.plus(b)).plus(c) == p.plus(q).plus(b.plus(c)),
        p.plus(b).plus(q.plus(b)).plus(c) == p.plus(q).plus(c),
{
    F::plus_associates(p, b, q);
    F::plus_commutes(b, q);
    F::plus_associates(p, q, b);
    F::plus_associates(p.plus(q), b, c);
    plus_swap_inner(p, b, q, b);
    F::plus_cancels(b);
    F::plus_identity(p.plus(q));
}

} // verus!
