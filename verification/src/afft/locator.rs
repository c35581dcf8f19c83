//! Erasure-locator evaluation over a transform domain.
//!
//! For a set of erased points the locator is the product of `x + e` over the
//! erased `e`. A decoder needs it at every known point, and its derivative at
//! every erased one. Because differences of domain points depend on the
//! exclusive or of their indices only, the exponents of all these products are
//! one convolution, computed by three Walsh-Hadamard transforms.


use vstd::arithmetic::div_mod::{
    lemma_mul_mod_noop, lemma_mul_mod_noop_left, lemma_mul_mod_noop_right, lemma_small_mod,
};
use vstd::arithmetic::power::{lemma_pow0, lemma_pow1, lemma_pow_adds, pow};
use vstd::prelude::*;

use crate::afft::field::{generator_generates, group_order, Field};
use crate::afft::tables::{mod_pow, mul_mod, LogExpTables};
use crate::afft::transform::{has_dimension, TransformLengthError, TransformPlan};
use crate::algebra::domains::{
    independent, span_point, span_points, span_size, span_size_grows,
};
use crate::algebra::evaluation_code::{erasure_product, points_differ};
use crate::algebra::field::FieldElement;
use crate::algebra::generators::power_modulo;
use crate::algebra::logarithms::{erasure_exponent, logarithm, power_of_exponents};
use crate::algebra::powers::power;
use crate::algebra::walsh::{
    convolution, convolution_of_points, products, residues_combine, tabulated, total,
    total_congruent, walsh, walsh_congruent, walsh_convolves, walsh_length,
};

verus! {

/// Unsigned entries as integers.
pub open spec fn as_ints(values: Seq<u32>) -> Seq<int> {
    Seq::new(values.len(), |i: int| values[i] as int)
}

/// The Walsh-Hadamard transform modulo `modulus`, in place.
pub fn walsh_hadamard(values: &mut [u32], modulus: u32)
    requires
        exists|dimension: nat| has_dimension(old(values)@.len() as int, dimension),
        0 < modulus <= 0x8000_0000,
        forall|i: int| 0 <= i < old(values)@.len() ==> #[trigger] old(values)@[i] < modulus,
    ensures
        final(values)@.len() == old(values)@.len(),
        forall|i: int|
            0 <= i < final(values)@.len() ==> #[trigger] final(values)@[i] == walsh(
                as_ints(old(values)@),
            )[i] % (modulus as int),
    decreases old(values)@.len(),
{
    let ghost before = values@;
    let n: usize = values.len();
    let ghost dimension = choose|d: nat| has_dimension(n as int, d);
    if n <= 1 {
        proof {
            assert forall|i: int| 0 <= i < values@.len() implies #[trigger] values@[i] == walsh(
                as_ints(before),
            )[i] % (modulus as int) by {
                assert(as_ints(before)[i] == before[i]);
                lemma_small_mod(before[i] as nat, modulus as nat);
            }
        }
        return;
    }
    let half: usize = n / 2;
    let ghost m = modulus as int;
    let ghost a = as_ints(before);
    let ghost a0 = a.subrange(0, half as int);
    let ghost a1 = a.subrange(half as int, n as int);
    proof {
        assert(dimension > 0);
        let d = (dimension - 1) as nat;
        assert(n == 2 * span_size(d));
        assert(has_dimension(half as int, d));
        walsh_length(a0);
        walsh_length(a1);
    }
    let (low, high) = values.split_at_mut(half);
    proof {
        assert(as_ints(low@) =~= a0);
        assert(as_ints(high@) =~= a1);
        assert(high@.len() == half);
    }
    walsh_hadamard(low, modulus);
    walsh_hadamard(high, modulus);
    let ghost low_done = low@;
    let ghost high_done = high@;
    let mut i: usize = 0;
    while i < half
        invariant
            i <= half,
            m == modulus,
            0 < modulus <= 0x8000_0000,
            low@.len() == half,
            high@.len() == half,
            low_done.len() == half,
            high_done.len() == half,
            walsh(a0).len() == half,
            walsh(a1).len() == half,
            forall|j: int| 0 <= j < half ==> #[trigger] low_done[j] == walsh(a0)[j] % m,
            forall|j: int| 0 <= j < half ==> #[trigger] high_done[j] == walsh(a1)[j] % m,
            forall|j: int| i <= j < half ==> #[trigger] low@[j] == low_done[j],
            forall|j: int| i <= j < half ==> #[trigger] high@[j] == high_done[j],
            forall|j: int|
                0 <= j < i ==> #[trigger] low@[j] == (walsh(a0)[j] + walsh(a1)[j]) % m,
            forall|j: int|
                0 <= j < i ==> #[trigger] high@[j] == (walsh(a0)[j] - walsh(a1)[j]) % m,
        decreases half - i,
    {
        let left: u32 = low[i];
        let right: u32 = high[i];
        proof {
            let (u, v) = (walsh(a0)[i as int], walsh(a1)[i as int]);
            assert(low@[i as int] == low_done[i as int]);
            assert(high@[i as int] == high_done[i as int]);
            assert(left == u % m && right == v % m);
            assert(0 <= u % m < m && 0 <= v % m < m) by (nonlinear_arith)
                requires
                    m > 0,
            ;
            wrapped_sum(left as int, right as int, m);
            assert((u % m) % m == u % m && (v % m) % m == v % m) by {
                lemma_small_mod((u % m) as nat, m as nat);
                lemma_small_mod((v % m) as nat, m as nat);
            }
            residues_combine(left as int, right as int, u, v, m);
        }
        let sum: u32 = left + right;
        let difference: u32 = if left >= right {
            left - right
        } else {
            left + modulus - right
        };
        low[i] = if sum >= modulus {
            sum - modulus
        } else {
            sum
        };
        high[i] = difference;
        i += 1;
    }
    let ghost low_end = low@;
    let ghost high_end = high@;
    proof {
        let after = values@;
        assert(after == low_end + high_end);
        assert forall|j: int| 0 <= j < after.len() implies #[trigger] after[j] == walsh(a)[j]
            % m by {
            if j < half {
                assert(after[j] == low_end[j]);
            } else {
                assert(after[j] == high_end[j - half]);
            }
        }
    }
}

/// Residues of sums and differences of residues.
proof fn wrapped_sum(left: int, right: int, m: int)
    requires
        0 <= left < m,
        0 <= right < m,
    ensures
        (left + right) % m == if left + right >= m {
            left + right - m
        } else {
            left + right
        },
        (left - right) % m == if left >= right {
            left - right
        } else {
            left + m - right
        },
{
    if left + right >= m {
        vstd::arithmetic::div_mod::lemma_mod_add_multiples_vanish(left + right - m, m);
        lemma_small_mod((left + right - m) as nat, m as nat);
    } else {
        lemma_small_mod((left + right) as nat, m as nat);
    }
    if left >= right {
        lemma_small_mod((left - right) as nat, m as nat);
    } else {
        vstd::arithmetic::div_mod::lemma_mod_add_multiples_vanish(left - right, m);
        lemma_small_mod((left + m - right) as nat, m as nat);
    }
}

/// Exponent-domain workspace for [`ErasureLocator::recompute`].
#[derive(Clone, Debug, Default)]
pub struct LocatorScratch {
    indicator: Vec<u32>,
    logarithms: Vec<u32>,
}

impl LocatorScratch {
    /// Domain size the workspace is made for.
    pub closed spec fn domain(&self) -> int {
        self.indicator@.len() as int
    }

    /// Empty scratch, sized on first use.
    pub fn new() -> (r: Self)
        ensures
            r.domain() == 0,
    {
        LocatorScratch { indicator: Vec::new(), logarithms: Vec::new() }
    }

    /// Scratch for a domain of `size` points.
    pub fn for_domain(size: usize) -> (r: Self)
        ensures
            r.domain() == size,
    {
        LocatorScratch { indicator: vec![0u32;size], logarithms: vec![0u32;size] }
    }

    fn ensure(&mut self, size: usize)
        ensures
            final(self).indicator@.len() == size,
            final(self).logarithms@.len() == size,
    {
        if self.indicator.len() != size || self.logarithms.len() != size {
            self.indicator = vec![0u32;size];
            self.logarithms = vec![0u32;size];
        }
    }
}

/// The known positions of a pattern.
pub open spec fn known_in(known: Seq<bool>) -> spec_fn(int) -> bool {
    |i: int| known[i]
}

/// Locator evaluations over one transform domain and one erasure pattern.
///
/// At each index exactly one of the two tables is populated: `values` at known
/// points, `derivatives` at erased ones. The other holds zero, which is also
/// the value of the locator at an erased point.
#[derive(Clone, Debug)]
pub struct ErasureLocator<F: Field> {
    values: Vec<F>,
    derivatives: Vec<F>,
}

impl<F: Field> ErasureLocator<F> {
    /// The locator at known points.
    pub closed spec fn value_table(&self) -> Seq<F> {
        self.values@
    }

    /// Its derivative at erased points.
    pub closed spec fn derivative_table(&self) -> Seq<F> {
        self.derivatives@
    }

    /// The tables describe the erasures of `known` over the domain of `basis`.
    pub open spec fn locates(&self, basis: Seq<F>, known: spec_fn(int) -> bool) -> bool {
        let size = span_size(basis.len()) as int;
        &&& self.value_table().len() == size
        &&& self.derivative_table().len() == size
        &&& forall|i: int|
            0 <= i < size ==> #[trigger] self.value_table()[i] == if known(i) {
                erasure_product(|j: int| span_point(basis, j), known, i, size)
            } else {
                F::zero_elem()
            }
        &&& forall|i: int|
            0 <= i < size ==> #[trigger] self.derivative_table()[i] == if known(i) {
                F::zero_elem()
            } else {
                erasure_product(|j: int| span_point(basis, j), known, i, size)
            }
    }

    /// Zeroed tables for a domain of `size` points.
    pub fn for_domain(size: usize) -> (r: Self)
        ensures
            r.value_table() == Seq::new(size as nat, |i: int| F::zero_elem()),
            r.derivative_table() == Seq::new(size as nat, |i: int| F::zero_elem()),
    {
        let values = zeroes::<F>(size);
        let derivatives = zeroes::<F>(size);
        ErasureLocator { values, derivatives }
    }

    /// Locator evaluations for the erasure pattern `known`.
    ///
    /// `known[i]` is whether the evaluation at transform point `i` survived.
    pub fn new(plan: &TransformPlan<F>, known: &[bool]) -> (r: Result<Self, TransformLengthError>)
        requires
            plan.valid(),
        ensures
            match r {
                Ok(locator) => known@.len() == plan.domain() && locator.locates(
                    plan.ordered_basis(),
                    known_in(known@),
                ),
                Err(error) => known@.len() != plan.domain() && error == (TransformLengthError {
                    expected: plan.domain() as usize,
                    got: known@.len() as usize,
                }),
            },
    {
        let tables = LogExpTables::<F>::build();
        Self::with_tables(plan, &tables, known)
    }

    /// [`ErasureLocator::new`] with tables built before.
    pub fn with_tables(
        plan: &TransformPlan<F>,
        tables: &LogExpTables<F>,
        known: &[bool],
    ) -> (r: Result<Self, TransformLengthError>)
        requires
            plan.valid(),
            tables.valid(),
        ensures
            match r {
                Ok(locator) => known@.len() == plan.domain() && locator.locates(
                    plan.ordered_basis(),
                    known_in(known@),
                ),
                Err(error) => known@.len() != plan.domain() && error == (TransformLengthError {
                    expected: plan.domain() as usize,
                    got: known@.len() as usize,
                }),
            },
    {
        let mut locator = Self::for_domain(plan.size());
        let mut scratch = LocatorScratch::for_domain(plan.size());
        match locator.recompute(plan, tables, known, &mut scratch) {
            Ok(()) => Ok(locator),
            Err(error) => Err(error),
        }
    }

    /// Recomputes the tables in place for a new erasure pattern.
    pub fn recompute(
        &mut self,
        plan: &TransformPlan<F>,
        tables: &LogExpTables<F>,
        known: &[bool],
        scratch: &mut LocatorScratch,
    ) -> (r: Result<(), TransformLengthError>)
        requires
            plan.valid(),
            tables.valid(),
        ensures
            match r {
                Ok(()) => known@.len() == plan.domain() && final(self).locates(
                    plan.ordered_basis(),
                    known_in(known@),
                ),
                Err(error) => known@.len() != plan.domain() && error == (TransformLengthError {
                    expected: plan.domain() as usize,
                    got: known@.len() as usize,
                }) && *final(self) == *old(self) && *final(scratch) == *old(scratch),
            },
    {
        let size: usize = plan.size();
        if known.len() != size {
            return Err(TransformLengthError { expected: size, got: known.len() });
        }
        scratch.ensure(size);
        fill_exponents(plan, tables, known, &mut scratch.indicator, &mut scratch.logarithms);
        locate_exponents(plan, &mut scratch.indicator, &mut scratch.logarithms);
        let ghost basis = plan.ordered_basis();
        let ghost pattern = known_in(known@);
        let ghost point = |j: int| span_point(basis, j);
        let ghost g = F::generator_elem();
        let ghost n = group_order::<F>();
        let mut values: Vec<F> = Vec::new();
        let mut derivatives: Vec<F> = Vec::new();
        let mut i: usize = 0;
        while i < size
            invariant
                i <= size,
                plan.valid(),
                tables.valid(),
                size == plan.domain(),
                known@.len() == size,
                basis == plan.ordered_basis(),
                pattern == known_in(known@),
                point == (|j: int| span_point(basis, j)),
                g == F::generator_elem(),
                n == group_order::<F>(),
                scratch.indicator@.len() == size,
                forall|x: int|
                    0 <= x < size ==> #[trigger] scratch.indicator@[x] == total(
                        erasure_exponent(g, n, point, pattern, x),
                        size as int,
                    ) % (n as int),
                n > 0,
                values@.len() == i,
                derivatives@.len() == i,
                forall|x: int|
                    0 <= x < i ==> #[trigger] values@[x] == if pattern(x) {
                        erasure_product(point, pattern, x, size as int)
                    } else {
                        F::zero_elem()
                    },
                forall|x: int|
                    0 <= x < i ==> #[trigger] derivatives@[x] == if pattern(x) {
                        F::zero_elem()
                    } else {
                        erasure_product(point, pattern, x, size as int)
                    },
            decreases size - i,
        {
            let exponent: u32 = scratch.indicator[i];
            proof {
                let sum = total(erasure_exponent(g, n, point, pattern, i as int), size as int);
                domain_points_differ(basis);
                generator_generates::<F>();
                power_of_exponents(g, n, point, pattern, i as int, size as int, size as int);
                power_modulo(g, n, sum as nat);
                assert(exponent == sum % (n as int));
                assert(0 <= sum % (n as int) < n) by (nonlinear_arith)
                    requires
                        n > 0,
                ;
            }
            let product = tables.exp(exponent);
            if known[i] {
                values.push(product);
                derivatives.push(F::zero_value());
            } else {
                values.push(F::zero_value());
                derivatives.push(product);
            }
            i += 1;
        }
        self.values = values;
        self.derivatives = derivatives;
        Ok(())
    }

    /// The locator at every known point, zero at erased points.
    pub fn values(&self) -> (r: &[F])
        ensures
            r@ == self.value_table(),
    {
        self.values.as_slice()
    }

    /// The locator's derivative at every erased point, zero elsewhere.
    pub fn derivatives(&self) -> (r: &[F])
        ensures
            r@ == self.derivative_table(),
    {
        self.derivatives.as_slice()
    }

    /// Number of transform points covered.
    pub fn size(&self) -> (r: usize)
        ensures
            r == self.value_table().len(),
    {
        self.values.len()
    }
}

/// A vector of zeros.
pub fn zeroes<F: FieldElement>(len: usize) -> (r: Vec<F>)
    ensures
        r@ == Seq::new(len as nat, |i: int| F::zero_elem()),
{
    let mut out: Vec<F> = Vec::new();
    let mut i: usize = 0;
    while i < len
        invariant
            i <= len,
            out@.len() == i,
            forall|j: int| 0 <= j < i ==> #[trigger] out@[j] == F::zero_elem(),
        decreases len - i,
    {
        out.push(F::zero_value());
        i += 1;
    }
    proof {
        assert(out@ =~= Seq::new(len as nat, |i: int| F::zero_elem()));
    }
    out
}

/// Points of an independent basis differ.
pub proof fn domain_points_differ<F: FieldElement>(basis: Seq<F>)
    requires
        independent(basis),
    ensures
        points_differ(|j: int| span_point(basis, j), span_size(basis.len()) as int),
{
    let point = |j: int| span_point(basis, j);
    let points = span_points(basis);
    assert forall|i: int, j: int|
        0 <= i < span_size(basis.len()) && 0 <= j < span_size(basis.len()) && i
            != j implies #[trigger] point(i) != #[trigger] point(j) by {
        assert(points[i] != points[j]);
    }
}

/// One for an erased position, zero for a known one.
pub open spec fn indicator_of(known: Seq<bool>) -> Seq<int> {
    Seq::new(
        known.len(),
        |i: int|
            if known[i] {
                0int
            } else {
                1int
            },
    )
}

/// The logarithm of an element as an integer.
pub open spec fn log_of<F: Field>() -> spec_fn(F) -> int {
    |x: F| logarithm(F::generator_elem(), group_order::<F>(), x) as int
}

/// Writes the erasure indicator and the logarithms of all domain points.
fn fill_exponents<F: Field>(
    plan: &TransformPlan<F>,
    tables: &LogExpTables<F>,
    known: &[bool],
    indicator: &mut Vec<u32>,
    logarithms: &mut Vec<u32>,
)
    requires
        plan.valid(),
        tables.valid(),
        known@.len() == plan.domain(),
        old(indicator)@.len() == plan.domain(),
        old(logarithms)@.len() == plan.domain(),
    ensures
        as_ints(final(indicator)@) == indicator_of(known@),
        as_ints(final(logarithms)@) == tabulated(
            plan.ordered_basis(),
            F::zero_elem(),
            log_of::<F>(),
        ),
        forall|i: int| 0 <= i < plan.domain() ==> #[trigger] final(indicator)@[i] <= 1,
        forall|i: int|
            0 <= i < plan.domain() ==> #[trigger] final(logarithms)@[i] < group_order::<F>(),
        final(indicator)@.len() == plan.domain(),
        final(logarithms)@.len() == plan.domain(),
{
    let size: usize = plan.size();
    let ghost basis = plan.ordered_basis();
    let mut i: usize = 0;
    while i < size
        invariant
            i <= size,
            plan.valid(),
            tables.valid(),
            basis == plan.ordered_basis(),
            size == plan.domain(),
            known@.len() == size,
            indicator@.len() == size,
            logarithms@.len() == size,
            forall|j: int|
                0 <= j < i ==> #[trigger] indicator@[j] == if known@[j] {
                    0u32
                } else {
                    1u32
                },
            forall|j: int|
                0 <= j < i ==> #[trigger] logarithms@[j] == log_of::<F>()(span_point(basis, j)),
            forall|j: int| 0 <= j < i ==> #[trigger] logarithms@[j] < group_order::<F>(),
        decreases size - i,
    {
        let slot: u32 = if known[i] {
            0
        } else {
            1
        };
        indicator.set(i, slot);
        let point = plan.point_element(i);
        logarithms.set(i, tables.log(point));
        i += 1;
    }
    proof {
        assert(as_ints(indicator@) =~= indicator_of(known@));
        let stated = tabulated(basis, F::zero_elem(), log_of::<F>());
        assert forall|j: int| 0 <= j < size implies #[trigger] as_ints(logarithms@)[j]
            == stated[j] by {
            F::plus_identity(span_point(basis, j));
            assert(logarithms@[j] == log_of::<F>()(span_point(basis, j)));
        }
        assert(as_ints(logarithms@) =~= stated);
    }
}

/// Turns the indicator into the exponent of every erasure product.
fn locate_exponents<F: Field>(
    plan: &TransformPlan<F>,
    indicator: &mut Vec<u32>,
    logarithms: &mut Vec<u32>,
)
    requires
        plan.valid(),
        old(indicator)@.len() == plan.domain(),
        old(logarithms)@.len() == plan.domain(),
        exists|known: Seq<bool>|
            known.len() == plan.domain() && #[trigger] indicator_of(known) == as_ints(
                old(indicator)@,
            ),
        as_ints(old(logarithms)@) == tabulated(
            plan.ordered_basis(),
            F::zero_elem(),
            log_of::<F>(),
        ),
        forall|i: int|
            0 <= i < plan.domain() ==> #[trigger] old(logarithms)@[i] < group_order::<F>(),
    ensures
        final(indicator)@.len() == plan.domain(),
        group_order::<F>() > 0,
        forall|known: Seq<bool>, x: int|
            #![trigger indicator_of(known), final(indicator)@[x]]
            known.len() == plan.domain() && indicator_of(known) == as_ints(old(indicator)@) && 0 <= x
                < plan.domain() ==> final(indicator)@[x] == total(
                erasure_exponent(
                    F::generator_elem(),
                    group_order::<F>(),
                    |j: int| span_point(plan.ordered_basis(), j),
                    known_in(known),
                    x,
                ),
                plan.domain(),
            ) % (group_order::<F>() as int),
{
    let ghost size = plan.domain();
    let ghost basis = plan.ordered_basis();
    let ghost dimension = basis.len();
    let ghost a = as_ints(indicator@);
    let ghost b = as_ints(logarithms@);
    let ghost half_order = span_size((F::bits() - 1) as nat) as int;
    let modulus: u32 = group_modulus::<F>();
    let ghost m = modulus as int;
    let count: usize = indicator.len();
    proof {
        assert(has_dimension(size, dimension));
        F::bits_are_few();
        let known = choose|known: Seq<bool>|
            known.len() == size && #[trigger] indicator_of(known) == a;
        assert forall|i: int| 0 <= i < size implies #[trigger] indicator@[i] < modulus by {
            assert(a[i] == indicator_of(known)[i]);
            assert(a[i] == indicator@[i]);
            F::bits_are_few();
            F::generator_has_order();
            unit_is_residue::<F>();
        }
    }
    walsh_hadamard(indicator.as_mut_slice(), modulus);
    walsh_hadamard(logarithms.as_mut_slice(), modulus);
    let ghost wa = walsh(a);
    let ghost wb = walsh(b);
    let ghost prod = products(wa, wb);
    proof {
        walsh_length(a);
        walsh_length(b);
    }
    let mut i: usize = 0;
    while i < count
        invariant
            i <= count,
            count == size,
            modulus > 0,
            m == modulus,
            indicator@.len() == size,
            logarithms@.len() == size,
            wa.len() == size,
            wb.len() == size,
            prod == products(wa, wb),
            forall|j: int| 0 <= j < size ==> #[trigger] logarithms@[j] == wb[j] % m,
            forall|j: int| i <= j < size ==> #[trigger] indicator@[j] == wa[j] % m,
            forall|j: int| 0 <= j < i ==> #[trigger] indicator@[j] == prod[j] % m,
        decreases count - i,
    {
        proof {
            lemma_mul_mod_noop(wa[i as int], wb[i as int], m);
            assert(indicator@[i as int] == wa[i as int] % m);
        }
        let slot: u32 = mul_mod(indicator[i], logarithms[i], modulus);
        indicator.set(i, slot);
        i += 1;
    }
    let ghost slots = as_ints(indicator@);
    proof {
        assert forall|j: int| 0 <= j < size implies #[trigger] indicator@[j] < modulus by {
            assert(0 <= prod[j] % m < m) by (nonlinear_arith)
                requires
                    m > 0,
            ;
        }
    }
    walsh_hadamard(indicator.as_mut_slice(), modulus);
    let inverse_two: u32 = modulus / 2 + 1;
    let log_size: usize = plan.log_size();
    proof {
        F::bits_are_few();
    }
    let inverse_size: u32 = mod_pow(inverse_two, log_size as u32, modulus);
    let ghost inverse = inverse_size as int;
    let ghost conv = convolution(a, b);
    proof {
        assert forall|j: int| 0 <= j < size implies #[trigger] slots[j] % m == prod[j] % m by {
            assert(slots[j] == indicator_entry(prod, m, j));
            vstd::arithmetic::div_mod::lemma_mod_mod(prod[j], m, 1);
        }
        walsh_congruent(slots, prod, m, dimension);
        walsh_convolves(a, b, dimension);
        size_is_inverted(m, half_order, inverse_two as int, dimension, inverse);
        assert forall|j: int| 0 <= j < size implies #[trigger] indicator@[j] == (size * conv[j])
            % m by {
            assert(walsh(slots)[j] % m == walsh(prod)[j] % m);
        }
    }
    let mut i: usize = 0;
    while i < count
        invariant
            i <= count,
            count == size,
            modulus > 0,
            m == modulus,
            inverse == inverse_size,
            (size * inverse) % m == 1int % m,
            indicator@.len() == size,
            forall|j: int| i <= j < size ==> #[trigger] indicator@[j] == (size * conv[j]) % m,
            forall|j: int| 0 <= j < i ==> #[trigger] indicator@[j] == conv[j] % m,
        decreases count - i,
    {
        proof {
            assert(indicator@[i as int] == (size * conv[i as int]) % m);
            cancel_size(size, conv[i as int], inverse, m);
        }
        let slot: u32 = mul_mod(indicator[i], inverse_size, modulus);
        indicator.set(i, slot);
        i += 1;
    }
    proof {
        let g = F::generator_elem();
        let n = group_order::<F>();
        let point = |j: int| span_point(basis, j);
        assert forall|known: Seq<bool>, x: int|
            #![trigger indicator_of(known), indicator@[x]]
            known.len() == size && indicator_of(known) == a && 0 <= x < size implies indicator@[x]
            == total(erasure_exponent(g, n, point, known_in(known), x), size) % (n as int) by {
            let f = log_of::<F>();
            convolution_of_points(basis, F::zero_elem(), f, a, x);
            let left = |e: int|
                a[e] * f(
                    span_point(basis, x).plus(span_point(basis, e)).plus(F::zero_elem()),
                );
            let right = erasure_exponent(g, n, point, known_in(known), x);
            assert forall|e: int| 0 <= e < size implies #[trigger] left(e) == right(e) by {
                let d = span_point(basis, x).plus(span_point(basis, e));
                F::plus_identity(d);
                assert(a[e] == indicator_of(known)[e]);
                assert(0 * f(d) == 0 && 1 * f(d) == f(d));
            }
            total_congruent(left, right, size);
        }
    }
}

/// Entry of a reduced product.
spec fn indicator_entry(prod: Seq<int>, m: int, j: int) -> int {
    prod[j] % m
}

/// One is below the group order of a field with more than one bit, and the only
/// residue otherwise.
proof fn unit_is_residue<F: Field>()
    requires
        2 <= F::bits(),
    ensures
        1 < group_order::<F>(),
{
    span_size_grows(2, F::bits());
    assert(span_size(2) == 4) by {
        reveal_with_fuel(span_size, 3);
    }
}

/// The group order as a modulus.
fn group_modulus<F: Field>() -> (r: u32)
    ensures
        r == group_order::<F>(),
        0 < r <= 0xffff,
        r + 1 == 2 * span_size((F::bits() - 1) as nat),
{
    let entries: usize = F::max_transform_size();
    proof {
        F::bits_are_few();
        span_size_grows(F::bits(), 16);
        span_size_grows(1, F::bits());
        assert(span_size(16) == 65536 && span_size(1) == 2) by {
            reveal_with_fuel(span_size, 17);
        }
    }
    (entries - 1) as u32
}

/// The inverse of two, raised to the dimension, inverts the domain size.
proof fn size_is_inverted(m: int, half: int, inverse_two: int, dimension: nat, inverse: int)
    requires
        m > 0,
        m + 1 == 2 * half,
        inverse_two == half,
        inverse == if dimension == 0 {
            1
        } else {
            pow(inverse_two, dimension) % m
        },
    ensures
        (span_size(dimension) * inverse) % m == 1int % m,
{
    size_times_power(m, half, dimension);
    if dimension > 0 {
        lemma_mul_mod_noop_right(span_size(dimension) as int, pow(half, dimension), m);
    }
}

proof fn size_times_power(m: int, half: int, dimension: nat)
    requires
        m > 0,
        m + 1 == 2 * half,
    ensures
        (span_size(dimension) * pow(half, dimension)) % m == 1int % m,
    decreases dimension,
{
    if dimension == 0 {
        lemma_pow0(half);
    } else {
        let d = (dimension - 1) as nat;
        size_times_power(m, half, d);
        lemma_pow1(half);
        lemma_pow_adds(half, 1, d);
        let s = span_size(d) as int;
        let p = pow(half, d);
        assert((2 * s) * (half * p) == (m + 1) * (s * p)) by (nonlinear_arith)
            requires
                m + 1 == 2 * half,
        ;
        assert((m + 1) * (s * p) == m * (s * p) + s * p) by (nonlinear_arith);
        vstd::arithmetic::div_mod::lemma_mod_multiples_vanish(s * p, s * p, m);
    }
}

/// `((size * c) % m * inverse) % m = c % m` for an inverse of `size`.
proof fn cancel_size(size: int, c: int, inverse: int, m: int)
    requires
        m > 0,
        (size * inverse) % m == 1int % m,
    ensures
        (((size * c) % m) * inverse) % m == c % m,
{
    lemma_mul_mod_noop_left(size * c, inverse, m);
    assert((size * c) * inverse == c * (size * inverse)) by (nonlinear_arith);
    lemma_mul_mod_noop_right(c, size * inverse, m);
    lemma_mul_mod_noop_right(c, 1, m);
}

} // verus!
