//! Discrete logarithms, and products computed as sums of exponents.

use vstd::prelude::*;

use crate::algebra::evaluation_code::{erasure_product, points_differ};
use crate::algebra::field::{plus_is_zero, FieldElement};
use crate::algebra::generators::{has_order, order_nonzero, power_modulo};
use crate::algebra::powers::{power, power_nonzero, power_plus};
use crate::algebra::walsh::total;

verus! {

/// `g` has order `order`, and every nonzero element is one of its powers.
pub open spec fn generates<F: FieldElement>(g: F, order: nat) -> bool {
    &&& has_order(g, order)
    &&& forall|x: F| x != F::zero_elem() ==> #[trigger] is_power(g, order, x)
}

/// `x` is one of the first `order` powers of `g`.
pub open spec fn is_power<F: FieldElement>(g: F, order: nat, x: F) -> bool {
    exists|e: nat| e < order && #[trigger] power(g, e) == x
}

/// The exponent of `x` to the base `g`. That of zero is zero by convention.
pub open spec fn logarithm<F: FieldElement>(g: F, order: nat, x: F) -> nat {
    if x == F::zero_elem() {
        0
    } else {
        choose|e: nat| e < order && #[trigger] power(g, e) == x
    }
}

/// Logarithms are below the order and invert exponentiation.
pub proof fn logarithm_facts<F: FieldElement>(g: F, order: nat, x: F)
    requires
        generates(g, order),
    ensures
        logarithm(g, order, x) < order,
        x != F::zero_elem() ==> power(g, logarithm(g, order, x)) == x,
{
    if x != F::zero_elem() {
        assert(is_power(g, order, x));
    }
}

/// The logarithm of a power is its exponent.
pub proof fn logarithm_of_power<F: FieldElement>(g: F, order: nat, e: nat)
    requires
        generates(g, order),
        e < order,
    ensures
        power(g, e) != F::zero_elem(),
        logarithm(g, order, power(g, e)) == e,
{
    order_nonzero(g, order);
    power_nonzero(g, e);
    let x = power(g, e);
    logarithm_facts(g, order, x);
    let f = logarithm(g, order, x);
    if f != e {
        crate::algebra::generators::powers_are_distinct(g, order, f, e);
    }
}

/// One term of the exponent of an erasure product.
pub open spec fn erasure_exponent<F: FieldElement>(
    g: F,
    order: nat,
    point: spec_fn(int) -> F,
    known: spec_fn(int) -> bool,
    x: int,
) -> spec_fn(int) -> int {
    |e: int|
        if known(e) {
            0
        } else {
            logarithm(g, order, point(x).plus(point(e))) as int
        }
}

/// The erasure product is the power of the summed logarithms.
pub proof fn power_of_exponents<F: FieldElement>(
    g: F,
    order: nat,
    point: spec_fn(int) -> F,
    known: spec_fn(int) -> bool,
    x: int,
    n: int,
    size: int,
)
    requires
        generates(g, order),
        points_differ(point, size),
        0 <= x < size,
        0 <= n <= size,
    ensures
        total(erasure_exponent(g, order, point, known, x), n) >= 0,
        power(g, total(erasure_exponent(g, order, point, known, x), n) as nat) == erasure_product(
            point,
            known,
            x,
            n,
        ),
    decreases n,
{
    let f = erasure_exponent(g, order, point, known, x);
    if n > 0 {
        power_of_exponents(g, order, point, known, x, n - 1, size);
        let e = n - 1;
        let before = total(f, e);
        let d = point(x).plus(point(e));
        power_plus(g, before as nat, f(e) as nat);
        if known(e) || e == x {
            F::plus_cancels(point(x));
            F::times_identity(power(g, before as nat));
        } else {
            assert(point(x) != point(e));
            plus_is_zero(point(x), point(e));
            logarithm_facts(g, order, d);
        }
    }
}

/// Subtracting exponents modulo the order divides.
pub proof fn power_of_quotient<F: FieldElement>(g: F, order: nat, a: nat, b: nat, c: nat)
    requires
        has_order(g, order),
        b <= order,
        c <= order,
    ensures
        power(g, ((a + 2 * order - b - c) % (order as int)) as nat) == power(g, a).times(
            power(g, b).times(power(g, c)).recip(),
        ),
{
    let e = (a + 2 * order - b - c) as nat;
    power_modulo(g, order, e);
    power_plus(g, e, b + c);
    power_plus(g, b, c);
    assert(e + (b + c) == a + 2 * order);
    power_plus(g, a, 2 * order);
    power_plus(g, order, order);
    F::times_identity(F::one_elem());
    F::times_identity(power(g, a));
    let d = power(g, b).times(power(g, c));
    order_nonzero(g, order);
    power_nonzero(g, b + c);
    // power(g, e) * d = power(g, a)
    F::times_associates(power(g, e), d, d.recip());
    F::times_recip(d);
    F::times_identity(power(g, e));
}

} // verus!
