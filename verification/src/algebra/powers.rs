//! Powers of field elements.

use vstd::prelude::*;

use crate::algebra::field::{left_identities, no_zero_divisors, FieldElement};

verus! {

/// `a` multiplied by itself `n` times.
pub open spec fn power<F: FieldElement>(a: F, n: nat) -> F
    decreases n,
{
    if n == 0 {
        F::one_elem()
    } else {
        power(a, (n - 1) as nat).times(a)
    }
}

/// Exponents add.
pub proof fn power_plus<F: FieldElement>(a: F, m: nat, n: nat)
    ensures
        power(a, m + n) == power(a, m).times(power(a, n)),
    decreases n,
{
    if n == 0 {
        F::times_identity(power(a, m));
    } else {
        power_plus(a, m, (n - 1) as nat);
        F::times_associates(power(a, m), power(a, (n - 1) as nat), a);
    }
}

/// Exponents multiply.
pub proof fn power_times<F: FieldElement>(a: F, m: nat, n: nat)
    ensures
        power(power(a, m), n) == power(a, m * n),
    decreases n,
{
    if n == 0 {
        assert(m * n == 0) by (nonlinear_arith)
            requires
                n == 0,
        ;
    } else {
        power_times(a, m, (n - 1) as nat);
        power_plus(a, m * ((n - 1) as nat), m);
        assert(m * n == m * ((n - 1) as nat) + m) by (nonlinear_arith)
            requires
                n > 0,
        ;
    }
}

/// One square-and-multiply step.
pub proof fn power_of_square<F: FieldElement>(a: F, n: nat)
    ensures
        n % 2 == 0 ==> power(a, n) == power(a.times(a), n / 2),
        n % 2 == 1 ==> power(a, n) == a.times(power(a.times(a), n / 2)),
{
    let half = n / 2;
    assert(power(a, 2) == a.times(a)) by {
        assert(power(a, 0) == F::one_elem());
        assert(power(a, 1) == power(a, 0).times(a));
        assert(power(a, 2) == power(a, 1).times(a));
        left_identities(a);
    }
    power_times(a, 2, half);
    if n % 2 == 1 {
        assert(n == 2 * half + 1);
        F::times_commutes(power(a, 2 * half), a);
    } else {
        assert(n == 2 * half);
    }
}

/// Powers of one are one.
pub proof fn power_of_one<F: FieldElement>(n: nat)
    ensures
        power(F::one_elem(), n) == F::one_elem(),
    decreases n,
{
    if n > 0 {
        power_of_one::<F>((n - 1) as nat);
        F::times_identity(F::one_elem());
    }
}

/// Powers of a nonzero element are nonzero.
pub proof fn power_nonzero<F: FieldElement>(a: F, n: nat)
    requires
        a != F::zero_elem(),
    ensures
        power(a, n) != F::zero_elem(),
    decreases n,
{
    if n == 0 {
        F::one_is_not_zero();
    } else {
        power_nonzero(a, (n - 1) as nat);
        no_zero_divisors(power(a, (n - 1) as nat), a);
    }
}

} // verus!
