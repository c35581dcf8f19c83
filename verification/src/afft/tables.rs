//! Discrete logarithm tables over the multiplicative group.
//!
//! The erasure-locator transform works in exponents rather than field
//! elements: a product of many factors becomes a sum modulo the group order,
//! which is what lets one convolution evaluate the locator at every domain
//! point at once.

use vstd::arithmetic::div_mod::{
    lemma_mul_mod_noop, lemma_mul_mod_noop_left, lemma_mul_mod_noop_right, lemma_small_mod,
};
use vstd::arithmetic::power::{
    lemma_pow0, lemma_pow1, lemma_pow_adds, lemma_pow_mod_noop, lemma_pow_multiplies, pow,
};
use vstd::prelude::*;

use crate::afft::field::{generator_generates, group_order, Field};
use crate::algebra::domains::{span_size, span_size_grows};
use crate::algebra::generators::powers_are_distinct;
use crate::algebra::logarithms::{generates, logarithm, logarithm_facts, logarithm_of_power};
use crate::algebra::powers::power;

verus! {

/// Discrete logarithms and their inverse, to the base of the field's generator.
///
/// The logarithm of zero is not defined mathematically and is reported as zero;
/// the locator relies on that: the vanishing own term of a derivative must
/// contribute the factor one.
#[derive(Clone, Debug)]
pub struct LogExpTables<F: Field> {
    log: Vec<u32>,
    exp: Vec<F>,
    order: u32,
}

impl<F: Field> LogExpTables<F> {
    /// The tables hold every logarithm and every power.
    pub closed spec fn valid(&self) -> bool {
        &&& self.order == group_order::<F>()
        &&& self.exp@.len() == group_order::<F>()
        &&& self.log@.len() == span_size(F::bits())
        &&& forall|e: int|
            0 <= e < self.exp@.len() ==> #[trigger] self.exp@[e] == power(
                F::generator_elem(),
                e as nat,
            )
        &&& forall|x: F|
            self.log@[#[trigger] x.raw()] == logarithm(F::generator_elem(), group_order::<F>(), x)
    }

    /// Tabulates the multiplicative group by walking the generator.
    pub fn build() -> (r: Self)
        ensures
            r.valid(),
    {
        let ghost g = F::generator_elem();
        let ghost n = group_order::<F>();
        let entries: usize = F::max_transform_size();
        proof {
            F::bits_are_few();
            F::generator_has_order();
            generator_generates::<F>();
            span_size_grows(F::bits(), 16);
            span_size_grows(0, F::bits());
            assert(span_size(16) == 65536) by {
                reveal_with_fuel(span_size, 17);
            }
            assert(power(g, 0) == F::one_elem());
        }
        let order: usize = entries - 1;
        let mut log: Vec<u32> = vec![0u32;entries];
        let mut exp: Vec<F> = Vec::new();
        let mut value = F::one_value();
        let generator = F::generator_value();
        let mut e: usize = 0;
        while e < order
            invariant
                g == F::generator_elem(),
                generator == g,
                n == group_order::<F>(),
                order == n,
                entries == span_size(F::bits()),
                entries == order + 1,
                entries <= 65536,
                generates(g, n),
                e <= order,
                value == power(g, e as nat),
                exp@.len() == e,
                log@.len() == entries,
                log@[0] == 0,
                forall|i: int| 0 <= i < e ==> #[trigger] exp@[i] == power(g, i as nat),
                forall|i: nat| i < e ==> log@[#[trigger] power(g, i).raw()] == i,
            decreases order - e,
        {
            proof {
                F::patterns_are_elements(value, 0);
                logarithm_of_power(g, n, e as nat);
                assert forall|i: nat| i < e implies #[trigger] power(g, i).raw()
                    != value.raw() by {
                    powers_are_distinct(g, n, i, e as nat);
                    F::patterns_are_elements(power(g, i), 0);
                }
                assert forall|i: nat| i < e implies 0 <= #[trigger] power(g, i).raw()
                    < entries by {
                    F::patterns_are_elements(power(g, i), 0);
                }
                assert(value.raw() != 0);
            }
            exp.push(value);
            let slot: usize = value.raw_value();
            log.set(slot, e as u32);
            value = value.mul_value(generator);
            e += 1;
        }
        let r = LogExpTables { log, exp, order: order as u32 };
        proof {
            assert forall|x: F| r.log@[#[trigger] x.raw()] == logarithm(g, n, x) by {
                F::patterns_are_elements(x, 0);
                logarithm_facts(g, n, x);
                if x != F::zero_elem() {
                    assert(r.log@[power(g, logarithm(g, n, x)).raw()] == logarithm(g, n, x));
                } else {
                    assert(F::zero_elem().raw() == 0);
                }
            }
        }
        r
    }

    /// The order of the multiplicative group, the modulus of every exponent.
    pub fn order(&self) -> (r: u32)
        requires
            self.valid(),
        ensures
            r == group_order::<F>(),
    {
        self.order
    }

    /// The exponent of `value`, zero for zero.
    pub fn log(&self, value: F) -> (r: u32)
        requires
            self.valid(),
        ensures
            r == logarithm(F::generator_elem(), group_order::<F>(), value),
            r < group_order::<F>(),
            value != F::zero_elem() ==> power(F::generator_elem(), r as nat) == value,
            value == F::zero_elem() ==> r == 0,
    {
        proof {
            F::patterns_are_elements(value, 0);
            generator_generates::<F>();
            logarithm_facts(F::generator_elem(), group_order::<F>(), value);
        }
        self.log[value.raw_value()]
    }

    /// The generator raised to `exponent`.
    pub fn exp(&self, exponent: u32) -> (r: F)
        requires
            self.valid(),
            exponent < group_order::<F>(),
        ensures
            r == power(F::generator_elem(), exponent as nat),
    {
        self.exp[exponent as usize]
    }
}

/// `a * b` modulo `modulus`.
pub fn mul_mod(a: u32, b: u32, modulus: u32) -> (r: u32)
    requires
        modulus > 0,
    ensures
        r == (a * b) % (modulus as int),
        r < modulus,
{
    proof {
        assert(0 <= a * b <= 0xffff_ffff * 0xffff_ffff) by (nonlinear_arith)
            requires
                0 <= a <= 0xffff_ffff,
                0 <= b <= 0xffff_ffff,
        ;
    }
    ((a as u64 * b as u64) % modulus as u64) as u32
}

/// One squaring step of modular exponentiation.
proof fn square_step(base: int, n: nat, result: int, modulus: int)
    requires
        modulus > 0,
        n > 0,
    ensures
        n % 2 == 0 ==> (result * pow((base * base) % modulus, n / 2)) % modulus == (result * pow(
            base,
            n,
        )) % modulus,
        n % 2 == 1 ==> (((result * base) % modulus) * pow((base * base) % modulus, n / 2)) % modulus
            == (result * pow(base, n)) % modulus,
{
    let half = n / 2;
    let squared = base * base;
    lemma_pow1(base);
    lemma_pow_adds(base, 1, 1);
    lemma_pow_multiplies(base, 2, half);
    assert(pow(squared, half) == pow(base, 2 * half));
    lemma_pow_mod_noop(squared, half, modulus);
    let p = pow(squared % modulus, half);
    let q = pow(squared, half);
    if n % 2 == 0 {
        assert(n == 2 * half);
        lemma_mul_mod_noop_right(result, p, modulus);
        lemma_mul_mod_noop_right(result, q, modulus);
    } else {
        assert(n == 1 + 2 * half);
        lemma_pow_adds(base, 1, 2 * half);
        lemma_mul_mod_noop(result * base, p, modulus);
        lemma_mul_mod_noop(result * base, q, modulus);
        lemma_mul_mod_noop_left(result * base, p, modulus);
        assert((result * base) * q == result * (base * q)) by (nonlinear_arith);
    }
}

/// `base^exponent` modulo `modulus`. The empty product is one for every
/// modulus.
pub fn mod_pow(base: u32, exponent: u32, modulus: u32) -> (r: u32)
    requires
        modulus > 0,
    ensures
        r == if exponent == 0 {
            1
        } else {
            pow(base as int, exponent as nat) % (modulus as int)
        },
{
    let ghost m = modulus as int;
    let ghost target = pow(base as int, exponent as nat) % m;
    let mut square: u32 = base % modulus;
    let mut rest: u32 = exponent;
    let mut result: u32 = 1;
    let ghost mut reduced = false;
    proof {
        lemma_pow_mod_noop(base as int, exponent as nat, m);
    }
    while rest != 0
        invariant
            modulus > 0,
            m == modulus,
            target == pow(base as int, exponent as nat) % m,
            (result * pow(square as int, rest as nat)) % m == target,
            reduced ==> result < modulus,
            !reduced ==> result == 1 && (exponent > 0 ==> rest > 0),
            reduced ==> exponent > 0,
            rest <= exponent,
        decreases rest,
    {
        proof {
            square_step(square as int, rest as nat, result as int, m);
        }
        if rest % 2 == 1 {
            result = mul_mod(result, square, modulus);
            proof {
                reduced = true;
            }
        }
        square = mul_mod(square, square, modulus);
        rest = rest / 2;
    }
    proof {
        lemma_pow0(square as int);
        if reduced {
            lemma_small_mod(result as nat, m as nat);
        }
    }
    result
}

} // verus!
