//! Validated geometry of the additive-transform engines.

use std::collections::TryReserveError;

use vstd::prelude::*;

use crate::afft::code::{
    afft_fault, afft_shape, field_size, padded, padded_dimension, padded_facts, padded_fits,
    padded_is,
};
use crate::afft::field::Field;
use crate::algebra::domains::{span_size, span_size_grows};
use crate::codec::zero_block;
use crate::error::ConfigError;

verus! {

/// Validated geometry for one additive-transform configuration.
#[derive(Clone, Copy, Debug, PartialEq, Eq, Structural)]
pub struct Profile {
    /// Number of systematic symbols.
    pub k: usize,
    /// Number of repair symbols.
    pub m: usize,
    /// Number of transmitted symbols.
    pub n: usize,
    /// Per-symbol byte length.
    pub symbol_len: usize,
    /// Size of the interpolation domain.
    pub padded_k: usize,
    /// Size of the evaluation domain.
    pub transform_size: usize,
}

impl Profile {
    /// The geometry is accepted, and the derived sizes belong to it.
    pub open spec fn valid<F: Field>(&self) -> bool {
        &&& afft_shape::<F>(self.k as int, self.m as int, self.symbol_len as int)
        &&& self.n == self.k + self.m
        &&& self.padded_k == padded(self.k as int)
        &&& self.transform_size == padded(self.n as int)
    }

    /// Validates a geometry. There is none for zero dimensions, partial
    /// trailing elements, more symbols than the field has elements, or rows too
    /// large to address.
    pub fn new<F: Field>(k: usize, m: usize, symbol_len: usize) -> (r: Option<Self>)
        ensures
            match r {
                Some(profile) => profile.valid::<F>() && profile.k == k && profile.m == m
                    && profile.symbol_len == symbol_len,
                None => afft_fault::<F>(k as int, m as int, symbol_len as int) is Some,
            },
            r is Some <==> afft_fault::<F>(k as int, m as int, symbol_len as int) is None,
            r is Some <==> k >= 1 && m >= 1 && symbol_len >= 1 && symbol_len as int % F::width()
                == 0 && k + m <= span_size(F::bits()) && padded(k + m) * symbol_len <= usize::MAX,
    {
        let width: usize = F::element_width();
        let cap: usize = F::max_transform_size();
        proof {
            F::width_is_positive();
            field_size::<F>();
        }
        let n: usize = match k.checked_add(m) {
            Some(n) => n,
            None => {
                return None;
            },
        };
        if k == 0 || m == 0 || symbol_len == 0 || symbol_len % width != 0 {
            return None;
        }
        if n > cap {
            return None;
        }
        proof {
            padded_fits(k as int, F::bits());
            padded_fits(n as int, F::bits());
        }
        match (next_power_of_two(k), next_power_of_two(n)) {
            (Some(padded_k), Some(transform_size)) => match transform_size.checked_mul(symbol_len) {
                Some(_) => Some(Profile { k, m, n, symbol_len, padded_k, transform_size }),
                None => None,
            },
            _ => None,
        }
    }

    /// Evaluation point of a codeword position.
    pub fn evaluation_index(&self, wire_index: usize) -> (r: usize)
        requires
            wire_index < self.n,
        ensures
            r == wire_index,
    {
        wire_index
    }
}

/// Why a geometry without a profile is refused.
pub fn refusal<F: Field>(k: usize, m: usize, symbol_len: usize) -> (r: ConfigError)
    requires
        afft_fault::<F>(k as int, m as int, symbol_len as int) is Some,
    ensures
        afft_fault::<F>(k as int, m as int, symbol_len as int) == Some(r),
{
    let width: usize = F::element_width();
    proof {
        F::width_is_positive();
        field_size::<F>();
    }
    if k == 0 || m == 0 {
        return ConfigError::ZeroDimension;
    }
    if symbol_len == 0 {
        return ConfigError::ZeroSymbolLen;
    }
    if symbol_len % width != 0 {
        return ConfigError::OddSymbolLen;
    }
    ConfigError::TooManySymbols { cap: F::max_transform_size() }
}

/// The smallest power of two that is at least `n`, unless it is too large.
pub fn next_power_of_two(n: usize) -> (r: Option<usize>)
    ensures
        match r {
            Some(size) => size == padded(n as int),
            None => padded(n as int) > usize::MAX,
        },
{
    let mut size: usize = 1;
    let ghost mut dimension: nat = 0;
    while size < n
        invariant
            size == span_size(dimension),
            size >= 1,
            dimension > 0 ==> span_size((dimension - 1) as nat) < n,
        decreases usize::MAX - size,
    {
        if size > usize::MAX / 2 {
            proof {
                padded_facts(n as int);
                let d = padded_dimension(n as int);
                if d <= dimension {
                    span_size_grows(d, dimension);
                } else {
                    span_size_grows(dimension, d);
                }
            }
            return None;
        }
        proof {
            dimension = dimension + 1;
        }
        size = size * 2;
    }
    proof {
        padded_is(n as int, dimension);
    }
    Some(size)
}

/// `len` zero bytes in `bytes`, once the allocator has `granted` the space, and
/// nothing if it refused.
pub fn zeroed_once_granted(granted: bool, bytes: Vec<u8>, len: usize) -> (r: Option<Vec<u8>>)
    ensures
        r is Some <==> granted,
        r matches Some(zeroed) ==> zeroed@ == zero_block(len as int),
{
    if !granted {
        return None;
    }
    let mut zeroed: Vec<u8> = bytes;
    zeroed.clear();
    zeroed.resize(len, 0);
    proof {
        assert(zeroed@ =~= zero_block(len as int));
    }
    Some(zeroed)
}

/// `len` zero bytes, or nothing if the allocator refuses them.
///
/// No space is needed for no bytes, and no allocation exceeds `isize::MAX`
/// bytes; in between the allocator decides, and nothing else does.
pub fn zeroed_bytes(len: usize) -> (r: Option<Vec<u8>>)
    ensures
        r matches Some(bytes) ==> bytes@ == zero_block(len as int),
        len == 0 ==> r is Some,
        len > isize::MAX ==> r is None,
        0 < len <= isize::MAX ==> exists|
            bytes: &mut Vec<u8>,
            reserved: Result<(), TryReserveError>,
        |
            #[trigger] call_ensures(Vec::<u8>::try_reserve, (bytes, len), reserved) && (
            reserved is Ok <==> r is Some),
{
    let mut bytes: Vec<u8> = Vec::new();
    if len == 0 {
        return zeroed_once_granted(true, bytes, len);
    }
    if len > isize::MAX as usize {
        return None;
    }
    let reserved = bytes.try_reserve(len);
    let granted: bool = reserved.is_ok();
    zeroed_once_granted(granted, bytes, len)
}

} // verus!
