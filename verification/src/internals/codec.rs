//! Construction helpers kept out of the codec API.

use vstd::prelude::*;

use crate::codec::{Engine, Geometry, Profile};

verus! {

/// Assembles a profile from parts already validated by the caller.
#[must_use]
pub fn profile_from_parts(engine: Engine, k: usize, m: usize, symbol_len: usize) -> (r: Profile)
    ensures
        r@ == (Geometry { engine, k: k as int, m: m as int, symbol_len: symbol_len as int }),
{
    Profile::from_parts(engine, k, m, symbol_len)
}

} // verus!
