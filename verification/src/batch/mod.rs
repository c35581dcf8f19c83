//! Batch codec API.

pub mod codec;
pub mod plan;
pub mod receipt;

pub use crate::batch::codec::{BatchCodec, DecodeScratch};
pub use crate::batch::plan::DecodePlan;
pub use crate::error::{ConfigError, DecodeError};

use vstd::prelude::*;

use crate::matrices::cauchy::CauchyView;
use crate::matrices::good_cauchy::GoodCauchyView;

verus! {

/// Batch codec using the Good Cauchy matrix (`n = k + m <= 255`).
pub type GoodCauchyBatchCodec = BatchCodec<GoodCauchyView>;

/// Batch codec using the standard Cauchy matrix (`n = k + m <= 256`).
pub type StandardCauchyBatchCodec = BatchCodec<CauchyView>;

} // verus!
