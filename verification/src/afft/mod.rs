//! Additive-transform Reed-Solomon coding, generic over the binary field.
//!
//! Data symbols are the values of a polynomial at the first `k` points of an
//! additive domain, repairs its values at the points that follow. Encoding is
//! one truncated interpolation and one restricted evaluation; it is block-final
//! rather than incremental. Decoding is payload-lazy: reconstruction starts
//! only after `k` distinct transmitted symbols arrive.
//!
//! Two fields are supported, and they differ only in their limits:
//!
//! | field | domain | `k + m` | `symbol_len` |
//! |---|--:|--:|---|
//! | GF(2^8) | 256 points | `<= 256` | any |
//! | GF(2^16) | 65536 points | `<= 65536` | even |

pub mod batch;
pub mod code;
pub mod crossover;
pub mod decoder;
pub mod domain;
pub mod encoder;
pub mod field;
pub mod generator;
pub mod gf16;
pub mod gf8;
pub mod locator;
pub mod profile;
pub mod reconstruct;
pub mod recovery;
pub mod strip;
pub mod systematic;
pub mod tables;
pub mod targeted;
pub mod transform;

pub use crate::afft::batch::{BatchDecodeScratch, BatchDecoder};
pub use crate::afft::crossover::RecoveryPath;
pub use crate::afft::decoder::{DecodeScratch, LazyDecoderState};
pub use crate::afft::encoder::{EncodeScratch, SystematicEncoder};
pub use crate::afft::field::Field;
pub use crate::afft::transform::{TransformLengthError, TransformPlan};

use vstd::prelude::*;

use crate::algebra::{gf256, gf65536};

verus! {

/// GF(2^8) block-final encoder. `k + m <= 256`, any `symbol_len`.
pub type Gf8Encoder = SystematicEncoder<gf256::GfElem>;

/// GF(2^8) payload-lazy decoder.
pub type Gf8Decoder = LazyDecoderState<gf256::GfElem>;

/// GF(2^8) block-final decoder.
pub type Gf8BatchDecoder = BatchDecoder<gf256::GfElem>;

/// GF(2^16) block-final encoder. `k + m <= 65536`, even `symbol_len`.
pub type Gf16Encoder = SystematicEncoder<gf65536::GfElem>;

/// GF(2^16) payload-lazy decoder.
pub type Gf16Decoder = LazyDecoderState<gf65536::GfElem>;

/// GF(2^16) block-final decoder.
pub type Gf16BatchDecoder = BatchDecoder<gf65536::GfElem>;

} // verus!
