//! Tower Cauchy coding over GF((2^8)^2).
//!
//! Systematic streaming encode and payload-lazy reduced decode for codewords of
//! up to 65535 symbols. Symbols use the interleaved `[a, b]` representation of
//! [`crate::algebra::gf65536`] and have even byte length.

pub mod butterfly;
pub mod cauchy;
pub mod decoder;
pub mod encoder;
pub mod payload;

pub use cauchy::{TowerCauchyView, MAX_SYMBOLS};
pub use decoder::{DecodeScratch, LazyDecoderState};
pub use encoder::StreamingEncoder;
