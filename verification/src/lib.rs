//! Systematic Reed-Solomon erasure coding, verified.
//!
//! A codeword is `n = k + m` symbols: `k` data symbols at indices `0..k` and `m`
//! repair symbols at indices `k..n`, each of `symbol_len` bytes. The data is
//! recoverable from any `k` distinct symbols, as long as the sender and the
//! receiver use the same profile. Data symbols can be sent before any repair is
//! computed, received symbols are recorded cheaply as they arrive, and payload
//! reconstruction is deferred until `k` symbols are present.
//!
//! # The systematic guarantee
//!
//! For every engine and every geometry, transmitted symbols `0..k` are the input
//! data verbatim. A receiver that loses nothing does no arithmetic, and a
//! receiver that loses symbol `i` reconstructs only symbol `i`. The guarantee is
//! part of [`codec::Code::sound`], which every codec proves of its code; what
//! follows from it for several calls together is in [`laws`].
//!
//! # Coding profiles
//!
//! Engines are per-field, and the two peers must agree on one: their coding
//! matrices are unrelated, so a codeword is only meaningful to the engine that
//! produced it. [`Profile::recommended`] derives a default both peers reach
//! independently from `(field, k, m)`.
//!
//! | field | engine | capacity `k + m` | encode | `symbol_len` |
//! |---|---|--:|---|---|
//! | GF(256) | [`Engine::GoodCauchy`] | 255 | incremental or block-final | any |
//! | GF(256) | [`Engine::StandardCauchy`] | 256 | block-final | any |
//! | GF(256) | [`Engine::Gf8Afft`] | 256 | block-final | any |
//! | GF(65536) | [`Engine::Tower`] | 65535 | incremental | even |
//! | GF(65536) | [`Engine::Gf16Afft`] | 65536 | block-final | even |
//!
//! The even-length requirement belongs to the field, not to the transform:
//! GF(65536) wire elements are two interleaved bytes. The GF(256) additive FFT
//! accepts any symbol length.

pub mod afft;
pub mod algebra;
pub mod batch;
pub mod cauchy_inverse;
pub mod codec;
pub mod decoder;
pub mod encoder;
pub mod error;
pub mod internals;
pub mod laws;
pub mod matrices;
pub mod payload;
pub mod selector;
pub mod simd;
pub mod stream;
pub mod symbols;
pub mod tower;

pub use crate::algebra::{gf256, gf65536};
pub use crate::codec::{
    BatchDecoder, BatchEncoder, Coded, Decoder, Engine, Field, IncrementalEncoder, Profile,
};
pub use crate::decoder::pattern as pattern_key;
pub use crate::error::{ConfigError, DecodeError, EncodeError};
pub use crate::matrices::{cauchy, coding_matrix, good_cauchy};
pub use crate::selector::{
    batch_decoder, batch_encoder, decoder, incremental_encoder, AnyBatchDecodeScratch,
    AnyBatchDecoder, AnyBatchEncoder, AnyDecodeScratch, AnyDecoder, AnyEncodeScratch,
    AnyIncrementalEncoder,
};

use vstd::prelude::*;

verus! {

/// GF(65536) coding engine selector.
///
/// The two GF(65536) profiles have incompatible parity: the incremental
/// [`tower`] profile and the block-final [`afft`] profile. A codec fixes the
/// engine at construction, and a sender and receiver must use the same one.
/// [`recommended_gf16_engine`] gives a geometry-based default both peers can
/// compute independently from `(k, m)`.
#[derive(Clone, Copy, Debug, PartialEq, Eq, Structural)]
pub enum Gf16Engine {
    /// Incremental Tower Cauchy ([`tower`]): cheap per-source repair updates and
    /// reduced `r` by `r` reconstruction. Best for small blocks and low erasure
    /// counts.
    Tower,
    /// Block-final additive FFT ([`afft`]): transform cost that scales to large
    /// blocks and high erasure counts.
    Afft,
}

/// Recommends a GF(65536) engine for a `(k, m)` block geometry.
///
/// Returns [`Gf16Engine::Afft`] for large blocks (`k + m > 256`) or
/// high-redundancy codes (`m >= k / 3`), where the decode-time erasure count can
/// be high enough that reduced Tower Cauchy reconstruction becomes expensive;
/// otherwise [`Gf16Engine::Tower`].
///
/// The recommendation depends only on block geometry, so both peers derive the
/// same engine from `(k, m)`.
#[must_use]
pub fn recommended_gf16_engine(k: usize, m: usize) -> (r: Gf16Engine)
    ensures
        r == if k + m > 256 || 3 * m >= k {
            Gf16Engine::Afft
        } else {
            Gf16Engine::Tower
        },
{
    let large_block: bool = k.saturating_add(m) > 256;
    let high_redundancy: bool = m > usize::MAX / 3 || m * 3 >= k;
    if large_block || high_redundancy {
        Gf16Engine::Afft
    } else {
        Gf16Engine::Tower
    }
}

/// GF(256) coding engine selector.
///
/// The three GF(256) profiles have incompatible parity:
/// [`Gf8Engine::GoodCauchy`], [`Gf8Engine::StandardCauchy`], and the block-final
/// [`Gf8Engine::Afft`]. A codec fixes the engine at construction, and a sender
/// and receiver must use the same one. [`recommended_gf8_engine`] gives a
/// geometry-based default both peers can compute independently from `(k, m)`.
#[derive(Clone, Copy, Debug, PartialEq, Eq, Structural)]
pub enum Gf8Engine {
    /// Good Cauchy: `k + m <= 255`, and the only GF(256) engine with an
    /// incremental encoder.
    GoodCauchy,
    /// Standard Cauchy: the full `k + m <= 256`, block-final.
    StandardCauchy,
    /// Block-final additive FFT ([`afft`]).
    Afft,
}

/// Recommends a GF(256) engine for a `(k, m)` block geometry.
///
/// Returns [`Gf8Engine::StandardCauchy`] when the geometry needs the 256th
/// codeword position that Good Cauchy cannot address, and
/// [`Gf8Engine::GoodCauchy`] otherwise, which also keeps incremental encoding
/// available.
///
/// [`Gf8Engine::Afft`] is never recommended: it is the better encoder for larger
/// `k`, but a worse decoder at every erasure count except near-total redundancy
/// consumption, and the erasure count is unknown when the engine is chosen.
/// Select it explicitly when the workload is encode-bound, or when losses
/// consume most of the redundancy.
#[must_use]
pub fn recommended_gf8_engine(k: usize, m: usize) -> (r: Gf8Engine)
    ensures
        r == if k + m > 255 {
            Gf8Engine::StandardCauchy
        } else {
            Gf8Engine::GoodCauchy
        },
{
    if k.saturating_add(m) > 255 {
        Gf8Engine::StandardCauchy
    } else {
        Gf8Engine::GoodCauchy
    }
}

} // verus!
