//! Reduced Cauchy decoding.

pub mod cache;
pub mod cauchy_inverse;
pub mod pattern;
pub mod rebuild;
pub mod recency;
pub mod recipe;
pub mod reduced;
pub mod store;
pub mod streaming;

pub use cache::RecipeCache;
pub use streaming::LazyDecoderState;
