//! Encoders.

pub mod accumulator;
pub mod block;
pub mod feeding;
pub mod streaming;

pub use streaming::StreamingEncoder;
