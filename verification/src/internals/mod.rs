//! Implementation APIs for experimentation and downstream tuning.

pub mod afft;
pub mod codec;
pub mod decoder;
