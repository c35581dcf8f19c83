//! Coding-matrix definitions and reference algorithms.

pub mod cauchy;
pub mod coding_matrix;
pub mod elimination;
pub mod good_cauchy;
pub mod view;

pub use crate::matrices::elimination::{axpy_row, det, rref};
pub use crate::matrices::view::{MatrixView, MatrixViewMut};
