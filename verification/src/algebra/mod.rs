//! Finite fields and the algebra of sums, products and interpolation over them.

pub mod cauchy;
pub mod determinants;
pub mod domains;
pub mod evaluation_code;
pub mod field;
pub mod generators;
pub mod gf256;
pub mod gf65536;
pub mod index_lists;
pub mod interpolation;
pub mod linear_code;
pub mod logarithms;
pub mod novel_basis;
pub mod powers;
pub mod sums;
pub mod walsh;
