//! Exact arbitrary-precision integers and Gaussian-integer style complex
//! numbers built on top of them.
pub mod big_complex;
pub mod big_int;
pub mod laws;
mod limbs;
pub mod theory;

pub use big_complex::{BigComplex, ComplexError};
pub use big_int::{BigInt, Sign};
