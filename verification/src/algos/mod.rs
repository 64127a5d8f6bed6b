//! Algorithms related to symbolic mathematics.

pub mod power_sums;
pub mod patterns;
pub mod elementary_symmetric_polynomials;
pub mod symmetric_sums;

pub use elementary_symmetric_polynomials::ElementarySymmetricPolynomials;
