//! Algebra of the sum-check protocol on one fixed three-variable polynomial,
//! over the scalar field of BLS12-381.

pub mod field;
pub mod univariate;
pub mod sumcheck;

pub use field::Scalar;
pub use univariate::UnivariatePolynomial;
pub use sumcheck::Polynomial;
