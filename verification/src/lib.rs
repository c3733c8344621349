//! Legendre polynomials and associated Legendre polynomials with exact
//! rational coefficients.

pub mod integer;
pub mod rational;

pub use rational::Rational;

pub mod legendre;
pub mod poly_model;
pub mod polynomial;
pub mod batch;
pub mod laws;
pub mod at_one;
pub mod recurrence;
