//! Succinct-argument primitives over a prime field: multilinear polynomials in
//! evaluation form, composed (product / sum) polynomials, a Fiat-Shamir
//! transcript over Keccak-256, a layered arithmetic circuit, and the sumcheck
//! protocol over a single multilinear polynomial and over a sum of products.

pub mod circuit;
pub mod composed_laws;
pub mod field;
pub mod gate;
pub mod gkr;
pub mod layer;
pub mod multilinear;
pub mod multilinear_laws;
pub mod product;
pub mod sum;
pub mod sumcheck_composed;
pub mod sumcheck_over_multilinear;
pub mod transcript;
pub mod univariate;
