//! Verified GKR and sumcheck protocols over the BN254 base field.
//!
//! - `field`: field elements as canonical limbs, with arithmetic by `ark_bn254`.
//! - `multilinear`: multilinear polynomials in evaluation form.
//! - `univariate`: dense univariate polynomials and Lagrange interpolation.
//! - `transcript`: the Keccak-256 Fiat-Shamir transcript.
//! - `composed`: sums of products of multilinear polynomials.
//! - `sumcheck`: the sumcheck protocol, over one multilinear polynomial and over a sum of
//!   degree-2 products, with its completeness.
//! - `circuit`: layered circuits in the pairwise form and their wiring predicates.
//! - `indexed`: layered circuits whose gates name their operands by index.
//! - `gkr`: the GKR prover and verifier.

pub mod field;
pub mod error;
pub mod multilinear;
pub mod univariate;
pub mod transcript;
pub mod composed;
pub mod sumcheck;
pub mod circuit;
pub mod indexed;
pub mod gkr;
