//! A Groth16 zero-knowledge proof system over the BN254 curve: polynomial
//! arithmetic over the scalar field, rank-1 constraint systems, their reduction
//! to a quadratic arithmetic program, and the setup, prover and verifier.

pub mod field;
pub mod poly;
pub mod field_lemmas;
pub mod poly_lemmas;
pub mod r1cs;
pub mod qap;
pub mod curve;
pub mod setup;
pub mod prover;
pub mod verify;
pub mod roots;
pub mod completeness;
