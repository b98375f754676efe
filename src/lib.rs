//! FRI (Fast Reed-Solomon Interactive Oracle Proof of Proximity) over the
//! BabyBear prime field.
//!
//! - `field`: the field, its roots of unity and their facts.
//! - `fold`: one folding round; linearity of folding in the challenge.
//! - `codeword`: evaluation of a polynomial over a subgroup, interpolation.
//! - `hash`: BLAKE2s, byte encodings and the proof-of-work condition.
//! - `transcript`: the Fiat-Shamir transcript over merlin, modelled by its history.
//! - `sampling`: query indices drawn from a seed.
//! - `merkle`: Merkle commitments to codewords and their openings.
//! - `data_structures`: configuration, proof and errors.
//! - `prover`, `fri_verifier`: the protocol's two sides.
//! - `completeness`: honest proofs are accepted; tampering is detected.

pub mod codeword;
pub mod completeness;
pub mod data_structures;
pub mod field;
pub mod fold;
pub mod fri_verifier;
pub mod hash;
pub mod merkle;
pub mod prover;
pub mod sampling;
pub mod transcript;
