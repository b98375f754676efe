//! The protocol's configuration, its proof artefact and the prover's layer history.

use crate::field::BabyBear;
use crate::merkle::{MerkleProof, MerkleTree};
use vstd::prelude::*;

verus! {

/// Parameters of one FRI instance.
#[derive(Clone, Copy, Debug)]
pub struct Friconfig {
    pub blow_up_factor: usize,
    pub folding_factor: usize,
    pub pow_bits: usize,
    pub num_queries: usize,
    /// Length of the final codeword, a power of two.
    pub stopping_size: usize,
}

/// What the prover hands to the verifier: for each query and each round the
/// openings at the index and at its symmetric index, the final codeword and
/// the proof-of-work nonce.
#[derive(Clone, Debug)]
pub struct Friproof {
    pub query_proofs: Vec<Vec<MerkleProof>>,
    pub final_poly: Vec<BabyBear>,
    pub pow_nonce: u64,
}

impl Friproof {
    pub fn new() -> (r: Self)
        ensures
            r.query_proofs@.len() == 0,
            r.final_poly@.len() == 0,
            r.pow_nonce == 0,
    {
        Friproof { query_proofs: Vec::new(), final_poly: Vec::new(), pow_nonce: 0 }
    }
}

impl Default for Friproof {
    fn default() -> (r: Self)
        ensures
            r.query_proofs@.len() == 0,
            r.final_poly@.len() == 0,
            r.pow_nonce == 0,
    {
        Self::new()
    }
}

/// The codewords and trees of every committed round.
pub struct Frilayerdata {
    pub layer_code_words: Vec<Vec<BabyBear>>,
    pub layer_trees: Vec<MerkleTree>,
}

impl Frilayerdata {
    pub fn new() -> (r: Self)
        ensures
            r.layer_code_words@.len() == 0,
            r.layer_trees@.len() == 0,
    {
        Frilayerdata { layer_code_words: Vec::new(), layer_trees: Vec::new() }
    }

    /// The number of committed rounds.
    pub fn total_layers(&self) -> (r: usize)
        ensures
            r == self.layer_code_words@.len(),
    {
        self.layer_code_words.len()
    }
}

impl Default for Frilayerdata {
    fn default() -> (r: Self)
        ensures
            r.layer_code_words@.len() == 0,
            r.layer_trees@.len() == 0,
    {
        Self::new()
    }
}

/// Why proving or verifying failed.
#[derive(Clone, Copy, Debug, PartialEq, Eq, Structural)]
pub enum FriError {
    /// The proof or the configuration has the wrong shape.
    Shape,
    /// No nonce below `u64::MAX` meets the proof-of-work condition.
    ProofOfWorkExhausted,
    /// An opening does not authenticate against its root.
    Authentication { query: usize, round: usize },
    /// An opened top-level index differs from the one the transcript samples.
    Binding { query: usize },
    /// The nonce does not meet the proof-of-work condition.
    ProofOfWork,
    /// A folded value disagrees with the next round or with the final codeword.
    Collinearity { query: usize, round: usize },
}

} // verus!
