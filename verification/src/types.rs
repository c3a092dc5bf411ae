//! What the prover is made from.

use crate::{BN254Fr, BN254G1Affine};
use vstd::prelude::*;

verus! {

/// The commitments to the selectors and permutation polynomials that a verifying
/// key holds.
pub struct VkSelectorCommits {
    /// The commitments to S1, S2, S3.
    pub s_perm: [BN254G1Affine; 3],
    pub ql: BN254G1Affine,
    pub qr: BN254G1Affine,
    pub qm: BN254G1Affine,
    pub qo: BN254G1Affine,
    pub qk: BN254G1Affine,
    /// One commitment for each BSB22 commitment.
    pub qcp: Vec<BN254G1Affine>,
}

/// The proving data of a circuit: reference strings, selectors and permutation
/// polynomials. The polynomials are given by their values on the domain.
pub struct PlonkProvingData {
    /// The number of rows, a power of two.
    pub domain_size: usize,
    pub lg_domain_size: u32,
    /// A primitive root of unity of the order of the domain.
    pub omega: BN254Fr,
    pub nb_public_variables: usize,
    /// The shift of the coset on which the quotient is computed.
    pub coset_shift: BN254Fr,
    pub srs_lagrange: Vec<BN254G1Affine>,
    pub srs_canonical: Vec<BN254G1Affine>,
    pub ql: Vec<BN254Fr>,
    pub qr: Vec<BN254Fr>,
    pub qm: Vec<BN254Fr>,
    pub qo: Vec<BN254Fr>,
    pub qk: Vec<BN254Fr>,
    pub qcp: Vec<Vec<BN254Fr>>,
    /// For each BSB22 commitment, the row behind the public inputs that takes its
    /// hash.
    pub commitment_constraint_indexes: Vec<usize>,
    pub s1: Vec<BN254Fr>,
    pub s2: Vec<BN254Fr>,
    pub s3: Vec<BN254Fr>,
    pub vk_selector_commits: Option<VkSelectorCommits>,
}

/// The solved witness of a circuit: the rows of the wires, and the BSB22
/// polynomials with their commitments.
pub struct PlonkWitnessData {
    pub l: Vec<BN254Fr>,
    pub r: Vec<BN254Fr>,
    pub o: Vec<BN254Fr>,
    pub bsb22_polys: Vec<Vec<BN254Fr>>,
    pub bsb22_commitments: Vec<BN254G1Affine>,
}

} // verus!
