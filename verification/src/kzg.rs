//! Commitments and opening proofs.

use crate::fields;
use crate::fields::Fr;
use crate::g1;
use crate::g1::{G1Affine, Point};
use crate::{BN254Fr, BN254G1Affine};
use vstd::prelude::*;

verus! {

/// A commitment.
pub type Commitment = BN254G1Affine;

/// The opening of one polynomial at a point.
#[derive(Clone, Debug)]
pub struct OpeningProof {
    /// The commitment to `(p(X) - p(z)) / (X - z)`.
    pub h: BN254G1Affine,
    /// The value `p(z)`.
    pub claimed_value: BN254Fr,
}

/// The opening of several polynomials at one point.
#[derive(Clone, Debug)]
pub struct BatchOpeningProof {
    /// The commitment to the folded quotient.
    pub h: BN254G1Affine,
    /// The value of each polynomial.
    pub claimed_values: Vec<BN254Fr>,
}

/// The commitment to `bp(X) (X^n - 1)`: the coefficients of `bp` on the points
/// from `n` on, less the same on the first points.
pub open spec fn blinding_commitment(srs: Seq<Point>, bp: Seq<int>, n: int) -> Point {
    g1::as_affine(
        g1::point_add(
            g1::point_msm(srs.subrange(n, n + bp.len()), bp),
            g1::point_neg(g1::point_msm(srs.take(bp.len() as int), bp)),
        ),
    )
}

/// Commit to `bp(X) (X^n - 1)`.
pub fn commit_blinding_factor(srs_canonical: &[G1Affine], bp: &[Fr], n: usize) -> (r: G1Affine)
    requires
        n + bp@.len() <= srs_canonical@.len(),
        g1::all_points_wf(srs_canonical@),
    ensures
        r.wf(),
        r@ == blinding_commitment(
            g1::points_of(srs_canonical@),
            fields::vals(bp@),
            n as int,
        ),
{
    let np = bp.len();
    assert(n + np <= srs_canonical.len());
    let lo_pts = vstd::slice::slice_subrange(srs_canonical, 0, np);
    let hi_pts = vstd::slice::slice_subrange(srs_canonical, n, n + np);
    proof {
        let ps = g1::points_of(srs_canonical@);
        assert(g1::points_of(lo_pts@) =~= ps.take(np as int));
        assert(g1::points_of(hi_pts@) =~= ps.subrange(n as int, n + np));
    }
    let lo = g1::cpu_msm(lo_pts, bp);
    let hi = g1::cpu_msm(hi_pts, bp);
    let neg_lo = lo.neg();
    hi.add(&neg_lo).to_affine()
}

} // verus!
