//! The prover.

use crate::blinding;
use crate::blinding::BlindingScalars;
use crate::bytes;
use crate::circuit;
use crate::circuit::CachedFrData;
use crate::commit;
use crate::domain;
use crate::fields;
use crate::fields::Fr;
use crate::g1;
use crate::g1::{G1Affine, Point};
use crate::grand_product;
use crate::grand_product::ProveError;
use crate::linearization::OpeningValues;
use crate::quotient;
use crate::quotient::Witness;
use crate::rounds;
use crate::rounds::{DeviceValues, Inputs, Key, VkPoints};
use crate::transcript::{Transcript, TranscriptState};
use crate::types::PlonkProvingData;
use crate::{BN254Fr, BN254G1Affine};
use vstd::prelude::*;

verus! {

/// The commitments of a verifying key.
pub struct VkCommitments {
    pub s1: BN254G1Affine,
    pub s2: BN254G1Affine,
    pub s3: BN254G1Affine,
    pub ql: BN254G1Affine,
    pub qr: BN254G1Affine,
    pub qm: BN254G1Affine,
    pub qo: BN254G1Affine,
    pub qk: BN254G1Affine,
    pub qcp: Vec<BN254G1Affine>,
}

impl View for VkCommitments {
    type V = VkPoints;

    open spec fn view(&self) -> VkPoints {
        VkPoints {
            s1: self.s1@,
            s2: self.s2@,
            s3: self.s3@,
            ql: self.ql@,
            qr: self.qr@,
            qm: self.qm@,
            qo: self.qo@,
            qk: self.qk@,
            qcp: circuit::bn_points(self.qcp@),
        }
    }
}

impl VkCommitments {
    /// All coordinates are reduced.
    pub open spec fn wf(self) -> bool {
        &&& self.s1.wf()
        &&& self.s2.wf()
        &&& self.s3.wf()
        &&& self.ql.wf()
        &&& self.qr.wf()
        &&& self.qm.wf()
        &&& self.qo.wf()
        &&& self.qk.wf()
        &&& circuit::bn_points_wf(self.qcp@)
    }
}

impl PlonkProvingData {
    /// The commitments of the verifying key: those that came with the data, or else
    /// the commitments to the polynomials.
    pub open spec fn vk_points(self) -> VkPoints {
        let srs = circuit::bn_points(self.srs_lagrange@);
        match self.vk_selector_commits {
            Some(vk) => VkPoints {
                s1: vk.s_perm[0]@,
                s2: vk.s_perm[1]@,
                s3: vk.s_perm[2]@,
                ql: vk.ql@,
                qr: vk.qr@,
                qm: vk.qm@,
                qo: vk.qo@,
                qk: vk.qk@,
                qcp: circuit::bn_points(vk.qcp@),
            },
            None => VkPoints {
                s1: commit::commitment(srs, fields::residues(self.s1@)),
                s2: commit::commitment(srs, fields::residues(self.s2@)),
                s3: commit::commitment(srs, fields::residues(self.s3@)),
                ql: commit::commitment(srs, fields::residues(self.ql@)),
                qr: commit::commitment(srs, fields::residues(self.qr@)),
                qm: commit::commitment(srs, fields::residues(self.qm@)),
                qo: commit::commitment(srs, fields::residues(self.qo@)),
                qk: commit::commitment(srs, fields::residues(self.qk@)),
                qcp: Seq::new(
                    self.qcp@.len(),
                    |j: int| commit::commitment(srs, fields::residues(self.qcp@[j]@)),
                ),
            },
        }
    }

    /// The commitments that came with the data are reduced, or else the reference
    /// string is long enough to compute them.
    pub open spec fn vk_available(self) -> bool {
        match self.vk_selector_commits {
            Some(vk) => {
                &&& vk.s_perm[0].wf()
                &&& vk.s_perm[1].wf()
                &&& vk.s_perm[2].wf()
                &&& vk.ql.wf()
                &&& vk.qr.wf()
                &&& vk.qm.wf()
                &&& vk.qo.wf()
                &&& vk.qk.wf()
                &&& circuit::bn_points_wf(vk.qcp@)
            },
            None => self.domain_size <= self.srs_lagrange@.len(),
        }
    }
}

/// The commitment to a column.
fn commit_column(srs: &[G1Affine], poly: &[BN254Fr]) -> (r: BN254G1Affine)
    requires
        poly@.len() <= srs@.len(),
        g1::all_points_wf(srs@),
    ensures
        r.wf(),
        r@ == commit::commitment(g1::points_of(srs@), fields::residues(poly@)),
{
    let fr = fields::par_from_bn254fr(poly);
    assert(fields::vals(fr@).len() == poly@.len());
    commit::commit_lagrange(srs, fr.as_slice()).to_bn254()
}

/// A copy of some points.
pub(crate) fn copy_points(points: &[BN254G1Affine]) -> (r: Vec<BN254G1Affine>)
    ensures
        r@ == points@,
{
    let mut r: Vec<BN254G1Affine> = Vec::with_capacity(points.len());
    for i in 0..points.len()
        invariant
            r@ == points@.take(i as int),
    {
        r.push(points[i]);
        assert(r@ =~= points@.take(i + 1));
    }
    assert(points@.take(points@.len() as int) =~= points@);
    r
}

/// The commitments of the verifying key.
fn vk_commitments(data: &PlonkProvingData, srs: &[G1Affine]) -> (r: VkCommitments)
    requires
        data.valid(),
        data.vk_available(),
        g1::all_points_wf(srs@),
        g1::points_of(srs@) == circuit::bn_points(data.srs_lagrange@),
        srs@.len() == data.srs_lagrange@.len(),
    ensures
        r.wf(),
        r@ == data.vk_points(),
        data.vk_selector_commits matches Some(vk) ==> {
            &&& r.s1 == vk.s_perm[0]
            &&& r.s2 == vk.s_perm[1]
            &&& r.s3 == vk.s_perm[2]
            &&& r.ql == vk.ql
            &&& r.qr == vk.qr
            &&& r.qm == vk.qm
            &&& r.qo == vk.qo
            &&& r.qk == vk.qk
            &&& r.qcp@ == vk.qcp@
        },
        data.vk_selector_commits is None ==> {
            let srs = circuit::bn_points(data.srs_lagrange@);
            &&& r.s1@ == commit::commitment(srs, fields::residues(data.s1@))
            &&& r.s2@ == commit::commitment(srs, fields::residues(data.s2@))
            &&& r.s3@ == commit::commitment(srs, fields::residues(data.s3@))
            &&& r.ql@ == commit::commitment(srs, fields::residues(data.ql@))
            &&& r.qr@ == commit::commitment(srs, fields::residues(data.qr@))
            &&& r.qm@ == commit::commitment(srs, fields::residues(data.qm@))
            &&& r.qo@ == commit::commitment(srs, fields::residues(data.qo@))
            &&& r.qk@ == commit::commitment(srs, fields::residues(data.qk@))
            &&& r.qcp@.len() == data.qcp@.len()
            &&& forall|j: int|
                0 <= j < data.qcp@.len() ==> (#[trigger] r.qcp@[j])@
                    == commit::commitment(srs, fields::residues(data.qcp@[j]@))
        },
{
    match &data.vk_selector_commits {
        Some(vk) => {
            let r = VkCommitments {
                s1: vk.s_perm[0],
                s2: vk.s_perm[1],
                s3: vk.s_perm[2],
                ql: vk.ql,
                qr: vk.qr,
                qm: vk.qm,
                qo: vk.qo,
                qk: vk.qk,
                qcp: copy_points(vk.qcp.as_slice()),
            };
            r
        },
        None => {
            let mut qcp: Vec<BN254G1Affine> = Vec::new();
            for i in 0..data.qcp.len()
                invariant
                    data.valid(),
                    data.domain_size <= srs@.len(),
                    g1::all_points_wf(srs@),
                    qcp@.len() == i,
                    circuit::bn_points_wf(qcp@),
                    forall|j: int|
                        0 <= j < i ==> (#[trigger] qcp@[j])@ == commit::commitment(
                            g1::points_of(srs@),
                            fields::residues(data.qcp@[j]@),
                        ),
            {
                assert(data.qcp@[i as int]@.len() == data.domain_size);
                qcp.push(commit_column(srs, data.qcp[i].as_slice()));
            }
            let r = VkCommitments {
                s1: commit_column(srs, data.s1.as_slice()),
                s2: commit_column(srs, data.s2.as_slice()),
                s3: commit_column(srs, data.s3.as_slice()),
                ql: commit_column(srs, data.ql.as_slice()),
                qr: commit_column(srs, data.qr.as_slice()),
                qm: commit_column(srs, data.qm.as_slice()),
                qo: commit_column(srs, data.qo.as_slice()),
                qk: commit_column(srs, data.qk.as_slice()),
                qcp,
            };
            assert(r@.qcp =~= data.vk_points().qcp);
            r
        },
    }
}

/// A prover for one circuit.
pub struct PlonkProver {
    /// The proving data, without what is cached in another form.
    pub data: PlonkProvingData,
    /// The commitments of the verifying key.
    pub vk_commits: VkCommitments,
    /// What proofs of the circuit share.
    pub cached: CachedFrData,
}

impl PlonkProver {
    /// What the prover knows of the circuit.
    pub open spec fn key(self) -> Key {
        Key {
            circuit: self.cached.circuit(),
            vk: self.vk_commits@,
            srs_lagrange: self.cached.lagrange_points(),
            srs_canonical: self.cached.canonical_points(),
            nb_pub: self.data.nb_public_variables as nat,
            indexes: self.data.commitment_constraint_indexes@,
        }
    }

    /// The parts belong to one circuit.
    pub open spec fn wf(self) -> bool {
        &&& self.cached.wf()
        &&& self.vk_commits.wf()
        &&& self.data.domain_size == self.cached.circuit().n()
    }

    /// A prover for the circuit that the data describes.
    pub fn new(data: PlonkProvingData) -> (r: Self)
        requires
            data.valid(),
            data.vk_available(),
        ensures
            r.wf(),
            r.key() == (Key {
                circuit: data.circuit(),
                vk: data.vk_points(),
                srs_lagrange: circuit::bn_points(data.srs_lagrange@),
                srs_canonical: circuit::bn_points(data.srs_canonical@),
                nb_pub: data.nb_public_variables as nat,
                indexes: data.commitment_constraint_indexes@,
            }),
            data.vk_selector_commits matches Some(vk) ==> {
                &&& r.vk_commits.s1 == vk.s_perm[0]
                &&& r.vk_commits.s2 == vk.s_perm[1]
                &&& r.vk_commits.s3 == vk.s_perm[2]
                &&& r.vk_commits.ql == vk.ql
                &&& r.vk_commits.qr == vk.qr
                &&& r.vk_commits.qm == vk.qm
                &&& r.vk_commits.qo == vk.qo
                &&& r.vk_commits.qk == vk.qk
                &&& r.vk_commits.qcp@ == vk.qcp@
            },
            data.vk_selector_commits is None ==> {
                let srs = circuit::bn_points(data.srs_lagrange@);
                &&& r.vk_commits.s1@ == commit::commitment(srs, fields::residues(data.s1@))
                &&& r.vk_commits.s2@ == commit::commitment(srs, fields::residues(data.s2@))
                &&& r.vk_commits.s3@ == commit::commitment(srs, fields::residues(data.s3@))
                &&& r.vk_commits.ql@ == commit::commitment(srs, fields::residues(data.ql@))
                &&& r.vk_commits.qr@ == commit::commitment(srs, fields::residues(data.qr@))
                &&& r.vk_commits.qm@ == commit::commitment(srs, fields::residues(data.qm@))
                &&& r.vk_commits.qo@ == commit::commitment(srs, fields::residues(data.qo@))
                &&& r.vk_commits.qk@ == commit::commitment(srs, fields::residues(data.qk@))
                &&& r.vk_commits.qcp@.len() == data.qcp@.len()
                &&& forall|j: int|
                    0 <= j < data.qcp@.len() ==> (#[trigger] r.vk_commits.qcp@[j])@
                        == commit::commitment(srs, fields::residues(data.qcp@[j]@))
            },
            r.data.domain_size == data.domain_size,
            r.data.lg_domain_size == data.lg_domain_size,
            r.data.omega == data.omega,
            r.data.nb_public_variables == data.nb_public_variables,
            r.data.coset_shift == data.coset_shift,
            r.data.commitment_constraint_indexes == data.commitment_constraint_indexes,
            r.data.vk_selector_commits == data.vk_selector_commits,
            r.data.ql@ == Seq::<BN254Fr>::empty(),
            r.data.qr@ == Seq::<BN254Fr>::empty(),
            r.data.qm@ == Seq::<BN254Fr>::empty(),
            r.data.qo@ == Seq::<BN254Fr>::empty(),
            r.data.qk@ == Seq::<BN254Fr>::empty(),
            r.data.s1@ == Seq::<BN254Fr>::empty(),
            r.data.s2@ == Seq::<BN254Fr>::empty(),
            r.data.s3@ == Seq::<BN254Fr>::empty(),
            r.data.qcp@ == Seq::<Vec<BN254Fr>>::empty(),
            r.data.srs_lagrange@ == Seq::<BN254G1Affine>::empty(),
            r.data.srs_canonical@ == Seq::<BN254G1Affine>::empty(),
    {
        let cached = CachedFrData::build(&data);
        let vk_commits = vk_commitments(&data, cached.srs_lagrange.as_slice());
        let mut data = data;
        data.ql = Vec::new();
        data.qr = Vec::new();
        data.qm = Vec::new();
        data.qo = Vec::new();
        data.qk = Vec::new();
        data.s1 = Vec::new();
        data.s2 = Vec::new();
        data.s3 = Vec::new();
        data.qcp = Vec::new();
        data.srs_lagrange = Vec::new();
        data.srs_canonical = Vec::new();
        PlonkProver { data, vk_commits, cached }
    }
}

// ---------------------------------------------------------------------------
// Inputs
// ---------------------------------------------------------------------------

/// What a proof is made from, in the form in which the rounds use it.
pub struct ProofInputs {
    pub l: Vec<Fr>,
    pub r: Vec<Fr>,
    pub o: Vec<Fr>,
    pub pi: Vec<Fr>,
    pub commitments: Vec<BN254G1Affine>,
    pub bsb22: Vec<Vec<Fr>>,
    pub blinding: Option<BlindingScalars>,
    pub device: DeviceResults,
}

/// What a device has computed in place of the prover.
pub struct DeviceResults {
    /// The commitments to the wires.
    pub wires: Option<[BN254G1Affine; 3]>,
    /// The rows of the grand product.
    pub product: Option<Vec<Fr>>,
    /// The commitment to the grand product.
    pub z: Option<BN254G1Affine>,
    /// The quotient.
    pub quotient: Option<Vec<Fr>>,
    /// The commitments to the parts of the quotient.
    pub parts: Option<[BN254G1Affine; 3]>,
    /// The combination of the polynomials that are opened together.
    pub combination: Option<Vec<Fr>>,
    /// The commitments to the quotients of both openings.
    pub openings: Option<[BN254G1Affine; 2]>,
}

/// The points behind three commitments.
pub open spec fn three_points(p: [BN254G1Affine; 3]) -> (Point, Point, Point) {
    (p[0]@, p[1]@, p[2]@)
}

impl View for DeviceResults {
    type V = DeviceValues;

    open spec fn view(&self) -> DeviceValues {
        DeviceValues {
            wires: match self.wires {
                Some(p) => Some(three_points(p)),
                None => None,
            },
            product: match self.product {
                Some(z) => Some(fields::vals(z@)),
                None => None,
            },
            z: match self.z {
                Some(p) => Some(p@),
                None => None,
            },
            quotient: match self.quotient {
                Some(h) => Some(fields::vals(h@)),
                None => None,
            },
            parts: match self.parts {
                Some(p) => Some(three_points(p)),
                None => None,
            },
            combination: match self.combination {
                Some(p) => Some(fields::vals(p@)),
                None => None,
            },
            openings: match self.openings {
                Some(p) => Some((p[0]@, p[1]@)),
                None => None,
            },
        }
    }
}

/// Nothing from a device.
pub open spec fn no_results() -> DeviceResults {
    DeviceResults {
        wires: None,
        product: None,
        z: None,
        quotient: None,
        parts: None,
        combination: None,
        openings: None,
    }
}

impl DeviceResults {
    /// Nothing.
    pub fn none() -> (r: Self)
        ensures
            r == no_results(),
            r@ == DeviceValues::none(),
    {
        DeviceResults {
            wires: None,
            product: None,
            z: None,
            quotient: None,
            parts: None,
            combination: None,
            openings: None,
        }
    }

    /// Scalars and coordinates are reduced, and there are as many scalars as a proof needs.
    pub open spec fn fits(self, n: nat, blinded: bool) -> bool {
        &&& self.wires matches Some(p) ==> circuit::bn_points_wf(p@)
        &&& self.product matches Some(z) ==> fields::all_wf(z@) && z@.len() == n
        &&& self.z matches Some(p) ==> p.wf()
        &&& self.quotient matches Some(h) ==> fields::all_wf(h@) && h@.len() >= 3 * (n + 2)
        &&& self.parts matches Some(p) ==> circuit::bn_points_wf(p@)
        &&& self.combination matches Some(p) ==> fields::all_wf(p@) && 1 <= p@.len() <= n
            + srs_excess(blinded)
        &&& self.openings matches Some(p) ==> circuit::bn_points_wf(p@)
    }
}

impl View for ProofInputs {
    type V = Inputs;

    open spec fn view(&self) -> Inputs {
        Inputs {
            l: fields::vals(self.l@),
            r: fields::vals(self.r@),
            o: fields::vals(self.o@),
            pi: fields::vals(self.pi@),
            commitments: circuit::bn_points(self.commitments@),
            bsb22: circuit::vec_vals(self.bsb22@),
            blinding: match self.blinding {
                Some(b) => Some(b@),
                None => None,
            },
            device: self.device@,
        }
    }
}

/// How many points beyond the size of the domain the canonical reference string has
/// to have.
pub open spec fn srs_excess(blinded: bool) -> nat {
    if blinded {
        3
    } else {
        2
    }
}

impl ProofInputs {
    /// The inputs are reduced and of the sizes of the circuit.
    pub open spec fn fits(self, key: Key) -> bool {
        let n = key.circuit.n();
        &&& self.l@.len() == n
        &&& self.r@.len() == n
        &&& self.o@.len() == n
        &&& quotient::shorter(self.pi@.len(), key.nb_pub) <= n
        &&& forall|j: int| 0 <= j < self.bsb22@.len() ==> (#[trigger] self.bsb22@[j])@.len() == n
        &&& fields::all_wf(self.l@)
        &&& fields::all_wf(self.r@)
        &&& fields::all_wf(self.o@)
        &&& fields::all_wf(self.pi@)
        &&& circuit::vecs_wf(self.bsb22@)
        &&& circuit::bn_points_wf(self.commitments@)
        &&& self.blinding matches Some(b) ==> b.wf()
        &&& self.device.fits(n, self.blinding is Some)
    }
}

/// The reference strings are long enough, the quotient has room for its three parts,
/// and the coset has a shift.
pub open spec fn can_prove(key: Key, blinded: bool) -> bool {
    &&& key.circuit.n() >= 6
    &&& key.circuit.shift != 0
    &&& key.srs_lagrange.len() >= key.circuit.n()
    &&& key.srs_canonical.len() >= key.circuit.n() + srs_excess(blinded)
}

/// The inputs of a proof as they are given. Without BSB22 commitments each one is
/// the point at infinity, and without their rows the rows are zero.
pub open spec fn given_inputs(
    key: Key,
    l: Seq<BN254Fr>,
    r: Seq<BN254Fr>,
    o: Seq<BN254Fr>,
    public_inputs: Seq<BN254Fr>,
    commitments: Seq<BN254G1Affine>,
    polys: Seq<Vec<BN254Fr>>,
    seed: Option<[u8; 32]>,
) -> Inputs {
    let k = key.circuit.qcp.len();
    Inputs {
        l: fields::residues(l),
        r: fields::residues(r),
        o: fields::residues(o),
        pi: fields::residues(public_inputs),
        commitments: if commitments.len() == 0 {
            Seq::new(k, |j: int| Point::Infinity)
        } else {
            circuit::bn_points(commitments)
        },
        bsb22: if polys.len() == 0 {
            Seq::new(k, |j: int| Seq::new(key.circuit.n(), |i: int| 0int))
        } else {
            Seq::new(polys.len(), |j: int| fields::residues(polys[j]@))
        },
        blinding: match seed {
            Some(s) => Some(blinding::derived_polys(s@)),
            None => None,
        },
        device: DeviceValues::none(),
    }
}

/// The inputs of a proof are of the sizes of the circuit.
pub open spec fn inputs_fit(
    key: Key,
    l: Seq<BN254Fr>,
    r: Seq<BN254Fr>,
    o: Seq<BN254Fr>,
    public_inputs: Seq<BN254Fr>,
    commitments: Seq<BN254G1Affine>,
    polys: Seq<Vec<BN254Fr>>,
) -> bool {
    let n = key.circuit.n();
    &&& l.len() == n
    &&& r.len() == n
    &&& o.len() == n
    &&& quotient::shorter(public_inputs.len(), key.nb_pub) <= n
    &&& circuit::bn_points_wf(commitments)
    &&& forall|j: int| 0 <= j < polys.len() ==> (#[trigger] polys[j])@.len() == n
}

impl PlonkProver {
    /// Read the inputs of a proof.
    pub fn read_inputs(
        &self,
        l: &[BN254Fr],
        r: &[BN254Fr],
        o: &[BN254Fr],
        public_inputs: &[BN254Fr],
        bsb22_commitments: &[BN254G1Affine],
        bsb22_polys: &[Vec<BN254Fr>],
        seed: Option<[u8; 32]>,
    ) -> (res: ProofInputs)
        requires
            self.wf(),
            inputs_fit(
                self.key(),
                l@,
                r@,
                o@,
                public_inputs@,
                bsb22_commitments@,
                bsb22_polys@,
            ),
        ensures
            res.fits(self.key()),
            res.device == no_results(),
            res@.l.len() == l@.len(),
            res@.r.len() == r@.len(),
            res@.o.len() == o@.len(),
            res@.pi.len() == public_inputs@.len(),
            forall|i: int|
                0 <= i < l@.len() ==> #[trigger] res@.l[i] == l@[i]@ % fields::fr_modulus(),
            forall|i: int|
                0 <= i < r@.len() ==> #[trigger] res@.r[i] == r@[i]@ % fields::fr_modulus(),
            forall|i: int|
                0 <= i < o@.len() ==> #[trigger] res@.o[i] == o@[i]@ % fields::fr_modulus(),
            forall|i: int|
                0 <= i < public_inputs@.len() ==> #[trigger] res@.pi[i] == public_inputs@[i]@
                    % fields::fr_modulus(),
            bsb22_commitments@.len() > 0 ==> res.commitments@ == bsb22_commitments@,
            bsb22_commitments@.len() == 0 ==> res.commitments@.len()
                == self.key().circuit.qcp.len() && forall|j: int|
                0 <= j < res.commitments@.len() ==> (#[trigger] res.commitments@[j])@
                    == Point::Infinity,
            bsb22_polys@.len() > 0 ==> res@.bsb22.len() == bsb22_polys@.len() && forall|
                j: int,
                i: int,
            |
                0 <= j < bsb22_polys@.len() && 0 <= i < bsb22_polys@[j]@.len()
                    ==> #[trigger] res@.bsb22[j][i] == bsb22_polys@[j]@[i]@
                    % fields::fr_modulus(),
            bsb22_polys@.len() == 0 ==> res@.bsb22.len() == self.key().circuit.qcp.len()
                && forall|j: int, i: int|
                0 <= j < res@.bsb22.len() && 0 <= i < self.key().circuit.n()
                    ==> #[trigger] res@.bsb22[j][i] == 0,
            res.blinding is Some <==> seed is Some,
            seed matches Some(s) ==> {
                let b = res.blinding->0;
                &&& forall|i: int|
                    0 <= i < 2 ==> (#[trigger] b.bp_l[i])@ == blinding::blinding_scalar(s@, i)
                &&& forall|i: int|
                    0 <= i < 2 ==> (#[trigger] b.bp_r[i])@ == blinding::blinding_scalar(s@, 2 + i)
                &&& forall|i: int|
                    0 <= i < 2 ==> (#[trigger] b.bp_o[i])@ == blinding::blinding_scalar(s@, 4 + i)
                &&& forall|i: int|
                    0 <= i < 3 ==> (#[trigger] b.bp_z[i])@ == blinding::blinding_scalar(s@, 6 + i)
            },
            seed matches Some(s) ==> {
                let b = res@.blinding->0;
                &&& res@.blinding is Some
                &&& b.l.len() == 2 && b.r.len() == 2 && b.o.len() == 2 && b.z.len() == 3
                &&& forall|i: int|
                    0 <= i < 2 ==> #[trigger] b.l[i] == blinding::blinding_scalar(s@, i)
                &&& forall|i: int|
                    0 <= i < 2 ==> #[trigger] b.r[i] == blinding::blinding_scalar(s@, 2 + i)
                &&& forall|i: int|
                    0 <= i < 2 ==> #[trigger] b.o[i] == blinding::blinding_scalar(s@, 4 + i)
                &&& forall|i: int|
                    0 <= i < 3 ==> #[trigger] b.z[i] == blinding::blinding_scalar(s@, 6 + i)
            },
            res@ == given_inputs(
                self.key(),
                l@,
                r@,
                o@,
                public_inputs@,
                bsb22_commitments@,
                bsb22_polys@,
                seed,
            ),
    {
        let n = self.data.domain_size;
        let k = self.cached.num_qcp;
        let ghost want = given_inputs(
            self.key(),
            l@,
            r@,
            o@,
            public_inputs@,
            bsb22_commitments@,
            bsb22_polys@,
            seed,
        );
        let commitments = if bsb22_commitments.len() == 0 {
            let mut v: Vec<BN254G1Affine> = Vec::new();
            for i in 0..k
                invariant
                    v@.len() == i,
                    circuit::bn_points_wf(v@),
                    forall|j: int| 0 <= j < i ==> (#[trigger] v@[j])@ == Point::Infinity,
            {
                v.push(BN254G1Affine::zero());
            }
            v
        } else {
            copy_points(bsb22_commitments)
        };
        let bsb22 = if bsb22_polys.len() == 0 {
            let mut v: Vec<Vec<Fr>> = Vec::new();
            for i in 0..k
                invariant
                    v@.len() == i,
                    circuit::vecs_wf(v@),
                    forall|j: int|
                        0 <= j < i ==> (#[trigger] v@[j])@.len() == n && fields::vals(v@[j]@)
                            == Seq::new(n as nat, |i: int| 0int),
            {
                let row: Vec<Fr> = vec![Fr::zero(); n];
                assert(fields::vals(row@) =~= Seq::new(n as nat, |i: int| 0int));
                v.push(row);
            }
            v
        } else {
            let mut v: Vec<Vec<Fr>> = Vec::new();
            for i in 0..bsb22_polys.len()
                invariant
                    forall|j: int|
                        0 <= j < bsb22_polys@.len() ==> (#[trigger] bsb22_polys@[j])@.len() == n,
                    v@.len() == i,
                    circuit::vecs_wf(v@),
                    forall|j: int|
                        0 <= j < i ==> (#[trigger] v@[j])@.len() == n && fields::vals(v@[j]@)
                            == fields::residues(bsb22_polys@[j]@),
            {
                let row = fields::par_from_bn254fr(bsb22_polys[i].as_slice());
                proof {
                    assert(bsb22_polys@[i as int]@.len() == n);
                    assert(fields::vals(row@).len() == n);
                }
                v.push(row);
            }
            v
        };
        let blinding = match seed {
            Some(s) => Some(blinding::derive_blindings(&s)),
            None => None,
        };
        let res = ProofInputs {
            l: fields::par_from_bn254fr(l),
            r: fields::par_from_bn254fr(r),
            o: fields::par_from_bn254fr(o),
            pi: fields::par_from_bn254fr(public_inputs),
            commitments,
            bsb22,
            blinding,
            device: DeviceResults::none(),
        };
        proof {
            assert(fields::vals(res.l@).len() == n);
            assert(fields::vals(res.r@).len() == n);
            assert(fields::vals(res.o@).len() == n);
            assert(fields::vals(res.pi@).len() == public_inputs@.len());
            assert(res@.commitments =~= want.commitments);
            assert(res@.bsb22 =~= want.bsb22);
            assert(res@ == want);
        }
        res
    }
}

// ---------------------------------------------------------------------------
// Transcript
// ---------------------------------------------------------------------------

/// Binding leaves the challenges to come as they are.
pub(crate) proof fn lemma_bind_pending(t: TranscriptState, points: Seq<Point>, scalars: Seq<int>)
    ensures
        rounds::bind_points(t, points).pending == t.pending,
        rounds::bind_scalars(t, scalars).pending == t.pending,
    decreases points.len() + scalars.len(),
{
    if points.len() > 0 {
        lemma_bind_pending(t, points.drop_last(), seq![]);
    }
    if scalars.len() > 0 {
        lemma_bind_pending(t, seq![], scalars.drop_last());
    }
}

/// Bind points to the next challenge.
pub(crate) fn bind_points(transcript: &mut Transcript, id: &str, points: &[BN254G1Affine])
    requires
        old(transcript).wf(),
        old(transcript)@.pending.len() > 0,
        id@ == old(transcript)@.pending[0],
    ensures
        final(transcript).wf(),
        final(transcript)@ == rounds::bind_points(
            old(transcript)@,
            circuit::bn_points(points@),
        ),
        final(transcript)@.pending == old(transcript)@.pending,
{
    let ghost t = transcript@;
    let ghost ps = circuit::bn_points(points@);
    for i in 0..points.len()
        invariant
            transcript.wf(),
            t.pending.len() > 0,
            id@ == t.pending[0],
            ps == circuit::bn_points(points@),
            transcript@ == rounds::bind_points(t, ps.take(i as int)),
    {
        let b = points[i].to_transcript_bytes();
        proof {
            lemma_bind_pending(t, ps.take(i as int), seq![]);
            assert(ps.take(i + 1).drop_last() =~= ps.take(i as int));
        }
        transcript.bind(id, b.as_slice());
    }
    proof {
        assert(ps.take(points@.len() as int) =~= ps);
        lemma_bind_pending(t, ps, seq![]);
    }
}

/// Bind scalars to the next challenge.
pub(crate) fn bind_scalars(transcript: &mut Transcript, id: &str, scalars: &[Fr])
    requires
        old(transcript).wf(),
        old(transcript)@.pending.len() > 0,
        id@ == old(transcript)@.pending[0],
    ensures
        final(transcript).wf(),
        final(transcript)@ == rounds::bind_scalars(old(transcript)@, fields::vals(scalars@)),
        final(transcript)@.pending == old(transcript)@.pending,
{
    let ghost t = transcript@;
    let ghost v = fields::vals(scalars@);
    for i in 0..scalars.len()
        invariant
            transcript.wf(),
            t.pending.len() > 0,
            id@ == t.pending[0],
            v == fields::vals(scalars@),
            transcript@ == rounds::bind_scalars(t, v.take(i as int)),
    {
        let b = scalars[i].to_be_bytes();
        proof {
            lemma_bind_pending(t, seq![], v.take(i as int));
            assert(v.take(i + 1).drop_last() =~= v.take(i as int));
        }
        transcript.bind(id, b.as_slice());
    }
    proof {
        assert(v.take(scalars@.len() as int) =~= v);
        lemma_bind_pending(t, seq![], v);
    }
}

pub(crate) fn bind_point(transcript: &mut Transcript, id: &str, point: &BN254G1Affine)
    requires
        old(transcript).wf(),
        old(transcript)@.pending.len() > 0,
        id@ == old(transcript)@.pending[0],
    ensures
        final(transcript).wf(),
        final(transcript)@ == old(transcript)@.bind(crate::encode_point(point@)),
{
    let b = point.to_transcript_bytes();
    transcript.bind(id, b.as_slice());
}

pub(crate) fn bind_scalar(transcript: &mut Transcript, id: &str, scalar: &Fr)
    requires
        old(transcript).wf(),
        old(transcript)@.pending.len() > 0,
        id@ == old(transcript)@.pending[0],
    ensures
        final(transcript).wf(),
        final(transcript)@ == old(transcript)@.bind(bytes::be_bytes(scalar@, 32)),
{
    let b = scalar.to_be_bytes();
    transcript.bind(id, b.as_slice());
}

/// Compute a challenge as a scalar.
pub(crate) fn challenge_scalar(transcript: &mut Transcript, id: &str) -> (r: Fr)
    requires
        old(transcript).wf(),
        old(transcript)@.pending.len() > 0,
        id@ == old(transcript)@.pending[0],
    ensures
        r.wf(),
        r@ == rounds::challenge_value(old(transcript)@.next()),
        final(transcript).wf(),
        final(transcript)@ == old(transcript)@.advance(),
{
    let digest = transcript.compute_challenge(id);
    Fr::from_be_bytes_mod_order(&digest)
}

/// A transcript for the challenges of a proof.
pub(crate) fn new_transcript() -> (r: Transcript)
    ensures
        r.wf(),
        r@ == TranscriptState::start(rounds::challenge_names()),
{
    let mut ids: Vec<String> = Vec::new();
    ids.push("gamma".to_owned());
    ids.push("beta".to_owned());
    ids.push("alpha".to_owned());
    ids.push("zeta".to_owned());
    ids.push("u".to_owned());
    assert(ids@.map_values(|s: String| s@) =~= rounds::challenge_names());
    Transcript::new(ids)
}

// ---------------------------------------------------------------------------
// Rounds
// ---------------------------------------------------------------------------

/// The result of round 1.
pub struct WireRound {
    pub l: BN254G1Affine,
    pub r: BN254G1Affine,
    pub o: BN254G1Affine,
    pub gamma: Fr,
    pub beta: Fr,
    pub transcript: Transcript,
}

impl WireRound {
    /// The result is that of round 1.
    pub open spec fn is(self, key: Key, inp: Inputs) -> bool {
        let r1 = key.round1(inp);
        &&& self.l.wf()
        &&& self.r.wf()
        &&& self.o.wf()
        &&& self.l@ == r1.l
        &&& self.r@ == r1.r
        &&& self.o@ == r1.o
        &&& self.gamma.wf()
        &&& self.gamma@ == r1.gamma
        &&& self.beta.wf()
        &&& self.beta@ == r1.beta
        &&& self.transcript.wf()
        &&& self.transcript@ == r1.transcript
        &&& r1.transcript.pending == rounds::challenge_names().skip(2)
    }
}

impl PlonkProver {
    /// The commitment to a wire, with its blinding where there is one.
    pub(crate) fn commit_wire(&self, rows: &Vec<Fr>, bp: Option<&[Fr]>) -> (r: BN254G1Affine)
        requires
            self.wf(),
            can_prove(self.key(), bp is Some),
            rows@.len() == self.key().circuit.n(),
            fields::all_wf(rows@),
            bp matches Some(b) ==> b@.len() <= 3 && fields::all_wf(b@),
        ensures
            r.wf(),
            r@ == self.key().wire_commitment(
                fields::vals(rows@),
                match bp {
                    Some(b) => Some(fields::vals(b@)),
                    None => None,
                },
            ),
    {
        proof {
            reveal(Key::wire_commitment);
            fields::lemma_elements(rows@);
            assert(self.cached.lagrange_points().len() == self.cached.srs_lagrange@.len());
            assert(self.cached.canonical_points().len() == self.cached.srs_canonical@.len());
        }
        let c = commit::commit_lagrange_depad(
            self.cached.srs_lagrange.as_slice(),
            rows.as_slice(),
        );
        self.blind_commitment(c, bp).to_bn254()
    }

    /// Add the blinding to a commitment where there is one.
    pub(crate) fn blind_commitment(&self, c: G1Affine, bp: Option<&[Fr]>) -> (r: G1Affine)
        requires
            self.wf(),
            can_prove(self.key(), bp is Some),
            c.wf(),
            bp matches Some(b) ==> b@.len() <= 3 && fields::all_wf(b@),
        ensures
            r.wf(),
            r@ == rounds::maybe_blinded(
                self.key().srs_canonical,
                match bp {
                    Some(b) => Some(fields::vals(b@)),
                    None => None,
                },
                self.key().circuit.n() as int,
                c@,
            ),
    {
        proof {
            assert(self.cached.canonical_points().len() == self.cached.srs_canonical@.len());
        }
        match bp {
            Some(b) => commit::add_blinding_to_commit(
                self.cached.srs_canonical.as_slice(),
                b,
                self.data.domain_size,
                c,
            ),
            None => c,
        }
    }

    /// Bind the commitments of the verifying key and the public inputs.
    pub fn bind_public_data(&self, transcript: &mut Transcript, public_inputs: &[Fr])
        requires
            old(transcript).wf(),
            old(transcript)@.pending.len() > 0,
            old(transcript)@.pending[0] == "gamma"@,
        ensures
            final(transcript).wf(),
            final(transcript)@ == rounds::bind_scalars(
                rounds::bind_points(
                    old(transcript)@,
                    seq![
                        self.vk_commits.s1@,
                        self.vk_commits.s2@,
                        self.vk_commits.s3@,
                        self.vk_commits.ql@,
                        self.vk_commits.qr@,
                        self.vk_commits.qm@,
                        self.vk_commits.qo@,
                        self.vk_commits.qk@,
                    ] + circuit::bn_points(self.vk_commits.qcp@),
                ),
                fields::vals(public_inputs@),
            ),
            final(transcript)@ == rounds::bind_scalars(
                rounds::bind_points(old(transcript)@, self.vk_commits@.in_order()),
                fields::vals(public_inputs@),
            ),
            final(transcript)@.pending == old(transcript)@.pending,
    {
        let vk = &self.vk_commits;
        let mut points: Vec<BN254G1Affine> = Vec::new();
        points.push(vk.s1);
        points.push(vk.s2);
        points.push(vk.s3);
        points.push(vk.ql);
        points.push(vk.qr);
        points.push(vk.qm);
        points.push(vk.qo);
        points.push(vk.qk);
        let ghost first = points@;
        for i in 0..vk.qcp.len()
            invariant
                points@ == first + vk.qcp@.take(i as int),
        {
            points.push(vk.qcp[i]);
            assert(points@ =~= first + vk.qcp@.take(i + 1));
        }
        proof {
            assert(vk.qcp@.take(vk.qcp@.len() as int) =~= vk.qcp@);
            assert(circuit::bn_points(points@) =~= self.vk_commits@.in_order());
        }
        bind_points(transcript, "gamma", points.as_slice());
        bind_scalars(transcript, "gamma", public_inputs);
    }

    /// Round 1: commit to the wires, and derive gamma and beta.
    pub fn round1(&self, inp: &ProofInputs) -> (res: WireRound)
        requires
            self.wf(),
            inp.fits(self.key()),
            inp.device.wires is None,
            can_prove(self.key(), inp.blinding is Some),
        ensures
            res.is(self.key(), inp@),
    {
        let (l, r, o) = match &inp.blinding {
            Some(b) => (
                self.commit_wire(&inp.l, Some(b.bp_l.as_slice())),
                self.commit_wire(&inp.r, Some(b.bp_r.as_slice())),
                self.commit_wire(&inp.o, Some(b.bp_o.as_slice())),
            ),
            None => (
                self.commit_wire(&inp.l, None),
                self.commit_wire(&inp.r, None),
                self.commit_wire(&inp.o, None),
            ),
        };
        self.derive_wire_challenges(inp, l, r, o)
    }

    /// Derive gamma and beta from the commitments to the wires.
    pub(crate) fn derive_wire_challenges(
        &self,
        inp: &ProofInputs,
        l: BN254G1Affine,
        r: BN254G1Affine,
        o: BN254G1Affine,
    ) -> (res: WireRound)
        requires
            self.wf(),
            l.wf(),
            r.wf(),
            o.wf(),
            (l@, r@, o@) == self.key().wires(inp@),
        ensures
            res.is(self.key(), inp@),
    {
        let mut transcript = new_transcript();
        self.bind_public_data(&mut transcript, inp.pi.as_slice());
        bind_point(&mut transcript, "gamma", &l);
        bind_point(&mut transcript, "gamma", &r);
        bind_point(&mut transcript, "gamma", &o);
        let gamma = challenge_scalar(&mut transcript, "gamma");
        let beta = challenge_scalar(&mut transcript, "beta");
        proof {
            reveal(Key::round1);
            assert(transcript@.pending =~= rounds::challenge_names().skip(2));
        }
        WireRound { l, r, o, gamma, beta, transcript }
    }
}

/// The polynomials of a proof.
pub struct WitnessPolys {
    pub l: Vec<Fr>,
    pub r: Vec<Fr>,
    pub o: Vec<Fr>,
    pub z: Vec<Fr>,
    pub bsb22: Vec<Vec<Fr>>,
    pub pi: Vec<Fr>,
}

impl View for WitnessPolys {
    type V = Witness;

    open spec fn view(&self) -> Witness {
        Witness {
            l: fields::vals(self.l@),
            r: fields::vals(self.r@),
            o: fields::vals(self.o@),
            z: fields::vals(self.z@),
            pi: fields::vals(self.pi@),
            bsb22: circuit::vec_vals(self.bsb22@),
        }
    }
}

/// The number of coefficients of a polynomial with a blinding of `k` coefficients.
pub open spec fn spliced_len(n: nat, k: nat, blinded: bool) -> nat {
    if blinded {
        n + k
    } else {
        n
    }
}

impl WitnessPolys {
    /// All coefficients are reduced, and the polynomials are of the sizes that the
    /// circuit and the blinding give.
    pub open spec fn fits(self, n: nat, blinded: bool) -> bool {
        &&& self.l@.len() == spliced_len(n, 2, blinded)
        &&& self.r@.len() == spliced_len(n, 2, blinded)
        &&& self.o@.len() == spliced_len(n, 2, blinded)
        &&& self.z@.len() == spliced_len(n, 3, blinded)
        &&& self.pi@.len() == n
        &&& forall|j: int| 0 <= j < self.bsb22@.len() ==> (#[trigger] self.bsb22@[j])@.len() == n
        &&& fields::all_wf(self.l@)
        &&& fields::all_wf(self.r@)
        &&& fields::all_wf(self.o@)
        &&& fields::all_wf(self.z@)
        &&& fields::all_wf(self.pi@)
        &&& circuit::vecs_wf(self.bsb22@)
    }
}

/// The result of round 2.
pub struct ProductRound {
    /// The rows of the grand product.
    pub z_rows: Vec<Fr>,
    pub z: BN254G1Affine,
    pub alpha: Fr,
    pub transcript: Transcript,
}

impl ProductRound {
    /// The result is that of round 2.
    pub open spec fn is(self, key: Key, inp: Inputs) -> bool {
        let r2 = key.round2(inp);
        &&& fields::all_wf(self.z_rows@)
        &&& fields::vals(self.z_rows@) == key.product(inp)
        &&& self.z_rows@.len() == key.circuit.n()
        &&& self.z.wf()
        &&& self.z@ == r2.z
        &&& self.alpha.wf()
        &&& self.alpha@ == r2.alpha
        &&& self.transcript.wf()
        &&& self.transcript@ == r2.transcript
        &&& r2.transcript.pending == rounds::challenge_names().skip(3)
    }
}

/// The result of round 3.
pub struct QuotientRound {
    /// The coefficients of the quotient.
    pub h: Vec<Fr>,
    pub h0: BN254G1Affine,
    pub h1: BN254G1Affine,
    pub h2: BN254G1Affine,
    pub zeta: Fr,
    pub transcript: Transcript,
}

impl QuotientRound {
    /// The result is that of round 3.
    pub open spec fn is(self, key: Key, inp: Inputs) -> bool {
        let r3 = key.round3(inp);
        &&& fields::all_wf(self.h@)
        &&& self.h@.len() == key.circuit.big_n()
        &&& fields::vals(self.h@) == r3.h
        &&& self.h0.wf()
        &&& self.h1.wf()
        &&& self.h2.wf()
        &&& self.h0@ == r3.h0
        &&& self.h1@ == r3.h1
        &&& self.h2@ == r3.h2
        &&& self.zeta.wf()
        &&& self.zeta@ == r3.zeta
        &&& self.transcript.wf()
        &&& self.transcript@ == r3.transcript
        &&& r3.transcript.pending == rounds::challenge_names().skip(4)
    }
}

/// The result of round 3 without the quotient itself.
pub struct QuotientPoints {
    pub h0: BN254G1Affine,
    pub h1: BN254G1Affine,
    pub h2: BN254G1Affine,
    pub zeta: Fr,
    pub transcript: Transcript,
}

impl QuotientPoints {
    /// The result is that of round 3.
    pub open spec fn is(self, key: Key, inp: Inputs) -> bool {
        let r3 = key.round3(inp);
        &&& self.h0.wf()
        &&& self.h1.wf()
        &&& self.h2.wf()
        &&& self.h0@ == r3.h0
        &&& self.h1@ == r3.h1
        &&& self.h2@ == r3.h2
        &&& self.zeta.wf()
        &&& self.zeta@ == r3.zeta
        &&& self.transcript.wf()
        &&& self.transcript@ == r3.transcript
        &&& r3.transcript.pending == rounds::challenge_names().skip(4)
    }
}

/// The result of round 4.
pub struct OpeningRound {
    pub openings: OpeningValues,
    pub qcp_zeta: Vec<Fr>,
    pub const_lin: Fr,
}

impl OpeningRound {
    /// The result is that of round 4.
    pub open spec fn is(self, key: Key, inp: Inputs) -> bool {
        let r4 = key.round4(inp);
        &&& self.openings.wf()
        &&& self.openings@ == r4.openings
        &&& fields::all_wf(self.qcp_zeta@)
        &&& fields::vals(self.qcp_zeta@) == r4.qcp
        &&& self.qcp_zeta@.len() == key.circuit.qcp.len()
        &&& self.const_lin.wf()
        &&& self.const_lin@ == r4.const_lin
    }
}

impl PlonkProver {
    /// The permutation argument of a proof, on the prover's own tables.
    proof fn lemma_permutation(self, inp: ProofInputs, gamma: Fr, beta: Fr)
        requires
            self.wf(),
            inp.fits(self.key()),
            gamma@ == self.key().round1(inp@).gamma,
            beta@ == self.key().round1(inp@).beta,
        ensures
            self.cached.s1@.len() == self.key().circuit.n(),
            self.cached.s2@.len() == self.key().circuit.n(),
            self.cached.s3@.len() == self.key().circuit.n(),
            self.cached.omega_powers@.len() == self.key().circuit.n(),
            grand_product::permutation(
                inp.l@,
                inp.r@,
                inp.o@,
                self.cached.s1@,
                self.cached.s2@,
                self.cached.s3@,
                self.cached.omega_powers@,
                self.cached.coset_shift,
                beta,
                gamma,
            ) == self.key().permutation(inp@),
    {
        reveal(Key::permutation);
        let c = self.key().circuit;
        assert(fields::vals(self.cached.s1@).len() == c.n());
        assert(fields::vals(self.cached.s2@).len() == c.n());
        assert(fields::vals(self.cached.s3@).len() == c.n());
        assert(fields::vals(self.cached.omega_powers@).len() == c.n());
    }

    /// Whether no row has a zero denominator under the challenges of round 1.
    pub(crate) fn check_denominators(&self, inp: &ProofInputs, r1: &WireRound) -> (res: bool)
        requires
            self.wf(),
            inp.fits(self.key()),
            r1.is(self.key(), inp@),
        ensures
            res == self.key().permutation(inp@).invertible(),
    {
        proof {
            self.lemma_permutation(*inp, r1.gamma, r1.beta);
        }
        grand_product::check_invertible(
            inp.l.as_slice(),
            inp.r.as_slice(),
            inp.o.as_slice(),
            self.cached.s1.as_slice(),
            self.cached.s2.as_slice(),
            self.cached.s3.as_slice(),
            &r1.beta,
            &r1.gamma,
            Ghost(self.key().permutation(inp@)),
        )
    }

    /// The rows of the grand product.
    fn product_rows(&self, inp: &ProofInputs, gamma: &Fr, beta: &Fr) -> (res: Result<
        Vec<Fr>,
        ProveError,
    >)
        requires
            self.wf(),
            inp.fits(self.key()),
            gamma.wf(),
            beta.wf(),
            gamma@ == self.key().round1(inp@).gamma,
            beta@ == self.key().round1(inp@).beta,
            inp.device.product is None,
            self.key().permutation(inp@).invertible(),
        ensures
            match res {
                Ok(z) => {
                    &&& self.key().permutation(inp@).satisfied()
                    &&& fields::all_wf(z@)
                    &&& fields::vals(z@) == self.key().product(inp@)
                    &&& z@.len() == self.key().circuit.n()
                },
                Err(ProveError::GrandProduct) => !self.key().permutation(inp@).satisfied(),
            },
    {
        proof {
            self.lemma_permutation(*inp, *gamma, *beta);
        }
        let res = grand_product::compute_grand_product(
            inp.l.as_slice(),
            inp.r.as_slice(),
            inp.o.as_slice(),
            self.cached.s1.as_slice(),
            self.cached.s2.as_slice(),
            self.cached.s3.as_slice(),
            beta,
            gamma,
            self.cached.omega_powers.as_slice(),
            &self.cached.coset_shift,
        );
        proof {
            assert(res matches Ok(z) ==> fields::vals(z@).len() == z@.len());
        }
        res
    }

    /// Commit to the grand product.
    fn commit_product(&self, inp: &ProofInputs, z_rows: &[Fr]) -> (res: BN254G1Affine)
        requires
            self.wf(),
            inp.fits(self.key()),
            inp.device.z is None,
            can_prove(self.key(), inp.blinding is Some),
            fields::all_wf(z_rows@),
            fields::vals(z_rows@) == self.key().product(inp@),
            z_rows@.len() == self.key().circuit.n(),
        ensures
            res.wf(),
            res@ == self.key().product_commitment(inp@),
    {
        proof {
            assert(self.cached.lagrange_points().len() == self.cached.srs_lagrange@.len());
        }
        let c = commit::commit_lagrange(self.cached.srs_lagrange.as_slice(), z_rows);
        match &inp.blinding {
            Some(b) => self.blind_commitment(c, Some(b.bp_z.as_slice())),
            None => self.blind_commitment(c, None),
        }.to_bn254()
    }

    /// Derive alpha from the BSB22 commitments and the one to the grand product.
    pub(crate) fn derive_alpha(
        &self,
        inp: &ProofInputs,
        transcript: Transcript,
        z_rows: Vec<Fr>,
        z: BN254G1Affine,
    ) -> (res: ProductRound)
        requires
            self.wf(),
            inp.fits(self.key()),
            transcript.wf(),
            transcript@ == self.key().round1(inp@).transcript,
            transcript@.pending == rounds::challenge_names().skip(2),
            fields::all_wf(z_rows@),
            fields::vals(z_rows@) == self.key().product(inp@),
            z_rows@.len() == self.key().circuit.n(),
            z.wf(),
            z@ == self.key().product_commitment(inp@),
        ensures
            res.is(self.key(), inp@),
    {
        proof {
            reveal(Key::round2);
        }
        let mut transcript = transcript;
        bind_points(&mut transcript, "alpha", inp.commitments.as_slice());
        bind_point(&mut transcript, "alpha", &z);
        let alpha = challenge_scalar(&mut transcript, "alpha");
        assert(transcript@.pending =~= rounds::challenge_names().skip(3));
        ProductRound { z_rows, z, alpha, transcript }
    }

    /// Round 2: compute the grand product, commit to it, and derive alpha.
    pub fn round2(&self, inp: &ProofInputs, r1: WireRound) -> (res: Result<
        ProductRound,
        ProveError,
    >)
        requires
            self.wf(),
            inp.fits(self.key()),
            inp.device.product is None,
            inp.device.z is None,
            can_prove(self.key(), inp.blinding is Some),
            r1.is(self.key(), inp@),
            self.key().permutation(inp@).invertible(),
        ensures
            match res {
                Ok(r2) => self.key().permutation(inp@).satisfied() && r2.is(self.key(), inp@),
                Err(ProveError::GrandProduct) => !self.key().permutation(inp@).satisfied(),
            },
    {
        match self.product_rows(inp, &r1.gamma, &r1.beta) {
            Ok(z_rows) => {
                let z = self.commit_product(inp, z_rows.as_slice());
                Ok(self.derive_alpha(inp, r1.transcript, z_rows, z))
            },
            Err(e) => Err(e),
        }
    }

    /// A polynomial from its rows, with its blinding where there is one.
    fn interpolate(&self, rows: &[Fr], bp: Option<&[Fr]>) -> (res: Vec<Fr>)
        requires
            self.wf(),
            rows@.len() == self.key().circuit.n(),
            fields::all_wf(rows@),
            bp matches Some(b) ==> b@.len() <= rows@.len() && fields::all_wf(b@),
        ensures
            fields::all_wf(res@),
            fields::vals(res@) == rounds::maybe_spliced(
                domain::idft(fields::vals(rows@), self.key().circuit.w),
                match bp {
                    Some(b) => Some(fields::vals(b@)),
                    None => None,
                },
            ),
            res@.len() == rows@.len() + (match bp {
                Some(b) => b@.len(),
                None => 0,
            }),
    {
        let mut p = self.cached.domain.ifft(rows);
        assert(fields::vals(p@).len() == rows@.len());
        if let Some(b) = bp {
            blinding::splice_blinding(&mut p, b);
            assert(fields::vals(p@).len() == rows@.len() + b@.len());
        }
        p
    }

    /// The polynomials of a proof.
    pub fn witness_polys(&self, inp: &ProofInputs, z_rows: &[Fr]) -> (res: WitnessPolys)
        requires
            self.wf(),
            inp.fits(self.key()),
            self.key().circuit.n() >= 6,
            fields::all_wf(z_rows@),
            fields::vals(z_rows@) == self.key().product(inp@),
            z_rows@.len() == self.key().circuit.n(),
        ensures
            res.fits(self.key().circuit.n(), inp.blinding is Some),
            res@ == self.key().witness(inp@),
    {
        let (l, r, o, z) = match &inp.blinding {
            Some(b) => (
                self.interpolate(inp.l.as_slice(), Some(b.bp_l.as_slice())),
                self.interpolate(inp.r.as_slice(), Some(b.bp_r.as_slice())),
                self.interpolate(inp.o.as_slice(), Some(b.bp_o.as_slice())),
                self.interpolate(z_rows, Some(b.bp_z.as_slice())),
            ),
            None => (
                self.interpolate(inp.l.as_slice(), None),
                self.interpolate(inp.r.as_slice(), None),
                self.interpolate(inp.o.as_slice(), None),
                self.interpolate(z_rows, None),
            ),
        };
        let mut bsb22: Vec<Vec<Fr>> = Vec::new();
        let ghost n = self.key().circuit.n();
        for i in 0..inp.bsb22.len()
            invariant
                self.wf(),
                inp.fits(self.key()),
                n == self.key().circuit.n(),
                bsb22@.len() == i,
                circuit::vecs_wf(bsb22@),
                forall|j: int|
                    0 <= j < i ==> (#[trigger] bsb22@[j])@.len() == n && fields::vals(bsb22@[j]@)
                        == domain::idft(fields::vals(inp.bsb22@[j]@), self.key().circuit.w),
        {
            assert(inp.bsb22@[i as int]@.len() == n);
            bsb22.push(self.interpolate(inp.bsb22[i].as_slice(), None));
        }
        let pi = self.pi_coefficients(inp);
        let res = WitnessPolys { l, r, o, z, bsb22, pi };
        proof {
            reveal(Key::witness);
            let want = self.key().witness(inp@);
            assert(res@.bsb22 =~= want.bsb22);
            assert(res@ == want);
        }
        res
    }

    /// The public input polynomial of a proof.
    fn pi_coefficients(&self, inp: &ProofInputs) -> (res: Vec<Fr>)
        requires
            self.wf(),
            inp.fits(self.key()),
        ensures
            fields::all_wf(res@),
            fields::vals(res@) == self.key().witness(inp@).pi,
            res@.len() == self.key().circuit.n(),
    {
        let res = quotient::compute_pi_polynomial(
            inp.pi.as_slice(),
            self.data.nb_public_variables,
            inp.commitments.as_slice(),
            self.data.commitment_constraint_indexes.as_slice(),
            &self.cached.domain,
        );
        proof {
            reveal(Key::witness);
            quotient::law_public_values(
                inp@.pi,
                self.key().nb_pub,
                inp@.commitments,
                self.key().indexes,
                self.key().circuit.n(),
            );
            assert(self.key().pi_rows(inp@) =~= quotient::pi_rows(
                inp@.pi,
                self.key().nb_pub,
                inp@.commitments,
                self.key().indexes,
                self.key().circuit.n(),
            ));
            assert(fields::vals(res@).len() == self.key().circuit.n());
        }
        res
    }

    /// Commit to the parts of the quotient.
    pub(crate) fn commit_parts(&self, inp: &ProofInputs, h: &[Fr]) -> (res: [BN254G1Affine; 3])
        requires
            self.wf(),
            inp.device.parts is None,
            can_prove(self.key(), inp.blinding is Some),
            fields::all_wf(h@),
            h@.len() >= 3 * (self.key().circuit.n() + 2),
            fields::vals(h@) == self.key().quotient(inp@),
        ensures
            circuit::bn_points_wf(res@),
            three_points(res) == self.key().parts(inp@),
    {
        let n = self.data.domain_size;
        proof {
            assert(self.cached.canonical_points().len() == self.cached.srs_canonical@.len());
            circuit::lemma_n_small(self.key().circuit);
        }
        let (h0c, h1c, h2c) = quotient::split_quotient(h, n);
        proof {
            let hv = fields::vals(h@);
            assert(fields::vals(h0c@) =~= self.key().part(hv, 0));
            assert(fields::vals(h1c@) =~= self.key().part(hv, 1));
            assert(fields::vals(h2c@) =~= self.key().part(hv, 2));
        }
        let srs = self.cached.srs_canonical.as_slice();
        [
            commit::commit_canonical(srs, h0c).to_bn254(),
            commit::commit_canonical(srs, h1c).to_bn254(),
            commit::commit_mostly_zero(srs, h2c).to_bn254(),
        ]
    }

    /// Derive zeta from the commitments to the parts of the quotient.
    pub(crate) fn derive_zeta(
        &self,
        inp: &ProofInputs,
        parts: [BN254G1Affine; 3],
        transcript: Transcript,
    ) -> (res: QuotientPoints)
        requires
            circuit::bn_points_wf(parts@),
            three_points(parts) == self.key().parts(inp@),
            transcript.wf(),
            transcript@ == self.key().round2(inp@).transcript,
            transcript@.pending == rounds::challenge_names().skip(3),
        ensures
            res.is(self.key(), inp@),
    {
        proof {
            reveal(Key::round3);
        }
        let (h0, h1, h2) = (parts[0], parts[1], parts[2]);
        let mut transcript = transcript;
        bind_point(&mut transcript, "zeta", &h0);
        bind_point(&mut transcript, "zeta", &h1);
        bind_point(&mut transcript, "zeta", &h2);
        let zeta = challenge_scalar(&mut transcript, "zeta");
        assert(transcript@.pending =~= rounds::challenge_names().skip(4));
        proof {
            assert(parts@[0].wf() && parts@[1].wf() && parts@[2].wf());
        }
        QuotientPoints { h0, h1, h2, zeta, transcript }
    }

    /// The quotient of a proof, computed here.
    pub(crate) fn quotient_of(
        &self,
        inp: &ProofInputs,
        wit: &WitnessPolys,
        gamma: &Fr,
        beta: &Fr,
        alpha: &Fr,
    ) -> (h: Vec<Fr>)
        requires
            self.wf(),
            self.key().circuit.n() >= 6,
            self.key().circuit.shift != 0,
            wit.fits(self.key().circuit.n(), inp.blinding is Some),
            wit@ == self.key().witness(inp@),
            gamma.wf(),
            gamma@ == self.key().round1(inp@).gamma,
            beta.wf(),
            beta@ == self.key().round1(inp@).beta,
            alpha.wf(),
            alpha@ == self.key().round2(inp@).alpha,
        ensures
            fields::all_wf(h@),
            h@.len() == self.key().circuit.big_n(),
            fields::vals(h@) == self.key().circuit.quotient(
                self.key().witness(inp@),
                self.key().challenges(inp@),
            ),
    {
        proof {
            circuit::lemma_n_small(self.key().circuit);
        }
        let h = self.cached.compute_quotient(
            wit.l.as_slice(),
            wit.r.as_slice(),
            wit.o.as_slice(),
            wit.z.as_slice(),
            &wit.bsb22,
            wit.pi.as_slice(),
            alpha,
            beta,
            gamma,
        );
        assert(fields::vals(h@).len() == self.key().circuit.big_n());
        h
    }

    /// Round 3: compute the quotient, commit to its parts, and derive zeta.
    pub fn round3(
        &self,
        inp: &ProofInputs,
        wit: &WitnessPolys,
        gamma: &Fr,
        beta: &Fr,
        r2: ProductRound,
    ) -> (res: QuotientRound)
        requires
            self.wf(),
            inp.fits(self.key()),
            inp.device.quotient is None,
            inp.device.parts is None,
            can_prove(self.key(), inp.blinding is Some),
            wit.fits(self.key().circuit.n(), inp.blinding is Some),
            wit@ == self.key().witness(inp@),
            gamma.wf(),
            gamma@ == self.key().round1(inp@).gamma,
            beta.wf(),
            beta@ == self.key().round1(inp@).beta,
            r2.is(self.key(), inp@),
        ensures
            res.is(self.key(), inp@),
    {
        let h = self.quotient_of(inp, wit, gamma, beta, &r2.alpha);
        let parts = self.commit_parts(inp, h.as_slice());
        let p = self.derive_zeta(inp, parts, r2.transcript);
        proof {
            reveal(Key::round3);
        }
        QuotientRound {
            h,
            h0: p.h0,
            h1: p.h1,
            h2: p.h2,
            zeta: p.zeta,
            transcript: p.transcript,
        }
    }
}

} // verus!
