//! The last rounds of the prover, and the proof as a whole.

use crate::circuit;
use crate::commit;
use crate::fields;
use crate::fields::Fr;
use crate::g1;
use crate::g1::Point;
use crate::grand_product::ProveError;
use crate::kzg::{BatchOpeningProof, OpeningProof};
use crate::linearization;
use crate::linearization::OpeningValues;
use crate::plonk_proof;
use crate::plonk_proof::PlonkProof;
use crate::polynomial;
use crate::polynomial::Polynomial;
use crate::prover;
use crate::prover::{OpeningRound, PlonkProver, ProofInputs, WireRound, WitnessPolys};
use crate::quotient;
use crate::rounds;
use crate::rounds::{Inputs, Key};
use crate::transcript::Transcript;
use crate::{BN254Fr, BN254G1Affine};
use vstd::prelude::*;

verus! {

/// The challenges of a proof up to zeta.
pub struct ProofChallenges {
    pub gamma: Fr,
    pub beta: Fr,
    pub alpha: Fr,
    pub zeta: Fr,
}

impl ProofChallenges {
    /// The challenges are those of the rounds.
    pub open spec fn is(self, key: Key, inp: Inputs) -> bool {
        &&& self.gamma.wf()
        &&& self.beta.wf()
        &&& self.alpha.wf()
        &&& self.zeta.wf()
        &&& self.gamma@ == key.round1(inp).gamma
        &&& self.beta@ == key.round1(inp).beta
        &&& self.alpha@ == key.round2(inp).alpha
        &&& self.zeta@ == key.round3(inp).zeta
    }
}

/// The commitments of a proof up to the quotient.
pub struct ProofPoints {
    pub l: BN254G1Affine,
    pub r: BN254G1Affine,
    pub o: BN254G1Affine,
    pub z: BN254G1Affine,
    pub h0: BN254G1Affine,
    pub h1: BN254G1Affine,
    pub h2: BN254G1Affine,
}

impl ProofPoints {
    /// All coordinates are reduced.
    pub open spec fn wf(self) -> bool {
        self.l.wf() && self.r.wf() && self.o.wf() && self.z.wf() && self.h0.wf() && self.h1.wf()
            && self.h2.wf()
    }

    /// The commitments are those of the rounds.
    pub open spec fn is(self, key: Key, inp: Inputs) -> bool {
        let r1 = key.round1(inp);
        let r3 = key.round3(inp);
        &&& self.wf()
        &&& self.l@ == r1.l
        &&& self.r@ == r1.r
        &&& self.o@ == r1.o
        &&& self.z@ == key.round2(inp).z
        &&& self.h0@ == r3.h0
        &&& self.h1@ == r3.h1
        &&& self.h2@ == r3.h2
    }
}

/// All slices are reduced.
pub open spec fn slices_wf(polys: Seq<&[Fr]>) -> bool {
    forall|j: int| 0 <= j < polys.len() ==> fields::all_wf((#[trigger] polys[j])@)
}

/// The number of BSB22 polynomials that take part in the linearisation.
pub open spec fn bsb22_count(key: Key, inp: Inputs) -> nat {
    quotient::shorter(key.witness(inp).bsb22.len(), key.circuit.qcp.len())
}

impl PlonkProver {
    /// The polynomials of the linearisation without the BSB22 polynomials.
    fn lin_slices<'a>(&'a self, wit: &'a WitnessPolys, h: &'a [Fr]) -> (res: Vec<&'a [Fr]>)
        requires
            self.wf(),
            self.key().circuit.n() >= 6,
            fields::all_wf(wit.z@),
            fields::all_wf(h@),
            h@.len() >= 3 * (self.key().circuit.n() + 2),
        ensures
            res@.len() == 10,
            slices_wf(res@),
            polynomial::slice_vals(res@) == self.key().circuit.lin_polys(
                fields::vals(wit.z@),
                self.key().part(fields::vals(h@), 0),
                self.key().part(fields::vals(h@), 1),
                self.key().part(fields::vals(h@), 2),
            ),
    {
        let c = &self.cached;
        let (h0, h1, h2) = quotient::split_quotient(h, self.data.domain_size);
        proof {
            let hv = fields::vals(h@);
            assert(fields::vals(h0@) =~= self.key().part(hv, 0));
            assert(fields::vals(h1@) =~= self.key().part(hv, 1));
            assert(fields::vals(h2@) =~= self.key().part(hv, 2));
        }
        let mut res: Vec<&'a [Fr]> = Vec::with_capacity(10);
        res.push(c.ql_coeffs.as_slice());
        res.push(c.qr_coeffs.as_slice());
        res.push(c.qm_coeffs.as_slice());
        res.push(c.qo_coeffs.as_slice());
        res.push(c.qk_coeffs.as_slice());
        res.push(c.s3_coeffs.as_slice());
        res.push(wit.z.as_slice());
        res.push(h0);
        res.push(h1);
        res.push(h2);
        assert(polynomial::slice_vals(res@) =~= self.key().circuit.lin_polys(
            fields::vals(wit.z@),
            self.key().part(fields::vals(h@), 0),
            self.key().part(fields::vals(h@), 1),
            self.key().part(fields::vals(h@), 2),
        ));
        res
    }

    /// The polynomials and scalars of the linearisation.
    fn linearization<'a>(
        &'a self,
        inp: &ProofInputs,
        wit: &'a WitnessPolys,
        h: &'a [Fr],
        ch: &ProofChallenges,
        e: &OpeningValues,
        qcp_zeta: &[Fr],
    ) -> (res: (Vec<&'a [Fr]>, Vec<Fr>))
        requires
            self.wf(),
            self.key().circuit.n() >= 6,
            wit.fits(self.key().circuit.n(), inp.blinding is Some),
            wit@ == self.key().witness(inp@),
            fields::all_wf(h@),
            h@.len() >= 3 * (self.key().circuit.n() + 2),
            fields::vals(h@) == self.key().round3(inp@).h,
            ch.is(self.key(), inp@),
            e.wf(),
            fields::all_wf(qcp_zeta@),
            qcp_zeta@.len() == self.key().circuit.qcp.len(),
        ensures
            res.0@.len() == res.1@.len(),
            res.0@.len() == 10 + bsb22_count(self.key(), inp@),
            slices_wf(res.0@),
            fields::all_wf(res.1@),
            polynomial::slice_vals(res.0@) == self.key().lin_polys(inp@),
            fields::vals(res.1@) == self.key().lin_scalars(
                inp@,
                e@,
                fields::vals(qcp_zeta@),
                bsb22_count(self.key(), inp@),
            ),
    {
        let mut polys = self.lin_slices(wit, h);
        let mut scalars = linearization::eval_lin_scalars(
            &self.cached.domain,
            &ch.zeta,
            &ch.alpha,
            &ch.beta,
            &ch.gamma,
            &self.cached.coset_shift,
            e,
            Ghost(self.key().circuit),
        );
        linearization::extend_with_bsb22(&mut polys, &mut scalars, &wit.bsb22, qcp_zeta);
        proof {
            reveal(Key::lin_polys);
            reveal(Key::lin_scalars);
            let m = bsb22_count(self.key(), inp@);
            assert(wit@.bsb22.len() == wit.bsb22@.len());
            assert(polynomial::slice_vals(polys@).len() == polys@.len());
        }
        (polys, scalars)
    }

    /// The values of the BSB22 selectors at zeta.
    fn open_qcp(&self, zeta: &Fr) -> (res: Vec<Fr>)
        requires
            self.wf(),
            zeta.wf(),
        ensures
            fields::all_wf(res@),
            fields::vals(res@) == quotient::values_at(self.key().circuit.qcp, zeta@),
            res@.len() == self.key().circuit.qcp.len(),
    {
        let mut res: Vec<Fr> = Vec::new();
        let qcp = &self.cached.qcp_coeffs;
        for i in 0..qcp.len()
            invariant
                zeta.wf(),
                circuit::vecs_wf(qcp@),
                res@.len() == i,
                fields::all_wf(res@),
                forall|j: int|
                    0 <= j < i ==> (#[trigger] res@[j])@ == polynomial::feval(
                        fields::vals(qcp@[j]@),
                        zeta@,
                    ),
        {
            assert(fields::all_wf(qcp@[i as int]@));
            res.push(polynomial::eval_poly_at(qcp[i].as_slice(), zeta));
        }
        assert(fields::vals(res@) =~= quotient::values_at(self.key().circuit.qcp, zeta@));
        res
    }

    /// Round 4: the openings at zeta, and the value of the linearised polynomial.
    pub fn round4(
        &self,
        inp: &ProofInputs,
        wit: &WitnessPolys,
        h: &[Fr],
        ch: &ProofChallenges,
    ) -> (res: OpeningRound)
        requires
            self.wf(),
            self.key().circuit.n() >= 6,
            wit.fits(self.key().circuit.n(), inp.blinding is Some),
            wit@ == self.key().witness(inp@),
            fields::all_wf(h@),
            h@.len() >= 3 * (self.key().circuit.n() + 2),
            fields::vals(h@) == self.key().round3(inp@).h,
            ch.is(self.key(), inp@),
        ensures
            res.is(self.key(), inp@),
    {
        let c = &self.cached;
        let zeta = &ch.zeta;
        let zeta_omega = zeta.mul(&c.domain.omega);
        let e = OpeningValues {
            l: polynomial::eval_poly_at(wit.l.as_slice(), zeta),
            r: polynomial::eval_poly_at(wit.r.as_slice(), zeta),
            o: polynomial::eval_poly_at(wit.o.as_slice(), zeta),
            s1: polynomial::eval_poly_at(c.s1_coeffs.as_slice(), zeta),
            s2: polynomial::eval_poly_at(c.s2_coeffs.as_slice(), zeta),
            z_shifted: polynomial::eval_poly_at(wit.z.as_slice(), &zeta_omega),
        };
        let qcp_zeta = self.open_qcp(zeta);
        let (polys, scalars) = self.linearization(inp, wit, h, ch, &e, qcp_zeta.as_slice());
        let evals = linearization::eval_all(polys.as_slice(), zeta);
        proof {
            assert(fields::vals(evals@).len() == polys@.len());
        }
        let const_lin = linearization::eval_dot(scalars.as_slice(), evals.as_slice());
        proof {
            reveal(Key::round4);
        }
        OpeningRound { openings: e, qcp_zeta, const_lin }
    }
}

/// The result of round 5.
pub struct FoldRound {
    pub gamma_fold: Fr,
    pub digests: Vec<BN254G1Affine>,
    pub batch_h: BN254G1Affine,
    pub z_shifted_h: BN254G1Affine,
}

impl FoldRound {
    /// The result is that of round 5.
    pub open spec fn is(self, key: Key, inp: Inputs) -> bool {
        let r5 = key.round5(inp);
        &&& self.gamma_fold.wf()
        &&& self.gamma_fold@ == r5.gamma_fold
        &&& circuit::bn_points_wf(self.digests@)
        &&& circuit::bn_points(self.digests@) == key.digests(inp)
        &&& self.batch_h.wf()
        &&& self.z_shifted_h.wf()
        &&& self.batch_h@ == r5.batch_h
        &&& self.z_shifted_h@ == r5.z_shifted_h
    }
}

/// What the last round folds: the commitments and the claimed values, and the challenge
/// that they are folded by.
pub struct FoldStart {
    pub gamma_fold: Fr,
    pub digests: Vec<BN254G1Affine>,
    pub claimed: Vec<Fr>,
}

impl FoldStart {
    /// The parts are those of the rounds.
    pub open spec fn is(self, key: Key, inp: Inputs) -> bool {
        &&& self.gamma_fold.wf()
        &&& self.gamma_fold@ == key.gamma_fold(inp)
        &&& circuit::bn_points_wf(self.digests@)
        &&& circuit::bn_points(self.digests@) == key.digests(inp)
        &&& fields::all_wf(self.claimed@)
        &&& fields::vals(self.claimed@) == key.claimed(inp)
        &&& self.claimed@.len() == 6 + key.circuit.qcp.len()
    }
}

/// A combination of points.
fn msm_points(points: &[BN254G1Affine], scalars: &[Fr]) -> (res: BN254G1Affine)
    requires
        points@.len() == scalars@.len(),
        circuit::bn_points_wf(points@),
    ensures
        res.wf(),
        res@ == g1::as_affine(
            g1::point_msm(circuit::bn_points(points@), fields::vals(scalars@)),
        ),
{
    let p = circuit::convert_points(points);
    assert(g1::points_of(p@).len() == points@.len());
    g1::msm(p.as_slice(), scalars).to_affine().to_bn254()
}

/// Append a point.
fn push_point(v: &mut Vec<BN254G1Affine>, p: &BN254G1Affine)
    requires
        circuit::bn_points_wf(old(v)@),
        p.wf(),
    ensures
        circuit::bn_points_wf(final(v)@),
        circuit::bn_points(final(v)@) == circuit::bn_points(old(v)@).push(p@),
        final(v)@.len() == old(v)@.len() + 1,
{
    let ghost start = v@;
    v.push(*p);
    assert(circuit::bn_points(v@) =~= circuit::bn_points(start).push(p@));
}

/// Append scalars.
fn append_scalars(v: &mut Vec<Fr>, scalars: &[Fr], m: usize)
    requires
        m <= scalars@.len(),
        fields::all_wf(old(v)@),
        fields::all_wf(scalars@),
    ensures
        fields::all_wf(final(v)@),
        final(v)@.len() == old(v)@.len() + m,
        fields::vals(final(v)@) == fields::vals(old(v)@) + fields::vals(scalars@).take(m as int),
{
    let ghost start = v@;
    assert(start + scalars@.take(0) =~= start);
    for i in 0..m
        invariant
            m <= scalars@.len(),
            fields::all_wf(v@),
            fields::all_wf(scalars@),
            v@ == start + scalars@.take(i as int),
    {
        v.push(scalars[i]);
        assert(v@ =~= start + scalars@.take(i + 1));
    }
    assert(fields::vals(v@) =~= fields::vals(start) + fields::vals(scalars@).take(m as int));
}

/// Append points.
fn append_points(v: &mut Vec<BN254G1Affine>, points: &[BN254G1Affine], m: usize)
    requires
        m <= points@.len(),
        circuit::bn_points_wf(old(v)@),
        circuit::bn_points_wf(points@),
    ensures
        circuit::bn_points_wf(final(v)@),
        final(v)@ == old(v)@ + points@.take(m as int),
        circuit::bn_points(final(v)@) == circuit::bn_points(old(v)@) + circuit::bn_points(
            points@,
        ).take(m as int),
{
    let ghost start = v@;
    assert(start + points@.take(0) =~= start);
    for i in 0..m
        invariant
            m <= points@.len(),
            circuit::bn_points_wf(v@),
            circuit::bn_points_wf(points@),
            v@ == start + points@.take(i as int),
    {
        v.push(points[i]);
        assert(v@ =~= start + points@.take(i + 1));
    }
    assert(circuit::bn_points(v@) =~= circuit::bn_points(start) + circuit::bn_points(
        points@,
    ).take(m as int));
}

/// The commitment to the linearised polynomial is the combination of the
/// commitments.
proof fn lemma_lin_commitment(key: Key, inp: Inputs, terms: Seq<Point>, scalars: Seq<int>)
    requires
        ({
            let m = quotient::shorter(key.circuit.qcp.len(), inp.commitments.len());
            let r3 = key.round3(inp);
            &&& terms == seq![
                key.vk.ql,
                key.vk.qr,
                key.vk.qm,
                key.vk.qo,
                key.vk.qk,
                key.vk.s3,
                key.round2(inp).z,
                r3.h0,
                r3.h1,
                r3.h2,
            ] + inp.commitments.take(m as int)
            &&& scalars == key.lin_scalars(
                inp,
                key.round4(inp).openings,
                key.round4(inp).qcp,
                m,
            )
        }),
    ensures
        key.lin_commitment(inp) == g1::as_affine(g1::point_msm(terms, scalars)),
{
    reveal(Key::lin_commitment);
}

impl PlonkProver {
    /// The commitments that the one to the linearised polynomial is made from.
    fn lin_terms(&self, points: &ProofPoints, commitments: &[BN254G1Affine], m: usize) -> (res: Vec<
        BN254G1Affine,
    >)
        requires
            self.vk_commits.wf(),
            points.wf(),
            circuit::bn_points_wf(commitments@),
            m <= commitments@.len(),
        ensures
            circuit::bn_points_wf(res@),
            res@.len() == 10 + m,
            circuit::bn_points(res@) == seq![
                self.vk_commits@.ql,
                self.vk_commits@.qr,
                self.vk_commits@.qm,
                self.vk_commits@.qo,
                self.vk_commits@.qk,
                self.vk_commits@.s3,
                points.z@,
                points.h0@,
                points.h1@,
                points.h2@,
            ] + circuit::bn_points(commitments@).take(m as int),
    {
        let vk = &self.vk_commits;
        let mut terms: Vec<BN254G1Affine> = Vec::new();
        push_point(&mut terms, &vk.ql);
        push_point(&mut terms, &vk.qr);
        push_point(&mut terms, &vk.qm);
        push_point(&mut terms, &vk.qo);
        push_point(&mut terms, &vk.qk);
        push_point(&mut terms, &vk.s3);
        push_point(&mut terms, &points.z);
        push_point(&mut terms, &points.h0);
        push_point(&mut terms, &points.h1);
        push_point(&mut terms, &points.h2);
        let ghost first = circuit::bn_points(terms@);
        append_points(&mut terms, commitments, m);
        assert(first =~= seq![
            vk.ql@,
            vk.qr@,
            vk.qm@,
            vk.qo@,
            vk.qk@,
            vk.s3@,
            points.z@,
            points.h0@,
            points.h1@,
            points.h2@,
        ]);
        terms
    }

    /// The scalars that the commitment to the linearised polynomial is made with.
    fn lin_factors(
        &self,
        inp: &ProofInputs,
        ch: &ProofChallenges,
        r4: &OpeningRound,
        m: usize,
    ) -> (res: Vec<Fr>)
        requires
            self.wf(),
            ch.is(self.key(), inp@),
            r4.is(self.key(), inp@),
            m <= r4.qcp_zeta@.len(),
        ensures
            res@.len() == 10 + m,
            fields::vals(res@) == self.key().lin_scalars(
                inp@,
                self.key().round4(inp@).openings,
                self.key().round4(inp@).qcp,
                m as nat,
            ),
    {
        let mut scalars = linearization::eval_lin_scalars(
            &self.cached.domain,
            &ch.zeta,
            &ch.alpha,
            &ch.beta,
            &ch.gamma,
            &self.cached.coset_shift,
            &r4.openings,
            Ghost(self.key().circuit),
        );
        append_scalars(&mut scalars, r4.qcp_zeta.as_slice(), m);
        proof {
            reveal(Key::lin_scalars);
        }
        scalars
    }

    /// The commitment to the linearised polynomial, from the other commitments.
    fn commit_linearized(
        &self,
        inp: &ProofInputs,
        points: &ProofPoints,
        ch: &ProofChallenges,
        r4: &OpeningRound,
    ) -> (res: BN254G1Affine)
        requires
            self.wf(),
            inp.fits(self.key()),
            points.is(self.key(), inp@),
            ch.is(self.key(), inp@),
            r4.is(self.key(), inp@),
        ensures
            res.wf(),
            res@ == self.key().lin_commitment(inp@),
    {
        let m: usize = if r4.qcp_zeta.len() <= inp.commitments.len() {
            r4.qcp_zeta.len()
        } else {
            inp.commitments.len()
        };
        let scalars = self.lin_factors(inp, ch, r4, m);
        let terms = self.lin_terms(points, inp.commitments.as_slice(), m);
        let res = msm_points(terms.as_slice(), scalars.as_slice());
        proof {
            assert(inp@.commitments.len() == inp.commitments@.len());
            lemma_lin_commitment(
                self.key(),
                inp@,
                circuit::bn_points(terms@),
                fields::vals(scalars@),
            );
        }
        res
    }

    /// The commitments that are opened at zeta.
    #[verifier::rlimit(60)]
    fn collect_digests(
        &self,
        inp: &ProofInputs,
        points: &ProofPoints,
        lin: BN254G1Affine,
    ) -> (res: Vec<BN254G1Affine>)
        requires
            self.wf(),
            points.is(self.key(), inp@),
            lin.wf(),
            lin@ == self.key().lin_commitment(inp@),
        ensures
            circuit::bn_points_wf(res@),
            circuit::bn_points(res@) == self.key().digests(inp@),
    {
        let vk = &self.vk_commits;
        let mut res: Vec<BN254G1Affine> = Vec::new();
        push_point(&mut res, &lin);
        push_point(&mut res, &points.l);
        push_point(&mut res, &points.r);
        push_point(&mut res, &points.o);
        push_point(&mut res, &vk.s1);
        push_point(&mut res, &vk.s2);
        let ghost first = circuit::bn_points(res@);
        append_points(&mut res, vk.qcp.as_slice(), vk.qcp.len());
        proof {
            reveal(Key::digests);
            assert(first =~= seq![
                lin@,
                points.l@,
                points.r@,
                points.o@,
                vk.s1@,
                vk.s2@,
            ]);
            assert(circuit::bn_points(vk.qcp@).take(vk.qcp@.len() as int) =~= circuit::bn_points(
                vk.qcp@,
            ));
        }
        res
    }

    /// The values that a proof claims.
    fn collect_claimed(&self, inp: &ProofInputs, r4: &OpeningRound) -> (res: Vec<Fr>)
        requires
            r4.is(self.key(), inp@),
        ensures
            fields::all_wf(res@),
            fields::vals(res@) == self.key().claimed(inp@),
            res@.len() == 6 + self.key().circuit.qcp.len(),
    {
        let e = &r4.openings;
        let mut res: Vec<Fr> = Vec::new();
        res.push(r4.const_lin);
        res.push(e.l);
        res.push(e.r);
        res.push(e.o);
        res.push(e.s1);
        res.push(e.s2);
        let ghost first = fields::vals(res@);
        let ghost q = fields::vals(r4.qcp_zeta@);
        append_scalars(&mut res, r4.qcp_zeta.as_slice(), r4.qcp_zeta.len());
        proof {
            reveal(Key::claimed);
            assert(q.take(r4.qcp_zeta@.len() as int) =~= q);
            assert(first =~= seq![r4.const_lin@, e.l@, e.r@, e.o@, e.s1@, e.s2@]);
        }
        res
    }

    /// The fold challenge.
    fn fold_challenge(
        &self,
        inp: &ProofInputs,
        zeta: &Fr,
        digests: &[BN254G1Affine],
        claimed: &[Fr],
        z_shifted: &Fr,
    ) -> (res: Fr)
        requires
            zeta@ == self.key().round3(inp@).zeta,
            circuit::bn_points(digests@) == self.key().digests(inp@),
            fields::vals(claimed@) == self.key().claimed(inp@),
            z_shifted@ == self.key().round4(inp@).openings.zw,
        ensures
            res.wf(),
            res@ == self.key().gamma_fold(inp@),
    {
        let mut ids: Vec<String> = Vec::new();
        ids.push("gamma".to_owned());
        assert(ids@.map_values(|s: String| s@) =~= seq!["gamma"@]);
        let mut transcript = Transcript::new(ids);
        prover::bind_scalar(&mut transcript, "gamma", zeta);
        prover::bind_points(&mut transcript, "gamma", digests);
        prover::bind_scalars(&mut transcript, "gamma", claimed);
        prover::bind_scalar(&mut transcript, "gamma", z_shifted);
        proof {
            reveal(Key::fold_transcript);
        }
        prover::challenge_scalar(&mut transcript, "gamma")
    }
}

/// Append a polynomial.
fn push_poly<'a>(v: &mut Vec<&'a [Fr]>, p: &'a [Fr])
    requires
        slices_wf(old(v)@),
        fields::all_wf(p@),
    ensures
        slices_wf(final(v)@),
        final(v)@.len() == old(v)@.len() + 1,
        polynomial::slice_vals(final(v)@) == polynomial::slice_vals(old(v)@).push(
            fields::vals(p@),
        ),
{
    let ghost start = v@;
    v.push(p);
    assert(polynomial::slice_vals(v@) =~= polynomial::slice_vals(start).push(fields::vals(p@)));
}

/// Append polynomials.
fn append_polys<'a>(v: &mut Vec<&'a [Fr]>, polys: &'a Vec<Vec<Fr>>)
    requires
        slices_wf(old(v)@),
        circuit::vecs_wf(polys@),
    ensures
        slices_wf(final(v)@),
        final(v)@.len() == old(v)@.len() + polys@.len(),
        polynomial::slice_vals(final(v)@) == polynomial::slice_vals(old(v)@) + circuit::vec_vals(
            polys@,
        ),
{
    let ghost start = polynomial::slice_vals(v@);
    let ghost n0 = v@.len();
    let ghost ps = circuit::vec_vals(polys@);
    assert(start + ps.take(0) =~= start);
    for i in 0..polys.len()
        invariant
            slices_wf(v@),
            circuit::vecs_wf(polys@),
            ps == circuit::vec_vals(polys@),
            v@.len() == n0 + i,
            polynomial::slice_vals(v@) == start + ps.take(i as int),
    {
        assert(fields::all_wf(polys@[i as int]@));
        push_poly(v, polys[i].as_slice());
        assert(start + ps.take(i + 1) =~= (start + ps.take(i as int)).push(ps[i as int]));
    }
    assert(ps.take(polys@.len() as int) =~= ps);
}

/// The folded polynomial has a coefficient, and no more than `n + 3`.
proof fn lemma_fold_len(key: Key, inp: Inputs, blinded: bool)
    requires
        key.circuit.wf(),
        key.circuit.n() >= 6,
        key.round3(inp).h.len() >= 3 * (key.circuit.n() + 2),
        ({
            let wit = key.witness(inp);
            let n = key.circuit.n();
            &&& wit.l.len() == prover::spliced_len(n, 2, blinded)
            &&& wit.r.len() == prover::spliced_len(n, 2, blinded)
            &&& wit.o.len() == prover::spliced_len(n, 2, blinded)
            &&& wit.z.len() == prover::spliced_len(n, 3, blinded)
            &&& forall|j: int| 0 <= j < wit.bsb22.len() ==> (#[trigger] wit.bsb22[j]).len() == n
        }),
    ensures
        1 <= polynomial::longest(key.fold_polys(inp)) <= key.circuit.n() + prover::srs_excess(
            blinded,
        ),
        key.fold_polys(inp).len() == 15 + bsb22_count(key, inp) + key.circuit.qcp.len(),
{
    reveal(Key::fold_polys);
    reveal(Key::lin_polys);
    let polys = key.fold_polys(inp);
    let c = key.circuit;
    let n = c.n();
    let wit = key.witness(inp);
    let m = bsb22_count(key, inp);
    let k = n + prover::srs_excess(blinded);
    let h = key.round3(inp).h;
    assert(key.part(h, 0).len() == n + 2);
    assert(key.part(h, 1).len() == n + 2);
    assert(key.part(h, 2).len() == n + 2);
    let lin = c.lin_polys(wit.z, key.part(h, 0), key.part(h, 1), key.part(h, 2));
    assert forall|j: int| 0 <= j < polys.len() implies (#[trigger] polys[j]).len() <= k by {
        if j < 10 {
            assert(polys[j] == lin[j]);
        } else if j < 10 + m {
            assert(polys[j] == wit.bsb22[j - 10]);
        } else if j < 15 + m {
            assert(polys[j] == seq![wit.l, wit.r, wit.o, c.s1, c.s2][j - 10 - m]);
        } else {
            assert(polys[j] == c.qcp[j - 15 - m]);
            assert(circuit::is_poly(c.qcp[j - 15 - m], n));
        }
    }
    polynomial::lemma_longest_bound(polys, k);
    polynomial::lemma_longest(polys);
    assert(polys[0] == c.ql);
}

impl PlonkProver {
    /// The polynomials and scalars of the fold.
    pub(crate) fn fold_terms<'a>(
        &'a self,
        inp: &ProofInputs,
        wit: &'a WitnessPolys,
        h: &'a [Fr],
        ch: &ProofChallenges,
        r4: &OpeningRound,
        powers: &[Fr],
    ) -> (res: (Vec<&'a [Fr]>, Vec<Fr>))
        requires
            self.wf(),
            self.key().circuit.n() >= 6,
            wit.fits(self.key().circuit.n(), inp.blinding is Some),
            wit@ == self.key().witness(inp@),
            fields::all_wf(h@),
            h@.len() >= 3 * (self.key().circuit.n() + 2),
            fields::vals(h@) == self.key().round3(inp@).h,
            ch.is(self.key(), inp@),
            r4.is(self.key(), inp@),
            fields::all_wf(powers@),
            powers@.len() == 6 + self.key().circuit.qcp.len(),
            fields::vals(powers@) == linearization::field_powers(
                self.key().gamma_fold(inp@),
                6 + self.key().circuit.qcp.len(),
            ),
        ensures
            res.0@.len() == res.1@.len(),
            slices_wf(res.0@),
            fields::all_wf(res.1@),
            polynomial::slice_vals(res.0@) == self.key().fold_polys(inp@),
            fields::vals(res.1@) == self.key().fold_scalars(inp@),
    {
        let c = &self.cached;
        let (mut polys, mut scalars) = self.linearization(
            inp,
            wit,
            h,
            ch,
            &r4.openings,
            r4.qcp_zeta.as_slice(),
        );
        let ghost lin = polynomial::slice_vals(polys@);
        push_poly(&mut polys, wit.l.as_slice());
        push_poly(&mut polys, wit.r.as_slice());
        push_poly(&mut polys, wit.o.as_slice());
        push_poly(&mut polys, c.s1_coeffs.as_slice());
        push_poly(&mut polys, c.s2_coeffs.as_slice());
        let ghost mid = polynomial::slice_vals(polys@);
        append_polys(&mut polys, &c.qcp_coeffs);
        let tail = vstd::slice::slice_subrange(powers, 1, powers.len());
        append_scalars(&mut scalars, tail, tail.len());
        proof {
            assert(mid =~= lin + seq![
                wit@.l,
                wit@.r,
                wit@.o,
                self.key().circuit.s1,
                self.key().circuit.s2,
            ]);
            assert(fields::vals(tail@).take(tail@.len() as int) =~= fields::vals(powers@).skip(1));
            reveal(Key::fold_polys);
            reveal(Key::fold_scalars);
        }
        (polys, scalars)
    }

    /// The combination of the polynomials, computed here.
    pub(crate) fn combine_terms(
        &self,
        inp: &ProofInputs,
        wit: &WitnessPolys,
        h: &[Fr],
        ch: &ProofChallenges,
        r4: &OpeningRound,
        start: &FoldStart,
    ) -> (res: Vec<Fr>)
        requires
            self.wf(),
            self.key().circuit.n() >= 6,
            inp.device.combination is None,
            wit.fits(self.key().circuit.n(), inp.blinding is Some),
            wit@ == self.key().witness(inp@),
            fields::all_wf(h@),
            h@.len() >= 3 * (self.key().circuit.n() + 2),
            fields::vals(h@) == self.key().round3(inp@).h,
            ch.is(self.key(), inp@),
            r4.is(self.key(), inp@),
            start.is(self.key(), inp@),
        ensures
            fields::all_wf(res@),
            fields::vals(res@) == self.key().combination(inp@),
            1 <= res@.len() <= self.key().circuit.n() + prover::srs_excess(inp.blinding is Some),
    {
        let powers = circuit::power_table(&start.gamma_fold, start.claimed.len());
        assert(fields::vals(powers@).len() == start.claimed@.len());
        let (polys, scalars) = self.fold_terms(inp, wit, h, ch, r4, powers.as_slice());
        let res = linearization::combine(polys.as_slice(), scalars.as_slice());
        proof {
            lemma_fold_len(self.key(), inp@, inp.blinding is Some);
            assert(fields::vals(res@).len() == res@.len());
        }
        res
    }

    /// The folded polynomial: the combination less the fold of the claimed values.
    fn less_claimed(&self, inp: &ProofInputs, combination: Vec<Fr>, start: &FoldStart) -> (res: Vec<
        Fr,
    >)
        requires
            fields::all_wf(combination@),
            fields::vals(combination@) == self.key().combination(inp@),
            combination@.len() >= 1,
            start.is(self.key(), inp@),
        ensures
            fields::all_wf(res@),
            fields::vals(res@) == self.key().folded(inp@),
            res@.len() == combination@.len(),
    {
        let powers = circuit::power_table(&start.gamma_fold, start.claimed.len());
        assert(fields::vals(powers@).len() == start.claimed@.len());
        let correction = linearization::eval_dot(powers.as_slice(), start.claimed.as_slice());
        let mut res = combination;
        let ghost before = fields::vals(res@);
        let first = res[0].sub(&correction);
        res.set(0, first);
        proof {
            reveal(Key::folded);
            assert(fields::vals(res@) =~= linearization::less_constant(before, correction@));
        }
        res
    }
}

impl PlonkProver {
    /// The commitments and values that are folded, and the fold challenge.
    pub(crate) fn start_fold(
        &self,
        inp: &ProofInputs,
        ch: &ProofChallenges,
        points: &ProofPoints,
        r4: &OpeningRound,
    ) -> (res: FoldStart)
        requires
            self.wf(),
            inp.fits(self.key()),
            ch.is(self.key(), inp@),
            points.is(self.key(), inp@),
            r4.is(self.key(), inp@),
        ensures
            res.is(self.key(), inp@),
    {
        let lin = self.commit_linearized(inp, points, ch, r4);
        let digests = self.collect_digests(inp, points, lin);
        let claimed = self.collect_claimed(inp, r4);
        let gamma_fold = self.fold_challenge(
            inp,
            &ch.zeta,
            digests.as_slice(),
            claimed.as_slice(),
            &r4.openings.z_shifted,
        );
        FoldStart { gamma_fold, digests, claimed }
    }

    /// The quotients of both openings.
    pub(crate) fn divide_openings(
        &self,
        inp: &ProofInputs,
        wit: &WitnessPolys,
        ch: &ProofChallenges,
        r4: &OpeningRound,
        start: &FoldStart,
        combination: Vec<Fr>,
    ) -> (res: (Vec<Fr>, Vec<Fr>))
        requires
            self.wf(),
            self.key().circuit.n() >= 6,
            wit.fits(self.key().circuit.n(), inp.blinding is Some),
            wit@ == self.key().witness(inp@),
            ch.is(self.key(), inp@),
            r4.is(self.key(), inp@),
            start.is(self.key(), inp@),
            fields::all_wf(combination@),
            fields::vals(combination@) == self.key().combination(inp@),
            1 <= combination@.len() <= self.key().circuit.n() + prover::srs_excess(
                inp.blinding is Some,
            ),
        ensures
            fields::all_wf(res.0@),
            fields::all_wf(res.1@),
            (fields::vals(res.0@), fields::vals(res.1@)) == self.key().opening_quotients(inp@),
            res.0@.len() <= self.key().circuit.n() + prover::srs_excess(inp.blinding is Some),
            res.1@.len() <= self.key().circuit.n() + prover::srs_excess(inp.blinding is Some),
    {
        let folded = self.less_claimed(inp, combination, start);
        let (batch, _r) = Polynomial::new(folded).div_by_linear(&ch.zeta);
        let zeta_omega = ch.zeta.mul(&self.cached.domain.omega);
        let mut z = vstd::slice::slice_to_vec(wit.z.as_slice());
        let first = z[0].sub(&r4.openings.z_shifted);
        z.set(0, first);
        proof {
            reveal(Key::opening_quotients);
            reveal(Key::z_less_opening);
            assert(fields::vals(z@) =~= linearization::less_constant(
                fields::vals(wit.z@),
                r4.openings.z_shifted@,
            ));
        }
        let ghost folded_view = self.key().folded(inp@);
        let ghost z_view = fields::vals(z@);
        let (shifted, _s) = Polynomial::new(z).div_by_linear(&zeta_omega);
        proof {
            assert(batch@ =~= linearization::divided(folded_view, ch.zeta@));
            assert(shifted@ =~= linearization::divided(z_view, zeta_omega@));
        }
        (batch.coeffs, shifted.coeffs)
    }

    /// Commit to the quotients of both openings.
    pub(crate) fn commit_openings(&self, inp: &ProofInputs, q: &(Vec<Fr>, Vec<Fr>)) -> (res: [BN254G1Affine;
        2])
        requires
            self.wf(),
            inp.device.openings is None,
            fields::all_wf(q.0@),
            fields::all_wf(q.1@),
            (fields::vals(q.0@), fields::vals(q.1@)) == self.key().opening_quotients(inp@),
            q.0@.len() <= self.key().srs_canonical.len(),
            q.1@.len() <= self.key().srs_canonical.len(),
        ensures
            circuit::bn_points_wf(res@),
            (res[0]@, res[1]@) == self.key().openings(inp@),
    {
        proof {
            assert(self.cached.canonical_points().len() == self.cached.srs_canonical@.len());
        }
        let srs = self.cached.srs_canonical.as_slice();
        [
            commit::commit_canonical(srs, q.0.as_slice()).to_bn254(),
            commit::commit_canonical(srs, q.1.as_slice()).to_bn254(),
        ]
    }

    /// The result of round 5 from its commitments.
    pub(crate) fn end_fold(&self, inp: &ProofInputs, start: FoldStart, openings: [BN254G1Affine; 2]) -> (res:
        FoldRound)
        requires
            start.is(self.key(), inp@),
            circuit::bn_points_wf(openings@),
            (openings[0]@, openings[1]@) == self.key().openings(inp@),
        ensures
            res.is(self.key(), inp@),
    {
        proof {
            reveal(Key::round5);
            assert(openings@[0].wf() && openings@[1].wf());
        }
        FoldRound {
            gamma_fold: start.gamma_fold,
            digests: start.digests,
            batch_h: openings[0],
            z_shifted_h: openings[1],
        }
    }

    /// Round 5: fold all openings, and commit to the quotients of both openings.
    pub fn round5(
        &self,
        inp: &ProofInputs,
        wit: &WitnessPolys,
        h: &[Fr],
        ch: &ProofChallenges,
        points: &ProofPoints,
        r4: &OpeningRound,
    ) -> (res: FoldRound)
        requires
            self.wf(),
            inp.fits(self.key()),
            inp.device.combination is None,
            inp.device.openings is None,
            prover::can_prove(self.key(), inp.blinding is Some),
            wit.fits(self.key().circuit.n(), inp.blinding is Some),
            wit@ == self.key().witness(inp@),
            fields::all_wf(h@),
            h@.len() >= 3 * (self.key().circuit.n() + 2),
            fields::vals(h@) == self.key().round3(inp@).h,
            ch.is(self.key(), inp@),
            points.is(self.key(), inp@),
            r4.is(self.key(), inp@),
        ensures
            res.is(self.key(), inp@),
    {
        let start = self.start_fold(inp, ch, points, r4);
        let combination = self.combine_terms(inp, wit, h, ch, r4, &start);
        let q = self.divide_openings(inp, wit, ch, r4, &start, combination);
        let openings = self.commit_openings(inp, &q);
        self.end_fold(inp, start, openings)
    }

    /// The last challenge.
    fn last_challenge(
        &self,
        inp: &ProofInputs,
        transcript: Transcript,
        points: &ProofPoints,
        r5: &FoldRound,
    ) -> (res: Fr)
        requires
            transcript.wf(),
            transcript@ == self.key().round3(inp@).transcript,
            transcript@.pending == rounds::challenge_names().skip(4),
            points.is(self.key(), inp@),
            r5.is(self.key(), inp@),
        ensures
            res.wf(),
            res@ == rounds::challenge_value(self.key().u_transcript(inp@).next()),
    {
        let powers = circuit::power_table(&r5.gamma_fold, r5.digests.len());
        assert(fields::vals(powers@).len() == r5.digests@.len());
        let folded_digest = msm_points(r5.digests.as_slice(), powers.as_slice());
        let mut transcript = transcript;
        prover::bind_scalar(&mut transcript, "u", &r5.gamma_fold);
        prover::bind_point(&mut transcript, "u", &folded_digest);
        prover::bind_point(&mut transcript, "u", &points.z);
        prover::bind_point(&mut transcript, "u", &r5.batch_h);
        prover::bind_point(&mut transcript, "u", &r5.z_shifted_h);
        proof {
            reveal(Key::u_transcript);
            assert(self.key().digests(inp@).len() == r5.digests@.len());
        }
        prover::challenge_scalar(&mut transcript, "u")
    }
}

/// The exchange form of scalars.
fn to_numbers(s: &[Fr]) -> (res: Vec<BN254Fr>)
    ensures
        plonk_proof::numbers(res@) == fields::vals(s@),
{
    let mut res: Vec<BN254Fr> = Vec::with_capacity(s.len());
    for i in 0..s.len()
        invariant
            res@.len() == i,
            forall|j: int| 0 <= j < i ==> (#[trigger] res@[j])@ == s@[j]@,
    {
        res.push(s[i].to_bn254fr());
    }
    assert(plonk_proof::numbers(res@) =~= fields::vals(s@));
    res
}

/// A proof is the one that the rounds give, with all coordinates reduced.
pub open spec fn is_proof(key: Key, inp: Inputs, p: PlonkProof) -> bool {
    &&& p@ == key.honest_proof(inp)
    &&& circuit::bn_points_wf(p.lro@)
    &&& circuit::bn_points_wf(p.h@)
    &&& circuit::bn_points_wf(p.bsb22_commitments@)
    &&& p.z.wf()
    &&& p.batched_proof.h.wf()
    &&& p.z_shifted_opening.h.wf()
    &&& p.batched_proof.claimed_values@.len() == 6 + key.circuit.qcp.len()
    &&& is_proof_by_field(key, inp, p)
}

/// Every field of a proof is what the rounds give for it.
pub open spec fn is_proof_by_field(key: Key, inp: Inputs, p: PlonkProof) -> bool {
    let want = key.honest_proof(inp);
    &&& want.lro.len() == 3 && forall|i: int| 0 <= i < 3 ==> (#[trigger] p.lro[i])@ == want.lro[i]
    &&& want.h.len() == 3 && forall|i: int| 0 <= i < 3 ==> (#[trigger] p.h[i])@ == want.h[i]
    &&& p.z@ == want.z
    &&& p.bsb22_commitments@.len() == inp.commitments.len()
    &&& forall|j: int|
        0 <= j < inp.commitments.len() ==> (#[trigger] p.bsb22_commitments@[j])@
            == inp.commitments[j]
    &&& p.batched_proof.h@ == want.batch_h
    &&& p.batched_proof.claimed_values@.len() == want.claimed.len()
    &&& forall|j: int|
        0 <= j < want.claimed.len() ==> (#[trigger] p.batched_proof.claimed_values@[j])@
            == want.claimed[j]
    &&& p.z_shifted_opening.h@ == want.z_shifted_h
    &&& p.z_shifted_opening.claimed_value@ == want.z_shifted
}

/// A proof that holds what the rounds gave is the proof.
proof fn lemma_assembled(
    key: Key,
    inp: Inputs,
    p: PlonkProof,
    points: ProofPoints,
    r4: OpeningRound,
    r5: FoldRound,
)
    requires
        points.is(key, inp),
        r4.is(key, inp),
        r5.is(key, inp),
        p.lro@ == seq![points.l, points.r, points.o],
        p.h@ == seq![points.h0, points.h1, points.h2],
        p.z == points.z,
        circuit::bn_points(p.bsb22_commitments@) == inp.commitments,
        p.batched_proof.h == r5.batch_h,
        plonk_proof::numbers(p.batched_proof.claimed_values@) == key.claimed(inp),
        p.z_shifted_opening.h == r5.z_shifted_h,
        p.z_shifted_opening.claimed_value@ == r4.openings.z_shifted@,
        p.batched_proof.claimed_values@.len() == 6 + key.circuit.qcp.len(),
        circuit::bn_points_wf(p.bsb22_commitments@),
    ensures
        is_proof(key, inp, p),
{
    let want = key.honest_proof(inp);
    assert(circuit::bn_points(p.lro@) =~= want.lro);
    assert(circuit::bn_points(p.h@) =~= want.h);
    assert forall|i: int| 0 <= i < 3 implies (#[trigger] p.lro[i])@ == want.lro[i] by {
        assert(circuit::bn_points(p.lro@)[i] == p.lro@[i]@);
    }
    assert forall|i: int| 0 <= i < 3 implies (#[trigger] p.h[i])@ == want.h[i] by {
        assert(circuit::bn_points(p.h@)[i] == p.h@[i]@);
    }
    let points = circuit::bn_points(p.bsb22_commitments@);
    assert(points.len() == p.bsb22_commitments@.len());
    assert forall|j: int| 0 <= j < inp.commitments.len() implies (
    #[trigger] p.bsb22_commitments@[j])@ == inp.commitments[j] by {
        assert(points[j] == p.bsb22_commitments@[j]@);
    }
    let values = plonk_proof::numbers(p.batched_proof.claimed_values@);
    assert(values.len() == p.batched_proof.claimed_values@.len());
    assert forall|j: int| 0 <= j < want.claimed.len() implies (
    #[trigger] p.batched_proof.claimed_values@[j])@ == want.claimed[j] by {
        assert(values[j] == p.batched_proof.claimed_values@[j]@);
    }
}

impl PlonkProver {
    /// The proof from what the rounds gave.
    pub(crate) fn assemble(
        &self,
        inp: ProofInputs,
        points: &ProofPoints,
        r4: &OpeningRound,
        r5: &FoldRound,
    ) -> (res: PlonkProof)
        requires
            points.is(self.key(), inp@),
            circuit::bn_points_wf(inp.commitments@),
            r4.is(self.key(), inp@),
            r5.is(self.key(), inp@),
        ensures
            is_proof(self.key(), inp@, res),
    {
        let ghost view = inp@;
        let claimed = self.collect_claimed(&inp, r4);
        let claimed_values = to_numbers(claimed.as_slice());
        assert(plonk_proof::numbers(claimed_values@).len() == claimed@.len());
        let res = PlonkProof {
            lro: [points.l, points.r, points.o],
            h: [points.h0, points.h1, points.h2],
            z: points.z,
            bsb22_commitments: inp.commitments,
            batched_proof: BatchOpeningProof { h: r5.batch_h, claimed_values },
            z_shifted_opening: OpeningProof {
                h: r5.z_shifted_h,
                claimed_value: r4.openings.z_shifted.to_bn254fr(),
            },
        };
        proof {
            lemma_assembled(self.key(), view, res, *points, *r4, *r5);
        }
        res
    }

    /// Rounds 2 to 5 and the last challenge.
    fn finish(&self, inp: ProofInputs, r1: WireRound) -> (res: Result<
        (PlonkProof, Fr),
        ProveError,
    >)
        requires
            self.wf(),
            inp.fits(self.key()),
            inp.device == prover::no_results(),
            prover::can_prove(self.key(), inp.blinding is Some),
            r1.is(self.key(), inp@),
            self.key().permutation(inp@).invertible(),
        ensures
            match res {
                Ok((p, u)) => {
                    &&& self.key().permutation(inp@).satisfied()
                    &&& is_proof(self.key(), inp@, p)
                    &&& u.wf()
                    &&& u@ == rounds::challenge_value(self.key().u_transcript(inp@).next())
                },
                Err(ProveError::GrandProduct) => !self.key().permutation(inp@).satisfied(),
            },
    {
        let (l, r, o) = (r1.l, r1.r, r1.o);
        let (gamma, beta) = (r1.gamma, r1.beta);
        let r2 = match self.round2(&inp, r1) {
            Ok(r2) => r2,
            Err(e) => {
                return Err(e);
            },
        };
        let (z, alpha) = (r2.z, r2.alpha);
        let wit = self.witness_polys(&inp, r2.z_rows.as_slice());
        let r3 = self.round3(&inp, &wit, &gamma, &beta, r2);
        let points = ProofPoints { l, r, o, z, h0: r3.h0, h1: r3.h1, h2: r3.h2 };
        let ch = ProofChallenges { gamma, beta, alpha, zeta: r3.zeta };
        let r4 = self.round4(&inp, &wit, r3.h.as_slice(), &ch);
        let r5 = self.round5(&inp, &wit, r3.h.as_slice(), &ch, &points, &r4);
        let u = self.last_challenge(&inp, r3.transcript, &points, &r5);
        Ok((self.assemble(inp, &points, &r4, &r5), u))
    }

    /// Prove as `prove` does, and return the last challenge with the proof.
    pub fn prove_with_challenge(
        &self,
        l: &[BN254Fr],
        r: &[BN254Fr],
        o: &[BN254Fr],
        public_inputs: &[BN254Fr],
        bsb22_commitments: &[BN254G1Affine],
        bsb22_polys: &[Vec<BN254Fr>],
        seed: Option<[u8; 32]>,
    ) -> (res: Result<(PlonkProof, Fr), ProveError>)
        requires
            self.wf(),
            prover::inputs_fit(
                self.key(),
                l@,
                r@,
                o@,
                public_inputs@,
                bsb22_commitments@,
                bsb22_polys@,
            ),
            prover::can_prove(self.key(), seed is Some),
            self.key().permutation(
                prover::given_inputs(
                    self.key(),
                    l@,
                    r@,
                    o@,
                    public_inputs@,
                    bsb22_commitments@,
                    bsb22_polys@,
                    seed,
                ),
            ).invertible(),
        ensures
            ({
                let inp = prover::given_inputs(
                    self.key(),
                    l@,
                    r@,
                    o@,
                    public_inputs@,
                    bsb22_commitments@,
                    bsb22_polys@,
                    seed,
                );
                match res {
                    Ok((p, u)) => {
                        &&& self.key().permutation(inp).satisfied()
                        &&& is_proof(self.key(), inp, p)
                        &&& u.wf()
                        &&& u@ == rounds::challenge_value(self.key().u_transcript(inp).next())
                    },
                    Err(ProveError::GrandProduct) => !self.key().permutation(inp).satisfied(),
                }
            }),
    {
        let inp = self.read_inputs(
            l,
            r,
            o,
            public_inputs,
            bsb22_commitments,
            bsb22_polys,
            seed,
        );
        let r1 = self.round1(&inp);
        self.finish(inp, r1)
    }

    /// Prove that the rows satisfy the circuit. With a seed the proof is blinded
    /// with scalars derived from it. The grand product is computed here, and rows that
    /// break a copy are refused; one that comes from a device is taken as it is.
    pub fn prove(
        &self,
        l: &[BN254Fr],
        r: &[BN254Fr],
        o: &[BN254Fr],
        public_inputs: &[BN254Fr],
        bsb22_commitments: &[BN254G1Affine],
        bsb22_polys: &[Vec<BN254Fr>],
        seed: Option<[u8; 32]>,
    ) -> (res: Result<PlonkProof, ProveError>)
        requires
            self.wf(),
            prover::inputs_fit(
                self.key(),
                l@,
                r@,
                o@,
                public_inputs@,
                bsb22_commitments@,
                bsb22_polys@,
            ),
            prover::can_prove(self.key(), seed is Some),
            self.key().permutation(
                prover::given_inputs(
                    self.key(),
                    l@,
                    r@,
                    o@,
                    public_inputs@,
                    bsb22_commitments@,
                    bsb22_polys@,
                    seed,
                ),
            ).invertible(),
        ensures
            ({
                let inp = prover::given_inputs(
                    self.key(),
                    l@,
                    r@,
                    o@,
                    public_inputs@,
                    bsb22_commitments@,
                    bsb22_polys@,
                    seed,
                );
                match res {
                    Ok(p) => self.key().permutation(inp).satisfied() && is_proof(
                        self.key(),
                        inp,
                        p,
                    ),
                    Err(ProveError::GrandProduct) => !self.key().permutation(inp).satisfied(),
                }
            }),
    {
        match self.prove_with_challenge(
            l,
            r,
            o,
            public_inputs,
            bsb22_commitments,
            bsb22_polys,
            seed,
        ) {
            Ok((p, _u)) => Ok(p),
            Err(e) => Err(e),
        }
    }

    /// Prove as `prove` does, unless a row has a zero denominator under the
    /// challenges of round 1. To see that takes a first round of its own.
    pub fn prove_checked(
        &self,
        l: &[BN254Fr],
        r: &[BN254Fr],
        o: &[BN254Fr],
        public_inputs: &[BN254Fr],
        bsb22_commitments: &[BN254G1Affine],
        bsb22_polys: &[Vec<BN254Fr>],
        seed: Option<[u8; 32]>,
    ) -> (res: Option<Result<PlonkProof, ProveError>>)
        requires
            self.wf(),
            prover::inputs_fit(
                self.key(),
                l@,
                r@,
                o@,
                public_inputs@,
                bsb22_commitments@,
                bsb22_polys@,
            ),
            prover::can_prove(self.key(), seed is Some),
        ensures
            ({
                let inp = prover::given_inputs(
                    self.key(),
                    l@,
                    r@,
                    o@,
                    public_inputs@,
                    bsb22_commitments@,
                    bsb22_polys@,
                    seed,
                );
                match res {
                    None => !self.key().permutation(inp).invertible(),
                    Some(Ok(p)) => {
                        &&& self.key().permutation(inp).invertible()
                        &&& self.key().permutation(inp).satisfied()
                        &&& is_proof(self.key(), inp, p)
                    },
                    Some(Err(ProveError::GrandProduct)) => {
                        &&& self.key().permutation(inp).invertible()
                        &&& !self.key().permutation(inp).satisfied()
                    },
                }
            }),
    {
        let inp = self.read_inputs(
            l,
            r,
            o,
            public_inputs,
            bsb22_commitments,
            bsb22_polys,
            seed,
        );
        let r1 = self.round1(&inp);
        if !self.check_denominators(&inp, &r1) {
            return None;
        }
        Some(
            self.prove(l, r, o, public_inputs, bsb22_commitments, bsb22_polys, seed),
        )
    }
}

} // verus!
