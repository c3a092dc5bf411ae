//! Single steps of a proof on given values.

use crate::circuit;
use crate::circuit::Circuit;
use crate::domain;
use crate::domain::Domain;
use crate::fields;
use crate::fields::Fr;
use crate::grand_product;
use crate::grand_product::ProveError;
use crate::linearization;
use crate::linearization::OpeningValues;
use crate::polynomial;
use crate::polynomial::Polynomial;
use crate::prover::PlonkProver;
use crate::quotient;
use crate::quotient::{Challenges, Witness};
use crate::BN254G1Affine;
use vstd::prelude::*;

verus! {

/// A copy of some polynomials.
fn copy_polys(polys: &[Vec<Fr>]) -> (res: Vec<Vec<Fr>>)
    ensures
        res@.len() == polys@.len(),
        forall|j: int| 0 <= j < polys@.len() ==> (#[trigger] res@[j])@ == polys@[j]@,
{
    let mut res: Vec<Vec<Fr>> = Vec::with_capacity(polys.len());
    for i in 0..polys.len()
        invariant
            res@.len() == i,
            forall|j: int| 0 <= j < i ==> (#[trigger] res@[j])@ == polys@[j]@,
    {
        res.push(vstd::slice::slice_to_vec(polys[i].as_slice()));
    }
    res
}

impl PlonkProver {
    /// The grand product of a permutation on the domain of the circuit.
    pub fn compute_grand_product(
        &self,
        l: &[Fr],
        r: &[Fr],
        o: &[Fr],
        s1: &[Fr],
        s2: &[Fr],
        s3: &[Fr],
        beta: &Fr,
        gamma: &Fr,
        domain: &Domain,
        coset_shift: &Fr,
    ) -> (res: Result<Vec<Fr>, ProveError>)
        requires
            self.wf(),
            domain.size == self.key().circuit.n(),
            l@.len() == domain.size,
            r@.len() == domain.size,
            o@.len() == domain.size,
            s1@.len() == domain.size,
            s2@.len() == domain.size,
            s3@.len() == domain.size,
            fields::all_wf(l@),
            fields::all_wf(r@),
            fields::all_wf(o@),
            fields::all_wf(s1@),
            fields::all_wf(s2@),
            fields::all_wf(s3@),
            beta.wf(),
            gamma.wf(),
            coset_shift.wf(),
            grand_product::permutation(
                l@,
                r@,
                o@,
                s1@,
                s2@,
                s3@,
                self.cached.omega_powers@,
                *coset_shift,
                *beta,
                *gamma,
            ).invertible(),
        ensures
            ({
                let p = grand_product::permutation(
                    l@,
                    r@,
                    o@,
                    s1@,
                    s2@,
                    s3@,
                    self.cached.omega_powers@,
                    *coset_shift,
                    *beta,
                    *gamma,
                );
                match res {
                    Ok(z) => p.satisfied() && fields::all_wf(z@) && fields::vals(z@)
                        == p.products(),
                    Err(ProveError::GrandProduct) => !p.satisfied(),
                }
            }),
    {
        assert(fields::vals(self.cached.omega_powers@).len() == l@.len());
        grand_product::compute_grand_product(
            l,
            r,
            o,
            s1,
            s2,
            s3,
            beta,
            gamma,
            self.cached.omega_powers.as_slice(),
            coset_shift,
        )
    }

    /// The coefficients of the public input polynomial on a domain.
    pub fn compute_pi_polynomial(
        &self,
        pi: &[Fr],
        bsb22_commitments: &[BN254G1Affine],
        domain: &Domain,
    ) -> (res: Vec<Fr>)
        requires
            domain.primitive(),
            fields::all_wf(pi@),
            quotient::shorter(pi@.len(), self.data.nb_public_variables as nat) <= domain.size,
        ensures
            fields::all_wf(res@),
            fields::vals(res@) == domain::idft(
                quotient::pi_rows(
                    fields::vals(pi@),
                    self.data.nb_public_variables as nat,
                    circuit::bn_points(bsb22_commitments@),
                    self.data.commitment_constraint_indexes@,
                    domain.size as nat,
                ),
                domain.omega@,
            ),
            forall|i: int|
                0 <= i < domain.size ==> polynomial::feval(
                    fields::vals(res@),
                    #[trigger] fields::fpow(domain.omega@, i as nat),
                ) == quotient::public_value(
                    fields::vals(pi@),
                    self.data.nb_public_variables as nat,
                    circuit::bn_points(bsb22_commitments@),
                    self.data.commitment_constraint_indexes@,
                    i,
                ),
    {
        quotient::compute_pi_polynomial(
            pi,
            self.data.nb_public_variables,
            bsb22_commitments,
            self.data.commitment_constraint_indexes.as_slice(),
            domain,
        )
    }

    /// The coefficients of the quotient from those of the wires, the grand product
    /// and the BSB22 polynomials.
    pub fn compute_quotient(
        &self,
        l_coeffs: &[Fr],
        r_coeffs: &[Fr],
        o_coeffs: &[Fr],
        z_coeffs: &[Fr],
        bsb22_coeffs: &[Vec<Fr>],
        alpha: &Fr,
        beta: &Fr,
        gamma: &Fr,
        pi: &[Fr],
        bsb22_commitments: &[BN254G1Affine],
    ) -> (res: Vec<Fr>)
        requires
            self.wf(),
            self.key().circuit.shift != 0,
            l_coeffs@.len() <= self.key().circuit.big_n(),
            r_coeffs@.len() <= self.key().circuit.big_n(),
            o_coeffs@.len() <= self.key().circuit.big_n(),
            z_coeffs@.len() <= self.key().circuit.big_n(),
            forall|j: int|
                0 <= j < bsb22_coeffs@.len() ==> (#[trigger] bsb22_coeffs@[j])@.len()
                    <= self.key().circuit.big_n(),
            fields::all_wf(l_coeffs@),
            fields::all_wf(r_coeffs@),
            fields::all_wf(o_coeffs@),
            fields::all_wf(z_coeffs@),
            circuit::vecs_wf(bsb22_coeffs@),
            alpha.wf(),
            beta.wf(),
            gamma.wf(),
            fields::all_wf(pi@),
            quotient::shorter(pi@.len(), self.key().nb_pub) <= self.key().circuit.n(),
        ensures
            fields::all_wf(res@),
            ({
                let key = self.key();
                fields::vals(res@) == key.circuit.quotient(
                    (Witness {
                        l: fields::vals(l_coeffs@),
                        r: fields::vals(r_coeffs@),
                        o: fields::vals(o_coeffs@),
                        z: fields::vals(z_coeffs@),
                        pi: domain::idft(
                            quotient::pi_rows(
                                fields::vals(pi@),
                                key.nb_pub,
                                circuit::bn_points(bsb22_commitments@),
                                key.indexes,
                                key.circuit.n(),
                            ),
                            key.circuit.w,
                        ),
                        bsb22: circuit::vec_vals(bsb22_coeffs@),
                    }),
                    (Challenges { alpha: alpha@, beta: beta@, gamma: gamma@ }),
                )
            }),
    {
        let pi_coeffs = self.compute_pi_polynomial(pi, bsb22_commitments, &self.cached.domain);
        proof {
            quotient::lemma_pi_rows_len(
                fields::vals(pi@),
                self.key().nb_pub,
                circuit::bn_points(bsb22_commitments@),
                self.key().indexes,
                self.key().circuit.n(),
            );
            assert(fields::vals(pi_coeffs@).len() == self.key().circuit.n());
        }
        let bsb22 = copy_polys(bsb22_coeffs);
        assert(circuit::vec_vals(bsb22@) =~= circuit::vec_vals(bsb22_coeffs@));
        assert(circuit::vecs_wf(bsb22@));
        self.cached.compute_quotient(
            l_coeffs,
            r_coeffs,
            o_coeffs,
            z_coeffs,
            &bsb22,
            pi_coeffs.as_slice(),
            alpha,
            beta,
            gamma,
        )
    }

    /// The linearised polynomial from the openings and the polynomials.
    pub fn compute_linearization(
        &self,
        zeta: &Fr,
        alpha: &Fr,
        beta: &Fr,
        gamma: &Fr,
        openings: &OpeningValues,
        z_coeffs: &[Fr],
        ql_coeffs: &[Fr],
        qr_coeffs: &[Fr],
        qm_coeffs: &[Fr],
        qo_coeffs: &[Fr],
        qk_coeffs: &[Fr],
        s3_coeffs: &[Fr],
        qcp_zeta: &[Fr],
        bsb22_coeffs: &[Vec<Fr>],
        h0_coeffs: &[Fr],
        h1_coeffs: &[Fr],
        h2_coeffs: &[Fr],
        domain: &Domain,
        coset_shift: &Fr,
    ) -> (res: Polynomial)
        requires
            self.wf(),
            domain.wf(),
            domain.size == self.key().circuit.n(),
            zeta.wf(),
            alpha.wf(),
            beta.wf(),
            gamma.wf(),
            openings.wf(),
            fields::all_wf(z_coeffs@),
            fields::all_wf(ql_coeffs@),
            fields::all_wf(qr_coeffs@),
            fields::all_wf(qm_coeffs@),
            fields::all_wf(qo_coeffs@),
            fields::all_wf(qk_coeffs@),
            fields::all_wf(s3_coeffs@),
            fields::all_wf(qcp_zeta@),
            circuit::vecs_wf(bsb22_coeffs@),
            fields::all_wf(h0_coeffs@),
            fields::all_wf(h1_coeffs@),
            fields::all_wf(h2_coeffs@),
            coset_shift.wf(),
        ensures
            res.wf(),
            ({
                let c = Circuit { shift: coset_shift@, ..self.key().circuit };
                let ch = Challenges { alpha: alpha@, beta: beta@, gamma: gamma@ };
                let m = quotient::shorter(bsb22_coeffs@.len(), qcp_zeta@.len()) as int;
                res@ == linearization::combination(
                    seq![
                        fields::vals(ql_coeffs@),
                        fields::vals(qr_coeffs@),
                        fields::vals(qm_coeffs@),
                        fields::vals(qo_coeffs@),
                        fields::vals(qk_coeffs@),
                        fields::vals(s3_coeffs@),
                        fields::vals(z_coeffs@),
                        fields::vals(h0_coeffs@),
                        fields::vals(h1_coeffs@),
                        fields::vals(h2_coeffs@),
                    ] + circuit::vec_vals(bsb22_coeffs@).take(m),
                    c.lin_scalars(ch, zeta@, openings@) + fields::vals(qcp_zeta@).take(m),
                )
            }),
    {
        let ghost c = Circuit { shift: coset_shift@, ..self.key().circuit };
        let mut polys: Vec<&[Fr]> = Vec::with_capacity(10);
        polys.push(ql_coeffs);
        polys.push(qr_coeffs);
        polys.push(qm_coeffs);
        polys.push(qo_coeffs);
        polys.push(qk_coeffs);
        polys.push(s3_coeffs);
        polys.push(z_coeffs);
        polys.push(h0_coeffs);
        polys.push(h1_coeffs);
        polys.push(h2_coeffs);
        assert(polynomial::slice_vals(polys@) =~= seq![
            fields::vals(ql_coeffs@),
            fields::vals(qr_coeffs@),
            fields::vals(qm_coeffs@),
            fields::vals(qo_coeffs@),
            fields::vals(qk_coeffs@),
            fields::vals(s3_coeffs@),
            fields::vals(z_coeffs@),
            fields::vals(h0_coeffs@),
            fields::vals(h1_coeffs@),
            fields::vals(h2_coeffs@),
        ]);
        let bsb22 = copy_polys(bsb22_coeffs);
        assert(circuit::vec_vals(bsb22@) =~= circuit::vec_vals(bsb22_coeffs@));
        assert(circuit::vecs_wf(bsb22@));
        linearization::compute_linearization(
            domain,
            zeta,
            alpha,
            beta,
            gamma,
            coset_shift,
            openings,
            polys.as_slice(),
            &bsb22,
            qcp_zeta,
            Ghost(c),
        )
    }
}

} // verus!
