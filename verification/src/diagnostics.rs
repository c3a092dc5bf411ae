//! Diagnostics: values of a proof computed a second way, to hold against those that a
//! device computed.

use crate::bytes;
use crate::challenges;
use crate::circuit;
use crate::circuit::Circuit;
use crate::commit;
use crate::completeness;
use crate::fields;
use crate::fields::Fr;
use crate::grand_product;
use crate::grand_product::{Comparison, Permutation, ProveError};
use crate::linearization;
use crate::linearization::OpeningValues;
use crate::polynomial;
use crate::prover;
use crate::prover::{PlonkProver, WitnessPolys};
use crate::quotient;
use crate::quotient::{Challenges, Evals, PointValues};
use crate::rounds;
use crate::rounds::Key;
use crate::sha256;
use crate::transcript::TranscriptState;
use crate::BN254Fr;
use vstd::prelude::*;

verus! {

// ---------------------------------------------------------------------------
// The grand product
// ---------------------------------------------------------------------------

/// The transcript of the first round without blinding, with commitments to all rows.
pub open spec fn plain_transcript(
    key: Key,
    l: Seq<int>,
    r: Seq<int>,
    o: Seq<int>,
    pi: Seq<int>,
) -> TranscriptState {
    let t0 = rounds::bind_points(
        TranscriptState::start(rounds::challenge_names()),
        key.vk.in_order(),
    );
    rounds::bind_scalars(t0, pi).bind(
        crate::encode_point(commit::commitment(key.srs_lagrange, l)),
    ).bind(crate::encode_point(commit::commitment(key.srs_lagrange, r))).bind(
        crate::encode_point(commit::commitment(key.srs_lagrange, o)),
    )
}

/// The permutation argument under the challenges of that transcript.
pub open spec fn plain_permutation(
    key: Key,
    l: Seq<int>,
    r: Seq<int>,
    o: Seq<int>,
    pi: Seq<int>,
) -> Permutation {
    let t = plain_transcript(key, l, r, o, pi);
    let c = key.circuit;
    Permutation {
        l,
        r,
        o,
        s1: crate::domain::dft(c.s1, c.w),
        s2: crate::domain::dft(c.s2, c.w),
        s3: crate::domain::dft(c.s3, c.w),
        id: circuit::power_seq(c.w, c.n()),
        k1: c.shift,
        beta: rounds::challenge_value(t.advance().next()),
        gamma: rounds::challenge_value(t.next()),
    }
}

/// The rows and the challenges that a grand product is computed from.
pub struct PlainRows {
    pub l: Vec<Fr>,
    pub r: Vec<Fr>,
    pub o: Vec<Fr>,
    pub gamma: Fr,
    pub beta: Fr,
}

impl PlainRows {
    /// The rows are the given ones, and the challenges those of the first round without
    /// blinding.
    pub open spec fn is(self, key: Key, l: Seq<int>, r: Seq<int>, o: Seq<int>, pi: Seq<int>) -> bool {
        let p = plain_permutation(key, l, r, o, pi);
        &&& fields::all_wf(self.l@)
        &&& fields::all_wf(self.r@)
        &&& fields::all_wf(self.o@)
        &&& fields::vals(self.l@) == l
        &&& fields::vals(self.r@) == r
        &&& fields::vals(self.o@) == o
        &&& self.l@.len() == key.circuit.n()
        &&& self.r@.len() == key.circuit.n()
        &&& self.o@.len() == key.circuit.n()
        &&& self.gamma.wf()
        &&& self.beta.wf()
        &&& self.gamma@ == p.gamma
        &&& self.beta@ == p.beta
    }
}

impl PlonkProver {
    /// The first round without blinding.
    pub fn plain_rows(
        &self,
        l: &[BN254Fr],
        r: &[BN254Fr],
        o: &[BN254Fr],
        public_inputs: &[BN254Fr],
    ) -> (res: PlainRows)
        requires
            self.wf(),
            l@.len() == self.key().circuit.n(),
            r@.len() == self.key().circuit.n(),
            o@.len() == self.key().circuit.n(),
            self.key().srs_lagrange.len() >= self.key().circuit.n(),
        ensures
            res.is(
                self.key(),
                fields::residues(l@),
                fields::residues(r@),
                fields::residues(o@),
                fields::residues(public_inputs@),
            ),
    {
        let l_fr = fields::par_from_bn254fr(l);
        let r_fr = fields::par_from_bn254fr(r);
        let o_fr = fields::par_from_bn254fr(o);
        let pi_fr = fields::par_from_bn254fr(public_inputs);
        proof {
            assert(fields::vals(l_fr@).len() == l@.len());
            assert(fields::vals(r_fr@).len() == r@.len());
            assert(fields::vals(o_fr@).len() == o@.len());
            assert(self.cached.lagrange_points().len() == self.cached.srs_lagrange@.len());
        }
        let srs = self.cached.srs_lagrange.as_slice();
        let commit_l = commit::commit_lagrange(srs, l_fr.as_slice()).to_bn254();
        let commit_r = commit::commit_lagrange(srs, r_fr.as_slice()).to_bn254();
        let commit_o = commit::commit_lagrange(srs, o_fr.as_slice()).to_bn254();
        let mut transcript = prover::new_transcript();
        self.bind_public_data(&mut transcript, pi_fr.as_slice());
        prover::bind_point(&mut transcript, "gamma", &commit_l);
        prover::bind_point(&mut transcript, "gamma", &commit_r);
        prover::bind_point(&mut transcript, "gamma", &commit_o);
        let gamma = prover::challenge_scalar(&mut transcript, "gamma");
        let beta = prover::challenge_scalar(&mut transcript, "beta");
        PlainRows { l: l_fr, r: r_fr, o: o_fr, gamma, beta }
    }

    /// The permutation argument of the plain rows, on the prover's own tables.
    proof fn lemma_plain(
        self,
        rows: PlainRows,
        l: Seq<int>,
        r: Seq<int>,
        o: Seq<int>,
        pi: Seq<int>,
    )
        requires
            self.wf(),
            rows.is(self.key(), l, r, o, pi),
        ensures
            self.cached.s1@.len() == self.key().circuit.n(),
            self.cached.s2@.len() == self.key().circuit.n(),
            self.cached.s3@.len() == self.key().circuit.n(),
            self.cached.omega_powers@.len() == self.key().circuit.n(),
            grand_product::permutation(
                rows.l@,
                rows.r@,
                rows.o@,
                self.cached.s1@,
                self.cached.s2@,
                self.cached.s3@,
                self.cached.omega_powers@,
                self.cached.coset_shift,
                rows.beta,
                rows.gamma,
            ) == plain_permutation(self.key(), l, r, o, pi),
    {
        let c = self.key().circuit;
        assert(fields::vals(self.cached.s1@).len() == c.n());
        assert(fields::vals(self.cached.s2@).len() == c.n());
        assert(fields::vals(self.cached.s3@).len() == c.n());
        assert(fields::vals(self.cached.omega_powers@).len() == c.n());
    }

    /// Compare the grand product that a device computed with one computed here.
    pub fn debug_grand_product(
        &self,
        l: &[BN254Fr],
        r: &[BN254Fr],
        o: &[BN254Fr],
        public_inputs: &[BN254Fr],
        z_device: &[Fr],
    ) -> (res: Result<Comparison, ProveError>)
        requires
            self.wf(),
            l@.len() == self.key().circuit.n(),
            r@.len() == self.key().circuit.n(),
            o@.len() == self.key().circuit.n(),
            z_device@.len() == self.key().circuit.n(),
            self.key().srs_lagrange.len() >= self.key().circuit.n(),
            plain_permutation(
                self.key(),
                fields::residues(l@),
                fields::residues(r@),
                fields::residues(o@),
                fields::residues(public_inputs@),
            ).invertible(),
        ensures
            ({
                let p = plain_permutation(
                    self.key(),
                    fields::residues(l@),
                    fields::residues(r@),
                    fields::residues(o@),
                    fields::residues(public_inputs@),
                );
                match res {
                    Ok(c) => p.satisfied() && grand_product::is_comparison(
                        c,
                        z_device@,
                        fields::elements(p.products()),
                    ),
                    Err(ProveError::GrandProduct) => !p.satisfied(),
                }
            }),
    {
        let rows = self.plain_rows(l, r, o, public_inputs);
        proof {
            self.lemma_plain(
                rows,
                fields::residues(l@),
                fields::residues(r@),
                fields::residues(o@),
                fields::residues(public_inputs@),
            );
        }
        match grand_product::compute_grand_product(
            rows.l.as_slice(),
            rows.r.as_slice(),
            rows.o.as_slice(),
            self.cached.s1.as_slice(),
            self.cached.s2.as_slice(),
            self.cached.s3.as_slice(),
            &rows.beta,
            &rows.gamma,
            self.cached.omega_powers.as_slice(),
            &self.cached.coset_shift,
        ) {
            Ok(z) => {
                proof {
                    fields::lemma_elements(z@);
                    assert(fields::vals(z@).len() == rows.l@.len());
                }
                Ok(grand_product::compare_grand_products(z_device, z.as_slice()))
            },
            Err(e) => Err(e),
        }
    }

    /// Compare as `debug_grand_product` does, unless a row has a zero denominator.
    pub fn debug_grand_product_checked(
        &self,
        l: &[BN254Fr],
        r: &[BN254Fr],
        o: &[BN254Fr],
        public_inputs: &[BN254Fr],
        z_device: &[Fr],
    ) -> (res: Option<Result<Comparison, ProveError>>)
        requires
            self.wf(),
            l@.len() == self.key().circuit.n(),
            r@.len() == self.key().circuit.n(),
            o@.len() == self.key().circuit.n(),
            z_device@.len() == self.key().circuit.n(),
            self.key().srs_lagrange.len() >= self.key().circuit.n(),
        ensures
            ({
                let p = plain_permutation(
                    self.key(),
                    fields::residues(l@),
                    fields::residues(r@),
                    fields::residues(o@),
                    fields::residues(public_inputs@),
                );
                match res {
                    None => !p.invertible(),
                    Some(Ok(c)) => p.invertible() && p.satisfied() && grand_product::is_comparison(
                        c,
                        z_device@,
                        fields::elements(p.products()),
                    ),
                    Some(Err(ProveError::GrandProduct)) => p.invertible() && !p.satisfied(),
                }
            }),
    {
        let rows = self.plain_rows(l, r, o, public_inputs);
        let ghost p = plain_permutation(
            self.key(),
            fields::residues(l@),
            fields::residues(r@),
            fields::residues(o@),
            fields::residues(public_inputs@),
        );
        proof {
            self.lemma_plain(
                rows,
                fields::residues(l@),
                fields::residues(r@),
                fields::residues(o@),
                fields::residues(public_inputs@),
            );
        }
        if grand_product::check_invertible(
            rows.l.as_slice(),
            rows.r.as_slice(),
            rows.o.as_slice(),
            self.cached.s1.as_slice(),
            self.cached.s2.as_slice(),
            self.cached.s3.as_slice(),
            &rows.beta,
            &rows.gamma,
            Ghost(p),
        ) {
            Some(self.debug_grand_product(l, r, o, public_inputs, z_device))
        } else {
            None
        }
    }
}

// ---------------------------------------------------------------------------
// Rows
// ---------------------------------------------------------------------------

/// The rows of a proof: the wires, the grand product, the public inputs and the BSB22
/// polynomials.
pub struct Rows {
    pub l: Vec<Fr>,
    pub r: Vec<Fr>,
    pub o: Vec<Fr>,
    pub z: Vec<Fr>,
    pub pi: Vec<Fr>,
    pub bsb22: Vec<Vec<Fr>>,
}

impl Rows {
    /// All rows are there and reduced.
    pub open spec fn fits(self, n: nat) -> bool {
        &&& self.l@.len() == n
        &&& self.r@.len() == n
        &&& self.o@.len() == n
        &&& self.z@.len() == n
        &&& self.pi@.len() == n
        &&& fields::all_wf(self.l@)
        &&& fields::all_wf(self.r@)
        &&& fields::all_wf(self.o@)
        &&& fields::all_wf(self.z@)
        &&& fields::all_wf(self.pi@)
        &&& circuit::vecs_wf(self.bsb22@)
        &&& forall|k: int| 0 <= k < self.bsb22@.len() ==> (#[trigger] self.bsb22@[k])@.len() == n
    }

    /// The values on row `j`, with the selectors of the circuit at its point.
    pub open spec fn evals(self, c: Circuit, j: int) -> Evals {
        let x = fields::fpow(c.w, j as nat);
        Evals {
            l: self.l@[j]@,
            r: self.r@[j]@,
            o: self.o@[j]@,
            z: self.z@[j]@,
            zw: self.z@[(j + 1) % (c.n() as int)]@,
            ql: polynomial::feval(c.ql, x),
            qr: polynomial::feval(c.qr, x),
            qm: polynomial::feval(c.qm, x),
            qo: polynomial::feval(c.qo, x),
            fused: quotient::fused(
                self.pi@[j]@,
                polynomial::feval(c.qk, x),
                quotient::values_at(c.qcp, x),
                Seq::new(self.bsb22@.len(), |k: int| self.bsb22@[k]@[j]@),
                quotient::shorter(c.qcp.len(), self.bsb22@.len()),
            ),
            s1: polynomial::feval(c.s1, x),
            s2: polynomial::feval(c.s2, x),
            s3: polynomial::feval(c.s3, x),
        }
    }
}

/// The constraints on one row.
#[derive(Clone, Copy, Debug)]
pub struct RowReport {
    pub gate: Fr,
    pub perm: Fr,
    pub boundary: Fr,
    pub total: Fr,
}

impl PlonkProver {
    /// What an arithmetic gate adds to the wires on a row.
    fn fused_on_row(&self, rows: &Rows, j: usize, x: &Fr) -> (res: Fr)
        requires
            self.wf(),
            rows.fits(self.key().circuit.n()),
            j < self.key().circuit.n(),
            x.wf(),
            x@ == fields::fpow(self.key().circuit.w, j as nat),
        ensures
            res.wf(),
            res@ == rows.evals(self.key().circuit, j as int).fused,
    {
        let cached = &self.cached;
        let m: usize = if cached.qcp_coeffs.len() <= rows.bsb22.len() {
            cached.qcp_coeffs.len()
        } else {
            rows.bsb22.len()
        };
        let mut acc = rows.pi[j].add(&polynomial::eval_poly_at(cached.qk_coeffs.as_slice(), x));
        let ghost c = self.key().circuit;
        let ghost q = quotient::values_at(c.qcp, x@);
        let ghost b = Seq::new(rows.bsb22@.len(), |k: int| rows.bsb22@[k]@[j as int]@);
        for k in 0..m
            invariant
                self.wf(),
                cached == &self.cached,
                rows.fits(self.key().circuit.n()),
                j < self.key().circuit.n(),
                m <= cached.qcp_coeffs@.len(),
                m <= rows.bsb22@.len(),
                x.wf(),
                c == self.key().circuit,
                q == quotient::values_at(c.qcp, x@),
                b == Seq::new(rows.bsb22@.len(), |k: int| rows.bsb22@[k]@[j as int]@),
                acc.wf(),
                acc@ == quotient::fused(
                    rows.pi@[j as int]@,
                    polynomial::feval(c.qk, x@),
                    q,
                    b,
                    k as nat,
                ),
        {
            assert(fields::all_wf(cached.qcp_coeffs@[k as int]@));
            assert(fields::all_wf(rows.bsb22@[k as int]@));
            assert(rows.bsb22@[k as int]@.len() == self.key().circuit.n());
            let s = polynomial::eval_poly_at(cached.qcp_coeffs[k].as_slice(), x);
            acc = acc.add(&s.mul(&rows.bsb22[k][j]));
        }
        acc
    }

    /// The constraints on a row. Each of them is zero where the row holds.
    pub fn row_report(
        &self,
        rows: &Rows,
        j: usize,
        alpha: &Fr,
        beta: &Fr,
        gamma: &Fr,
    ) -> (res: RowReport)
        requires
            self.wf(),
            rows.fits(self.key().circuit.n()),
            j < self.key().circuit.n(),
            alpha.wf(),
            beta.wf(),
            gamma.wf(),
        ensures
            ({
                let c = self.key().circuit;
                let e = rows.evals(c, j as int);
                let ch = Challenges { alpha: alpha@, beta: beta@, gamma: gamma@ };
                let x = fields::fpow(c.w, j as nat);
                &&& res.gate@ == e.gate()
                &&& res.perm@ == e.perm(x, ch, c.shift)
                &&& res.boundary@ == e.boundary(completeness::l1_on_row(j as int), ch)
                &&& res.total@ == e.numerator(x, completeness::l1_on_row(j as int), ch, c.shift)
            }),
    {
        let cached = &self.cached;
        proof {
            assert(fields::vals(cached.omega_powers@).len() == self.key().circuit.n());
            assert(fields::vals(cached.omega_powers@)[j as int] == fields::fpow(
                self.key().circuit.w,
                j as nat,
            ));
        }
        let x = cached.omega_powers[j];
        let n = rows.z.len();
        let next: usize = if j + 1 == n {
            0
        } else {
            j + 1
        };
        proof {
            if j + 1 == n {
                assert((j + 1) % (n as int) == 0) by (nonlinear_arith)
                    requires
                        j + 1 == n,
                        n > 0,
                ;
            } else {
                vstd::arithmetic::div_mod::lemma_small_mod((j + 1) as nat, n as nat);
            }
        }
        let v = PointValues {
            l: rows.l[j],
            r: rows.r[j],
            o: rows.o[j],
            z: rows.z[j],
            z_shifted: rows.z[next],
            ql: polynomial::eval_poly_at(cached.ql_coeffs.as_slice(), &x),
            qr: polynomial::eval_poly_at(cached.qr_coeffs.as_slice(), &x),
            qm: polynomial::eval_poly_at(cached.qm_coeffs.as_slice(), &x),
            qo: polynomial::eval_poly_at(cached.qo_coeffs.as_slice(), &x),
            qk_plus_pi: self.fused_on_row(rows, j, &x),
            s1: polynomial::eval_poly_at(cached.s1_coeffs.as_slice(), &x),
            s2: polynomial::eval_poly_at(cached.s2_coeffs.as_slice(), &x),
            s3: polynomial::eval_poly_at(cached.s3_coeffs.as_slice(), &x),
        };
        let l1 = if j == 0 {
            Fr::one()
        } else {
            Fr::zero()
        };
        assert(v@ == rows.evals(self.key().circuit, j as int));
        let gate = v.gate();
        let perm = v.perm(&x, alpha, beta, gamma, &cached.coset_shift);
        let boundary = v.boundary(&l1, alpha);
        let total = gate.add(&perm).add(&boundary);
        proof {
            let ch = Challenges { alpha: alpha@, beta: beta@, gamma: gamma@ };
            assert(boundary@ == v@.boundary(l1@, ch));
        }
        RowReport { gate, perm, boundary, total }
    }

    /// The rows that are worth a look: the first two, the first behind the public
    /// inputs, the row of the first BSB22 commitment, and the last two. A row can occur
    /// more than once.
    pub fn rows_to_report(&self) -> (res: Vec<usize>)
        requires
            self.data.nb_public_variables + first_index(
                self.data.commitment_constraint_indexes@,
            ) <= usize::MAX,
        ensures
            res@ == report_rows(
                self.data.domain_size as int,
                self.data.nb_public_variables as int,
                self.data.commitment_constraint_indexes@,
            ),
            ({
                let n = self.data.domain_size as int;
                let nb_pub = self.data.nb_public_variables as int;
                let indexes = self.data.commitment_constraint_indexes@;
                &&& res@[0] == 0
                &&& res@[1] == 1
                &&& n >= 1 ==> res@.last() == n - 1
                &&& n >= 2 ==> res@[res@.len() - 2] == n - 2
                &&& nb_pub < n ==> res@[2] == nb_pub
                &&& indexes.len() > 0 && nb_pub + indexes[0] < n ==> res@[3] == nb_pub + indexes[0]
                &&& res@.len() <= 6
                &&& forall|k: int|
                    2 <= k < res@.len() ==> #[trigger] res@[k] < n && (res@[k] == n - 2 || res@[k]
                        == n - 1 || res@[k] == nb_pub || (indexes.len() > 0 && res@[k] == nb_pub
                        + indexes[0]))
            }),
    {
        let n = self.data.domain_size;
        let nb_pub = self.data.nb_public_variables;
        let mut res: Vec<usize> = Vec::new();
        res.push(0);
        res.push(1);
        if nb_pub < n {
            res.push(nb_pub);
        }
        let first: usize = if self.data.commitment_constraint_indexes.len() > 0 {
            self.data.commitment_constraint_indexes[0]
        } else {
            0
        };
        let row = nb_pub + first;
        if row < n {
            res.push(row);
        }
        if n >= 2 {
            res.push(n - 2);
        }
        if n >= 1 {
            res.push(n - 1);
        }
        assert(res@ =~= report_rows(
            n as int,
            nb_pub as int,
            self.data.commitment_constraint_indexes@,
        ));
        res
    }

    /// The value of the linearised polynomial at zeta that the verifier computes.
    pub fn const_lin_check(
        &self,
        zeta: &Fr,
        alpha: &Fr,
        beta: &Fr,
        gamma: &Fr,
        pi_rows: &[Fr],
        openings: &OpeningValues,
    ) -> (res: Fr)
        requires
            self.wf(),
            zeta.wf(),
            alpha.wf(),
            beta.wf(),
            gamma.wf(),
            openings.wf(),
            pi_rows@.len() == self.key().circuit.n(),
            fields::all_wf(pi_rows@),
        ensures
            res.wf(),
            ({
                let c = self.key().circuit;
                res@ == linearization::verifier_value(
                    c,
                    (Challenges { alpha: alpha@, beta: beta@, gamma: gamma@ }),
                    zeta@,
                    linearization::lagrange_sum(c, fields::vals(pi_rows@), zeta@, c.n()),
                    openings@,
                )
            }),
    {
        let pi_zeta = linearization::eval_pi_verifier(
            pi_rows,
            &self.cached.domain,
            zeta,
            Ghost(self.key().circuit),
        );
        linearization::const_lin_verifier(
            &self.cached.domain,
            zeta,
            alpha,
            beta,
            gamma,
            &pi_zeta,
            openings,
            Ghost(self.key().circuit),
        )
    }
}

/// The place of the first BSB22 commitment behind the public inputs: the first where there
/// is no commitment.
pub open spec fn first_index(indexes: Seq<usize>) -> int {
    if indexes.len() > 0 {
        indexes[0] as int
    } else {
        0
    }
}

/// The rows that are worth a look.
pub open spec fn report_rows(n: int, nb_pub: int, indexes: Seq<usize>) -> Seq<usize> {
    seq![0usize, 1] + (if nb_pub < n {
        seq![nb_pub as usize]
    } else {
        seq![]
    }) + (if nb_pub + first_index(indexes) < n {
        seq![(nb_pub + first_index(indexes)) as usize]
    } else {
        seq![]
    }) + (if n >= 2 {
        seq![(n - 2) as usize]
    } else {
        seq![]
    }) + (if n >= 1 {
        seq![(n - 1) as usize]
    } else {
        seq![]
    })
}

// ---------------------------------------------------------------------------
// The coset
// ---------------------------------------------------------------------------

/// The values that the quotient is computed from at a point of the coset.
#[derive(Clone, Copy, Debug)]
pub struct CosetSample {
    pub l: Fr,
    pub r: Fr,
    pub o: Fr,
    pub z: Fr,
    pub qk_plus_pi: Fr,
}

impl PlonkProver {
    /// The values at a point of the coset, from the coefficients.
    pub fn coset_sample(&self, wit: &WitnessPolys, i: usize) -> (res: CosetSample)
        requires
            self.wf(),
            i < self.key().circuit.big_n(),
            fields::all_wf(wit.l@),
            fields::all_wf(wit.r@),
            fields::all_wf(wit.o@),
            fields::all_wf(wit.z@),
            fields::all_wf(wit.pi@),
            circuit::vecs_wf(wit.bsb22@),
        ensures
            ({
                let c = self.key().circuit;
                let e = c.evals_at(wit@, c.point(i as int), c.point(i as int));
                &&& res.l@ == e.l
                &&& res.r@ == e.r
                &&& res.o@ == e.o
                &&& res.z@ == e.z
                &&& res.qk_plus_pi@ == e.fused
            }),
    {
        let cached = &self.cached;
        let ghost c = self.key().circuit;
        proof {
            assert(fields::vals(cached.coset_points@).len() == c.big_n());
            assert(fields::vals(cached.coset_points@)[i as int] == c.point(i as int));
        }
        let x = cached.coset_points[i];
        let m: usize = if cached.qcp_coeffs.len() <= wit.bsb22.len() {
            cached.qcp_coeffs.len()
        } else {
            wit.bsb22.len()
        };
        let mut acc = polynomial::eval_poly_at(wit.pi.as_slice(), &x).add(
            &polynomial::eval_poly_at(cached.qk_coeffs.as_slice(), &x),
        );
        let ghost q = quotient::values_at(c.qcp, x@);
        let ghost b = quotient::values_at(wit@.bsb22, x@);
        for k in 0..m
            invariant
                self.wf(),
                cached == &self.cached,
                m <= cached.qcp_coeffs@.len(),
                m <= wit.bsb22@.len(),
                circuit::vecs_wf(wit.bsb22@),
                x.wf(),
                c == self.key().circuit,
                q == quotient::values_at(c.qcp, x@),
                b == quotient::values_at(wit@.bsb22, x@),
                acc.wf(),
                acc@ == quotient::fused(
                    polynomial::feval(fields::vals(wit.pi@), x@),
                    polynomial::feval(c.qk, x@),
                    q,
                    b,
                    k as nat,
                ),
        {
            assert(fields::all_wf(cached.qcp_coeffs@[k as int]@));
            assert(fields::all_wf(wit.bsb22@[k as int]@));
            let s = polynomial::eval_poly_at(cached.qcp_coeffs[k].as_slice(), &x);
            let t = polynomial::eval_poly_at(wit.bsb22[k].as_slice(), &x);
            acc = acc.add(&s.mul(&t));
        }
        CosetSample {
            l: polynomial::eval_poly_at(wit.l.as_slice(), &x),
            r: polynomial::eval_poly_at(wit.r.as_slice(), &x),
            o: polynomial::eval_poly_at(wit.o.as_slice(), &x),
            z: polynomial::eval_poly_at(wit.z.as_slice(), &x),
            qk_plus_pi: acc,
        }
    }
}

/// Whether two samples are the same.
pub fn same_sample(a: &CosetSample, b: &CosetSample) -> (r: bool)
    ensures
        r == (*a == *b),
{
    a.l == b.l && a.r == b.r && a.o == b.o && a.z == b.z && a.qk_plus_pi == b.qk_plus_pi
}

/// The points of a coset of `4 n` points that are worth a look.
pub open spec fn sweep(n: int) -> Seq<int> {
    seq![
        0,
        1,
        2,
        3,
        4,
        5,
        8,
        16,
        1024,
        n,
        n + 1,
        2 * n,
        3 * n,
        4 * n - 1,
        4 * n - 2,
        2 * n,
        n,
        12345678,
    ].filter(|i: int| i < 4 * n)
}

/// The points of the coset that are worth a look.
pub fn sweep_indices(n: usize) -> (r: Vec<usize>)
    requires
        1 <= n,
        4 * n <= usize::MAX,
    ensures
        r@.map_values(|i: usize| i as int) == sweep(n as int),
        forall|k: int| 0 <= k < r@.len() ==> #[trigger] r@[k] < 4 * n,
        r@.len() > 3,
        r@[0] == 0,
        r@[1] == 1,
        r@[2] == 2,
        r@[3] == 3,
        r@.contains(n),
        r@.contains((2 * n) as usize),
        r@.contains((3 * n) as usize),
        r@.contains((4 * n - 1) as usize),
        r@.contains((4 * n - 2) as usize),
        12_345_678 < 4 * n ==> r@.contains(12_345_678),
        1024 < 4 * n ==> r@.contains(1024),
{
    let all: [usize; 18] = [
        0,
        1,
        2,
        3,
        4,
        5,
        8,
        16,
        1024,
        n,
        n + 1,
        2 * n,
        3 * n,
        4 * n - 1,
        4 * n - 2,
        2 * n,
        n,
        12345678,
    ];
    let mut r: Vec<usize> = Vec::new();
    let ghost full = seq![
        0,
        1,
        2,
        3,
        4,
        5,
        8,
        16,
        1024,
        n as int,
        n + 1,
        2 * n,
        3 * n,
        4 * n - 1,
        4 * n - 2,
        2 * n,
        n as int,
        12345678,
    ];
    let ghost keep = |i: int| i < 4 * n;
    assert(all@.map_values(|i: usize| i as int) =~= full);
    assert(full.take(0) =~= seq![]);
    proof {
        reveal(Seq::filter);
        assert(seq![].filter(keep) =~= Seq::<int>::empty());
    }
    for k in 0..18usize
        invariant
            4 * n <= usize::MAX,
            all@.len() == 18,
            full.len() == 18,
            all@.map_values(|i: usize| i as int) == full,
            keep == (|i: int| i < 4 * n),
            r@.map_values(|i: usize| i as int) == full.take(k as int).filter(keep),
    {
        proof {
            reveal(Seq::filter);
            assert(full.take(k + 1).drop_last() =~= full.take(k as int));
            assert(full[k as int] == all@.map_values(|i: usize| i as int)[k as int]);
        }
        let ghost before = r@.map_values(|i: usize| i as int);
        if all[k] < 4 * n {
            r.push(all[k]);
            assert(r@.map_values(|i: usize| i as int) =~= before.push(full[k as int]));
        }
    }
    assert(full.take(18) =~= full);
    proof {
        lemma_swept(r@, full, n);
    }
    r
}

/// The challenges of the first round without blinding come from the same bytes as those of
/// a proof: the verifying key, the public inputs, and the commitments to the rows of L, R
/// and O.
pub proof fn law_plain_challenges(
    key: Key,
    l: Seq<int>,
    r: Seq<int>,
    o: Seq<int>,
    pi: Seq<int>,
) -> (xs: (Seq<u8>, Seq<u8>))
    ensures
        challenges::is_gamma_input(
            xs.0,
            key.vk,
            pi,
            commit::commitment(key.srs_lagrange, l),
            commit::commitment(key.srs_lagrange, r),
            commit::commitment(key.srs_lagrange, o),
        ),
        challenges::is_beta_input(xs.1, sha256::sha256(xs.0)),
        ({
            let p = plain_permutation(key, l, r, o, pi);
            let m = fields::fr_modulus();
            &&& p.gamma == bytes::be_value(sha256::sha256(xs.0)) % m
            &&& p.beta == bytes::be_value(sha256::sha256(xs.1)) % m
            &&& p.l == l
            &&& p.r == r
            &&& p.o == o
        }),
{
    let t = plain_transcript(key, l, r, o, pi);
    challenges::law_first_challenges(
        t,
        key.vk,
        pi,
        commit::commitment(key.srs_lagrange, l),
        commit::commitment(key.srs_lagrange, r),
        commit::commitment(key.srs_lagrange, o),
    )
}

proof fn lemma_swept(r: Seq<usize>, full: Seq<int>, n: usize)
    requires
        1 <= n,
        4 * n <= usize::MAX,
        full == seq![
            0,
            1,
            2,
            3,
            4,
            5,
            8,
            16,
            1024,
            n as int,
            n + 1,
            2 * n,
            3 * n,
            4 * n - 1,
            4 * n - 2,
            2 * n,
            n as int,
            12345678,
        ],
        r.map_values(|i: usize| i as int) == full.filter(|i: int| i < 4 * n),
    ensures
        forall|k: int| 0 <= k < r.len() ==> #[trigger] r[k] < 4 * n,
        r.len() > 3,
        r[0] == 0,
        r[1] == 1,
        r[2] == 2,
        r[3] == 3,
        forall|j: int| 0 <= j < 18 && full[j] < 4 * n ==> r.contains(#[trigger] full[j] as usize),
        r.contains(n),
        r.contains((2 * n) as usize),
        r.contains((3 * n) as usize),
        r.contains((4 * n - 1) as usize),
        r.contains((4 * n - 2) as usize),
        12_345_678 < 4 * n ==> r.contains(12_345_678),
        1024 < 4 * n ==> r.contains(1024),
{
    let keep = |i: int| i < 4 * n;
    let v = r.map_values(|i: usize| i as int);
    let all = full.filter(keep);
    assert forall|k: int| 0 <= k < r.len() implies #[trigger] r[k] < 4 * n by {
        assert(v[k] == r[k]);
        full.lemma_filter_pred(keep, k);
    }
    assert forall|j: int| 0 <= j < 18 && full[j] < 4 * n implies r.contains(
        #[trigger] full[j] as usize,
    ) by {
        full.lemma_filter_contains(keep, j);
        let k = choose|k: int| 0 <= k < all.len() && all[k] == full[j];
        assert(v[k] == r[k]);
        assert(r[k] == full[j] as usize);
    }
    let head = full.take(4);
    assert(head + full.skip(4) =~= full);
    Seq::filter_distributes_over_add(head, full.skip(4), keep);
    assert(head.filter(keep) =~= seq![0int, 1, 2, 3]) by {
        reveal_with_fuel(Seq::filter, 5);
        assert(head =~= seq![0int, 1, 2, 3]);
        assert(head.drop_last() =~= seq![0int, 1, 2]);
        assert(head.drop_last().drop_last() =~= seq![0int, 1]);
        assert(head.drop_last().drop_last().drop_last() =~= seq![0int]);
        assert(head.drop_last().drop_last().drop_last().drop_last() =~= Seq::<int>::empty());
    }
    assert(all.len() >= 4);
    assert(v.len() == r.len());
    assert(v[0] == 0 && v[1] == 1 && v[2] == 2 && v[3] == 3);
    assert(full[9] == n && full[11] == 2 * n && full[12] == 3 * n && full[13] == 4 * n - 1);
    assert(full[14] == 4 * n - 2 && full[17] == 12345678 && full[8] == 1024);
}

/// The permutation argument of the first round without blinding is that of a proof of the
/// same rows, but for the challenges.
pub proof fn law_plain_permutation(key: Key, inp: rounds::Inputs)
    ensures
        ({
            let p = plain_permutation(key, inp.l, inp.r, inp.o, inp.pi);
            let q = key.permutation(inp);
            &&& p == (Permutation { beta: p.beta, gamma: p.gamma, ..q })
        }),
{
    reveal(Key::permutation);
}

/// The values on a row, taken from the rows of a proof, are the values of its polynomials at
/// the point of that row, with the grand product also at the point of the next one.
pub proof fn law_row_values(key: Key, inp: rounds::Inputs, rows: Rows, j: int)
    requires
        key.circuit.wf(),
        key.circuit.n() >= 3,
        completeness::well_sized(key, inp),
        0 <= j < key.circuit.n(),
        rows.fits(key.circuit.n()),
        fields::vals(rows.l@) == inp.l,
        fields::vals(rows.r@) == inp.r,
        fields::vals(rows.o@) == inp.o,
        fields::vals(rows.z@) == key.permutation(inp).products(),
        fields::vals(rows.pi@) == key.pi_rows(inp),
        circuit::vec_vals(rows.bsb22@) == inp.bsb22,
    ensures
        ({
            let c = key.circuit;
            rows.evals(c, j) == c.evals_at(
                key.witness(inp),
                fields::fpow(c.w, j as nat),
                fields::fpow(c.w, ((j + 1) % (c.n() as int)) as nat),
            )
        }),
{
    let c = key.circuit;
    let n = c.n() as int;
    let next = (j + 1) % n;
    let x = fields::fpow(c.w, j as nat);
    vstd::arithmetic::div_mod::lemma_mod_bound(j + 1, n);
    completeness::law_witness_rows(key, inp, j);
    completeness::law_witness_rows(key, inp, next);
    assert(rows.l@[j]@ == fields::vals(rows.l@)[j]);
    assert(rows.r@[j]@ == fields::vals(rows.r@)[j]);
    assert(rows.o@[j]@ == fields::vals(rows.o@)[j]);
    assert(rows.z@[j]@ == fields::vals(rows.z@)[j]);
    assert(rows.z@[next]@ == fields::vals(rows.z@)[next]);
    assert(rows.pi@[j]@ == fields::vals(rows.pi@)[j]);
    assert(rows.bsb22@.len() == inp.bsb22.len());
    let a = Seq::new(rows.bsb22@.len(), |k: int| rows.bsb22@[k]@[j]@);
    let b = quotient::values_at(key.witness(inp).bsb22, x);
    assert forall|k: int| 0 <= k < a.len() implies #[trigger] a[k] == b[k] by {
        assert(circuit::vec_vals(rows.bsb22@)[k] == fields::vals(rows.bsb22@[k]@));
        assert(rows.bsb22@[k]@.len() == c.n());
        assert(fields::vals(rows.bsb22@[k]@)[j] == rows.bsb22@[k]@[j]@);
        assert(polynomial::feval(key.witness(inp).bsb22[k], x) == inp.bsb22[k][j]);
    }
    assert(a =~= b);
}

} // verus!
