//! The quotient polynomial.
//!
//! The constraints of all rows are one polynomial, which vanishes on the domain
//! where the rows hold:
//!
//! - the gates, `ql L + qr R + qm L R + qo O + qk + PI + sum qcp_j B_j`,
//! - the permutation,
//!   `alpha (Z(w X) (L + beta S1 + gamma) (R + beta S2 + gamma) (O + beta S3 + gamma)
//!   - Z (L + beta X + gamma) (R + beta k1 X + gamma) (O + beta k1^2 X + gamma))`,
//! - the start of the grand product, `alpha^2 (Z - 1) L1`.
//!
//! It is evaluated on a coset of four times the size of the domain, divided there by
//! the vanishing polynomial, and interpolated.

use crate::blinding;
use crate::blinding::BlindingScalars;
use crate::bytes;
use crate::circuit;
use crate::circuit::{CachedFrData, Circuit};
use crate::commit;
use crate::dft;
use crate::domain;
use crate::domain::Domain;
use crate::fields;
use crate::fields::Fr;
use crate::g1::Point;
use crate::grand_product;
use crate::hash_to_field;
use crate::modular;
use crate::polynomial;
use crate::sums;
use crate::text;
use crate::BN254G1Affine;
use vstd::arithmetic::div_mod::*;
use vstd::arithmetic::mul::*;
use vstd::arithmetic::power::*;
use vstd::arithmetic::power2::*;
use vstd::prelude::*;

verus! {

/// The challenges of a proof up to the quotient.
pub struct Challenges {
    pub alpha: int,
    pub beta: int,
    pub gamma: int,
}

/// The polynomials of a proof by their coefficients.
pub struct Witness {
    pub l: Seq<int>,
    pub r: Seq<int>,
    pub o: Seq<int>,
    pub z: Seq<int>,
    pub pi: Seq<int>,
    pub bsb22: Seq<Seq<int>>,
}

/// The values of all polynomials at one point; `zw` is the grand product one row
/// further, and `fused` is what an arithmetic gate adds to the wires.
pub struct Evals {
    pub l: int,
    pub r: int,
    pub o: int,
    pub z: int,
    pub zw: int,
    pub ql: int,
    pub qr: int,
    pub qm: int,
    pub qo: int,
    pub fused: int,
    pub s1: int,
    pub s2: int,
    pub s3: int,
}

/// What an arithmetic gate adds to the wires: `pi + qk + sum qcp_j B_j`.
pub open spec fn fused(pi: int, qk: int, qcp: Seq<int>, bsb22: Seq<int>, k: nat) -> int
    decreases k,
{
    if k == 0 {
        fields::fadd(pi, qk)
    } else {
        fields::fadd(
            fused(pi, qk, qcp, bsb22, (k - 1) as nat),
            fields::fmul(qcp[k - 1], bsb22[k - 1]),
        )
    }
}

/// The smaller of two lengths.
pub open spec fn shorter(a: nat, b: nat) -> nat {
    if a <= b {
        a
    } else {
        b
    }
}

impl Evals {
    /// The arithmetic gate.
    pub open spec fn gate(self) -> int {
        fields::fadd(
            fields::fadd(
                fields::fadd(
                    fields::fadd(fields::fmul(self.ql, self.l), fields::fmul(self.qr, self.r)),
                    fields::fmul(fields::fmul(self.qm, self.l), self.r),
                ),
                fields::fmul(self.qo, self.o),
            ),
            self.fused,
        )
    }

    /// The permutation.
    pub open spec fn perm(self, x: int, ch: Challenges, k1: int) -> int {
        fields::fmul(
            ch.alpha,
            fields::fsub(
                fields::fmul(
                    self.zw,
                    grand_product::sigma_product(
                        self.l,
                        self.r,
                        self.o,
                        self.s1,
                        self.s2,
                        self.s3,
                        ch.beta,
                        ch.gamma,
                    ),
                ),
                fields::fmul(
                    self.z,
                    grand_product::id_product(
                        self.l,
                        self.r,
                        self.o,
                        x,
                        ch.beta,
                        ch.gamma,
                        k1,
                    ),
                ),
            ),
        )
    }

    /// The start of the grand product.
    pub open spec fn boundary(self, l1: int, ch: Challenges) -> int {
        fields::fmul(
            fields::fmul(fields::fmul(ch.alpha, ch.alpha), fields::fsub(self.z, 1)),
            l1,
        )
    }

    /// All constraints together.
    pub open spec fn numerator(self, x: int, l1: int, ch: Challenges, k1: int) -> int {
        fields::fadd(fields::fadd(self.gate(), self.perm(x, ch, k1)), self.boundary(l1, ch))
    }
}

/// The values of polynomials at a point.
pub open spec fn values_at(polys: Seq<Seq<int>>, x: int) -> Seq<int> {
    Seq::new(polys.len(), |j: int| polynomial::feval(polys[j], x))
}

impl Circuit {
    /// The first Lagrange polynomial, off the domain.
    pub open spec fn l1_at(self, x: int) -> int {
        fields::fmul(self.zh(x), fields::finv(self.l1_divisor(x)))
    }

    /// What an arithmetic gate adds to the wires at a point.
    pub open spec fn fused_at(self, wit: Witness, x: int) -> int {
        fused(
            polynomial::feval(wit.pi, x),
            polynomial::feval(self.qk, x),
            values_at(self.qcp, x),
            values_at(wit.bsb22, x),
            shorter(self.qcp.len(), wit.bsb22.len()),
        )
    }

    /// The values at `x`, with the grand product also at `y`.
    pub open spec fn evals_at(self, wit: Witness, x: int, y: int) -> Evals {
        Evals {
            l: polynomial::feval(wit.l, x),
            r: polynomial::feval(wit.r, x),
            o: polynomial::feval(wit.o, x),
            z: polynomial::feval(wit.z, x),
            zw: polynomial::feval(wit.z, y),
            ql: polynomial::feval(self.ql, x),
            qr: polynomial::feval(self.qr, x),
            qm: polynomial::feval(self.qm, x),
            qo: polynomial::feval(self.qo, x),
            fused: self.fused_at(wit, x),
            s1: polynomial::feval(self.s1, x),
            s2: polynomial::feval(self.s2, x),
            s3: polynomial::feval(self.s3, x),
        }
    }

    /// All constraints at `x`, off the domain, with the grand product also at `y`.
    pub open spec fn numerator_at(self, wit: Witness, ch: Challenges, x: int, y: int) -> int {
        self.evals_at(wit, x, y).numerator(x, self.l1_at(x), ch, self.shift)
    }

    /// The index of the point of the coset one row further.
    pub open spec fn next_row(self, i: int) -> int {
        (i + 4) % (self.big_n() as int)
    }

    /// The quotient on the coset.
    pub open spec fn quotient_values(self, wit: Witness, ch: Challenges) -> Seq<int> {
        Seq::new(
            self.big_n(),
            |i: int|
                fields::fmul(
                    self.numerator_at(wit, ch, self.point(i), self.point(self.next_row(i))),
                    fields::finv(self.zh(self.point(i))),
                ),
        )
    }

    /// The coefficients of the quotient.
    pub open spec fn quotient(self, wit: Witness, ch: Challenges) -> Seq<int> {
        domain::coset_idft(self.quotient_values(wit, ch), self.w4, self.shift)
    }
}

/// The values of all polynomials at one point.
#[derive(Clone, Copy, Debug)]
pub struct PointValues {
    pub l: Fr,
    pub r: Fr,
    pub o: Fr,
    pub z: Fr,
    /// The grand product one row further.
    pub z_shifted: Fr,
    pub ql: Fr,
    pub qr: Fr,
    pub qm: Fr,
    pub qo: Fr,
    /// What an arithmetic gate adds to the wires.
    pub qk_plus_pi: Fr,
    pub s1: Fr,
    pub s2: Fr,
    pub s3: Fr,
}

impl View for PointValues {
    type V = Evals;

    open spec fn view(&self) -> Evals {
        Evals {
            l: self.l@,
            r: self.r@,
            o: self.o@,
            z: self.z@,
            zw: self.z_shifted@,
            ql: self.ql@,
            qr: self.qr@,
            qm: self.qm@,
            qo: self.qo@,
            fused: self.qk_plus_pi@,
            s1: self.s1@,
            s2: self.s2@,
            s3: self.s3@,
        }
    }
}

impl PointValues {
    /// All values are reduced.
    pub open spec fn wf(self) -> bool {
        &&& self.l.wf()
        &&& self.r.wf()
        &&& self.o.wf()
        &&& self.z.wf()
        &&& self.z_shifted.wf()
        &&& self.ql.wf()
        &&& self.qr.wf()
        &&& self.qm.wf()
        &&& self.qo.wf()
        &&& self.qk_plus_pi.wf()
        &&& self.s1.wf()
        &&& self.s2.wf()
        &&& self.s3.wf()
    }

    /// The arithmetic gate.
    pub fn gate(&self) -> (res: Fr)
        requires
            self.wf(),
        ensures
            res.wf(),
            res@ == self@.gate(),
    {
        self.ql.mul(&self.l).add(&self.qr.mul(&self.r)).add(
            &self.qm.mul(&self.l).mul(&self.r),
        ).add(&self.qo.mul(&self.o)).add(&self.qk_plus_pi)
    }

    /// The permutation.
    pub fn perm(&self, x: &Fr, alpha: &Fr, beta: &Fr, gamma: &Fr, k1: &Fr) -> (res: Fr)
        requires
            self.wf(),
            x.wf(),
            alpha.wf(),
            beta.wf(),
            gamma.wf(),
            k1.wf(),
        ensures
            res.wf(),
            res@ == self@.perm(x@, (Challenges { alpha: alpha@, beta: beta@, gamma: gamma@ }), k1@),
    {
        let den = self.z_shifted.mul(
            &grand_product::eval_sigma_product(
                &self.l,
                &self.r,
                &self.o,
                &self.s1,
                &self.s2,
                &self.s3,
                beta,
                gamma,
            ),
        );
        let num = self.z.mul(
            &grand_product::eval_id_product(&self.l, &self.r, &self.o, x, beta, gamma, k1),
        );
        alpha.mul(&den.sub(&num))
    }

    /// The start of the grand product, given the first Lagrange polynomial.
    pub fn boundary(&self, l1: &Fr, alpha: &Fr) -> (res: Fr)
        requires
            self.wf(),
            l1.wf(),
            alpha.wf(),
        ensures
            res.wf(),
            forall|ch: Challenges|
                ch.alpha == alpha@ ==> res@ == #[trigger] self@.boundary(l1@, ch),
    {
        alpha.square().mul(&self.z.sub(&Fr::one())).mul(l1)
    }

    /// All constraints together.
    pub fn numerator(
        &self,
        x: &Fr,
        l1: &Fr,
        alpha: &Fr,
        beta: &Fr,
        gamma: &Fr,
        k1: &Fr,
    ) -> (res: Fr)
        requires
            self.wf(),
            x.wf(),
            l1.wf(),
            alpha.wf(),
            beta.wf(),
            gamma.wf(),
            k1.wf(),
        ensures
            res.wf(),
            res@ == self@.numerator(
                x@,
                l1@,
                (Challenges { alpha: alpha@, beta: beta@, gamma: gamma@ }),
                k1@,
            ),
    {
        self.gate().add(&self.perm(x, alpha, beta, gamma, k1)).add(&self.boundary(l1, alpha))
    }
}

// ---------------------------------------------------------------------------
// Public inputs
// ---------------------------------------------------------------------------

/// The values of the public input polynomial without the BSB22 hashes: the public
/// inputs on the first rows, zero elsewhere.
pub open spec fn public_rows(pi: Seq<int>, nb_pub: nat, n: nat) -> Seq<int> {
    Seq::new(
        n,
        |i: int|
            if i < pi.len() && i < nb_pub {
                pi[i]
            } else {
                0
            },
    )
}

/// The values of the public input polynomial: behind the public inputs, the row of
/// each BSB22 commitment holds the hash of the commitment.
pub open spec fn pi_rows(
    pi: Seq<int>,
    nb_pub: nat,
    commitments: Seq<Point>,
    indexes: Seq<usize>,
    n: nat,
) -> Seq<int>
    decreases commitments.len(),
{
    if commitments.len() == 0 {
        public_rows(pi, nb_pub, n)
    } else {
        let k = commitments.len() - 1;
        let rest = pi_rows(pi, nb_pub, commitments.drop_last(), indexes, n);
        if k < indexes.len() && nb_pub + indexes[k] < n {
            rest.update(
                nb_pub + indexes[k],
                hash_to_field::hashed(crate::encode_point(commitments.last())),
            )
        } else {
            rest
        }
    }
}

/// The number of rows does not depend on the commitments.
pub proof fn lemma_pi_rows_len(
    pi: Seq<int>,
    nb_pub: nat,
    commitments: Seq<Point>,
    indexes: Seq<usize>,
    n: nat,
)
    ensures
        pi_rows(pi, nb_pub, commitments, indexes, n).len() == n,
    decreases commitments.len(),
{
    if commitments.len() > 0 {
        lemma_pi_rows_len(pi, nb_pub, commitments.drop_last(), indexes, n);
    }
}

/// The constraint index of the `k`-th commitment names a row, counted from behind the
/// public inputs.
pub open spec fn names_row(
    k: int,
    i: int,
    nb_pub: nat,
    commitments: Seq<Point>,
    indexes: Seq<usize>,
) -> bool {
    0 <= k < commitments.len() && k < indexes.len() && i == nb_pub + indexes[k]
}

/// The `k`-th commitment is the last one whose constraint index names the row.
pub open spec fn settles_row(
    k: int,
    i: int,
    nb_pub: nat,
    commitments: Seq<Point>,
    indexes: Seq<usize>,
) -> bool {
    &&& names_row(k, i, nb_pub, commitments, indexes)
    &&& forall|j: int| k < j ==> !#[trigger] names_row(j, i, nb_pub, commitments, indexes)
}

/// The value of the public input polynomial on a row: the hash of the commitment whose
/// constraint index names the row, or else the public input of that row, or else zero.
pub open spec fn public_value(
    pi: Seq<int>,
    nb_pub: nat,
    commitments: Seq<Point>,
    indexes: Seq<usize>,
    i: int,
) -> int {
    if exists|k: int| settles_row(k, i, nb_pub, commitments, indexes) {
        let k = choose|k: int| settles_row(k, i, nb_pub, commitments, indexes);
        bytes::be_value(
            hash_to_field::xmd(
                crate::encode_point(commitments[k]),
                text::utf8("BSB22-Plonk"@),
                48,
            ),
        ) % fields::fr_modulus()
    } else if i < pi.len() && i < nb_pub {
        pi[i]
    } else {
        0
    }
}

/// The row of each commitment holds the hash of that commitment, if no later commitment
/// has the same row; rows that no commitment names hold the public inputs, and zero behind
/// them.
pub proof fn law_public_row(
    pi: Seq<int>,
    nb_pub: nat,
    commitments: Seq<Point>,
    indexes: Seq<usize>,
    n: nat,
    i: int,
)
    requires
        0 <= i < n,
    ensures
        ({
            let v = pi_rows(pi, nb_pub, commitments, indexes, n)[i];
            &&& forall|k: int|
                #[trigger] settles_row(k, i, nb_pub, commitments, indexes) ==> v
                    == bytes::be_value(
                    hash_to_field::xmd(
                        crate::encode_point(commitments[k]),
                        text::utf8("BSB22-Plonk"@),
                        48,
                    ),
                ) % fields::fr_modulus()
            &&& (forall|k: int| !#[trigger] names_row(k, i, nb_pub, commitments, indexes)) ==> v
                == (if i < pi.len() && i < nb_pub {
                pi[i]
            } else {
                0
            })
        }),
    decreases commitments.len(),
{
    if commitments.len() > 0 {
        let last = commitments.len() - 1;
        let rest = commitments.drop_last();
        lemma_pi_rows_len(pi, nb_pub, rest, indexes, n);
        law_public_row(pi, nb_pub, rest, indexes, n, i);
        assert forall|k: int| k != last implies (#[trigger] names_row(
            k,
            i,
            nb_pub,
            rest,
            indexes,
        ) <==> names_row(k, i, nb_pub, commitments, indexes)) by {}
        assert forall|k: int| #[trigger]
            settles_row(k, i, nb_pub, commitments, indexes) && k != last implies settles_row(
            k,
            i,
            nb_pub,
            rest,
            indexes,
        ) && rest[k] == commitments[k] by {
            assert forall|j: int| k < j implies !#[trigger] names_row(
                j,
                i,
                nb_pub,
                rest,
                indexes,
            ) by {
                assert(!names_row(j, i, nb_pub, commitments, indexes));
            }
        }
        assert forall|k: int| #[trigger]
            settles_row(k, i, nb_pub, commitments, indexes) && k != last implies !names_row(
            last,
            i,
            nb_pub,
            commitments,
            indexes,
        ) by {}
        if forall|k: int| !#[trigger] names_row(k, i, nb_pub, commitments, indexes) {
            assert(!names_row(last, i, nb_pub, commitments, indexes));
            assert forall|k: int| !#[trigger] names_row(k, i, nb_pub, rest, indexes) by {
                assert(!names_row(k, i, nb_pub, commitments, indexes));
            }
        }
    }
}

/// A row that a commitment names is settled by one.
proof fn lemma_settled(
    k: int,
    i: int,
    nb_pub: nat,
    commitments: Seq<Point>,
    indexes: Seq<usize>,
)
    requires
        names_row(k, i, nb_pub, commitments, indexes),
    ensures
        exists|j: int| settles_row(j, i, nb_pub, commitments, indexes),
    decreases commitments.len() - k,
{
    if exists|j: int| k < j && #[trigger] names_row(j, i, nb_pub, commitments, indexes) {
        let j = choose|j: int| k < j && #[trigger] names_row(j, i, nb_pub, commitments, indexes);
        lemma_settled(j, i, nb_pub, commitments, indexes);
    } else {
        assert(settles_row(k, i, nb_pub, commitments, indexes));
    }
}

/// The rows of the public input polynomial, one by one.
pub proof fn law_public_values(
    pi: Seq<int>,
    nb_pub: nat,
    commitments: Seq<Point>,
    indexes: Seq<usize>,
    n: nat,
)
    ensures
        pi_rows(pi, nb_pub, commitments, indexes, n) == Seq::new(
            n,
            |i: int| public_value(pi, nb_pub, commitments, indexes, i),
        ),
{
    let rows = pi_rows(pi, nb_pub, commitments, indexes, n);
    lemma_pi_rows_len(pi, nb_pub, commitments, indexes, n);
    assert forall|i: int| 0 <= i < n implies #[trigger] rows[i] == public_value(
        pi,
        nb_pub,
        commitments,
        indexes,
        i,
    ) by {
        law_public_row(pi, nb_pub, commitments, indexes, n, i);
        if !(exists|k: int| settles_row(k, i, nb_pub, commitments, indexes)) {
            assert forall|k: int| !#[trigger] names_row(k, i, nb_pub, commitments, indexes) by {
                if names_row(k, i, nb_pub, commitments, indexes) {
                    lemma_settled(k, i, nb_pub, commitments, indexes);
                }
            }
        }
    }
    assert(rows =~= Seq::new(n, |i: int| public_value(pi, nb_pub, commitments, indexes, i)));
}

/// Where no two commitments have the same constraint index, every commitment whose row
/// lies in the domain has its hash there; the first rows hold the public inputs, and all
/// other rows are zero.
pub proof fn law_distinct_rows(
    pi: Seq<int>,
    nb_pub: nat,
    commitments: Seq<Point>,
    indexes: Seq<usize>,
    n: nat,
)
    requires
        indexes.no_duplicates(),
    ensures
        ({
            let rows = pi_rows(pi, nb_pub, commitments, indexes, n);
            &&& rows.len() == n
            &&& forall|k: int|
                0 <= k < commitments.len() && k < indexes.len() && nb_pub + indexes[k] < n
                    ==> rows[nb_pub + indexes[k]] == bytes::be_value(
                    hash_to_field::xmd(
                        crate::encode_point(#[trigger] commitments[k]),
                        text::utf8("BSB22-Plonk"@),
                        48,
                    ),
                ) % fields::fr_modulus()
            &&& forall|i: int|
                0 <= i < n && i < pi.len() && i < nb_pub ==> #[trigger] rows[i] == pi[i]
            &&& forall|i: int|
                0 <= i < n && !(i < pi.len() && i < nb_pub) && (forall|k: int|
                    0 <= k < commitments.len() && k < indexes.len() ==> i != nb_pub
                        + #[trigger] indexes[k]) ==> #[trigger] rows[i] == 0
        }),
{
    let rows = pi_rows(pi, nb_pub, commitments, indexes, n);
    lemma_pi_rows_len(pi, nb_pub, commitments, indexes, n);
    assert forall|k: int|
        0 <= k < commitments.len() && k < indexes.len() && nb_pub + indexes[k] < n implies rows[nb_pub
        + indexes[k]] == bytes::be_value(
        hash_to_field::xmd(
            crate::encode_point(#[trigger] commitments[k]),
            text::utf8("BSB22-Plonk"@),
            48,
        ),
    ) % fields::fr_modulus() by {
        let i = nb_pub + indexes[k];
        law_public_row(pi, nb_pub, commitments, indexes, n, i);
        assert(settles_row(k, i, nb_pub, commitments, indexes));
    }
    assert forall|i: int| 0 <= i < n && i < pi.len() && i < nb_pub implies #[trigger] rows[i]
        == pi[i] by {
        law_public_row(pi, nb_pub, commitments, indexes, n, i);
    }
    assert forall|i: int|
        0 <= i < n && !(i < pi.len() && i < nb_pub) && (forall|k: int|
            0 <= k < commitments.len() && k < indexes.len() ==> i != nb_pub
                + #[trigger] indexes[k]) implies #[trigger] rows[i] == 0 by {
        law_public_row(pi, nb_pub, commitments, indexes, n, i);
    }
}

/// The values of the rows, where a commitment stands behind each hash.
proof fn lemma_evals_by_row(
    evals: Seq<Fr>,
    pi: Seq<int>,
    nb_pub: usize,
    points: Seq<Point>,
    indexes: Seq<usize>,
    n: usize,
)
    requires
        evals.len() == n,
        fields::vals(evals) == pi_rows(pi, nb_pub as nat, points, indexes, n as nat),
    ensures
        forall|k: int|
            {
                &&& 0 <= k < points.len()
                &&& k < indexes.len()
                &&& nb_pub + indexes[k] < n
                &&& forall|j: int|
                    k < j < points.len() && j < indexes.len() ==> indexes[j] != indexes[k]
            } ==> evals[nb_pub + indexes[k]]@ == bytes::be_value(
                hash_to_field::xmd(
                    crate::encode_point(#[trigger] points[k]),
                    text::utf8("BSB22-Plonk"@),
                    48,
                ),
            ) % fields::fr_modulus(),
        forall|i: int|
            0 <= i < n && i < pi.len() && i < nb_pub ==> (#[trigger] evals[i])@ == pi[i],
        forall|i: int|
            0 <= i < n && !(i < pi.len() && i < nb_pub) && (forall|k: int|
                0 <= k < points.len() && k < indexes.len() ==> i != nb_pub
                    + #[trigger] indexes[k]) ==> (#[trigger] evals[i])@ == 0,
{
    let m = nb_pub as nat;
    let rows = pi_rows(pi, m, points, indexes, n as nat);
    assert forall|i: int| 0 <= i < n implies (#[trigger] evals[i])@ == rows[i] by {
        assert(fields::vals(evals)[i] == rows[i]);
    }
    assert forall|k: int|
        {
            &&& 0 <= k < points.len()
            &&& k < indexes.len()
            &&& nb_pub + indexes[k] < n
            &&& forall|j: int|
                k < j < points.len() && j < indexes.len() ==> indexes[j] != indexes[k]
        } implies evals[nb_pub + indexes[k]]@ == bytes::be_value(
        hash_to_field::xmd(
            crate::encode_point(#[trigger] points[k]),
            text::utf8("BSB22-Plonk"@),
            48,
        ),
    ) % fields::fr_modulus() by {
        let i = nb_pub + indexes[k];
        law_public_row(pi, m, points, indexes, n as nat, i);
        assert(settles_row(k, i, m, points, indexes));
    }
    assert forall|i: int| 0 <= i < n && i < pi.len() && i < nb_pub implies (#[trigger] evals[i])@
        == pi[i] by {
        law_public_row(pi, m, points, indexes, n as nat, i);
    }
    assert forall|i: int|
        0 <= i < n && !(i < pi.len() && i < nb_pub) && (forall|k: int|
            0 <= k < points.len() && k < indexes.len() ==> i != nb_pub
                + #[trigger] indexes[k]) implies (#[trigger] evals[i])@ == 0 by {
        law_public_row(pi, m, points, indexes, n as nat, i);
    }
}

/// The values of the public input polynomial.
pub fn compute_pi_evals(
    pi: &[Fr],
    nb_pub: usize,
    bsb22_commitments: &[BN254G1Affine],
    indexes: &[usize],
    n: usize,
) -> (res: Vec<Fr>)
    requires
        fields::all_wf(pi@),
        shorter(pi@.len(), nb_pub as nat) <= n,
    ensures
        fields::all_wf(res@),
        fields::vals(res@) == pi_rows(
            fields::vals(pi@),
            nb_pub as nat,
            circuit::bn_points(bsb22_commitments@),
            indexes@,
            n as nat,
        ),
        res@.len() == n,
        forall|k: int|
            {
                &&& 0 <= k < bsb22_commitments@.len()
                &&& k < indexes@.len()
                &&& nb_pub + indexes@[k] < n
                &&& forall|j: int|
                    k < j < bsb22_commitments@.len() && j < indexes@.len() ==> indexes@[j]
                        != indexes@[k]
            } ==> res@[nb_pub + indexes@[k]]@ == bytes::be_value(
                hash_to_field::xmd(
                    crate::encode_point((#[trigger] bsb22_commitments@[k])@),
                    text::utf8("BSB22-Plonk"@),
                    48,
                ),
            ) % fields::fr_modulus(),
        forall|i: int|
            0 <= i < n && i < pi@.len() && i < nb_pub ==> (#[trigger] res@[i])@ == pi@[i]@,
        forall|i: int|
            0 <= i < n && !(i < pi@.len() && i < nb_pub) && (forall|k: int|
                0 <= k < bsb22_commitments@.len() && k < indexes@.len() ==> i != nb_pub
                    + #[trigger] indexes@[k]) ==> (#[trigger] res@[i])@ == 0,
{
    let mut evals: Vec<Fr> = vec![Fr::zero(); n];
    let copy_len: usize = if pi.len() < nb_pub {
        pi.len()
    } else {
        nb_pub
    };
    for i in 0..copy_len
        invariant
            copy_len == shorter(pi@.len(), nb_pub as nat),
            copy_len <= n,
            evals@.len() == n,
            fields::all_wf(pi@),
            fields::all_wf(evals@),
            forall|j: int|
                0 <= j < n ==> (#[trigger] evals@[j])@ == (if j < i {
                    pi@[j]@
                } else {
                    0
                }),
    {
        evals.set(i, pi[i]);
    }
    let ghost vp = fields::vals(pi@);
    let ghost points = circuit::bn_points(bsb22_commitments@);
    proof {
        assert(fields::vals(evals@) =~= public_rows(vp, nb_pub as nat, n as nat));
        assert(points.take(0) =~= seq![]);
    }
    for i in 0..bsb22_commitments.len()
        invariant
            vp == fields::vals(pi@),
            points == circuit::bn_points(bsb22_commitments@),
            evals@.len() == n,
            fields::all_wf(evals@),
            fields::vals(evals@) == pi_rows(
                vp,
                nb_pub as nat,
                points.take(i as int),
                indexes@,
                n as nat,
            ),
    {
        let ghost before = fields::vals(evals@);
        proof {
            assert(points.take(i + 1).drop_last() =~= points.take(i as int));
        }
        if i < indexes.len() {
            let bytes = bsb22_commitments[i].to_transcript_bytes();
            let hashed = hash_to_field::hash_to_field_bsb22(bytes.as_slice());
            if indexes[i] < n && nb_pub < n - indexes[i] {
                let pos: usize = nb_pub + indexes[i];
                evals.set(pos, hashed);
                assert(fields::vals(evals@) =~= before.update(pos as int, hashed@));
            }
        }
    }
    assert(points.take(bsb22_commitments@.len() as int) =~= points);
    proof {
        lemma_evals_by_row(evals@, vp, nb_pub, points, indexes@, n);
        assert forall|k: int| 0 <= k < bsb22_commitments@.len() implies points[k]
            == (#[trigger] bsb22_commitments@[k])@ by {}
    }
    evals
}

/// The coefficients of the public input polynomial.
pub fn compute_pi_polynomial(
    pi: &[Fr],
    nb_pub: usize,
    bsb22_commitments: &[BN254G1Affine],
    indexes: &[usize],
    domain: &Domain,
) -> (res: Vec<Fr>)
    requires
        domain.primitive(),
        fields::all_wf(pi@),
        shorter(pi@.len(), nb_pub as nat) <= domain.size,
    ensures
        fields::all_wf(res@),
        fields::vals(res@) == domain::idft(
            pi_rows(
                fields::vals(pi@),
                nb_pub as nat,
                circuit::bn_points(bsb22_commitments@),
                indexes@,
                domain.size as nat,
            ),
            domain.omega@,
        ),
        forall|i: int|
            0 <= i < domain.size ==> polynomial::feval(
                fields::vals(res@),
                #[trigger] fields::fpow(domain.omega@, i as nat),
            ) == public_value(
                fields::vals(pi@),
                nb_pub as nat,
                circuit::bn_points(bsb22_commitments@),
                indexes@,
                i,
            ),
{
    let evals = compute_pi_evals(pi, nb_pub, bsb22_commitments, indexes, domain.size);
    proof {
        let rows = fields::vals(evals@);
        let w = domain.omega@;
        law_public_values(
            fields::vals(pi@),
            nb_pub as nat,
            circuit::bn_points(bsb22_commitments@),
            indexes@,
            domain.size as nat,
        );
        assert(dft::in_field(rows)) by {
            assert forall|i: int| 0 <= i < rows.len() implies 0 <= #[trigger] rows[i]
                < fields::fr_modulus() by {
                evals@[i].lemma_view_range();
            }
        }
        fields::lemma_fr_modulus();
        domain.omega.lemma_view_range();
        dft::law_dft_of_idft(rows, w, domain.log_size as nat);
        assert forall|i: int| 0 <= i < domain.size implies polynomial::feval(
            domain::idft(rows, w),
            #[trigger] fields::fpow(w, i as nat),
        ) == rows[i] by {
            let q = domain::idft(rows, w);
            assert(domain::dft(q, w)[i] == rows[i]);
            modular::lemma_mod_idem(pow(w, i as nat), fields::fr_modulus());
            polynomial::lemma_peval_cong(
                q,
                q,
                pow(w, i as nat),
                fields::fpow(w, i as nat),
                fields::fr_modulus(),
            );
        }
        lemma_pi_rows_len(
            fields::vals(pi@),
            nb_pub as nat,
            circuit::bn_points(bsb22_commitments@),
            indexes@,
            domain.size as nat,
        );
        assert(fields::vals(evals@).len() == domain.size);
    }
    domain.ifft(evals.as_slice())
}

// ---------------------------------------------------------------------------
// The quotient on the coset
// ---------------------------------------------------------------------------

/// The entry of each vector at an index.
pub open spec fn column_at(v: Seq<Vec<Fr>>, i: int) -> Seq<int> {
    Seq::new(v.len(), |j: int| v[j]@[i]@)
}

/// The entries of the vectors at an index, as far as there are vectors on both
/// sides, multiplied and added to a value.
fn add_products(start: Fr, qcp: &Vec<Vec<Fr>>, bsb22: &Vec<Vec<Fr>>, i: usize, Ghost(pi): Ghost<
    int,
>, Ghost(qk): Ghost<int>) -> (res: Fr)
    requires
        start.wf(),
        start@ == fields::fadd(pi, qk),
        circuit::vecs_wf(qcp@),
        circuit::vecs_wf(bsb22@),
        forall|j: int| 0 <= j < qcp@.len() ==> i < (#[trigger] qcp@[j])@.len(),
        forall|j: int| 0 <= j < bsb22@.len() ==> i < (#[trigger] bsb22@[j])@.len(),
    ensures
        res.wf(),
        res@ == fused(
            pi,
            qk,
            column_at(qcp@, i as int),
            column_at(bsb22@, i as int),
            shorter(qcp@.len(), bsb22@.len()),
        ),
{
    let mut acc = start;
    let m: usize = if qcp.len() <= bsb22.len() {
        qcp.len()
    } else {
        bsb22.len()
    };
    for j in 0..m
        invariant
            m <= qcp@.len(),
            m <= bsb22@.len(),
            circuit::vecs_wf(qcp@),
            circuit::vecs_wf(bsb22@),
            forall|k: int| 0 <= k < qcp@.len() ==> i < (#[trigger] qcp@[k])@.len(),
            forall|k: int| 0 <= k < bsb22@.len() ==> i < (#[trigger] bsb22@[k])@.len(),
            acc.wf(),
            acc@ == fused(
                pi,
                qk,
                column_at(qcp@, i as int),
                column_at(bsb22@, i as int),
                j as nat,
            ),
    {
        proof {
            assert(qcp@[j as int]@[i as int].wf());
            assert(bsb22@[j as int]@[i as int].wf());
        }
        acc = acc.add(&qcp[j][i].mul(&bsb22[j][i]));
    }
    acc
}

/// `pi + qk + sum qcp_j B_j` for every point of the coset.
pub open spec fn fused_values(
    pi: Seq<int>,
    qk: Seq<int>,
    qcp: Seq<Vec<Fr>>,
    bsb22: Seq<Vec<Fr>>,
) -> Seq<int> {
    Seq::new(
        pi.len(),
        |i: int|
            fused(
                pi[i],
                qk[i],
                column_at(qcp, i),
                column_at(bsb22, i),
                shorter(qcp.len(), bsb22.len()),
            ),
    )
}

/// Add the constant selector and the BSB22 products to the public inputs, point by
/// point.
pub fn fuse_qk_pi(
    pi_evals: &[Fr],
    qk_evals: &[Fr],
    qcp_evals: &Vec<Vec<Fr>>,
    bsb22_evals: &Vec<Vec<Fr>>,
) -> (res: Vec<Fr>)
    requires
        qk_evals@.len() == pi_evals@.len(),
        fields::all_wf(pi_evals@),
        fields::all_wf(qk_evals@),
        circuit::vecs_wf(qcp_evals@),
        circuit::vecs_wf(bsb22_evals@),
        forall|j: int|
            0 <= j < qcp_evals@.len() ==> (#[trigger] qcp_evals@[j])@.len() == pi_evals@.len(),
        forall|j: int|
            0 <= j < bsb22_evals@.len() ==> (#[trigger] bsb22_evals@[j])@.len()
                == pi_evals@.len(),
    ensures
        fields::all_wf(res@),
        fields::vals(res@) == fused_values(
            fields::vals(pi_evals@),
            fields::vals(qk_evals@),
            qcp_evals@,
            bsb22_evals@,
        ),
{
    let n = pi_evals.len();
    let ghost vp = fields::vals(pi_evals@);
    let ghost vk = fields::vals(qk_evals@);
    let mut res: Vec<Fr> = Vec::with_capacity(n);
    for i in 0..n
        invariant
            n == pi_evals@.len(),
            n == qk_evals@.len(),
            vp == fields::vals(pi_evals@),
            vk == fields::vals(qk_evals@),
            fields::all_wf(pi_evals@),
            fields::all_wf(qk_evals@),
            circuit::vecs_wf(qcp_evals@),
            circuit::vecs_wf(bsb22_evals@),
            forall|j: int| 0 <= j < qcp_evals@.len() ==> (#[trigger] qcp_evals@[j])@.len() == n,
            forall|j: int|
                0 <= j < bsb22_evals@.len() ==> (#[trigger] bsb22_evals@[j])@.len() == n,
            res@.len() == i,
            fields::all_wf(res@),
            forall|j: int|
                0 <= j < i ==> (#[trigger] res@[j])@ == fused_values(
                    vp,
                    vk,
                    qcp_evals@,
                    bsb22_evals@,
                )[j],
    {
        let start = pi_evals[i].add(&qk_evals[i]);
        res.push(
            add_products(
                start,
                qcp_evals,
                bsb22_evals,
                i,
                Ghost(vp[i as int]),
                Ghost(vk[i as int]),
            ),
        );
    }
    assert(fields::vals(res@) =~= fused_values(vp, vk, qcp_evals@, bsb22_evals@));
    res
}

/// The quotient on the coset from the values of the polynomials of a proof on it.
pub open spec fn quotient_from(
    c: Circuit,
    ch: Challenges,
    qk_plus_pi: Seq<int>,
    l: Seq<int>,
    r: Seq<int>,
    o: Seq<int>,
    z: Seq<int>,
) -> Seq<int> {
    Seq::new(
        c.big_n(),
        |i: int|
            fields::fmul(
                coset_evals(c, qk_plus_pi, l, r, o, z, i).numerator(
                    c.point(i),
                    c.l1_at(c.point(i)),
                    ch,
                    c.shift,
                ),
                fields::finv(c.zh(c.point(i))),
            ),
    )
}

/// The values at one point of the coset.
pub open spec fn coset_evals(
    c: Circuit,
    qk_plus_pi: Seq<int>,
    l: Seq<int>,
    r: Seq<int>,
    o: Seq<int>,
    z: Seq<int>,
    i: int,
) -> Evals {
    let x = c.point(i);
    Evals {
        l: l[i],
        r: r[i],
        o: o[i],
        z: z[i],
        zw: z[c.next_row(i)],
        ql: polynomial::feval(c.ql, x),
        qr: polynomial::feval(c.qr, x),
        qm: polynomial::feval(c.qm, x),
        qo: polynomial::feval(c.qo, x),
        fused: qk_plus_pi[i],
        s1: polynomial::feval(c.s1, x),
        s2: polynomial::feval(c.s2, x),
        s3: polynomial::feval(c.s3, x),
    }
}

impl CachedFrData {
    /// What the tables hold at one point of the coset.
    proof fn lemma_tables_at(self, i: int)
        requires
            self.wf(),
            0 <= i < self.circuit().big_n(),
        ensures
            self.ql_coset_evals@.len() == self.circuit().big_n(),
            self.qr_coset_evals@.len() == self.circuit().big_n(),
            self.qm_coset_evals@.len() == self.circuit().big_n(),
            self.qo_coset_evals@.len() == self.circuit().big_n(),
            self.s1_coset_evals@.len() == self.circuit().big_n(),
            self.s2_coset_evals@.len() == self.circuit().big_n(),
            self.s3_coset_evals@.len() == self.circuit().big_n(),
            self.coset_points@.len() == self.circuit().big_n(),
            self.zh_values@.len() == self.circuit().big_n(),
            self.zh_inv@.len() == self.circuit().big_n(),
            self.x_minus_one_n_inv@.len() == self.circuit().big_n(),
            ({
                let c = self.circuit();
                let x = c.point(i);
                &&& self.ql_coset_evals@[i]@ == polynomial::feval(c.ql, x)
                &&& self.qr_coset_evals@[i]@ == polynomial::feval(c.qr, x)
                &&& self.qm_coset_evals@[i]@ == polynomial::feval(c.qm, x)
                &&& self.qo_coset_evals@[i]@ == polynomial::feval(c.qo, x)
                &&& self.s1_coset_evals@[i]@ == polynomial::feval(c.s1, x)
                &&& self.s2_coset_evals@[i]@ == polynomial::feval(c.s2, x)
                &&& self.s3_coset_evals@[i]@ == polynomial::feval(c.s3, x)
                &&& self.coset_points@[i]@ == x
                &&& self.zh_values@[i]@ == c.zh(x)
                &&& self.zh_inv@[i]@ == fields::finv(c.zh(x))
                &&& self.x_minus_one_n_inv@[i]@ == fields::finv(c.l1_divisor(x))
            }),
    {
        let c = self.circuit();
        assert(fields::vals(self.ql_coset_evals@).len() == c.big_n());
        assert(fields::vals(self.qr_coset_evals@).len() == c.big_n());
        assert(fields::vals(self.qm_coset_evals@).len() == c.big_n());
        assert(fields::vals(self.qo_coset_evals@).len() == c.big_n());
        assert(fields::vals(self.s1_coset_evals@).len() == c.big_n());
        assert(fields::vals(self.s2_coset_evals@).len() == c.big_n());
        assert(fields::vals(self.s3_coset_evals@).len() == c.big_n());
        assert(fields::vals(self.coset_points@).len() == c.big_n());
        assert(fields::vals(self.zh_values@).len() == c.big_n());
        assert(fields::vals(self.zh_inv@).len() == c.big_n());
        assert(fields::vals(self.x_minus_one_n_inv@).len() == c.big_n());
        assert(fields::vals(self.ql_coset_evals@)[i] == c.on_coset(c.ql)[i]);
        assert(fields::vals(self.qr_coset_evals@)[i] == c.on_coset(c.qr)[i]);
        assert(fields::vals(self.qm_coset_evals@)[i] == c.on_coset(c.qm)[i]);
        assert(fields::vals(self.qo_coset_evals@)[i] == c.on_coset(c.qo)[i]);
        assert(fields::vals(self.s1_coset_evals@)[i] == c.on_coset(c.s1)[i]);
        assert(fields::vals(self.s2_coset_evals@)[i] == c.on_coset(c.s2)[i]);
        assert(fields::vals(self.s3_coset_evals@)[i] == c.on_coset(c.s3)[i]);
        assert(fields::vals(self.coset_points@)[i] == c.point(i));
        assert(fields::vals(self.zh_values@)[i] == c.zh(c.point(i)));
        assert(fields::vals(self.zh_inv@)[i] == fields::finv(c.zh(c.point(i))));
        assert(fields::vals(self.x_minus_one_n_inv@)[i] == fields::finv(
            c.l1_divisor(c.point(i)),
        ));
    }

    /// The quotient at one point of the coset.
    pub fn quotient_value(
        &self,
        i: usize,
        qk_plus_pi: &Fr,
        l: &Fr,
        r: &Fr,
        o: &Fr,
        z: &Fr,
        z_shifted: &Fr,
        alpha: &Fr,
        beta: &Fr,
        gamma: &Fr,
    ) -> (res: Fr)
        requires
            self.wf(),
            i < self.circuit().big_n(),
            qk_plus_pi.wf(),
            l.wf(),
            r.wf(),
            o.wf(),
            z.wf(),
            z_shifted.wf(),
            alpha.wf(),
            beta.wf(),
            gamma.wf(),
        ensures
            res.wf(),
            ({
                let c = self.circuit();
                let x = c.point(i as int);
                let e = Evals {
                    l: l@,
                    r: r@,
                    o: o@,
                    z: z@,
                    zw: z_shifted@,
                    ql: polynomial::feval(c.ql, x),
                    qr: polynomial::feval(c.qr, x),
                    qm: polynomial::feval(c.qm, x),
                    qo: polynomial::feval(c.qo, x),
                    fused: qk_plus_pi@,
                    s1: polynomial::feval(c.s1, x),
                    s2: polynomial::feval(c.s2, x),
                    s3: polynomial::feval(c.s3, x),
                };
                res@ == fields::fmul(
                    e.numerator(
                        x,
                        c.l1_at(x),
                        (Challenges { alpha: alpha@, beta: beta@, gamma: gamma@ }),
                        c.shift,
                    ),
                    fields::finv(c.zh(x)),
                )
            }),
    {
        proof {
            self.lemma_tables_at(i as int);
            assert(self.ql_coset_evals@[i as int].wf());
            assert(self.qr_coset_evals@[i as int].wf());
            assert(self.qm_coset_evals@[i as int].wf());
            assert(self.qo_coset_evals@[i as int].wf());
            assert(self.s1_coset_evals@[i as int].wf());
            assert(self.s2_coset_evals@[i as int].wf());
            assert(self.s3_coset_evals@[i as int].wf());
            assert(self.coset_points@[i as int].wf());
            assert(self.zh_values@[i as int].wf());
            assert(self.zh_inv@[i as int].wf());
            assert(self.x_minus_one_n_inv@[i as int].wf());
        }
        let v = PointValues {
            l: *l,
            r: *r,
            o: *o,
            z: *z,
            z_shifted: *z_shifted,
            ql: self.ql_coset_evals[i],
            qr: self.qr_coset_evals[i],
            qm: self.qm_coset_evals[i],
            qo: self.qo_coset_evals[i],
            qk_plus_pi: *qk_plus_pi,
            s1: self.s1_coset_evals[i],
            s2: self.s2_coset_evals[i],
            s3: self.s3_coset_evals[i],
        };
        let l1 = self.zh_values[i].mul(&self.x_minus_one_n_inv[i]);
        v.numerator(&self.coset_points[i], &l1, alpha, beta, gamma, &self.coset_shift).mul(
            &self.zh_inv[i],
        )
    }

    /// The coefficients of the quotient from the values of the polynomials of a
    /// proof on the coset.
    pub fn quotient_from_coset(
        &self,
        qk_plus_pi: &[Fr],
        l: &[Fr],
        r: &[Fr],
        o: &[Fr],
        z: &[Fr],
        alpha: &Fr,
        beta: &Fr,
        gamma: &Fr,
    ) -> (res: Vec<Fr>)
        requires
            self.wf(),
            self.circuit().shift != 0,
            qk_plus_pi@.len() == self.circuit().big_n(),
            l@.len() == self.circuit().big_n(),
            r@.len() == self.circuit().big_n(),
            o@.len() == self.circuit().big_n(),
            z@.len() == self.circuit().big_n(),
            fields::all_wf(qk_plus_pi@),
            fields::all_wf(l@),
            fields::all_wf(r@),
            fields::all_wf(o@),
            fields::all_wf(z@),
            alpha.wf(),
            beta.wf(),
            gamma.wf(),
        ensures
            fields::all_wf(res@),
            fields::vals(res@) == domain::coset_idft(
                quotient_from(
                    self.circuit(),
                    (Challenges { alpha: alpha@, beta: beta@, gamma: gamma@ }),
                    fields::vals(qk_plus_pi@),
                    fields::vals(l@),
                    fields::vals(r@),
                    fields::vals(o@),
                    fields::vals(z@),
                ),
                self.circuit().w4,
                self.circuit().shift,
            ),
    {
        let big_n = self.big_domain.size;
        let ghost c = self.circuit();
        let ghost ch = Challenges { alpha: alpha@, beta: beta@, gamma: gamma@ };
        let ghost target = quotient_from(
            c,
            ch,
            fields::vals(qk_plus_pi@),
            fields::vals(l@),
            fields::vals(r@),
            fields::vals(o@),
            fields::vals(z@),
        );
        proof {
            circuit::lemma_n_small(c);
        }
        let mut h: Vec<Fr> = Vec::with_capacity(big_n);
        for i in 0..big_n
            invariant
                self.wf(),
                c == self.circuit(),
                big_n == c.big_n(),
                0 < big_n <= 0x10000000,
                ch == (Challenges { alpha: alpha@, beta: beta@, gamma: gamma@ }),
                target == quotient_from(
                    c,
                    ch,
                    fields::vals(qk_plus_pi@),
                    fields::vals(l@),
                    fields::vals(r@),
                    fields::vals(o@),
                    fields::vals(z@),
                ),
                qk_plus_pi@.len() == big_n,
                l@.len() == big_n,
                r@.len() == big_n,
                o@.len() == big_n,
                z@.len() == big_n,
                fields::all_wf(qk_plus_pi@),
                fields::all_wf(l@),
                fields::all_wf(r@),
                fields::all_wf(o@),
                fields::all_wf(z@),
                alpha.wf(),
                beta.wf(),
                gamma.wf(),
                h@.len() == i,
                fields::all_wf(h@),
                forall|j: int| 0 <= j < i ==> (#[trigger] h@[j])@ == target[j],
        {
            let next: usize = (i + 4) % big_n;
            let v = self.quotient_value(
                i,
                &qk_plus_pi[i],
                &l[i],
                &r[i],
                &o[i],
                &z[i],
                &z[next],
                alpha,
                beta,
                gamma,
            );
            h.push(v);
        }
        assert(fields::vals(h@) =~= target);
        self.big_domain.coset_ifft(h.as_slice(), &self.coset_shift)
    }
}

/// The values of polynomials on the coset.
fn coset_eval_all(cached: &CachedFrData, polys: &Vec<Vec<Fr>>) -> (res: Vec<Vec<Fr>>)
    requires
        cached.wf(),
        circuit::vecs_wf(polys@),
        forall|j: int|
            0 <= j < polys@.len() ==> (#[trigger] polys@[j])@.len() <= cached.circuit().big_n(),
    ensures
        res@.len() == polys@.len(),
        circuit::vecs_wf(res@),
        forall|j: int|
            0 <= j < polys@.len() ==> fields::vals((#[trigger] res@[j])@)
                == cached.circuit().on_coset(fields::vals(polys@[j]@)),
{
    let mut res: Vec<Vec<Fr>> = Vec::new();
    for i in 0..polys.len()
        invariant
            cached.wf(),
            circuit::vecs_wf(polys@),
            forall|j: int|
                0 <= j < polys@.len() ==> (#[trigger] polys@[j])@.len()
                    <= cached.circuit().big_n(),
            res@.len() == i,
            circuit::vecs_wf(res@),
            forall|j: int|
                0 <= j < i ==> fields::vals((#[trigger] res@[j])@) == cached.circuit().on_coset(
                    fields::vals(polys@[j]@),
                ),
    {
        res.push(cached.on_coset(polys[i].as_slice()));
    }
    res
}

/// The value of the vanishing polynomial repeats every four points of the coset.
pub proof fn lemma_zh_repeats(c: Circuit, i: int)
    requires
        c.wf(),
        i >= 0,
    ensures
        c.zh(c.point(i)) == c.zh(c.point(i % 4)),
{
    fields::lemma_fr_modulus();
    let m = fields::fr_modulus();
    let n = c.n();
    let j = i % 4;
    let q = (i / 4) as nat;
    // w4^(n i) = (w4^4n)^q w4^(n j) = w4^(n j)
    let a = pow(c.w4, i as nat);
    let b = pow(c.w4, j as nat);
    assert(pow(a, n) % m == pow(b, n) % m) by {
        lemma_pow_multiplies(c.w4, i as nat, n);
        lemma_pow_multiplies(c.w4, j as nat, n);
        let e = c.big_n();
        assert(i * n == e * q + j * n) by (nonlinear_arith)
            requires
                i == 4 * q + j,
                e == 4 * n,
        ;
        assert(e * q >= 0 && j * n >= 0) by (nonlinear_arith)
            requires
                e >= 0,
                q >= 0,
                j >= 0,
                n >= 0,
        ;
        lemma_pow_adds(c.w4, (e * q) as nat, (j * n) as nat);
        lemma_pow_multiplies(c.w4, e, q);
        crate::dft::law_root_order(c.w4, c.bits + 2);
        circuit::lemma_big_n(c);
        lemma_small_mod(1, m as nat);
        modular::lemma_pow_cong(pow(c.w4, e), 1, q, m);
        lemma1_pow(q);
        let y = pow(c.w4, (j * n) as nat);
        modular::lemma_mul_cong(pow(c.w4, (e * q) as nat), y, 1, y, m);
    }
    circuit::lemma_point(c, i);
    circuit::lemma_point(c, j);
    modular::lemma_pow_cong(c.point(i), c.shift * a, n, m);
    modular::lemma_pow_cong(c.point(j), c.shift * b, n, m);
    lemma_pow_distributes(c.shift, a, n);
    lemma_pow_distributes(c.shift, b, n);
    modular::lemma_mul_cong(pow(c.shift, n), pow(a, n), pow(c.shift, n), pow(b, n), m);
}

/// A point of the coset from the low and the high table.
pub proof fn lemma_point_by_tables(c: Circuit, i: int)
    requires
        i >= 0,
    ensures
        fields::fmul(
            fields::fmul(c.shift, fields::fpow(c.w4, (i % 0x4000) as nat)),
            fields::fpow(fields::fpow(c.w4, 0x4000), (i / 0x4000) as nat),
        ) == c.point(i),
{
    fields::lemma_fr_modulus();
    let m = fields::fr_modulus();
    let lo = (i % 0x4000) as nat;
    let hi = (i / 0x4000) as nat;
    let a = pow(c.w4, lo);
    let b = pow(pow(c.w4, 0x4000), hi);
    lemma_pow_multiplies(c.w4, 0x4000, hi);
    lemma_pow_adds(c.w4, lo, (0x4000 * hi) as nat);
    modular::lemma_mod_idem(a, m);
    modular::lemma_mod_idem(pow(c.w4, 0x4000), m);
    modular::lemma_pow_cong(fields::fpow(c.w4, 0x4000), pow(c.w4, 0x4000), hi, m);
    modular::lemma_mod_idem(pow(fields::fpow(c.w4, 0x4000), hi), m);
    modular::lemma_mul_cong(c.shift, fields::fpow(c.w4, lo), c.shift, a, m);
    modular::lemma_mod_idem(c.shift * fields::fpow(c.w4, lo), m);
    modular::lemma_mul_cong(
        fields::fmul(c.shift, fields::fpow(c.w4, lo)),
        fields::fpow(fields::fpow(c.w4, 0x4000), hi),
        c.shift * a,
        b,
        m,
    );
    lemma_mul_is_associative(c.shift, a, b);
    circuit::lemma_point(c, i);
}

/// Values on the coset with `bp(x) (x^n - 1)` added.
pub open spec fn fixed_up(c: Circuit, evals: Seq<int>, bp: Seq<int>) -> Seq<int> {
    Seq::new(
        evals.len(),
        |i: int|
            fields::fadd(
                evals[i],
                fields::fmul(polynomial::feval(bp, c.point(i)), c.zh(c.point(i))),
            ),
    )
}

/// Adding the blinding on the coset gives what evaluating the blinded polynomial
/// gives.
pub proof fn law_fixup_is_recompute(c: Circuit, p: Seq<int>, bp: Seq<int>)
    requires
        p.len() == c.n(),
        bp.len() <= p.len(),
    ensures
        fixed_up(c, c.on_coset(p), bp) == c.on_coset(blinding::spliced(p, bp)),
{
    fields::lemma_fr_modulus();
    let m = fields::fr_modulus();
    let s = blinding::spliced(p, bp);
    assert forall|i: int| 0 <= i < c.big_n() implies #[trigger] fixed_up(c, c.on_coset(p), bp)[i]
        == c.on_coset(s)[i] by {
        let x = c.point(i);
        blinding::law_blinding_adds_vanishing(p, bp, x);
        let px = polynomial::peval(p, x);
        let bx = polynomial::peval(bp, x);
        let u = pow(x, c.n());
        modular::lemma_mod_idem(px, m);
        modular::lemma_mod_idem(bx, m);
        modular::lemma_mod_idem(u, m);
        modular::lemma_sub_cong(fields::fpow(x, c.n()), 1, u, 1, m);
        modular::lemma_mod_idem(fields::fpow(x, c.n()) - 1, m);
        modular::lemma_mul_cong(bx % m, c.zh(x), bx, u - 1, m);
        modular::lemma_mod_idem((bx % m) * c.zh(x), m);
        modular::lemma_add_cong(
            px % m,
            fields::fmul(bx % m, c.zh(x)),
            px,
            bx * (u - 1),
            m,
        );
    }
    assert(fixed_up(c, c.on_coset(p), bp) =~= c.on_coset(s));
}

proof fn lemma_zero_fixup(c: Circuit, evals: Seq<int>, bp: Seq<int>)
    requires
        commit::nonzero_count(bp) == 0,
        crate::dft::in_field(evals),
    ensures
        fixed_up(c, evals, bp) == evals,
{
    fields::lemma_fr_modulus();
    let m = fields::fr_modulus();
    lemma_small_mod(0, m as nat);
    assert forall|i: int| 0 <= i < evals.len() implies #[trigger] fixed_up(c, evals, bp)[i]
        == evals[i] by {
        lemma_zero_eval(bp, c.point(i));
        assert(0 * c.zh(c.point(i)) == 0);
        lemma_small_mod(evals[i] as nat, m as nat);
    }
    assert(fixed_up(c, evals, bp) =~= evals);
}

proof fn lemma_zero_eval(bp: Seq<int>, x: int)
    requires
        commit::nonzero_count(bp) == 0,
    ensures
        polynomial::peval(bp, x) == 0,
{
    lemma_all_zero(bp);
    let f = |i: int| polynomial::coeff(bp, i) * pow(x, i as nat);
    polynomial::lemma_peval_sum(bp, x, bp.len());
    assert forall|i: int| 0 <= i < bp.len() implies #[trigger] f(i) == 0 by {
        assert(bp[i] == 0);
        assert(0 * pow(x, i as nat) == 0);
    }
    sums::lemma_sum_zero(f, bp.len());
}

/// Where no coefficient is counted, every one is zero.
pub proof fn lemma_all_zero(c: Seq<int>)
    requires
        commit::nonzero_count(c) == 0,
    ensures
        forall|i: int| 0 <= i < c.len() ==> #[trigger] c[i] == 0,
    decreases c.len(),
{
    if c.len() > 0 {
        lemma_all_zero(c.drop_last());
        assert forall|i: int| 0 <= i < c.len() implies #[trigger] c[i] == 0 by {
            if i < c.len() - 1 {
                assert(c.drop_last()[i] == c[i]);
            }
        }
    }
}

/// Add `bp(x) (x^n - 1)` to values on the coset in place. The points come from the
/// two tables, so the coset has to be as long as the low table.
pub fn apply_blinding_fixup_host(cached: &CachedFrData, evals: &mut [Fr], bp: &[Fr])
    requires
        cached.wf(),
        old(evals)@.len() == cached.circuit().big_n(),
        fields::all_wf(old(evals)@),
        fields::all_wf(bp@),
        commit::nonzero_count(fields::vals(bp@)) == 0 || cached.circuit().big_n() >= 0x4000,
    ensures
        final(evals)@.len() == old(evals)@.len(),
        fields::all_wf(final(evals)@),
        fields::vals(final(evals)@) == fixed_up(
            cached.circuit(),
            fields::vals(old(evals)@),
            fields::vals(bp@),
        ),
{
    let ghost c = cached.circuit();
    let ghost start = evals@;
    let ghost b = fields::vals(bp@);
    if commit::count_nonzero(bp) == 0 {
        proof {
            let v = fields::vals(start);
            assert(crate::dft::in_field(v)) by {
                assert forall|i: int| 0 <= i < v.len() implies 0 <= #[trigger] v[i]
                    < fields::fr_modulus() by {
                    start[i].lemma_of_view();
                }
            }
            lemma_zero_fixup(c, v, b);
        }
        return ;
    }
    let n = evals.len();
    proof {
        circuit::lemma_n_small(c);
        circuit::lemma_big_n(c);
        lemma_big_multiple(c);
        assert(fields::vals(cached.omega_lo_table@).len() == 0x4000);
        assert(fields::vals(cached.omega_hi_table@).len() == c.big_n() / 0x4000);
    }
    for i in 0..n
        invariant
            n == evals@.len(),
            n == start.len(),
            n == c.big_n(),
            n % 0x4000 == 0,
            n <= 0x10000000,
            cached.wf(),
            c == cached.circuit(),
            b == fields::vals(bp@),
            fields::all_wf(start),
            fields::all_wf(bp@),
            cached.omega_lo_table@.len() == 0x4000,
            cached.omega_hi_table@.len() == n / 0x4000,
            forall|j: int|
                0 <= j < n ==> (#[trigger] evals@[j]).wf() && (if j < i {
                    evals@[j]@ == fixed_up(c, fields::vals(start), b)[j]
                } else {
                    evals@[j] == start[j]
                }),
    {
        let lo: usize = i % 0x4000;
        let hi: usize = i / 0x4000;
        let k: usize = i % 4;
        proof {
            assert(hi < n / 0x4000);
            assert(fields::vals(cached.omega_lo_table@)[lo as int] == fields::fpow(
                c.w4,
                lo as nat,
            ));
            assert(fields::vals(cached.omega_hi_table@)[hi as int] == fields::fpow(
                fields::fpow(c.w4, 0x4000),
                hi as nat,
            ));
            assert(fields::vals(cached.zh_vals_4@)[k as int] == c.zh(c.point(k as int)));
            assert(cached.omega_lo_table@[lo as int].wf());
            assert(cached.omega_hi_table@[hi as int].wf());
            assert(cached.zh_vals_4@[k as int].wf());
            lemma_point_by_tables(c, i as int);
            lemma_zh_repeats(c, i as int);
        }
        let x = cached.coset_shift.mul(&cached.omega_lo_table[lo]).mul(
            &cached.omega_hi_table[hi],
        );
        let bp_eval = polynomial::eval_poly_at(bp, &x);
        let v = evals[i].add(&bp_eval.mul(&cached.zh_vals_4[k]));
        evals[i] = v;
    }
    assert(fields::vals(evals@) =~= fixed_up(c, fields::vals(start), b));
}

proof fn lemma_big_multiple(c: Circuit)
    requires
        c.big_n() >= 0x4000,
    ensures
        c.big_n() % 0x4000 == 0,
{
    circuit::lemma_big_n(c);
    lemma2_to64();
    if c.bits + 2 < 14 {
        lemma_pow2_strictly_increases(c.bits + 2, 14);
    }
    lemma_pow2_adds(14, (c.bits + 2 - 14) as nat);
    let q = pow2((c.bits + 2 - 14) as nat);
    lemma_mod_multiples_basic(q as int, 0x4000);
    lemma_mul_is_commutative(q as int, 0x4000);
}

impl CachedFrData {
    /// The values of a polynomial on the coset.
    pub fn on_coset(&self, coeffs: &[Fr]) -> (res: Vec<Fr>)
        requires
            self.wf(),
            coeffs@.len() <= self.circuit().big_n(),
            fields::all_wf(coeffs@),
        ensures
            fields::all_wf(res@),
            fields::vals(res@) == self.circuit().on_coset(fields::vals(coeffs@)),
            res@.len() == self.circuit().big_n(),
    {
        let res = circuit::coset_eval(
            coeffs,
            &self.big_domain,
            &self.coset_shift,
            Ghost(self.circuit()),
        );
        assert(fields::vals(res@).len() == self.circuit().big_n());
        res
    }

    /// The coefficients of the quotient from those of the polynomials of a proof.
    pub fn compute_quotient(
        &self,
        l_coeffs: &[Fr],
        r_coeffs: &[Fr],
        o_coeffs: &[Fr],
        z_coeffs: &[Fr],
        bsb22_coeffs: &Vec<Vec<Fr>>,
        pi_coeffs: &[Fr],
        alpha: &Fr,
        beta: &Fr,
        gamma: &Fr,
    ) -> (res: Vec<Fr>)
        requires
            self.wf(),
            self.circuit().shift != 0,
            l_coeffs@.len() <= self.circuit().big_n(),
            r_coeffs@.len() <= self.circuit().big_n(),
            o_coeffs@.len() <= self.circuit().big_n(),
            z_coeffs@.len() <= self.circuit().big_n(),
            pi_coeffs@.len() <= self.circuit().big_n(),
            forall|j: int|
                0 <= j < bsb22_coeffs@.len() ==> (#[trigger] bsb22_coeffs@[j])@.len()
                    <= self.circuit().big_n(),
            fields::all_wf(l_coeffs@),
            fields::all_wf(r_coeffs@),
            fields::all_wf(o_coeffs@),
            fields::all_wf(z_coeffs@),
            fields::all_wf(pi_coeffs@),
            circuit::vecs_wf(bsb22_coeffs@),
            alpha.wf(),
            beta.wf(),
            gamma.wf(),
        ensures
            fields::all_wf(res@),
            fields::vals(res@) == self.circuit().quotient(
                (Witness {
                    l: fields::vals(l_coeffs@),
                    r: fields::vals(r_coeffs@),
                    o: fields::vals(o_coeffs@),
                    z: fields::vals(z_coeffs@),
                    pi: fields::vals(pi_coeffs@),
                    bsb22: circuit::vec_vals(bsb22_coeffs@),
                }),
                (Challenges { alpha: alpha@, beta: beta@, gamma: gamma@ }),
            ),
    {
        let ghost c = self.circuit();
        let ghost wit = Witness {
            l: fields::vals(l_coeffs@),
            r: fields::vals(r_coeffs@),
            o: fields::vals(o_coeffs@),
            z: fields::vals(z_coeffs@),
            pi: fields::vals(pi_coeffs@),
            bsb22: circuit::vec_vals(bsb22_coeffs@),
        };
        let ghost ch = Challenges { alpha: alpha@, beta: beta@, gamma: gamma@ };
        let l = self.on_coset(l_coeffs);
        let r = self.on_coset(r_coeffs);
        let o = self.on_coset(o_coeffs);
        let z = self.on_coset(z_coeffs);
        let pi = self.on_coset(pi_coeffs);
        let bsb22 = coset_eval_all(self, bsb22_coeffs);
        proof {
            assert(fields::vals(self.qk_coset_evals@).len() == c.big_n());
            assert forall|j: int| 0 <= j < self.qcp_coset_evals@.len() implies (
            #[trigger] self.qcp_coset_evals@[j])@.len() == pi@.len() by {
                assert(fields::vals(self.qcp_coset_evals@[j]@).len() == c.big_n());
            }
            assert forall|j: int| 0 <= j < bsb22@.len() implies (#[trigger] bsb22@[j])@.len()
                == pi@.len() by {
                assert(fields::vals(bsb22@[j]@).len() == c.big_n());
            }
        }
        let qk_plus_pi = fuse_qk_pi(
            pi.as_slice(),
            self.qk_coset_evals.as_slice(),
            &self.qcp_coset_evals,
            &bsb22,
        );
        proof {
            let f = fields::vals(qk_plus_pi@);
            assert(f.len() == c.big_n());
            assert forall|i: int| 0 <= i < c.big_n() implies #[trigger] f[i] == c.fused_at(
                wit,
                c.point(i),
            ) by {
                let x = c.point(i);
                assert(column_at(self.qcp_coset_evals@, i) =~= values_at(c.qcp, x)) by {
                    assert forall|j: int| 0 <= j < c.qcp.len() implies #[trigger] column_at(
                        self.qcp_coset_evals@,
                        i,
                    )[j] == values_at(c.qcp, x)[j] by {
                        assert(fields::vals(self.qcp_coset_evals@[j]@)[i] == c.on_coset(
                            c.qcp[j],
                        )[i]);
                    }
                }
                assert(column_at(bsb22@, i) =~= values_at(wit.bsb22, x)) by {
                    assert forall|j: int| 0 <= j < bsb22@.len() implies #[trigger] column_at(
                        bsb22@,
                        i,
                    )[j] == values_at(wit.bsb22, x)[j] by {
                        assert(fields::vals(bsb22@[j]@)[i] == c.on_coset(
                            fields::vals(bsb22_coeffs@[j]@),
                        )[i]);
                    }
                }
                assert(fields::vals(self.qk_coset_evals@)[i] == c.on_coset(c.qk)[i]);
            }
            let target = quotient_from(
                c,
                ch,
                f,
                fields::vals(l@),
                fields::vals(r@),
                fields::vals(o@),
                fields::vals(z@),
            );
            assert forall|i: int| 0 <= i < c.big_n() implies #[trigger] target[i]
                == c.quotient_values(wit, ch)[i] by {
                circuit::lemma_n_small(c);
                lemma_mod_bound(i + 4, c.big_n() as int);
                assert(f[i] == c.fused_at(wit, c.point(i)));
            }
            assert(target =~= c.quotient_values(wit, ch));
        }
        self.quotient_from_coset(
            qk_plus_pi.as_slice(),
            l.as_slice(),
            r.as_slice(),
            o.as_slice(),
            z.as_slice(),
            alpha,
            beta,
            gamma,
        )
    }

    /// The coefficients of the quotient from the values of the unblinded
    /// polynomials of a proof on the coset, to which the blinding is added where
    /// there is one.
    pub fn compute_quotient_streamed(
        &self,
        qk_plus_pi: &[Fr],
        l_coset: Vec<Fr>,
        r_coset: Vec<Fr>,
        o_coset: Vec<Fr>,
        z_coset: Vec<Fr>,
        alpha: &Fr,
        beta: &Fr,
        gamma: &Fr,
        blinding_fold: Option<&BlindingScalars>,
    ) -> (res: Vec<Fr>)
        requires
            self.wf(),
            self.circuit().shift != 0,
            qk_plus_pi@.len() == self.circuit().big_n(),
            l_coset@.len() == self.circuit().big_n(),
            r_coset@.len() == self.circuit().big_n(),
            o_coset@.len() == self.circuit().big_n(),
            z_coset@.len() == self.circuit().big_n(),
            fields::all_wf(qk_plus_pi@),
            fields::all_wf(l_coset@),
            fields::all_wf(r_coset@),
            fields::all_wf(o_coset@),
            fields::all_wf(z_coset@),
            alpha.wf(),
            beta.wf(),
            gamma.wf(),
            blinding_fold matches Some(b) ==> b.wf() && self.circuit().big_n() >= 0x4000,
        ensures
            fields::all_wf(res@),
            ({
                let c = self.circuit();
                let ch = Challenges { alpha: alpha@, beta: beta@, gamma: gamma@ };
                let (l, r, o, z) = (
                    fields::vals(l_coset@),
                    fields::vals(r_coset@),
                    fields::vals(o_coset@),
                    fields::vals(z_coset@),
                );
                fields::vals(res@) == domain::coset_idft(
                    match blinding_fold {
                        Some(b) => quotient_from(
                            c,
                            ch,
                            fields::vals(qk_plus_pi@),
                            fixed_up(c, l, fields::vals(b.bp_l@)),
                            fixed_up(c, r, fields::vals(b.bp_r@)),
                            fixed_up(c, o, fields::vals(b.bp_o@)),
                            fixed_up(c, z, fields::vals(b.bp_z@)),
                        ),
                        None => quotient_from(
                            c,
                            ch,
                            fields::vals(qk_plus_pi@),
                            l,
                            r,
                            o,
                            z,
                        ),
                    },
                    c.w4,
                    c.shift,
                )
            }),
    {
        let mut l = l_coset;
        let mut r = r_coset;
        let mut o = o_coset;
        let mut z = z_coset;
        if let Some(b) = blinding_fold {
            apply_blinding_fixup_host(self, l.as_mut_slice(), b.bp_l.as_slice());
            apply_blinding_fixup_host(self, r.as_mut_slice(), b.bp_r.as_slice());
            apply_blinding_fixup_host(self, o.as_mut_slice(), b.bp_o.as_slice());
            apply_blinding_fixup_host(self, z.as_mut_slice(), b.bp_z.as_slice());
        }
        self.quotient_from_coset(
            qk_plus_pi,
            l.as_slice(),
            r.as_slice(),
            o.as_slice(),
            z.as_slice(),
            alpha,
            beta,
            gamma,
        )
    }
}

// ---------------------------------------------------------------------------
// The parts of the quotient
// ---------------------------------------------------------------------------

/// Split the quotient into three parts of `n + 2` coefficients.
pub fn split_quotient<'a>(h: &'a [Fr], n: usize) -> (res: (&'a [Fr], &'a [Fr], &'a [Fr]))
    requires
        3 * (n + 2) <= h@.len(),
    ensures
        res.0@ == h@.subrange(0, n + 2),
        res.1@ == h@.subrange(n + 2, 2 * (n + 2)),
        res.2@ == h@.subrange(2 * (n + 2), 3 * (n + 2)),
{
    assert(3 * (n + 2) <= h.len());
    let stride: usize = n + 2;
    (
        vstd::slice::slice_subrange(h, 0, stride),
        vstd::slice::slice_subrange(h, stride, 2 * stride),
        vstd::slice::slice_subrange(h, 2 * stride, 3 * stride),
    )
}

/// The number of nonzero coefficients beyond the three parts of the quotient. There
/// are none where the rows hold.
pub fn count_quotient_tail(h: &[Fr], n: usize) -> (res: usize)
    requires
        3 * (n + 2) <= h@.len(),
        fields::all_wf(h@),
    ensures
        res == commit::nonzero_count(fields::vals(h@).skip(3 * (n + 2))),
{
    assert(3 * (n + 2) <= h.len());
    let tail = vstd::slice::slice_subrange(h, 3 * (n + 2), h.len());
    assert(fields::vals(tail@) =~= fields::vals(h@).skip(3 * (n + 2)));
    commit::count_nonzero(tail)
}

} // verus!
