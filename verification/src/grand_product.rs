//! The grand product of the permutation argument.
//!
//! `Z[0] = 1` and `Z[i + 1] = Z[i] num[i] / den[i]`, where
//!
//! - `num[i] = (L[i] + beta w^i + gamma) (R[i] + beta k1 w^i + gamma) (O[i] + beta k1^2 w^i + gamma)`,
//! - `den[i] = (L[i] + beta S1[i] + gamma) (R[i] + beta S2[i] + gamma) (O[i] + beta S3[i] + gamma)`.
//!
//! The copy constraints hold where the product over all rows is one.

use crate::fields;
use crate::fields::Fr;
use crate::modular;
use crate::sums;
use vstd::arithmetic::div_mod::*;
use vstd::arithmetic::mul::*;
use vstd::prelude::*;

verus! {

/// Why no proof was made.
#[derive(Clone, Copy, Debug, PartialEq, Eq, Structural)]
pub enum ProveError {
    /// The product over all rows is not one: the wires violate a copy constraint.
    GrandProduct,
}

impl ProveError {
    /// What went wrong, in words.
    pub fn message(&self) -> (r: &'static str)
        ensures
            r@
                == "Grand product check failed: Z[N] ≠ 1. Wire assignments violate copy constraints."@,
    {
        match self {
            ProveError::GrandProduct =>
                "Grand product check failed: Z[N] ≠ 1. Wire assignments violate copy constraints.",
        }
    }
}

/// A value, a multiple of beta, and gamma.
pub open spec fn term(v: int, t: int, gamma: int) -> int {
    fields::fadd(fields::fadd(v, t), gamma)
}

/// The product for a row at its own place on the domain.
pub open spec fn id_product(l: int, r: int, o: int, x: int, beta: int, gamma: int, k1: int) -> int {
    let bx = fields::fmul(beta, x);
    fields::fmul(
        fields::fmul(
            term(l, bx, gamma),
            term(r, fields::fmul(bx, k1), gamma),
        ),
        term(o, fields::fmul(bx, fields::fmul(k1, k1)), gamma),
    )
}

/// The product for a row at its place under the permutation.
pub open spec fn sigma_product(
    l: int,
    r: int,
    o: int,
    s1: int,
    s2: int,
    s3: int,
    beta: int,
    gamma: int,
) -> int {
    fields::fmul(
        fields::fmul(
            term(l, fields::fmul(beta, s1), gamma),
            term(r, fields::fmul(beta, s2), gamma),
        ),
        term(o, fields::fmul(beta, s3), gamma),
    )
}

/// A permutation argument: the wires, the permutation, the places on the domain
/// and the challenges.
pub struct Permutation {
    pub l: Seq<int>,
    pub r: Seq<int>,
    pub o: Seq<int>,
    pub s1: Seq<int>,
    pub s2: Seq<int>,
    pub s3: Seq<int>,
    pub id: Seq<int>,
    pub k1: int,
    pub beta: int,
    pub gamma: int,
}

impl Permutation {
    /// The numerator of a row.
    pub open spec fn numerator(self, i: int) -> int {
        id_product(self.l[i], self.r[i], self.o[i], self.id[i], self.beta, self.gamma, self.k1)
    }

    /// The denominator of a row.
    pub open spec fn denominator(self, i: int) -> int {
        sigma_product(
            self.l[i],
            self.r[i],
            self.o[i],
            self.s1[i],
            self.s2[i],
            self.s3[i],
            self.beta,
            self.gamma,
        )
    }

    /// The quotient of each row.
    pub open spec fn ratios(self) -> Seq<int> {
        Seq::new(
            self.l.len(),
            |i: int| fields::fmul(self.numerator(i), fields::finv(self.denominator(i))),
        )
    }

    /// No row has a zero denominator.
    pub open spec fn invertible(self) -> bool {
        forall|i: int| 0 <= i < self.l.len() ==> #[trigger] self.denominator(i) != 0
    }

    /// The product of the rows before each row.
    pub open spec fn products(self) -> Seq<int> {
        Seq::new(self.l.len(), |i: int| fields::fprod(self.ratios().take(i)))
    }

    /// The product of all rows is one.
    pub open spec fn satisfied(self) -> bool {
        fields::fprod(self.ratios()) == 1
    }
}

/// The permutation argument on slices.
pub open spec fn permutation(
    l: Seq<Fr>,
    r: Seq<Fr>,
    o: Seq<Fr>,
    s1: Seq<Fr>,
    s2: Seq<Fr>,
    s3: Seq<Fr>,
    id: Seq<Fr>,
    k1: Fr,
    beta: Fr,
    gamma: Fr,
) -> Permutation {
    Permutation {
        l: fields::vals(l),
        r: fields::vals(r),
        o: fields::vals(o),
        s1: fields::vals(s1),
        s2: fields::vals(s2),
        s3: fields::vals(s3),
        id: fields::vals(id),
        k1: k1@,
        beta: beta@,
        gamma: gamma@,
    }
}

/// The product for a row at its own place on the domain.
pub fn eval_id_product(
    l: &Fr,
    r: &Fr,
    o: &Fr,
    x: &Fr,
    beta: &Fr,
    gamma: &Fr,
    k1: &Fr,
) -> (res: Fr)
    requires
        l.wf(),
        r.wf(),
        o.wf(),
        x.wf(),
        beta.wf(),
        gamma.wf(),
        k1.wf(),
    ensures
        res.wf(),
        res@ == id_product(l@, r@, o@, x@, beta@, gamma@, k1@),
{
    let k2 = k1.mul(k1);
    let bx = beta.mul(x);
    let n1 = l.add(&bx).add(gamma);
    let n2 = r.add(&bx.mul(k1)).add(gamma);
    let n3 = o.add(&bx.mul(&k2)).add(gamma);
    n1.mul(&n2).mul(&n3)
}

/// The product for a row at its place under the permutation.
pub fn eval_sigma_product(
    l: &Fr,
    r: &Fr,
    o: &Fr,
    s1: &Fr,
    s2: &Fr,
    s3: &Fr,
    beta: &Fr,
    gamma: &Fr,
) -> (res: Fr)
    requires
        l.wf(),
        r.wf(),
        o.wf(),
        s1.wf(),
        s2.wf(),
        s3.wf(),
        beta.wf(),
        gamma.wf(),
    ensures
        res.wf(),
        res@ == sigma_product(l@, r@, o@, s1@, s2@, s3@, beta@, gamma@),
{
    let d1 = l.add(&beta.mul(s1)).add(gamma);
    let d2 = r.add(&beta.mul(s2)).add(gamma);
    let d3 = o.add(&beta.mul(s3)).add(gamma);
    d1.mul(&d2).mul(&d3)
}

/// The denominators of all rows.
pub fn denominators(
    l: &[Fr],
    r: &[Fr],
    o: &[Fr],
    s1: &[Fr],
    s2: &[Fr],
    s3: &[Fr],
    beta: &Fr,
    gamma: &Fr,
) -> (res: Vec<Fr>)
    requires
        r@.len() == l@.len(),
        o@.len() == l@.len(),
        s1@.len() == l@.len(),
        s2@.len() == l@.len(),
        s3@.len() == l@.len(),
        fields::all_wf(l@),
        fields::all_wf(r@),
        fields::all_wf(o@),
        fields::all_wf(s1@),
        fields::all_wf(s2@),
        fields::all_wf(s3@),
        beta.wf(),
        gamma.wf(),
    ensures
        res@.len() == l@.len(),
        fields::all_wf(res@),
        forall|i: int|
            0 <= i < res@.len() ==> (#[trigger] res@[i])@ == sigma_product(
                l@[i]@,
                r@[i]@,
                o@[i]@,
                s1@[i]@,
                s2@[i]@,
                s3@[i]@,
                beta@,
                gamma@,
            ),
{
    let n = l.len();
    let mut res: Vec<Fr> = Vec::with_capacity(n);
    for i in 0..n
        invariant
            n == l@.len(),
            r@.len() == n,
            o@.len() == n,
            s1@.len() == n,
            s2@.len() == n,
            s3@.len() == n,
            fields::all_wf(l@),
            fields::all_wf(r@),
            fields::all_wf(o@),
            fields::all_wf(s1@),
            fields::all_wf(s2@),
            fields::all_wf(s3@),
            beta.wf(),
            gamma.wf(),
            res@.len() == i,
            fields::all_wf(res@),
            forall|j: int|
                0 <= j < i ==> (#[trigger] res@[j])@ == sigma_product(
                    l@[j]@,
                    r@[j]@,
                    o@[j]@,
                    s1@[j]@,
                    s2@[j]@,
                    s3@[j]@,
                    beta@,
                    gamma@,
                ),
    {
        res.push(eval_sigma_product(&l[i], &r[i], &o[i], &s1[i], &s2[i], &s3[i], beta, gamma));
    }
    res
}

/// Whether no denominator is zero.
pub(crate) fn check_invertible(
    l: &[Fr],
    r: &[Fr],
    o: &[Fr],
    s1: &[Fr],
    s2: &[Fr],
    s3: &[Fr],
    beta: &Fr,
    gamma: &Fr,
    Ghost(p): Ghost<Permutation>,
) -> (res: bool)
    requires
        r@.len() == l@.len(),
        o@.len() == l@.len(),
        s1@.len() == l@.len(),
        s2@.len() == l@.len(),
        s3@.len() == l@.len(),
        fields::all_wf(l@),
        fields::all_wf(r@),
        fields::all_wf(o@),
        fields::all_wf(s1@),
        fields::all_wf(s2@),
        fields::all_wf(s3@),
        beta.wf(),
        gamma.wf(),
        p.l == fields::vals(l@),
        p.r == fields::vals(r@),
        p.o == fields::vals(o@),
        p.s1 == fields::vals(s1@),
        p.s2 == fields::vals(s2@),
        p.s3 == fields::vals(s3@),
        p.beta == beta@,
        p.gamma == gamma@,
    ensures
        res == p.invertible(),
{
    let dens = denominators(l, r, o, s1, s2, s3, beta, gamma);
    let n = dens.len();
    for i in 0..n
        invariant
            n == dens@.len(),
            n == p.l.len(),
            fields::all_wf(dens@),
            forall|j: int| 0 <= j < n ==> (#[trigger] dens@[j])@ == p.denominator(j),
            forall|j: int| 0 <= j < i ==> #[trigger] p.denominator(j) != 0,
    {
        assert(dens@[i as int]@ == p.denominator(i as int));
        if dens[i].is_zero() {
            return false;
        }
    }
    true
}

/// The grand product on the domain. It fails where the product over all rows is not
/// one.
pub fn compute_grand_product(
    l: &[Fr],
    r: &[Fr],
    o: &[Fr],
    s1: &[Fr],
    s2: &[Fr],
    s3: &[Fr],
    beta: &Fr,
    gamma: &Fr,
    omega_powers: &[Fr],
    coset_shift: &Fr,
) -> (res: Result<Vec<Fr>, ProveError>)
    requires
        r@.len() == l@.len(),
        o@.len() == l@.len(),
        s1@.len() == l@.len(),
        s2@.len() == l@.len(),
        s3@.len() == l@.len(),
        omega_powers@.len() == l@.len(),
        fields::all_wf(l@),
        fields::all_wf(r@),
        fields::all_wf(o@),
        fields::all_wf(s1@),
        fields::all_wf(s2@),
        fields::all_wf(s3@),
        fields::all_wf(omega_powers@),
        beta.wf(),
        gamma.wf(),
        coset_shift.wf(),
        permutation(
            l@,
            r@,
            o@,
            s1@,
            s2@,
            s3@,
            omega_powers@,
            *coset_shift,
            *beta,
            *gamma,
        ).invertible(),
    ensures
        ({
            let p = permutation(
                l@,
                r@,
                o@,
                s1@,
                s2@,
                s3@,
                omega_powers@,
                *coset_shift,
                *beta,
                *gamma,
            );
            match res {
                Ok(z) => p.satisfied() && fields::all_wf(z@) && fields::vals(z@) == p.products(),
                Err(ProveError::GrandProduct) => !p.satisfied(),
            }
        }),
{
    let ghost p = permutation(
        l@,
        r@,
        o@,
        s1@,
        s2@,
        s3@,
        omega_powers@,
        *coset_shift,
        *beta,
        *gamma,
    );
    let n = l.len();
    let dens = denominators(l, r, o, s1, s2, s3, beta, gamma);
    proof {
        assert forall|i: int| 0 <= i < n implies (#[trigger] dens@[i])@ == p.denominator(i) by {}
        assert(fields::all_nonzero(dens@)) by {
            assert forall|i: int| 0 <= i < n implies (#[trigger] dens@[i])@ != 0 by {
                assert(p.denominator(i) != 0);
            }
        }
    }
    let inv_dens = fields::batch_inv_fr(dens.as_slice());
    let mut z: Vec<Fr> = Vec::with_capacity(n);
    let mut acc = Fr::one();
    let ghost rs = p.ratios();
    assert(rs.take(0).len() == 0);
    for i in 0..n
        invariant
            n == l@.len(),
            r@.len() == n,
            o@.len() == n,
            omega_powers@.len() == n,
            fields::all_wf(l@),
            fields::all_wf(r@),
            fields::all_wf(o@),
            fields::all_wf(omega_powers@),
            beta.wf(),
            gamma.wf(),
            coset_shift.wf(),
            p == permutation(
                l@,
                r@,
                o@,
                s1@,
                s2@,
                s3@,
                omega_powers@,
                *coset_shift,
                *beta,
                *gamma,
            ),
            rs == p.ratios(),
            inv_dens@.len() == n,
            fields::all_wf(inv_dens@),
            forall|j: int|
                0 <= j < n ==> (#[trigger] inv_dens@[j])@ == fields::finv(p.denominator(j)),
            acc.wf(),
            acc@ == fields::fprod(rs.take(i as int)),
            z@.len() == i,
            fields::all_wf(z@),
            forall|j: int| 0 <= j < i ==> (#[trigger] z@[j])@ == fields::fprod(rs.take(j)),
    {
        z.push(acc);
        let num = eval_id_product(&l[i], &r[i], &o[i], &omega_powers[i], beta, gamma, coset_shift);
        let ratio = num.mul(&inv_dens[i]);
        proof {
            assert(rs.take(i + 1).drop_last() =~= rs.take(i as int));
            assert(rs.take(i + 1).last() == rs[i as int]);
        }
        acc = acc.mul(&ratio);
    }
    proof {
        assert(rs.take(n as int) =~= rs);
        assert(fields::vals(z@) =~= p.products());
    }
    let one = Fr::one();
    if acc == one {
        Ok(z)
    } else {
        proof {
            if acc@ == 1 {
                Fr::lemma_view_injective(acc, one);
            }
        }
        Err(ProveError::GrandProduct)
    }
}

/// The grand product starts at one, goes from row to row by the quotient of the
/// row, and ends at one where the copy constraints hold.
pub proof fn law_grand_product_recurrence(p: Permutation, i: int)
    requires
        p.invertible(),
        0 <= i < p.l.len(),
    ensures
        p.products()[0] == 1,
        i + 1 < p.l.len() ==> fields::fmul(p.products()[i + 1], p.denominator(i)) == fields::fmul(
            p.products()[i],
            p.numerator(i),
        ),
        i + 1 == p.l.len() && p.satisfied() ==> p.denominator(i) == fields::fmul(
            p.products()[i],
            p.numerator(i),
        ),
{
    let rs = p.ratios();
    let z = fields::fprod(rs.take(i));
    let d = p.denominator(i);
    let m = p.numerator(i);
    assert(rs.take(0).len() == 0);
    assert(rs.take(i + 1).drop_last() =~= rs.take(i));
    assert(rs.take(i + 1).last() == rs[i]);
    let next = fields::fprod(rs.take(i + 1));
    fields::lemma_frange(
        fields::fmul(
            term(p.l[i], fields::fmul(p.beta, p.s1[i]), p.gamma),
            term(p.r[i], fields::fmul(p.beta, p.s2[i]), p.gamma),
        ),
        term(p.o[i], fields::fmul(p.beta, p.s3[i]), p.gamma),
        0,
    );
    fields::law_fr_inverse(d);
    // next d = z (m d^-1) d = z m
    let q = fields::fmul(m, fields::finv(d));
    fields::law_fr_ring(z, q, d);
    fields::law_fr_ring(m, fields::finv(d), d);
    fields::lemma_frange(z, m, 0);
    fields::lemma_fr_modulus();
    modular::lemma_mod_idem(m, fields::fr_modulus());
    assert(fields::fmul(m, 1) == m % fields::fr_modulus());
    modular::lemma_mul_cong(z, m % fields::fr_modulus(), z, m, fields::fr_modulus());
    if i + 1 == p.l.len() {
        assert(rs.take(i + 1) =~= rs);
        fields::law_fr_units(d, 0);
    }
}

/// Under the identity permutation the grand product is one on every row, whatever
/// the wires are.
pub proof fn law_identity_permutation(p: Permutation, i: int)
    requires
        p.invertible(),
        forall|j: int|
            0 <= j < p.l.len() ==> {
                &&& #[trigger] p.s1[j] == p.id[j]
                &&& p.s2[j] == fields::fmul(p.id[j], p.k1)
                &&& p.s3[j] == fields::fmul(p.id[j], fields::fmul(p.k1, p.k1))
            },
        0 <= i <= p.l.len(),
    ensures
        i < p.l.len() ==> p.products()[i] == 1,
        p.satisfied(),
    decreases p.l.len() - i,
{
    assert forall|j: int| 0 <= j < p.l.len() implies #[trigger] p.ratios()[j] == 1 by {
        assert(p.s1[j] == p.id[j]);
        fields::law_fr_ring(p.beta, p.id[j], p.k1);
        fields::law_fr_ring(p.beta, p.id[j], fields::fmul(p.k1, p.k1));
        assert(p.denominator(j) != 0);
        fields::lemma_frange(
            fields::fmul(
                term(p.l[j], fields::fmul(p.beta, p.s1[j]), p.gamma),
                term(p.r[j], fields::fmul(p.beta, p.s2[j]), p.gamma),
            ),
            term(p.o[j], fields::fmul(p.beta, p.s3[j]), p.gamma),
            0,
        );
        fields::law_fr_inverse(p.denominator(j));
    }
    lemma_product_of_ones(p.ratios(), i);
    lemma_product_of_ones(p.ratios(), p.l.len() as int);
    assert(p.ratios().take(p.l.len() as int) =~= p.ratios());
}

proof fn lemma_product_of_ones(s: Seq<int>, i: int)
    requires
        0 <= i <= s.len(),
        forall|j: int| 0 <= j < s.len() ==> #[trigger] s[j] == 1,
    ensures
        fields::fprod(s.take(i)) == 1,
    decreases i,
{
    if i > 0 {
        lemma_product_of_ones(s, i - 1);
        assert(s.take(i).drop_last() =~= s.take(i - 1));
        fields::lemma_fr_modulus();
        lemma_small_mod(1, fields::fr_modulus() as nat);
    }
}

/// How two grand products differ.
#[derive(Clone, Copy, Debug)]
pub struct Comparison {
    /// The first row on which they differ.
    pub first_mismatch: Option<usize>,
    /// The number of rows on which they differ.
    pub mismatch_count: usize,
}

/// The number of places among the first `n` at which two sequences differ.
pub open spec fn mismatches(a: Seq<Fr>, b: Seq<Fr>, n: int) -> nat
    decreases n,
{
    if n <= 0 {
        0
    } else {
        mismatches(a, b, n - 1) + if a[n - 1] != b[n - 1] {
            1nat
        } else {
            0nat
        }
    }
}

/// A comparison of two sequences of the same length.
pub open spec fn is_comparison(c: Comparison, a: Seq<Fr>, b: Seq<Fr>) -> bool {
    &&& c.mismatch_count == mismatches(a, b, b.len() as int)
    &&& match c.first_mismatch {
        Some(i) => i < b.len() && a[i as int] != b[i as int] && forall|j: int|
            0 <= j < i ==> #[trigger] a[j] == b[j],
        None => a == b,
    }
}

/// Compare a grand product with another one, row by row.
pub fn compare_grand_products(z_gpu: &[Fr], z_cpu: &[Fr]) -> (res: Comparison)
    requires
        z_gpu@.len() == z_cpu@.len(),
    ensures
        is_comparison(res, z_gpu@, z_cpu@),
{
    let n = z_cpu.len();
    let mut first_mismatch: Option<usize> = None;
    let mut mismatch_count: usize = 0;
    for i in 0..n
        invariant
            n == z_cpu@.len(),
            n == z_gpu@.len(),
            mismatch_count <= i,
            mismatch_count == mismatches(z_gpu@, z_cpu@, i as int),
            match first_mismatch {
                Some(k) => k < i && z_gpu@[k as int] != z_cpu@[k as int] && forall|j: int|
                    0 <= j < k ==> #[trigger] z_gpu@[j] == z_cpu@[j],
                None => forall|j: int| 0 <= j < i ==> #[trigger] z_gpu@[j] == z_cpu@[j],
            },
    {
        if z_gpu[i] != z_cpu[i] {
            if first_mismatch.is_none() {
                first_mismatch = Some(i);
            }
            mismatch_count = mismatch_count + 1;
        }
    }
    proof {
        if first_mismatch is None {
            assert(z_gpu@ =~= z_cpu@);
        }
    }
    Comparison { first_mismatch, mismatch_count }
}

/// The quotient of two values of a grand product.
pub fn ratio(a: &Fr, b: &Fr) -> (res: Fr)
    requires
        a.wf(),
        b.wf(),
        b@ != 0,
    ensures
        res.wf(),
        res@ == fields::fmul(a@, fields::finv(b@)),
{
    a.mul(&b.inv())
}

/// Sequences differ nowhere where no mismatch is counted, every mismatch is counted once,
/// and a count does not depend on which of the two comes first.
pub proof fn law_mismatches(a: Seq<Fr>, b: Seq<Fr>, n: nat)
    ensures
        mismatches(a, b, n as int) <= n,
        mismatches(a, b, n as int) == mismatches(b, a, n as int),
        mismatches(a, b, n as int) == 0 <==> forall|i: int| 0 <= i < n ==> a[i] == b[i],
        mismatches(a, b, n as int) == sums::sum(
            |i: int|
                if a[i] == b[i] {
                    0int
                } else {
                    1
                },
            n,
        ),
    decreases n,
{
    if n > 0 {
        law_mismatches(a, b, (n - 1) as nat);
    }
}

} // verus!
