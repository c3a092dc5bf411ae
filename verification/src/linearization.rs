//! Linearisation and the fold of all openings at zeta.
//!
//! At zeta the constraints become a combination of polynomials whose commitments
//! the verifier knows, with scalars that it can compute from the openings.

use crate::circuit;
use crate::circuit::Circuit;
use crate::domain;
use crate::domain::Domain;
use crate::fields;
use crate::fields::Fr;
use crate::grand_product;
use crate::limbs;
use crate::modular;
use crate::polynomial;
use crate::polynomial::Polynomial;
use crate::quotient;
use crate::quotient::Challenges;
use vstd::arithmetic::div_mod::*;
use vstd::arithmetic::mul::*;
use vstd::arithmetic::power::*;
use vstd::prelude::*;

verus! {

/// The openings that the scalars depend on.
pub struct Openings {
    pub l: int,
    pub r: int,
    pub o: int,
    pub s1: int,
    pub s2: int,
    /// The grand product at omega times zeta.
    pub zw: int,
}

/// The sum of the products of two sequences.
pub open spec fn dot(a: Seq<int>, b: Seq<int>) -> int
    decreases a.len(),
{
    if a.len() == 0 {
        0
    } else {
        fields::fadd(
            dot(a.drop_last(), b),
            fields::fmul(a.last(), b[a.len() - 1]),
        )
    }
}

impl Circuit {
    /// The first Lagrange polynomial.
    pub open spec fn l1_or_one(self, x: int) -> int {
        if x == 1 {
            1
        } else {
            self.l1_at(x)
        }
    }

    /// The scalar of the third permutation polynomial.
    pub open spec fn s3_scalar(self, ch: Challenges, e: Openings) -> int {
        fields::fmul(
            fields::fmul(
                fields::fmul(
                    fields::fmul(ch.alpha, e.zw),
                    grand_product::term(e.l, fields::fmul(ch.beta, e.s1), ch.gamma),
                ),
                grand_product::term(e.r, fields::fmul(ch.beta, e.s2), ch.gamma),
            ),
            ch.beta,
        )
    }

    /// The scalar of the grand product.
    pub open spec fn z_scalar(self, ch: Challenges, zeta: int, e: Openings) -> int {
        fields::fsub(
            fields::fmul(fields::fmul(ch.alpha, ch.alpha), self.l1_or_one(zeta)),
            fields::fmul(
                ch.alpha,
                grand_product::id_product(
                    e.l,
                    e.r,
                    e.o,
                    zeta,
                    ch.beta,
                    ch.gamma,
                    self.shift,
                ),
            ),
        )
    }

    /// The scalars of `ql`, `qr`, `qm`, `qo`, `qk`, `s3`, `z` and the three parts of
    /// the quotient.
    pub open spec fn lin_scalars(self, ch: Challenges, zeta: int, e: Openings) -> Seq<int> {
        let neg_zh = fields::fneg(self.zh(zeta));
        let p = fields::fpow(zeta, self.n() + 2);
        seq![
            e.l,
            e.r,
            fields::fmul(e.l, e.r),
            e.o,
            1int,
            self.s3_scalar(ch, e),
            self.z_scalar(ch, zeta, e),
            neg_zh,
            fields::fmul(neg_zh, p),
            fields::fmul(neg_zh, fields::fmul(p, p)),
        ]
    }

    /// The polynomials that the scalars belong to.
    pub open spec fn lin_polys(self, z: Seq<int>, h0: Seq<int>, h1: Seq<int>, h2: Seq<int>) -> Seq<
        Seq<int>,
    > {
        seq![self.ql, self.qr, self.qm, self.qo, self.qk, self.s3, z, h0, h1, h2]
    }
}

/// The openings as scalars.
#[derive(Clone, Copy, Debug)]
pub struct OpeningValues {
    pub l: Fr,
    pub r: Fr,
    pub o: Fr,
    pub s1: Fr,
    pub s2: Fr,
    pub z_shifted: Fr,
}

impl View for OpeningValues {
    type V = Openings;

    open spec fn view(&self) -> Openings {
        Openings {
            l: self.l@,
            r: self.r@,
            o: self.o@,
            s1: self.s1@,
            s2: self.s2@,
            zw: self.z_shifted@,
        }
    }
}

impl OpeningValues {
    /// All openings are reduced.
    pub open spec fn wf(self) -> bool {
        self.l.wf() && self.r.wf() && self.o.wf() && self.s1.wf() && self.s2.wf()
            && self.z_shifted.wf()
    }
}

/// The first Lagrange polynomial at a point.
pub(crate) fn eval_l1(domain: &Domain, x: &Fr, Ghost(c): Ghost<Circuit>) -> (res: Fr)
    requires
        domain.wf(),
        domain.size == c.n(),
        c.bits + 2 <= 28,
        x.wf(),
    ensures
        res.wf(),
        res@ == c.l1_or_one(x@),
{
    let zh = domain.vanishing_eval(x);
    let one = Fr::one();
    let xm1 = x.sub(&one);
    proof {
        x.lemma_of_view();
        lemma_sub_one_zero(x@);
    }
    if xm1.is_zero() {
        one
    } else {
        let n_fr = Fr::from_u64(domain.size as u64);
        let d = xm1.mul(&n_fr);
        proof {
            circuit::lemma_n_small(c);
            xm1.lemma_of_view();
            fields::law_fr_no_zero_divisors(xm1@, c.n() as int);
        }
        zh.mul(&d.inv())
    }
}

proof fn lemma_sub_one_zero(x: int)
    requires
        0 <= x < fields::fr_modulus(),
    ensures
        (fields::fsub(x, 1) == 0) == (x == 1),
{
    fields::lemma_fr_modulus();
    let m = fields::fr_modulus();
    lemma_small_mod(0, m as nat);
    if x >= 1 {
        lemma_small_mod((x - 1) as nat, m as nat);
    } else {
        modular::lemma_mod_shift(m - 1, -1, 1, m);
        lemma_small_mod((m - 1) as nat, m as nat);
    }
}

/// The scalars of the linearised polynomial.
pub(crate) fn eval_lin_scalars(
    domain: &Domain,
    zeta: &Fr,
    alpha: &Fr,
    beta: &Fr,
    gamma: &Fr,
    coset_shift: &Fr,
    e: &OpeningValues,
    Ghost(c): Ghost<Circuit>,
) -> (res: Vec<Fr>)
    requires
        domain.wf(),
        domain.size == c.n(),
        c.bits + 2 <= 28,
        coset_shift.wf(),
        coset_shift@ == c.shift,
        zeta.wf(),
        alpha.wf(),
        beta.wf(),
        gamma.wf(),
        e.wf(),
    ensures
        res@.len() == 10,
        fields::all_wf(res@),
        fields::vals(res@) == c.lin_scalars(
            (Challenges { alpha: alpha@, beta: beta@, gamma: gamma@ }),
            zeta@,
            e@,
        ),
{
    let lr = e.l.mul(&e.r);
    let t1 = e.l.add(&beta.mul(&e.s1)).add(gamma);
    let t2 = e.r.add(&beta.mul(&e.s2)).add(gamma);
    let s3_scalar = alpha.mul(&e.z_shifted).mul(&t1).mul(&t2).mul(beta);
    let l1 = eval_l1(domain, zeta, Ghost(c));
    let perm = alpha.mul(
        &grand_product::eval_id_product(&e.l, &e.r, &e.o, zeta, beta, gamma, coset_shift),
    );
    let z_scalar = alpha.square().mul(&l1).sub(&perm);
    let neg_zh = domain.vanishing_eval(zeta).neg();
    proof {
        circuit::lemma_n_small(c);
    }
    let exp: [u64; 4] = [(domain.size + 2) as u64, 0, 0, 0];
    assert(limbs::value(exp) == c.n() + 2);
    let p = zeta.pow(&exp);
    let p2 = p.mul(&p);
    let mut res: Vec<Fr> = Vec::with_capacity(10);
    res.push(e.l);
    res.push(e.r);
    res.push(lr);
    res.push(e.o);
    res.push(Fr::one());
    res.push(s3_scalar);
    res.push(z_scalar);
    res.push(neg_zh);
    res.push(neg_zh.mul(&p));
    res.push(neg_zh.mul(&p2));
    assert(fields::vals(res@) =~= c.lin_scalars(
        (Challenges { alpha: alpha@, beta: beta@, gamma: gamma@ }),
        zeta@,
        e@,
    ));
    res
}

/// The sum of the products of two slices.
pub fn eval_dot(a: &[Fr], b: &[Fr]) -> (res: Fr)
    requires
        a@.len() <= b@.len(),
        fields::all_wf(a@),
        fields::all_wf(b@),
    ensures
        res.wf(),
        res@ == dot(fields::vals(a@), fields::vals(b@)),
{
    let mut acc = Fr::zero();
    let ghost va = fields::vals(a@);
    let ghost vb = fields::vals(b@);
    for i in 0..a.len()
        invariant
            a@.len() <= b@.len(),
            fields::all_wf(a@),
            fields::all_wf(b@),
            va == fields::vals(a@),
            vb == fields::vals(b@),
            acc.wf(),
            acc@ == dot(va.take(i as int), vb),
    {
        proof {
            assert(va.take(i + 1).drop_last() =~= va.take(i as int));
        }
        acc = acc.add(&a[i].mul(&b[i]));
    }
    assert(va.take(a@.len() as int) =~= va);
    acc
}

/// The values of polynomials at a point.
pub fn eval_all(polys: &[&[Fr]], x: &Fr) -> (res: Vec<Fr>)
    requires
        x.wf(),
        forall|j: int| 0 <= j < polys@.len() ==> fields::all_wf((#[trigger] polys@[j])@),
    ensures
        fields::all_wf(res@),
        fields::vals(res@) == quotient::values_at(polynomial::slice_vals(polys@), x@),
{
    let mut res: Vec<Fr> = Vec::with_capacity(polys.len());
    for i in 0..polys.len()
        invariant
            x.wf(),
            forall|j: int| 0 <= j < polys@.len() ==> fields::all_wf((#[trigger] polys@[j])@),
            res@.len() == i,
            fields::all_wf(res@),
            forall|j: int|
                0 <= j < i ==> (#[trigger] res@[j])@ == polynomial::feval(
                    fields::vals(polys@[j]@),
                    x@,
                ),
    {
        res.push(polynomial::eval_poly_at(polys[i], x));
    }
    assert(fields::vals(res@) =~= quotient::values_at(polynomial::slice_vals(polys@), x@));
    res
}

/// A combination of polynomials with scalars.
pub open spec fn combination(polys: Seq<Seq<int>>, scalars: Seq<int>) -> Seq<int> {
    Seq::new(
        polynomial::longest(polys),
        |i: int| polynomial::combined(polys, scalars, i) % fields::fr_modulus(),
    )
}

/// The length of the longest of the slices.
fn longest_slice(polys: &[&[Fr]]) -> (r: usize)
    ensures
        r == polynomial::longest(polynomial::slice_vals(polys@)),
{
    let mut r: usize = 0;
    let ghost ps = polynomial::slice_vals(polys@);
    for j in 0..polys.len()
        invariant
            ps == polynomial::slice_vals(polys@),
            r == polynomial::longest(ps.take(j as int)),
    {
        proof {
            assert(ps.take(j + 1).drop_last() =~= ps.take(j as int));
        }
        if polys[j].len() > r {
            r = polys[j].len();
        }
    }
    assert(ps.take(polys@.len() as int) =~= ps);
    r
}

/// A combination of polynomials with scalars.
pub fn combine(polys: &[&[Fr]], scalars: &[Fr]) -> (res: Vec<Fr>)
    requires
        polys@.len() == scalars@.len(),
        fields::all_wf(scalars@),
        forall|j: int| 0 <= j < polys@.len() ==> fields::all_wf((#[trigger] polys@[j])@),
    ensures
        fields::all_wf(res@),
        fields::vals(res@) == combination(
            polynomial::slice_vals(polys@),
            fields::vals(scalars@),
        ),
{
    let n = longest_slice(polys);
    let mut res: Vec<Fr> = vec![Fr::zero(); n];
    polynomial::linear_combination_into(res.as_mut_slice(), polys, scalars);
    assert(fields::vals(res@) =~= combination(
        polynomial::slice_vals(polys@),
        fields::vals(scalars@),
    ));
    res
}

/// The linearised polynomial.
pub(crate) fn compute_linearization(
    domain: &Domain,
    zeta: &Fr,
    alpha: &Fr,
    beta: &Fr,
    gamma: &Fr,
    coset_shift: &Fr,
    e: &OpeningValues,
    polys: &[&[Fr]],
    bsb22_coeffs: &Vec<Vec<Fr>>,
    qcp_zeta: &[Fr],
    Ghost(c): Ghost<Circuit>,
) -> (res: Polynomial)
    requires
        domain.wf(),
        domain.size == c.n(),
        c.bits + 2 <= 28,
        coset_shift.wf(),
        coset_shift@ == c.shift,
        zeta.wf(),
        alpha.wf(),
        beta.wf(),
        gamma.wf(),
        e.wf(),
        polys@.len() == 10,
        forall|j: int| 0 <= j < polys@.len() ==> fields::all_wf((#[trigger] polys@[j])@),
        circuit::vecs_wf(bsb22_coeffs@),
        fields::all_wf(qcp_zeta@),
    ensures
        res.wf(),
        ({
            let ch = Challenges { alpha: alpha@, beta: beta@, gamma: gamma@ };
            let m = quotient::shorter(bsb22_coeffs@.len(), qcp_zeta@.len()) as int;
            res@ == combination(
                polynomial::slice_vals(polys@) + circuit::vec_vals(bsb22_coeffs@).take(m),
                c.lin_scalars(ch, zeta@, e@) + fields::vals(qcp_zeta@).take(m),
            )
        }),
{
    let mut scalars = eval_lin_scalars(
        domain,
        zeta,
        alpha,
        beta,
        gamma,
        coset_shift,
        e,
        Ghost(c),
    );
    let mut all: Vec<&[Fr]> = vstd::slice::slice_to_vec(polys);
    extend_with_bsb22(&mut all, &mut scalars, bsb22_coeffs, qcp_zeta);
    Polynomial::new(combine(all.as_slice(), scalars.as_slice()))
}

/// Append the BSB22 polynomials with the values of their selectors.
pub(crate) fn extend_with_bsb22<'a>(
    polys: &mut Vec<&'a [Fr]>,
    scalars: &mut Vec<Fr>,
    bsb22_coeffs: &'a Vec<Vec<Fr>>,
    qcp_zeta: &[Fr],
)
    requires
        old(polys)@.len() == old(scalars)@.len(),
        forall|j: int| 0 <= j < old(polys)@.len() ==> fields::all_wf((#[trigger] old(polys)@[j])@),
        fields::all_wf(old(scalars)@),
        circuit::vecs_wf(bsb22_coeffs@),
        fields::all_wf(qcp_zeta@),
    ensures
        final(polys)@.len() == final(scalars)@.len(),
        forall|j: int|
            0 <= j < final(polys)@.len() ==> fields::all_wf((#[trigger] final(polys)@[j])@),
        fields::all_wf(final(scalars)@),
        ({
            let m = quotient::shorter(bsb22_coeffs@.len(), qcp_zeta@.len()) as int;
            &&& polynomial::slice_vals(final(polys)@) == polynomial::slice_vals(old(polys)@)
                + circuit::vec_vals(bsb22_coeffs@).take(m)
            &&& fields::vals(final(scalars)@) == fields::vals(old(scalars)@) + fields::vals(
                qcp_zeta@,
            ).take(m)
        }),
{
    let m: usize = if bsb22_coeffs.len() <= qcp_zeta.len() {
        bsb22_coeffs.len()
    } else {
        qcp_zeta.len()
    };
    let ghost ps = polynomial::slice_vals(polys@);
    let ghost ss = fields::vals(scalars@);
    let ghost bs = circuit::vec_vals(bsb22_coeffs@);
    let ghost qs = fields::vals(qcp_zeta@);
    proof {
        assert(ps + bs.take(0) =~= ps);
        assert(ss + qs.take(0) =~= ss);
    }
    for i in 0..m
        invariant
            m <= bsb22_coeffs@.len(),
            m <= qcp_zeta@.len(),
            circuit::vecs_wf(bsb22_coeffs@),
            fields::all_wf(qcp_zeta@),
            bs == circuit::vec_vals(bsb22_coeffs@),
            qs == fields::vals(qcp_zeta@),
            polys@.len() == scalars@.len(),
            forall|j: int| 0 <= j < polys@.len() ==> fields::all_wf((#[trigger] polys@[j])@),
            fields::all_wf(scalars@),
            polynomial::slice_vals(polys@) == ps + bs.take(i as int),
            fields::vals(scalars@) == ss + qs.take(i as int),
    {
        let ghost before_p = polynomial::slice_vals(polys@);
        let ghost before_s = fields::vals(scalars@);
        polys.push(bsb22_coeffs[i].as_slice());
        scalars.push(qcp_zeta[i]);
        proof {
            assert(polynomial::slice_vals(polys@) =~= before_p.push(bs[i as int]));
            assert(fields::vals(scalars@) =~= before_s.push(qs[i as int]));
            assert(before_p.push(bs[i as int]) =~= ps + bs.take(i + 1));
            assert(before_s.push(qs[i as int]) =~= ss + qs.take(i + 1));
        }
    }
}

// ---------------------------------------------------------------------------
// Folding
// ---------------------------------------------------------------------------

/// A polynomial with a number taken from its constant term.
pub open spec fn less_constant(c: Seq<int>, v: int) -> Seq<int> {
    c.update(0, fields::fsub(c[0], v))
}

/// The powers of a challenge as field elements.
pub open spec fn field_powers(g: int, n: nat) -> Seq<int> {
    circuit::power_seq(g, n)
}

/// The polynomials folded with the powers of a challenge, less the fold of their
/// claimed values.
pub open spec fn fold_less_evals(polys: Seq<Seq<int>>, evals: Seq<int>, gamma: int) -> Seq<int> {
    let g = field_powers(gamma, polys.len());
    if polynomial::longest(polys) == 0 {
        seq![]
    } else {
        less_constant(combination(polys, g), dot(g, evals))
    }
}

/// Fold polynomials with the powers of a challenge and subtract the fold of their
/// claimed values.
pub fn fold_and_subtract(polys: &[&[Fr]], evals: &[Fr], gamma: &Fr) -> (res: Polynomial)
    requires
        polys@.len() == evals@.len(),
        fields::all_wf(evals@),
        gamma.wf(),
        forall|j: int| 0 <= j < polys@.len() ==> fields::all_wf((#[trigger] polys@[j])@),
    ensures
        res.wf(),
        res@ == fold_less_evals(
            polynomial::slice_vals(polys@),
            fields::vals(evals@),
            gamma@,
        ),
{
    let powers = circuit::power_table(gamma, polys.len());
    assert(fields::vals(powers@).len() == polys@.len());
    let mut result = combine(polys, powers.as_slice());
    let ghost ps = polynomial::slice_vals(polys@);
    let ghost g = field_powers(gamma@, polys@.len());
    let ghost before = fields::vals(result@);
    assert(before.len() == polynomial::longest(ps));
    if result.len() == 0 {
        let r = Polynomial::new(result);
        assert(r@ =~= seq![]);
        return r;
    }
    let correction = eval_dot(powers.as_slice(), evals);
    let first = result[0].sub(&correction);
    result.set(0, first);
    assert(fields::vals(result@) =~= less_constant(before, correction@));
    Polynomial::new(result)
}

/// The quotient of a polynomial by `X - z`.
pub open spec fn divided(c: Seq<int>, z: int) -> Seq<int> {
    Seq::new(
        if c.len() == 0 {
            0
        } else {
            (c.len() - 1) as nat
        },
        |i: int| polynomial::feval(c.skip(i + 1), z),
    )
}

// ---------------------------------------------------------------------------
// The value of the linearised polynomial as the verifier computes it
// ---------------------------------------------------------------------------

/// The term of a row in the value of the public input polynomial at `x`: the row's
/// Lagrange polynomial times its value. It is left out where `x` is the row.
pub open spec fn lagrange_term(c: Circuit, ev: int, x: int, i: int) -> int {
    let wi = fields::fpow(c.w, i as nat);
    let d = fields::fsub(x, wi);
    if ev == 0 || d == 0 {
        0
    } else {
        fields::fmul(
            fields::fmul(
                fields::fmul(
                    fields::fmul(c.zh(x), fields::finv(d)),
                    fields::finv(c.n() as int),
                ),
                wi,
            ),
            ev,
        )
    }
}

/// The value of the public input polynomial at `x` from the first rows.
pub open spec fn lagrange_sum(c: Circuit, evals: Seq<int>, x: int, n: nat) -> int
    decreases n,
{
    if n == 0 {
        0
    } else {
        fields::fadd(
            lagrange_sum(c, evals, x, (n - 1) as nat),
            lagrange_term(c, evals[n - 1], x, n - 1),
        )
    }
}

/// The value of the public input polynomial from its rows.
pub(crate) fn eval_pi_verifier(pi_evals: &[Fr], domain: &Domain, x: &Fr, Ghost(c): Ghost<Circuit>) -> (res:
    Fr)
    requires
        domain.wf(),
        domain.size == c.n(),
        domain.omega@ == c.w,
        pi_evals@.len() == domain.size,
        fields::all_wf(pi_evals@),
        x.wf(),
    ensures
        res.wf(),
        res@ == lagrange_sum(c, fields::vals(pi_evals@), x@, c.n()),
{
    let zh = domain.vanishing_eval(x);
    let mut accw = Fr::one();
    let mut acc = Fr::zero();
    let n = pi_evals.len();
    let ghost v = fields::vals(pi_evals@);
    proof {
        fields::lemma_fr_modulus();
        lemma_pow0(c.w);
        lemma_small_mod(1, fields::fr_modulus() as nat);
    }
    for i in 0..n
        invariant
            n == pi_evals@.len(),
            n == c.n(),
            domain.wf(),
            domain.size == c.n(),
            domain.omega@ == c.w,
            fields::all_wf(pi_evals@),
            v == fields::vals(pi_evals@),
            x.wf(),
            zh.wf(),
            zh@ == c.zh(x@),
            accw.wf(),
            accw@ == fields::fpow(c.w, i as nat),
            acc.wf(),
            acc@ == lagrange_sum(c, v, x@, i as nat),
    {
        proof {
            acc.lemma_of_view();
            fields::law_fr_units(acc@, 0);
            polynomial::lemma_fpow_step(c.w, i as nat);
        }
        if !pi_evals[i].is_zero() {
            let den = x.sub(&accw);
            if !den.is_zero() {
                let t = zh.mul(&den.inv()).mul(&domain.size_inv).mul(&accw).mul(&pi_evals[i]);
                acc = acc.add(&t);
            }
        }
        accw = accw.mul(&domain.omega);
    }
    acc
}

/// The value of the linearised polynomial that the verifier computes:
/// `-(PI - alpha^2 L1 + alpha (l + beta s1 + gamma) (r + beta s2 + gamma) (o + gamma) z(w zeta))`.
pub open spec fn verifier_value(
    c: Circuit,
    ch: Challenges,
    zeta: int,
    pi: int,
    e: Openings,
) -> int {
    fields::fneg(
        fields::fadd(
            fields::fsub(
                pi,
                fields::fmul(fields::fmul(ch.alpha, ch.alpha), c.l1_or_one(zeta)),
            ),
            perm_summand(ch, e),
        ),
    )
}

/// What the verifier knows of the permutation at zeta.
pub open spec fn perm_summand(ch: Challenges, e: Openings) -> int {
    fields::fmul(
        fields::fmul(
            fields::fmul(
                fields::fmul(
                    ch.alpha,
                    grand_product::term(e.l, fields::fmul(ch.beta, e.s1), ch.gamma),
                ),
                grand_product::term(e.r, fields::fmul(ch.beta, e.s2), ch.gamma),
            ),
            fields::fadd(e.o, ch.gamma),
        ),
        e.zw,
    )
}

/// The value of the linearised polynomial that the verifier computes.
pub(crate) fn const_lin_verifier(
    domain: &Domain,
    zeta: &Fr,
    alpha: &Fr,
    beta: &Fr,
    gamma: &Fr,
    pi_zeta: &Fr,
    e: &OpeningValues,
    Ghost(c): Ghost<Circuit>,
) -> (res: Fr)
    requires
        domain.wf(),
        domain.size == c.n(),
        c.bits + 2 <= 28,
        zeta.wf(),
        alpha.wf(),
        beta.wf(),
        gamma.wf(),
        pi_zeta.wf(),
        e.wf(),
    ensures
        res.wf(),
        res@ == verifier_value(
            c,
            (Challenges { alpha: alpha@, beta: beta@, gamma: gamma@ }),
            zeta@,
            pi_zeta@,
            e@,
        ),
{
    let l1 = eval_l1(domain, zeta, Ghost(c));
    let alpha_sq_l1 = alpha.mul(alpha).mul(&l1);
    let t1 = e.l.add(&beta.mul(&e.s1)).add(gamma);
    let t2 = e.r.add(&beta.mul(&e.s2)).add(gamma);
    let t3 = e.o.add(gamma);
    let summand = alpha.mul(&t1).mul(&t2).mul(&t3).mul(&e.z_shifted);
    pi_zeta.sub(&alpha_sq_l1).add(&summand).neg()
}

} // verus!
