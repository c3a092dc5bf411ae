//! What a proof claims is what its polynomials open to.
//!
//! The value of the linearised polynomial at zeta is the one that a verifier computes
//! from the openings and the public inputs, and both opening quotients are exact.

use crate::circuit;
use crate::circuit::Circuit;
use crate::completeness;
use crate::dft;
use crate::domain;
use crate::fields;
use crate::grand_product;
use crate::linearization;
use crate::linearization::Openings;
use crate::modular;
use crate::poly_ring;
use crate::polynomial;
use crate::quotient;
use crate::quotient::{Challenges, Evals, Witness};
use crate::rounds::{Inputs, Key};
use crate::sums;
use vstd::arithmetic::div_mod::*;
use vstd::arithmetic::mul::*;
use vstd::arithmetic::power::*;
use vstd::arithmetic::power2::*;
use vstd::prelude::*;

verus! {

// ---------------------------------------------------------------------------
// The parts of the quotient
// ---------------------------------------------------------------------------

proof fn lemma_zero_poly(c: Seq<int>, x: int)
    requires
        forall|i: int| 0 <= i < c.len() ==> #[trigger] c[i] == 0,
    ensures
        polynomial::peval(c, x) == 0,
    decreases c.len(),
{
    if c.len() > 0 {
        let d = c.skip(1);
        assert forall|i: int| 0 <= i < d.len() implies #[trigger] d[i] == 0 by {
            assert(d[i] == c[i + 1]);
        }
        lemma_zero_poly(d, x);
        assert(x * 0 == 0);
    }
}

/// A polynomial that fits into three parts of `s` coefficients is
/// `h0 + X^s h1 + X^2s h2`.
pub proof fn law_parts(h: Seq<int>, s: nat, x: int)
    requires
        3 * s <= h.len(),
        forall|i: int| 3 * s <= i < h.len() ==> #[trigger] h[i] == 0,
    ensures
        polynomial::peval(h, x) == polynomial::peval(h.subrange(0, s as int), x) + pow(x, s)
            * polynomial::peval(h.subrange(s as int, (2 * s) as int), x) + pow(x, s) * pow(x, s)
            * polynomial::peval(h.subrange((2 * s) as int, (3 * s) as int), x),
{
    let t = pow(x, s);
    let a = h.skip(s as int);
    let b = a.skip(s as int);
    let c = b.skip(s as int);
    poly_ring::lemma_take_skip(h, s, x);
    poly_ring::lemma_take_skip(a, s, x);
    poly_ring::lemma_take_skip(b, s, x);
    assert(h.take(s as int) =~= h.subrange(0, s as int));
    assert(a.take(s as int) =~= h.subrange(s as int, (2 * s) as int));
    assert(b.take(s as int) =~= h.subrange((2 * s) as int, (3 * s) as int));
    assert forall|i: int| 0 <= i < c.len() implies #[trigger] c[i] == 0 by {
        assert(c[i] == h[i + 3 * s]);
    }
    lemma_zero_poly(c, x);
    let h0 = polynomial::peval(h.subrange(0, s as int), x);
    let h1 = polynomial::peval(h.subrange(s as int, (2 * s) as int), x);
    let h2 = polynomial::peval(h.subrange((2 * s) as int, (3 * s) as int), x);
    assert(h0 + t * (h1 + t * (h2 + t * 0)) == h0 + t * h1 + t * t * h2) by (nonlinear_arith);
}

// ---------------------------------------------------------------------------
// Sums of products
// ---------------------------------------------------------------------------

/// The sum of the products of two sequences, as integers.
pub open spec fn dot_sum(a: Seq<int>, b: Seq<int>, n: nat) -> int
    decreases n,
{
    if n == 0 {
        0
    } else {
        dot_sum(a, b, (n - 1) as nat) + a[n - 1] * b[n - 1]
    }
}

pub proof fn lemma_dot(a: Seq<int>, b: Seq<int>)
    ensures
        linearization::dot(a, b) % fields::fr_modulus() == dot_sum(a, b, a.len())
            % fields::fr_modulus(),
        0 <= linearization::dot(a, b) < fields::fr_modulus(),
    decreases a.len(),
{
    fields::lemma_fr_modulus();
    let p = fields::fr_modulus();
    if a.len() > 0 {
        let d = a.drop_last();
        lemma_dot(d, b);
        lemma_dot_sum_prefix(d, a, b, d.len());
        let u = linearization::dot(d, b);
        let v = a.last() * b[a.len() - 1];
        modular::lemma_mod_idem(v, p);
        modular::lemma_add_cong(u, v % p, dot_sum(a, b, d.len()), v, p);
        modular::lemma_mod_idem(u + v % p, p);
    }
}

proof fn lemma_dot_sum_prefix(d: Seq<int>, a: Seq<int>, b: Seq<int>, n: nat)
    requires
        n <= d.len() <= a.len(),
        forall|i: int| 0 <= i < d.len() ==> d[i] == a[i],
    ensures
        dot_sum(d, b, n) == dot_sum(a, b, n),
    decreases n,
{
    if n > 0 {
        lemma_dot_sum_prefix(d, a, b, (n - 1) as nat);
    }
}

/// A sum of products over two sequences that were put together.
proof fn lemma_dot_sum_concat(
    a1: Seq<int>,
    b1: Seq<int>,
    a2: Seq<int>,
    b2: Seq<int>,
    m: nat,
)
    requires
        a1.len() == b1.len(),
        m <= a2.len(),
        m <= b2.len(),
    ensures
        dot_sum(a1 + a2, b1 + b2, a1.len() + m) == dot_sum(a1, b1, a1.len()) + dot_sum(
            a2,
            b2,
            m,
        ),
    decreases m,
{
    if m > 0 {
        lemma_dot_sum_concat(a1, b1, a2, b2, (m - 1) as nat);
        assert((a1 + a2)[a1.len() + m - 1] == a2[m - 1]);
        assert((b1 + b2)[a1.len() + m - 1] == b2[m - 1]);
    } else {
        lemma_dot_sum_left(a1, b1, a2, b2, a1.len());
    }
}

proof fn lemma_dot_sum_left(a1: Seq<int>, b1: Seq<int>, a2: Seq<int>, b2: Seq<int>, n: nat)
    requires
        n <= a1.len(),
        a1.len() == b1.len(),
    ensures
        dot_sum(a1 + a2, b1 + b2, n) == dot_sum(a1, b1, n),
    decreases n,
{
    if n > 0 {
        lemma_dot_sum_left(a1, b1, a2, b2, (n - 1) as nat);
        assert((a1 + a2)[n - 1] == a1[n - 1]);
        assert((b1 + b2)[n - 1] == b1[n - 1]);
    }
}

/// What the arithmetic gate adds to the wires is the public inputs, the constants and a sum of
/// products.
proof fn lemma_fused_sum(pi: int, qk: int, qcp: Seq<int>, bsb22: Seq<int>, k: nat)
    ensures
        quotient::fused(pi, qk, qcp, bsb22, k) % fields::fr_modulus() == (pi + qk + dot_sum(
            qcp,
            bsb22,
            k,
        )) % fields::fr_modulus(),
    decreases k,
{
    fields::lemma_fr_modulus();
    let p = fields::fr_modulus();
    if k == 0 {
        modular::lemma_mod_idem(pi + qk, p);
    } else {
        let j = (k - 1) as nat;
        lemma_fused_sum(pi, qk, qcp, bsb22, j);
        let u = quotient::fused(pi, qk, qcp, bsb22, j);
        let v = qcp[k - 1] * bsb22[k - 1];
        modular::lemma_mod_idem(v, p);
        modular::lemma_add_cong(u, v % p, pi + qk + dot_sum(qcp, bsb22, j), v, p);
        modular::lemma_mod_idem(u + v % p, p);
    }
}

// ---------------------------------------------------------------------------
// The linearised polynomial at zeta
// ---------------------------------------------------------------------------

/// All constraints as an integer, with the two products of the permutation kept.
proof fn lemma_numerator_int(e: Evals, x: int, l1: int, ch: Challenges, k1: int)
    ensures
        ({
            let id = grand_product::id_product(e.l, e.r, e.o, x, ch.beta, ch.gamma, k1);
            let sg = grand_product::sigma_product(
                e.l,
                e.r,
                e.o,
                e.s1,
                e.s2,
                e.s3,
                ch.beta,
                ch.gamma,
            );
            e.numerator(x, l1, ch, k1) % fields::fr_modulus() == (e.ql * e.l + e.qr * e.r + e.qm
                * e.l * e.r + e.qo * e.o + e.fused + ch.alpha * (e.zw * sg - e.z * id) + ch.alpha
                * ch.alpha * (e.z - 1) * l1) % fields::fr_modulus()
        }),
{
    fields::lemma_fr_modulus();
    let p = fields::fr_modulus();
    let id = grand_product::id_product(e.l, e.r, e.o, x, ch.beta, ch.gamma, k1);
    let sg = grand_product::sigma_product(e.l, e.r, e.o, e.s1, e.s2, e.s3, ch.beta, ch.gamma);
    // The arithmetic gate.
    let g1 = e.ql * e.l;
    let g2 = e.qr * e.r;
    let g3 = e.qm * e.l;
    let g4 = g3 * e.r;
    let g5 = e.qo * e.o;
    lemma_fmul_int(e.ql, e.l, e.ql, e.l);
    lemma_fmul_int(e.qr, e.r, e.qr, e.r);
    lemma_fmul_int(e.qm, e.l, e.qm, e.l);
    lemma_fmul_int(fields::fmul(e.qm, e.l), e.r, g3, e.r);
    lemma_fmul_int(e.qo, e.o, e.qo, e.o);
    lemma_fadd_int(fields::fmul(e.ql, e.l), fields::fmul(e.qr, e.r), g1, g2);
    let s1 = fields::fadd(fields::fmul(e.ql, e.l), fields::fmul(e.qr, e.r));
    lemma_fadd_int(s1, fields::fmul(fields::fmul(e.qm, e.l), e.r), g1 + g2, g4);
    let s2 = fields::fadd(s1, fields::fmul(fields::fmul(e.qm, e.l), e.r));
    lemma_fadd_int(s2, fields::fmul(e.qo, e.o), g1 + g2 + g4, g5);
    let s3 = fields::fadd(s2, fields::fmul(e.qo, e.o));
    lemma_fadd_int(s3, e.fused, g1 + g2 + g4 + g5, e.fused);
    let gate = g1 + g2 + g4 + g5 + e.fused;
    // The permutation.
    lemma_fmul_int(e.zw, sg, e.zw, sg);
    lemma_fmul_int(e.z, id, e.z, id);
    lemma_fsub_int(fields::fmul(e.zw, sg), fields::fmul(e.z, id), e.zw * sg, e.z * id);
    let d = e.zw * sg - e.z * id;
    lemma_fmul_int(
        ch.alpha,
        fields::fsub(fields::fmul(e.zw, sg), fields::fmul(e.z, id)),
        ch.alpha,
        d,
    );
    let perm = ch.alpha * d;
    // The start.
    lemma_fmul_int(ch.alpha, ch.alpha, ch.alpha, ch.alpha);
    lemma_fsub_int(e.z, 1, e.z, 1);
    let a2 = ch.alpha * ch.alpha;
    lemma_fmul_int(
        fields::fmul(ch.alpha, ch.alpha),
        fields::fsub(e.z, 1),
        a2,
        e.z - 1,
    );
    lemma_fmul_int(
        fields::fmul(fields::fmul(ch.alpha, ch.alpha), fields::fsub(e.z, 1)),
        l1,
        a2 * (e.z - 1),
        l1,
    );
    let start = a2 * (e.z - 1) * l1;
    lemma_fadd_int(e.gate(), e.perm(x, ch, k1), gate, perm);
    lemma_fadd_int(
        fields::fadd(e.gate(), e.perm(x, ch, k1)),
        e.boundary(l1, ch),
        gate + perm,
        start,
    );
}

proof fn lemma_fmul_int(a: int, b: int, x: int, y: int)
    requires
        a % fields::fr_modulus() == x % fields::fr_modulus(),
        b % fields::fr_modulus() == y % fields::fr_modulus(),
    ensures
        fields::fmul(a, b) % fields::fr_modulus() == (x * y) % fields::fr_modulus(),
{
    fields::lemma_fr_modulus();
    modular::lemma_mul_cong(a, b, x, y, fields::fr_modulus());
    modular::lemma_mod_idem(a * b, fields::fr_modulus());
}

proof fn lemma_fadd_int(a: int, b: int, x: int, y: int)
    requires
        a % fields::fr_modulus() == x % fields::fr_modulus(),
        b % fields::fr_modulus() == y % fields::fr_modulus(),
    ensures
        fields::fadd(a, b) % fields::fr_modulus() == (x + y) % fields::fr_modulus(),
{
    fields::lemma_fr_modulus();
    modular::lemma_add_cong(a, b, x, y, fields::fr_modulus());
    modular::lemma_mod_idem(a + b, fields::fr_modulus());
}

proof fn lemma_fsub_int(a: int, b: int, x: int, y: int)
    requires
        a % fields::fr_modulus() == x % fields::fr_modulus(),
        b % fields::fr_modulus() == y % fields::fr_modulus(),
    ensures
        fields::fsub(a, b) % fields::fr_modulus() == (x - y) % fields::fr_modulus(),
{
    fields::lemma_fr_modulus();
    modular::lemma_sub_cong(a, b, x, y, fields::fr_modulus());
    modular::lemma_mod_idem(a - b, fields::fr_modulus());
}

/// The scalars of the third permutation polynomial and of the grand product, as
/// integers.
proof fn lemma_perm_scalars(c: Circuit, ch: Challenges, zeta: int, e: Openings)
    ensures
        ({
            let t1 = grand_product::term(e.l, fields::fmul(ch.beta, e.s1), ch.gamma);
            let t2 = grand_product::term(e.r, fields::fmul(ch.beta, e.s2), ch.gamma);
            let id = grand_product::id_product(
                e.l,
                e.r,
                e.o,
                zeta,
                ch.beta,
                ch.gamma,
                c.shift,
            );
            &&& c.s3_scalar(ch, e) % fields::fr_modulus() == (ch.alpha * e.zw * t1 * t2 * ch.beta)
                % fields::fr_modulus()
            &&& c.z_scalar(ch, zeta, e) % fields::fr_modulus() == (ch.alpha * ch.alpha
                * c.l1_or_one(zeta) - ch.alpha * id) % fields::fr_modulus()
            &&& linearization::perm_summand(ch, e) % fields::fr_modulus() == (ch.alpha * t1 * t2
                * (e.o + ch.gamma) * e.zw) % fields::fr_modulus()
        }),
{
    let t1 = grand_product::term(e.l, fields::fmul(ch.beta, e.s1), ch.gamma);
    let t2 = grand_product::term(e.r, fields::fmul(ch.beta, e.s2), ch.gamma);
    let id = grand_product::id_product(e.l, e.r, e.o, zeta, ch.beta, ch.gamma, c.shift);
    let a = ch.alpha;
    let l1 = c.l1_or_one(zeta);
    let u1 = fields::fmul(a, e.zw);
    let u2 = fields::fmul(u1, t1);
    let u3 = fields::fmul(u2, t2);
    lemma_fmul_int(a, e.zw, a, e.zw);
    lemma_fmul_int(u1, t1, a * e.zw, t1);
    lemma_fmul_int(u2, t2, a * e.zw * t1, t2);
    lemma_fmul_int(u3, ch.beta, a * e.zw * t1 * t2, ch.beta);
    lemma_fmul_int(a, a, a, a);
    lemma_fmul_int(fields::fmul(a, a), l1, a * a, l1);
    lemma_fmul_int(a, id, a, id);
    lemma_fsub_int(
        fields::fmul(fields::fmul(a, a), l1),
        fields::fmul(a, id),
        a * a * l1,
        a * id,
    );
    let v1 = fields::fmul(a, t1);
    let v2 = fields::fmul(v1, t2);
    let og = fields::fadd(e.o, ch.gamma);
    lemma_fmul_int(a, t1, a, t1);
    lemma_fmul_int(v1, t2, a * t1, t2);
    lemma_fadd_int(e.o, ch.gamma, e.o, ch.gamma);
    lemma_fmul_int(v2, og, a * t1 * t2, e.o + ch.gamma);
    lemma_fmul_int(fields::fmul(v2, og), e.zw, a * t1 * t2 * (e.o + ch.gamma), e.zw);
}

/// The product under the permutation, as an integer with its last factor written out.
proof fn lemma_sigma_int(e: Evals, ch: Challenges)
    ensures
        ({
            let t1 = grand_product::term(e.l, fields::fmul(ch.beta, e.s1), ch.gamma);
            let t2 = grand_product::term(e.r, fields::fmul(ch.beta, e.s2), ch.gamma);
            grand_product::sigma_product(
                e.l,
                e.r,
                e.o,
                e.s1,
                e.s2,
                e.s3,
                ch.beta,
                ch.gamma,
            ) % fields::fr_modulus() == (t1 * t2 * (e.o + ch.beta * e.s3 + ch.gamma))
                % fields::fr_modulus()
        }),
{
    let t1 = grand_product::term(e.l, fields::fmul(ch.beta, e.s1), ch.gamma);
    let t2 = grand_product::term(e.r, fields::fmul(ch.beta, e.s2), ch.gamma);
    let bs = fields::fmul(ch.beta, e.s3);
    lemma_fmul_int(ch.beta, e.s3, ch.beta, e.s3);
    lemma_fadd_int(e.o, bs, e.o, ch.beta * e.s3);
    lemma_fadd_int(fields::fadd(e.o, bs), ch.gamma, e.o + ch.beta * e.s3, ch.gamma);
    lemma_fmul_int(t1, t2, t1, t2);
    lemma_fmul_int(
        fields::fmul(t1, t2),
        grand_product::term(e.o, bs, ch.gamma),
        t1 * t2,
        e.o + ch.beta * e.s3 + ch.gamma,
    );
}

/// The identity behind the linearisation, over the integers.
proof fn lemma_lin_identity(
    g: int,
    pi: int,
    k: int,
    a: int,
    zw: int,
    t1: int,
    t2: int,
    b: int,
    s3: int,
    o: int,
    gamma: int,
    z: int,
    id: int,
    l1: int,
)
    ensures
        (g + k + (a * zw * t1 * t2 * b) * s3 + (a * a * l1 - a * id) * z) - (g + (pi + k) + a * (zw
            * (t1 * t2 * (o + b * s3 + gamma)) - z * id) + a * a * (z - 1) * l1) == -(pi - a * a
            * l1 + a * t1 * t2 * (o + gamma) * zw),
{
    let t = a * zw * t1 * t2;
    let a2 = a * a;
    let q = o + b * s3 + gamma;
    assert(a * (zw * (t1 * t2 * q) - z * id) == t * q - a * (z * id)) by {
        let u = t1 * t2;
        lemma_mul_is_associative(zw, u, q);
        lemma_mul_is_associative(a, zw * u, q);
        lemma_mul_is_associative(a, zw, u);
        lemma_mul_is_associative(a * zw, t1, t2);
        lemma_mul_is_distributive_sub(a, zw * (u * q), z * id);
    }
    assert(a * t1 * t2 * (o + gamma) * zw == t * (o + gamma)) by (nonlinear_arith)
        requires
            t == a * zw * t1 * t2,
    ;
    assert(t * (o + b * s3 + gamma) == t * (o + gamma) + (t * b) * s3) by (nonlinear_arith);
    assert((a2 * l1 - a * id) * z == a2 * l1 * z - a * (z * id)) by (nonlinear_arith);
    assert(a2 * (z - 1) * l1 == a2 * l1 * z - a2 * l1) by (nonlinear_arith);
}

/// The openings of a witness at zeta.
pub open spec fn openings_of(c: Circuit, wit: Witness, zeta: int) -> Openings {
    Openings {
        l: polynomial::feval(wit.l, zeta),
        r: polynomial::feval(wit.r, zeta),
        o: polynomial::feval(wit.o, zeta),
        s1: polynomial::feval(c.s1, zeta),
        s2: polynomial::feval(c.s2, zeta),
        zw: polynomial::feval(wit.z, fields::fmul(zeta, c.w)),
    }
}

/// One of the three parts of a quotient.
pub open spec fn part_of(c: Circuit, h: Seq<int>, k: int) -> Seq<int> {
    let stride = c.n() + 2;
    h.subrange(k * stride, (k + 1) * stride)
}

/// The first ten values of the linearisation.
spec fn lin_values(c: Circuit, wit: Witness, h: Seq<int>, zeta: int) -> Seq<int> {
    seq![
        polynomial::feval(c.ql, zeta),
        polynomial::feval(c.qr, zeta),
        polynomial::feval(c.qm, zeta),
        polynomial::feval(c.qo, zeta),
        polynomial::feval(c.qk, zeta),
        polynomial::feval(c.s3, zeta),
        polynomial::feval(wit.z, zeta),
        polynomial::feval(part_of(c, h, 0), zeta),
        polynomial::feval(part_of(c, h, 1), zeta),
        polynomial::feval(part_of(c, h, 2), zeta),
    ]
}

/// The parts of the quotient, with their scalars, take the constraints away.
proof fn lemma_quotient_part(c: Circuit, wit: Witness, ch: Challenges, zeta: int)
    requires
        completeness::provable(c, wit, ch),
        completeness::rows_hold(c, wit, ch),
        0 <= zeta < fields::fr_modulus(),
    ensures
        ({
            let h = c.quotient(wit, ch);
            let nz = fields::fneg(c.zh(zeta));
            let t = fields::fpow(zeta, c.n() + 2);
            let v = lin_values(c, wit, h, zeta);
            (nz * v[7] + fields::fmul(nz, t) * v[8] + fields::fmul(nz, fields::fmul(t, t)) * v[9])
                % fields::fr_modulus() == (-c.evals_at(
                wit,
                zeta,
                fields::fmul(c.w, zeta),
            ).numerator(zeta, c.l1_or_one(zeta), ch, c.shift)) % fields::fr_modulus()
        }),
{
    fields::lemma_fr_modulus();
    let p = fields::fr_modulus();
    let h = c.quotient(wit, ch);
    let n = c.n();
    let s = n + 2;
    let z = c.zh(zeta);
    let nz = fields::fneg(z);
    let t = fields::fpow(zeta, s);
    let tt = pow(zeta, s);
    completeness::law_blinded_quotient_fits(c, wit, ch);
    completeness::law_quotient_divides(c, wit, ch, zeta);
    assert(h.len() == c.big_n());
    assert forall|i: int| 3 * s <= i < h.len() implies #[trigger] h[i] == 0 by {
        completeness::law_quotient_fits(c, wit, ch, i);
    }
    law_parts(h, s, zeta);
    assert(h.subrange(0, s as int) =~= part_of(c, h, 0));
    assert(h.subrange(s as int, (2 * s) as int) =~= part_of(c, h, 1));
    assert(h.subrange((2 * s) as int, (3 * s) as int) =~= part_of(c, h, 2));
    let h0 = polynomial::peval(part_of(c, h, 0), zeta);
    let h1 = polynomial::peval(part_of(c, h, 1), zeta);
    let h2 = polynomial::peval(part_of(c, h, 2), zeta);
    let hv = polynomial::peval(h, zeta);
    modular::lemma_mod_idem(h0, p);
    modular::lemma_mod_idem(h1, p);
    modular::lemma_mod_idem(h2, p);
    modular::lemma_mod_idem(hv, p);
    modular::lemma_mod_idem(tt, p);
    modular::lemma_mod_idem(-z, p);
    assert(nz % p == (-z) % p);
    // The three terms.
    lemma_fmul_int(nz, t, -z, tt);
    lemma_fmul_int(t, t, tt, tt);
    lemma_fmul_int(nz, fields::fmul(t, t), -z, tt * tt);
    modular::lemma_mul_cong(nz, h0 % p, -z, h0, p);
    modular::lemma_mul_cong(fields::fmul(nz, t), h1 % p, (-z) * tt, h1, p);
    modular::lemma_mul_cong(
        fields::fmul(nz, fields::fmul(t, t)),
        h2 % p,
        (-z) * (tt * tt),
        h2,
        p,
    );
    let u0 = nz * (h0 % p);
    let u1 = fields::fmul(nz, t) * (h1 % p);
    let u2 = fields::fmul(nz, fields::fmul(t, t)) * (h2 % p);
    modular::lemma_add_cong(u0, u1, (-z) * h0, (-z) * tt * h1, p);
    modular::lemma_add_cong(
        u0 + u1,
        u2,
        (-z) * h0 + (-z) * tt * h1,
        (-z) * (tt * tt) * h2,
        p,
    );
    assert((-z) * h0 + (-z) * tt * h1 + (-z) * (tt * tt) * h2 == -(hv * z)) by {
        let y1 = tt * h1;
        let y2 = (tt * tt) * h2;
        lemma_mul_is_associative(-z, tt, h1);
        lemma_mul_is_associative(-z, tt * tt, h2);
        assert((-z) * h0 + (-z) * y1 + (-z) * y2 == -(hv * z)) by (nonlinear_arith)
            requires
                hv == h0 + y1 + y2,
        ;
    }
    // h z is the constraints.
    let num = c.evals_at(wit, zeta, fields::fmul(c.w, zeta)).numerator(
        zeta,
        c.l1_or_one(zeta),
        ch,
        c.shift,
    );
    lemma_fmul_int(hv % p, z, hv, z);
    assert(num % p == (hv * z) % p);
    modular::lemma_sub_cong(0, num, 0, hv * z, p);
}

/// The value of the linearised polynomial at zeta is the one that a verifier computes
/// from the openings and the value of the public input polynomial.
pub proof fn law_const_lin(c: Circuit, wit: Witness, ch: Challenges, zeta: int)
    requires
        completeness::provable(c, wit, ch),
        completeness::rows_hold(c, wit, ch),
        0 <= zeta < fields::fr_modulus(),
    ensures
        ({
            let h = c.quotient(wit, ch);
            let e = openings_of(c, wit, zeta);
            let m = quotient::shorter(wit.bsb22.len(), c.qcp.len()) as int;
            linearization::dot(
                c.lin_scalars(ch, zeta, e) + quotient::values_at(c.qcp, zeta).take(m),
                quotient::values_at(
                    c.lin_polys(wit.z, part_of(c, h, 0), part_of(c, h, 1), part_of(c, h, 2))
                        + wit.bsb22.take(m),
                    zeta,
                ),
            ) == linearization::verifier_value(
                c,
                ch,
                zeta,
                polynomial::feval(wit.pi, zeta),
                e,
            )
        }),
{
    fields::lemma_fr_modulus();
    let p = fields::fr_modulus();
    let h = c.quotient(wit, ch);
    let e = openings_of(c, wit, zeta);
    let m = quotient::shorter(wit.bsb22.len(), c.qcp.len());
    let y = fields::fmul(c.w, zeta);
    let ev = c.evals_at(wit, zeta, y);
    let qv = quotient::values_at(c.qcp, zeta);
    let bv = quotient::values_at(wit.bsb22, zeta);
    let s10 = c.lin_scalars(ch, zeta, e);
    let v10 = lin_values(c, wit, h, zeta);
    let polys = c.lin_polys(wit.z, part_of(c, h, 0), part_of(c, h, 1), part_of(c, h, 2))
        + wit.bsb22.take(m as int);
    let scalars = s10 + qv.take(m as int);
    let values = quotient::values_at(polys, zeta);
    fields::law_fr_ring(c.w, zeta, 0);
    assert(e.zw == ev.zw);
    assert(values =~= v10 + bv.take(m as int)) by {
        assert forall|i: int| 0 <= i < values.len() implies #[trigger] values[i] == (v10 + bv.take(
            m as int,
        ))[i] by {
            if i >= 10 {
                assert(polys[i] == wit.bsb22[i - 10]);
            }
        }
    }
    // The sum of the products.
    lemma_dot(scalars, values);
    lemma_dot_sum_concat(s10, v10, qv.take(m as int), bv.take(m as int), m);
    lemma_dot_sum_left(qv.take(m as int), bv.take(m as int), qv.skip(m as int), bv.skip(m as int), m);
    assert(qv.take(m as int) + qv.skip(m as int) =~= qv);
    assert(bv.take(m as int) + bv.skip(m as int) =~= bv);
    let bs = dot_sum(qv, bv, m);
    let d10 = dot_sum(s10, v10, 10);
    assert(linearization::dot(scalars, values) % p == (d10 + bs) % p);
    lemma_ten(s10, v10);
    // The terms.
    let t1 = grand_product::term(e.l, fields::fmul(ch.beta, e.s1), ch.gamma);
    let t2 = grand_product::term(e.r, fields::fmul(ch.beta, e.s2), ch.gamma);
    let id = grand_product::id_product(e.l, e.r, e.o, zeta, ch.beta, ch.gamma, c.shift);
    let sg = grand_product::sigma_product(
        e.l,
        e.r,
        e.o,
        e.s1,
        e.s2,
        ev.s3,
        ch.beta,
        ch.gamma,
    );
    let l1 = c.l1_or_one(zeta);
    let a = ch.alpha;
    lemma_perm_scalars(c, ch, zeta, e);
    lemma_sigma_int(ev, ch);
    lemma_numerator_int(ev, zeta, l1, ch, c.shift);
    lemma_quotient_part(c, wit, ch, zeta);
    lemma_fused_sum(
        polynomial::feval(wit.pi, zeta),
        polynomial::feval(c.qk, zeta),
        qv,
        bv,
        m,
    );
    let pi = polynomial::feval(wit.pi, zeta);
    let s3 = ev.s3;
    let z = ev.z;
    let k = ev_k(c, zeta) + bs;
    let g = ev.ql * ev.l + ev.qr * ev.r + ev.qm * ev.l * ev.r + ev.qo * ev.o;
    // The first seven terms.
    let s3s = c.s3_scalar(ch, e);
    let zs = c.z_scalar(ch, zeta, e);
    let s3i = a * e.zw * t1 * t2 * ch.beta;
    let zi = a * a * l1 - a * id;
    let first = e.l * ev.ql + e.r * ev.qr + fields::fmul(e.l, e.r) * ev.qm + e.o * ev.qo + 1
        * ev_k(c, zeta) + s3s * s3 + zs * z;
    assert(first % p == (g + ev_k(c, zeta) + s3i * s3 + zi * z) % p) by {
        lemma_fmul_int(e.l, e.r, e.l, e.r);
        modular::lemma_mul_cong(fields::fmul(e.l, e.r), ev.qm, e.l * e.r, ev.qm, p);
        modular::lemma_mul_cong(s3s, s3, s3i, s3, p);
        modular::lemma_mul_cong(zs, z, zi, z, p);
        let w1 = e.l * ev.ql + e.r * ev.qr;
        let w2 = e.o * ev.qo + 1 * ev_k(c, zeta);
        modular::lemma_add_cong(w1, fields::fmul(e.l, e.r) * ev.qm, w1, e.l * e.r * ev.qm, p);
        modular::lemma_add_cong(
            w1 + fields::fmul(e.l, e.r) * ev.qm,
            w2,
            w1 + e.l * e.r * ev.qm,
            w2,
            p,
        );
        let w3 = w1 + fields::fmul(e.l, e.r) * ev.qm + w2;
        let w4 = w1 + e.l * e.r * ev.qm + w2;
        modular::lemma_add_cong(w3, s3s * s3, w4, s3i * s3, p);
        modular::lemma_add_cong(w3 + s3s * s3, zs * z, w4 + s3i * s3, zi * z, p);
        assert(w4 == g + ev_k(c, zeta)) by (nonlinear_arith)
            requires
                w4 == e.l * ev.ql + e.r * ev.qr + e.l * e.r * ev.qm + (e.o * ev.qo + 1 * ev_k(
                    c,
                    zeta,
                )),
                g == ev.ql * ev.l + ev.qr * ev.r + ev.qm * ev.l * ev.r + ev.qo * ev.o,
                e.l == ev.l,
                e.r == ev.r,
                e.o == ev.o,
        ;
    }
    // The constraints.
    let num = ev.numerator(zeta, l1, ch, c.shift);
    let sgi = t1 * t2 * (e.o + ch.beta * s3 + ch.gamma);
    let numi = g + (pi + k) + a * (e.zw * sgi - z * id) + a * a * (z - 1) * l1;
    assert(num % p == numi % p) by {
        modular::lemma_mul_cong(e.zw, sg, e.zw, sgi, p);
        modular::lemma_sub_cong(e.zw * sg, z * id, e.zw * sgi, z * id, p);
        modular::lemma_mul_cong(a, e.zw * sg - z * id, a, e.zw * sgi - z * id, p);
        modular::lemma_add_cong(g, ev.fused, g, pi + k, p);
        modular::lemma_add_cong(
            g + ev.fused,
            a * (e.zw * sg - z * id),
            g + (pi + k),
            a * (e.zw * sgi - z * id),
            p,
        );
        modular::lemma_add_cong(
            g + ev.fused + a * (e.zw * sg - z * id),
            a * a * (z - 1) * l1,
            g + (pi + k) + a * (e.zw * sgi - z * id),
            a * a * (z - 1) * l1,
            p,
        );
    }
    // Together.
    let rest = d10 - first;
    assert(rest % p == (-num) % p);
    modular::lemma_sub_cong(0, num, 0, numi, p);
    modular::lemma_add_cong(
        first,
        rest,
        g + ev_k(c, zeta) + s3i * s3 + zi * z,
        -numi,
        p,
    );
    modular::lemma_add_cong(d10, bs, g + ev_k(c, zeta) + s3i * s3 + zi * z - numi, bs, p);
    lemma_lin_identity(g, pi, k, a, e.zw, t1, t2, ch.beta, s3, e.o, ch.gamma, z, id, l1);
    let psi = a * t1 * t2 * (e.o + ch.gamma) * e.zw;
    assert(g + ev_k(c, zeta) + s3i * s3 + zi * z - numi + bs == -(pi - a * a * l1 + psi));
    // What the verifier computes.
    lemma_fmul_int(a, a, a, a);
    lemma_fmul_int(fields::fmul(a, a), l1, a * a, l1);
    let al = fields::fmul(fields::fmul(a, a), l1);
    lemma_fsub_int(pi, al, pi, a * a * l1);
    let ps = linearization::perm_summand(ch, e);
    lemma_fadd_int(fields::fsub(pi, al), ps, pi - a * a * l1, psi);
    let inner = fields::fadd(fields::fsub(pi, al), ps);
    modular::lemma_sub_cong(0, inner, 0, pi - a * a * l1 + psi, p);
    let vv = linearization::verifier_value(c, ch, zeta, pi, e);
    modular::lemma_mod_idem(-inner, p);
    assert(vv % p == (-(pi - a * a * l1 + psi)) % p);
    fields::lemma_frange(inner, 0, 0);
    lemma_small_mod(vv as nat, p as nat);
    lemma_small_mod(linearization::dot(scalars, values) as nat, p as nat);
}

/// The constants of the gates at zeta.
spec fn ev_k(c: Circuit, zeta: int) -> int {
    polynomial::feval(c.qk, zeta)
}

proof fn lemma_ten(s: Seq<int>, v: Seq<int>)
    requires
        s.len() == 10,
        v.len() == 10,
    ensures
        dot_sum(s, v, 10) == s[0] * v[0] + s[1] * v[1] + s[2] * v[2] + s[3] * v[3] + s[4] * v[4]
            + s[5] * v[5] + s[6] * v[6] + (s[7] * v[7] + s[8] * v[8] + s[9] * v[9]),
{
    reveal_with_fuel(dot_sum, 11);
}

// ---------------------------------------------------------------------------
// The public input polynomial at zeta
// ---------------------------------------------------------------------------

/// The sum of the powers of `y`, as the value of a polynomial.
pub open spec fn power_sum(y: int, n: nat) -> int {
    polynomial::peval(Seq::new(n, |k: int| 1int), y)
}

/// The value of an interpolated polynomial is a combination of sums of powers.
pub proof fn lemma_interpolation_sum(rows: Seq<int>, w: int, x: int)
    ensures
        ({
            let n = rows.len();
            let u = fields::finv(w);
            let ninv = fields::finv(n as int);
            polynomial::feval(domain::idft(rows, w), x) == sums::sum(
                |i: int| ninv * rows[i] * power_sum(x * pow(u, i as nat), n),
                n,
            ) % fields::fr_modulus()
        }),
{
    fields::lemma_fr_modulus();
    let p = fields::fr_modulus();
    let n = rows.len();
    let u = fields::finv(w);
    let ninv = fields::finv(n as int);
    let q = domain::idft(rows, w);
    let f = |k: int, i: int| ninv * rows[i] * pow(x * pow(u, i as nat), k as nat);
    let by_k = |k: int| sums::sum(|i: int| f(k, i), n);
    let by_i = |i: int| sums::sum(|k: int| f(k, i), n);
    let terms = |k: int| polynomial::coeff(q, k) * pow(x, k as nat);
    polynomial::lemma_peval_sum(q, x, n);
    assert forall|k: int| 0 <= k < n implies #[trigger] terms(k) % p == by_k(k) % p by {
        let xk = pow(x, k as nat);
        let uk = pow(u, k as nat);
        let ev = polynomial::peval(rows, uk);
        let inner = |i: int| polynomial::coeff(rows, i) * pow(uk, i as nat);
        let scale = ninv * xk;
        let scaled = |i: int| scale * inner(i);
        polynomial::lemma_peval_sum(rows, uk, n);
        sums::lemma_sum_scale(inner, scale, n);
        let fk = |i: int| f(k, i);
        assert forall|i: int| 0 <= i < n implies #[trigger] scaled(i) == fk(i) by {
            lemma_pow_distributes(x, pow(u, i as nat), k as nat);
            lemma_pow_multiplies(u, i as nat, k as nat);
            lemma_pow_multiplies(u, k as nat, i as nat);
            lemma_mul_is_commutative(i, k);
            let b = pow(uk, i as nat);
            let r = rows[i];
            assert((ninv * xk) * (r * b) == ninv * r * (xk * b)) by (nonlinear_arith);
        }
        sums::lemma_sum_eq(scaled, fk, n);
        // The coefficient is reduced.
        modular::lemma_mod_idem(ev, p);
        modular::lemma_mul_cong(ev % p, ninv, ev, ninv, p);
        modular::lemma_mod_idem((ev % p) * ninv, p);
        modular::lemma_mul_cong(q[k], xk, ev * ninv, xk, p);
        assert((ev * ninv) * xk == (ninv * xk) * ev) by (nonlinear_arith);
    }
    sums::lemma_sum_cong(terms, by_k, n, p);
    sums::lemma_sum_swap(f, n, n);
    let want = |i: int| ninv * rows[i] * power_sum(x * pow(u, i as nat), n);
    assert forall|i: int| 0 <= i < n implies #[trigger] by_i(i) == want(i) by {
        let y = x * pow(u, i as nat);
        let ones = Seq::new(n, |k: int| 1int);
        let g = |k: int| polynomial::coeff(ones, k) * pow(y, k as nat);
        let s = ninv * rows[i];
        polynomial::lemma_peval_sum(ones, y, n);
        sums::lemma_sum_scale(g, s, n);
        let sg = |k: int| s * g(k);
        let fi = |k: int| f(k, i);
        assert forall|k: int| 0 <= k < n implies #[trigger] sg(k) == fi(k) by {
            assert(1 * pow(y, k as nat) == pow(y, k as nat));
        }
        sums::lemma_sum_eq(sg, fi, n);
    }
    sums::lemma_sum_eq(by_i, want, n);
}

/// The term of a row.
proof fn lemma_lagrange_term(c: Circuit, ev: int, x: int, i: int)
    requires
        c.geometry(),
        0 <= x < fields::fr_modulus(),
        c.zh(x) != 0,
        0 <= i < c.n(),
    ensures
        linearization::lagrange_term(c, ev, x, i) % fields::fr_modulus() == (fields::finv(
            c.n() as int,
        ) * ev * power_sum(x * pow(fields::finv(c.w), i as nat), c.n())) % fields::fr_modulus(),
{
    fields::lemma_fr_modulus();
    let p = fields::fr_modulus();
    let n = c.n();
    let u = fields::finv(c.w);
    let ninv = fields::finv(n as int);
    let wi = fields::fpow(c.w, i as nat);
    let wr = pow(c.w, i as nat);
    let ui = pow(u, i as nat);
    let d = fields::fsub(x, wi);
    let z = c.zh(x);
    let y = x * ui;
    let s = power_sum(y, n);
    fields::lemma_frange(x, wi, 0);
    fields::lemma_frange(c.w, 0, i as nat);
    fields::lemma_frange(fields::fpow(x, n), 1, 0);
    lemma_small_mod(0, p as nat);
    assert(d != 0) by {
        if d == 0 {
            fields::law_fr_units(x, wi);
            fields::law_fr_units(wi, 0);
            assert(x == wi);
            dft::law_vanishing_on_domain(c.w, c.bits, i as nat);
        }
    }
    fields::law_fr_inverse(d);
    let dinv = fields::finv(d);
    // u^i w^i = 1
    fields::law_fr_inverse(c.w);
    lemma_pow_distributes(u, c.w, i as nat);
    lemma_small_mod(1, p as nat);
    modular::lemma_pow_cong(u * c.w, 1, i as nat, p);
    lemma1_pow(i as nat);
    assert((ui * wr) % p == 1);
    // y^n = x^n
    let t = pow(x, n);
    assert(pow(y, n) % p == t % p) by {
        lemma_pow_distributes(x, ui, n);
        lemma_pow_multiplies(u, i as nat, n);
        lemma_pow_multiplies(u, n, i as nat);
        lemma_mul_is_commutative(i, n as int);
        domain::lemma_inverse_root(c.w, c.bits);
        dft::law_root_order(u, c.bits);
        modular::lemma_pow_cong(pow(u, n), 1, i as nat, p);
        modular::lemma_mul_cong(t, pow(ui, n), t, 1, p);
    }
    // s (y - 1) = y^n - 1
    completeness::lemma_constant_poly(1, n, y);
    assert(1 * (pow(y, n) - 1) == pow(y, n) - 1);
    modular::lemma_mod_idem(t, p);
    modular::lemma_sub_cong(pow(y, n), 1, t % p, 1, p);
    assert((s * (y - 1)) % p == z % p) by {
        modular::lemma_mod_idem(t % p - 1, p);
    }
    // y - 1 = u^i (x - w^i)
    modular::lemma_mod_idem(wr, p);
    modular::lemma_sub_cong(x, wi, x, wr, p);
    modular::lemma_mod_idem(x - wi, p);
    assert(d % p == (x - wr) % p);
    assert((ui * d) % p == (y - 1) % p) by {
        modular::lemma_mul_cong(ui, d, ui, x - wr, p);
        assert(ui * (x - wr) == x * ui - ui * wr) by (nonlinear_arith);
        modular::lemma_sub_cong(x * ui, ui * wr, x * ui, 1, p);
    }
    // z dinv w^i = s
    assert((z * dinv * wi) % p == s % p) by {
        modular::lemma_mul_cong(s, ui * d, s, y - 1, p);
        modular::lemma_mul_cong(dinv, wi, dinv, wr, p);
        modular::lemma_mul_cong(z, dinv * wi, s * (ui * d), dinv * wr, p);
        assert(z * (dinv * wi) == z * dinv * wi) by (nonlinear_arith);
        assert((s * (ui * d)) * (dinv * wr) == s * ((d * dinv) * (ui * wr))) by (nonlinear_arith);
        modular::lemma_mul_cong(d * dinv, ui * wr, 1, 1, p);
        modular::lemma_mul_cong(s, (d * dinv) * (ui * wr), s, 1, p);
    }
    // The term.
    let v1 = fields::fmul(z, dinv);
    let v2 = fields::fmul(v1, ninv);
    let v3 = fields::fmul(v2, wi);
    lemma_fmul_int(z, dinv, z, dinv);
    lemma_fmul_int(v1, ninv, z * dinv, ninv);
    lemma_fmul_int(v2, wi, z * dinv * ninv, wi);
    lemma_fmul_int(v3, ev, z * dinv * ninv * wi, ev);
    assert(z * dinv * ninv * wi * ev == (ninv * ev) * (z * dinv * wi)) by {
        let zd = z * dinv;
        assert(zd * ninv * wi * ev == (ninv * ev) * (zd * wi)) by (nonlinear_arith);
    }
    modular::lemma_mul_cong(ninv * ev, z * dinv * wi, ninv * ev, s, p);
    if ev == 0 {
        assert(ninv * 0 * s == 0) by (nonlinear_arith);
    }
}

proof fn lemma_lagrange_sum(c: Circuit, rows: Seq<int>, x: int, m: nat)
    requires
        c.geometry(),
        0 <= x < fields::fr_modulus(),
        c.zh(x) != 0,
        m <= c.n(),
        m <= rows.len(),
    ensures
        linearization::lagrange_sum(c, rows, x, m) % fields::fr_modulus() == sums::sum(
            |i: int|
                fields::finv(c.n() as int) * rows[i] * power_sum(
                    x * pow(fields::finv(c.w), i as nat),
                    c.n(),
                ),
            m,
        ) % fields::fr_modulus(),
        0 <= linearization::lagrange_sum(c, rows, x, m) < fields::fr_modulus(),
    decreases m,
{
    fields::lemma_fr_modulus();
    if m > 0 {
        let k = (m - 1) as nat;
        let f = |i: int|
            fields::finv(c.n() as int) * rows[i] * power_sum(
                x * pow(fields::finv(c.w), i as nat),
                c.n(),
            );
        lemma_lagrange_sum(c, rows, x, k);
        lemma_lagrange_term(c, rows[m - 1], x, m - 1);
        let a = linearization::lagrange_sum(c, rows, x, k);
        let b = linearization::lagrange_term(c, rows[m - 1], x, m - 1);
        lemma_fadd_int(a, b, sums::sum(f, k), f(m - 1));
        fields::lemma_frange(a, b, 0);
    }
}

/// Off the domain, the value of a polynomial that was interpolated from rows is the
/// sum of the rows, each times its Lagrange polynomial.
pub proof fn law_lagrange_interpolation(c: Circuit, rows: Seq<int>, x: int)
    requires
        c.geometry(),
        rows.len() == c.n(),
        0 <= x < fields::fr_modulus(),
        c.zh(x) != 0,
    ensures
        linearization::lagrange_sum(c, rows, x, c.n()) == polynomial::feval(
            domain::idft(rows, c.w),
            x,
        ),
{
    fields::lemma_fr_modulus();
    lemma_interpolation_sum(rows, c.w, x);
    lemma_lagrange_sum(c, rows, x, c.n());
    lemma_small_mod(
        linearization::lagrange_sum(c, rows, x, c.n()) as nat,
        fields::fr_modulus() as nat,
    );
}

// ---------------------------------------------------------------------------
// The openings of a proof
// ---------------------------------------------------------------------------

/// The value of a combination is the sum of the scalars times the values.
proof fn lemma_combination_value(polys: Seq<Seq<int>>, scalars: Seq<int>, x: int)
    ensures
        polynomial::combined_eval(polys, scalars, x) % fields::fr_modulus() == dot_sum(
            scalars,
            quotient::values_at(polys, x),
            polys.len(),
        ) % fields::fr_modulus(),
    decreases polys.len(),
{
    fields::lemma_fr_modulus();
    let p = fields::fr_modulus();
    if polys.len() > 0 {
        let d = polys.drop_last();
        let k = d.len();
        lemma_combination_value(d, scalars, x);
        lemma_dot_sum_values(scalars, quotient::values_at(d, x), quotient::values_at(polys, x), k);
        let v = polynomial::peval(polys.last(), x);
        let sc = scalars[k as int];
        modular::lemma_mod_idem(v, p);
        modular::lemma_mul_cong(sc, v, sc, v % p, p);
        modular::lemma_add_cong(
            polynomial::combined_eval(d, scalars, x),
            sc * v,
            dot_sum(scalars, quotient::values_at(polys, x), k),
            sc * (v % p),
            p,
        );
    }
}

proof fn lemma_dot_sum_values(a: Seq<int>, b: Seq<int>, c: Seq<int>, n: nat)
    requires
        n <= b.len() <= c.len(),
        forall|i: int| 0 <= i < b.len() ==> b[i] == c[i],
    ensures
        dot_sum(a, b, n) == dot_sum(a, c, n),
    decreases n,
{
    if n > 0 {
        lemma_dot_sum_values(a, b, c, (n - 1) as nat);
    }
}

/// The first product of a sum of products.
proof fn lemma_dot_sum_first(a: Seq<int>, b: Seq<int>, n: nat)
    requires
        n >= 1,
        n <= a.len(),
        n <= b.len(),
    ensures
        dot_sum(a, b, n) == a[0] * b[0] + dot_sum(a.skip(1), b.skip(1), (n - 1) as nat),
    decreases n,
{
    if n > 1 {
        lemma_dot_sum_first(a, b, (n - 1) as nat);
        assert(a.skip(1)[n - 2] == a[n - 1]);
        assert(b.skip(1)[n - 2] == b[n - 1]);
    } else {
        reveal_with_fuel(dot_sum, 2);
    }
}

/// A polynomial less a number takes its values less the number.
pub proof fn law_less_constant(c: Seq<int>, v: int, x: int)
    requires
        c.len() > 0,
    ensures
        polynomial::feval(linearization::less_constant(c, v), x) == fields::fsub(
            polynomial::feval(c, x),
            v,
        ),
{
    fields::lemma_fr_modulus();
    let p = fields::fr_modulus();
    let d = linearization::less_constant(c, v);
    assert(d.skip(1) =~= c.skip(1));
    let t = x * polynomial::peval(c.skip(1), x);
    modular::lemma_mod_idem(c[0] - v, p);
    modular::lemma_add_cong(d[0], t, c[0] - v, t, p);
    modular::lemma_mod_idem(c[0] + t, p);
    modular::lemma_sub_cong((c[0] + t) % p, v, c[0] + t, v, p);
}

/// The value of a combination of polynomials over the field.
proof fn lemma_combination_at(polys: Seq<Seq<int>>, scalars: Seq<int>, x: int)
    ensures
        polynomial::feval(linearization::combination(polys, scalars), x) == dot_sum(
            scalars,
            quotient::values_at(polys, x),
            polys.len(),
        ) % fields::fr_modulus(),
{
    fields::lemma_fr_modulus();
    let p = fields::fr_modulus();
    let r = linearization::combination(polys, scalars);
    polynomial::lemma_longest(polys);
    assert forall|i: int| 0 <= i < r.len() implies (#[trigger] r[i]) % p == polynomial::combined(
        polys,
        scalars,
        i,
    ) % p by {
        modular::lemma_mod_idem(polynomial::combined(polys, scalars, i), p);
    }
    polynomial::law_combination_eval(polys, scalars, r, x);
    lemma_combination_value(polys, scalars, x);
}

/// The values at a point of the polynomials that are opened together: the linearised
/// polynomial, the wires, two permutation polynomials and the BSB22 selectors.
pub open spec fn opened(key: Key, inp: Inputs, x: int) -> Seq<int> {
    let c = key.circuit;
    let wit = key.witness(inp);
    let r4 = key.round4(inp);
    let m = quotient::shorter(wit.bsb22.len(), c.qcp.len());
    seq![
        linearization::dot(
            key.lin_scalars(inp, r4.openings, r4.qcp, m),
            quotient::values_at(key.lin_polys(inp), x),
        ),
        polynomial::feval(wit.l, x),
        polynomial::feval(wit.r, x),
        polynomial::feval(wit.o, x),
        polynomial::feval(c.s1, x),
        polynomial::feval(c.s2, x),
    ] + quotient::values_at(c.qcp, x)
}

/// The claimed values of a proof are the values at zeta.
pub proof fn law_claimed_values(key: Key, inp: Inputs)
    ensures
        key.claimed(inp) == opened(key, inp, key.round3(inp).zeta),
{
    reveal(Key::claimed);
    reveal(Key::round4);
    assert(key.claimed(inp) =~= opened(key, inp, key.round3(inp).zeta));
}

/// The folded polynomial takes the fold of the opened values, less the fold of the
/// claimed ones.
pub proof fn law_folded_value(key: Key, inp: Inputs, x: int)
    requires
        key.circuit.wf(),
        inp.device.combination is None,
    ensures
        ({
            let g = linearization::field_powers(key.gamma_fold(inp), 6 + key.circuit.qcp.len());
            &&& key.folded(inp).len() > 0
            &&& polynomial::feval(key.folded(inp), x) == fields::fsub(
                linearization::dot(g, opened(key, inp, x)),
                linearization::dot(g, key.claimed(inp)),
            )
        }),
{
    fields::lemma_fr_modulus();
    let p = fields::fr_modulus();
    let c = key.circuit;
    let wit = key.witness(inp);
    let r4 = key.round4(inp);
    let m = quotient::shorter(wit.bsb22.len(), c.qcp.len());
    let k = 6 + c.qcp.len();
    let g = linearization::field_powers(key.gamma_fold(inp), k);
    let values = opened(key, inp, x);
    let lp = key.lin_polys(inp);
    let ls = key.lin_scalars(inp, r4.openings, r4.qcp, m);
    let more = seq![wit.l, wit.r, wit.o, c.s1, c.s2] + c.qcp;
    let polys = key.fold_polys(inp);
    let scalars = key.fold_scalars(inp);
    lemma_pow2_pos(c.bits);
    assert(lp.len() == 10 + m && polys =~= lp + more) by {
        reveal(Key::lin_polys);
        reveal(Key::fold_polys);
    }
    assert(r4.qcp.len() == c.qcp.len()) by {
        reveal(Key::round4);
    }
    assert(ls.len() == 10 + m) by {
        reveal(Key::lin_scalars);
    }
    assert(scalars =~= ls + g.skip(1)) by {
        reveal(Key::fold_scalars);
    }
    let lv = quotient::values_at(lp, x);
    let mv = quotient::values_at(more, x);
    assert(quotient::values_at(polys, x) =~= lv + mv);
    assert(values.skip(1) =~= mv) by {
        assert forall|i: int| 0 <= i < mv.len() implies #[trigger] values.skip(1)[i] == mv[i] by {
            if i >= 5 {
                assert(more[i] == c.qcp[i - 5]);
            }
        }
    }
    // The combination is the fold of the opened values.
    let comb = linearization::combination(polys, scalars);
    lemma_combination_at(polys, scalars, x);
    lemma_dot_sum_concat(ls, lv, g.skip(1), mv, (k - 1) as nat);
    lemma_dot(ls, lv);
    lemma_dot(g, values);
    lemma_dot_sum_first(g, values, k);
    lemma_pow0(key.gamma_fold(inp));
    lemma_small_mod(1, p as nat);
    assert(g[0] == 1);
    assert(g[0] * values[0] == values[0]) by (nonlinear_arith)
        requires
            g[0] == 1,
    ;
    let rest = dot_sum(g.skip(1), mv, (k - 1) as nat);
    modular::lemma_add_cong(dot_sum(ls, lv, ls.len()), rest, values[0], rest, p);
    let v = linearization::dot(g, values);
    assert(polynomial::feval(comb, x) == v) by {
        lemma_small_mod(v as nat, p as nat);
    }
    // Something is left to divide.
    polynomial::lemma_longest(polys);
    assert(polys[0] == c.ql) by {
        reveal(Key::lin_polys);
    }
    assert(comb.len() > 0);
    law_less_constant(comb, linearization::dot(g, key.claimed(inp)), x);
    reveal(Key::folded);
}

/// The folded polynomial vanishes at zeta: the batch opening leaves no remainder.
pub proof fn law_batch_opening(key: Key, inp: Inputs)
    requires
        key.circuit.wf(),
        inp.device.combination is None,
    ensures
        key.folded(inp).len() > 0,
        polynomial::feval(key.folded(inp), key.round3(inp).zeta) == 0,
{
    fields::lemma_fr_modulus();
    law_folded_value(key, inp, key.round3(inp).zeta);
    law_claimed_values(key, inp);
    lemma_small_mod(0, fields::fr_modulus() as nat);
}

/// The grand product less its opening vanishes at omega times zeta.
pub proof fn law_shifted_opening(key: Key, inp: Inputs)
    requires
        key.witness(inp).z.len() > 0,
    ensures
        polynomial::feval(
            key.z_less_opening(inp),
            fields::fmul(key.round3(inp).zeta, key.circuit.w),
        ) == 0,
{
    fields::lemma_fr_modulus();
    reveal(Key::z_less_opening);
    reveal(Key::round4);
    let y = fields::fmul(key.round3(inp).zeta, key.circuit.w);
    let z = key.witness(inp).z;
    law_less_constant(z, polynomial::feval(z, y), y);
    lemma_small_mod(0, fields::fr_modulus() as nat);
}

/// Both opening quotients of a proof are exact: times `X - zeta` and
/// `X - omega zeta` they give back what was divided.
pub proof fn law_openings_are_exact(key: Key, inp: Inputs, x: int)
    requires
        key.circuit.wf(),
        inp.device.combination is None,
        key.witness(inp).z.len() > 0,
    ensures
        ({
            let zeta = key.round3(inp).zeta;
            let y = fields::fmul(zeta, key.circuit.w);
            &&& polynomial::feval(key.folded(inp), x) == ((x - zeta) * polynomial::peval(
                linearization::divided(key.folded(inp), zeta),
                x,
            )) % fields::fr_modulus()
            &&& polynomial::feval(key.z_less_opening(inp), x) == ((x - y) * polynomial::peval(
                linearization::divided(key.z_less_opening(inp), y),
                x,
            )) % fields::fr_modulus()
        }),
{
    let zeta = key.round3(inp).zeta;
    let y = fields::fmul(zeta, key.circuit.w);
    law_batch_opening(key, inp);
    law_shifted_opening(key, inp);
    polynomial::law_root_divides(
        key.folded(inp),
        linearization::divided(key.folded(inp), zeta),
        zeta,
        x,
    );
    assert(key.z_less_opening(inp).len() > 0) by {
        reveal(Key::z_less_opening);
    }
    polynomial::law_root_divides(
        key.z_less_opening(inp),
        linearization::divided(key.z_less_opening(inp), y),
        y,
        x,
    );
}

/// Where the gates hold and the permutation is satisfied, the value of the linearised
/// polynomial that a proof claims is the one that a verifier computes from the other
/// claimed values and the public inputs, whatever the blinding is. It takes that zeta
/// is no root of unity of the domain.
pub proof fn law_verifier_equation(key: Key, inp: Inputs)
    requires
        key.circuit.wf(),
        key.circuit.n() >= 6,
        key.circuit.shift != 0,
        key.circuit.w == fields::fpow(key.circuit.w4, 4),
        completeness::well_sized(key, inp),
        key.permutation(inp).invertible(),
        key.permutation(inp).satisfied(),
        completeness::gates_hold(key, inp),
        key.circuit.zh(key.round3(inp).zeta) != 0,
    ensures
        ({
            let c = key.circuit;
            let zeta = key.round3(inp).zeta;
            key.claimed(inp)[0] == linearization::verifier_value(
                c,
                key.challenges(inp),
                zeta,
                linearization::lagrange_sum(c, key.pi_rows(inp), zeta, c.n()),
                key.round4(inp).openings,
            )
        }),
{
    fields::lemma_fr_modulus();
    let c = key.circuit;
    let wit = key.witness(inp);
    let ch = key.challenges(inp);
    let zeta = key.round3(inp).zeta;
    let h = key.round3(inp).h;
    let m = quotient::shorter(wit.bsb22.len(), c.qcp.len());
    completeness::lemma_witness_sized(key, inp);
    completeness::law_rows_hold(key, inp);
    assert(0 <= zeta < fields::fr_modulus() && h == c.quotient(wit, ch)) by {
        reveal(Key::round3);
        let t = key.round2(inp).transcript.bind(crate::encode_point(key.round3(inp).h0)).bind(
            crate::encode_point(key.round3(inp).h1),
        ).bind(crate::encode_point(key.round3(inp).h2));
        lemma_mod_bound(crate::bytes::be_value(t.next()), fields::fr_modulus());
    }
    law_const_lin(c, wit, ch, zeta);
    law_lagrange_interpolation(c, key.pi_rows(inp), zeta);
    assert(wit.pi == domain::idft(key.pi_rows(inp), c.w)) by {
        reveal(Key::witness);
    }
    assert(key.claimed(inp)[0] == key.round4(inp).const_lin) by {
        reveal(Key::claimed);
    }
    reveal(Key::round4);
    reveal(Key::lin_scalars);
    reveal(Key::lin_polys);
}

/// The product of two sequences is the sum over all places of the products there.
pub proof fn law_dot(a: Seq<int>, b: Seq<int>)
    ensures
        linearization::dot(a, b) == sums::sum(|i: int| a[i] * b[i], a.len())
            % fields::fr_modulus(),
{
    lemma_dot(a, b);
    lemma_dot_sum_is_sum(a, b, a.len());
    lemma_small_mod(linearization::dot(a, b) as nat, fields::fr_modulus() as nat);
}

proof fn lemma_dot_sum_is_sum(a: Seq<int>, b: Seq<int>, n: nat)
    ensures
        dot_sum(a, b, n) == sums::sum(|i: int| a[i] * b[i], n),
    decreases n,
{
    if n > 0 {
        lemma_dot_sum_is_sum(a, b, (n - 1) as nat);
    }
}

/// A fold less the fold of the claimed values takes, at every point, the sum over all
/// polynomials of a power of the challenge times the value less the claimed value.
pub proof fn law_fold_less_evals(polys: Seq<Seq<int>>, evals: Seq<int>, gamma: int, x: int)
    requires
        polys.len() == evals.len(),
        polynomial::longest(polys) > 0,
    ensures
        polynomial::feval(linearization::fold_less_evals(polys, evals, gamma), x) == sums::sum(
            |j: int| fields::fpow(gamma, j as nat) * (polynomial::feval(polys[j], x) - evals[j]),
            polys.len(),
        ) % fields::fr_modulus(),
{
    fields::lemma_fr_modulus();
    let p = fields::fr_modulus();
    let n = polys.len();
    let g = linearization::field_powers(gamma, n);
    let v = quotient::values_at(polys, x);
    let c = linearization::combination(polys, g);
    lemma_combination_at(polys, g, x);
    law_less_constant(c, linearization::dot(g, evals), x);
    law_dot(g, evals);
    lemma_dot_sum_is_sum(g, v, n);
    let f = |i: int| g[i] * v[i];
    let e = |i: int| g[i] * evals[i];
    let ne = |i: int| (-1) * e(i);
    let h = |j: int| fields::fpow(gamma, j as nat) * (polynomial::feval(polys[j], x) - evals[j]);
    let fe = |i: int| f(i) + ne(i);
    assert forall|i: int| 0 <= i < n implies #[trigger] h(i) == fe(i) by {
        let (a, b, d) = (g[i], v[i], evals[i]);
        assert(a * (b - d) == a * b + (-1) * (a * d)) by (nonlinear_arith);
    }
    sums::lemma_sum_eq(h, fe, n);
    sums::lemma_sum_add(f, ne, n);
    sums::lemma_sum_scale(e, -1, n);
    modular::lemma_mod_idem(sums::sum(f, n), p);
    modular::lemma_mod_idem(sums::sum(e, n), p);
    modular::lemma_sub_cong(
        sums::sum(f, n) % p,
        sums::sum(e, n) % p,
        sums::sum(f, n),
        sums::sum(e, n),
        p,
    );
}

} // verus!
