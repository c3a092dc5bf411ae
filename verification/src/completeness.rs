//! Why a proof of rows that hold is accepted.
//!
//! Where all rows hold, the constraints are a multiple of the vanishing polynomial, so
//! that the quotient is a polynomial with room in three parts.

use crate::blinding;
use crate::circuit;
use crate::circuit::Circuit;
use crate::dft;
use crate::domain;
use crate::fields;
use crate::g1::Point;
use crate::grand_product;
use crate::grand_product::Permutation;
use crate::hash_to_field;
use crate::modular;
use crate::poly_ring;
use crate::polynomial;
use crate::quotient;
use crate::quotient::{Challenges, Evals, Witness};
use crate::rounds;
use crate::rounds::{Inputs, Key};
use vstd::arithmetic::div_mod::*;
use vstd::arithmetic::mul::*;
use vstd::arithmetic::power::*;
use vstd::arithmetic::power2::*;
use vstd::prelude::*;

verus! {

/// A value, a multiple of beta, and gamma, as polynomials.
pub open spec fn term_poly(v: Seq<int>, t: Seq<int>, gamma: int) -> Seq<int> {
    poly_ring::padd(poly_ring::padd(v, t), poly_ring::pconst(gamma))
}

/// The polynomial behind `id_product`.
pub open spec fn id_poly(
    l: Seq<int>,
    r: Seq<int>,
    o: Seq<int>,
    beta: int,
    gamma: int,
    k1: int,
) -> Seq<int> {
    let bx = poly_ring::pmul(poly_ring::pconst(beta), poly_ring::px());
    poly_ring::pmul(
        poly_ring::pmul(
            term_poly(l, bx, gamma),
            term_poly(r, poly_ring::pmul(bx, poly_ring::pconst(k1)), gamma),
        ),
        term_poly(
            o,
            poly_ring::pmul(bx, poly_ring::pconst(fields::fmul(k1, k1))),
            gamma,
        ),
    )
}

/// The polynomial behind `sigma_product`.
pub open spec fn sigma_poly(
    l: Seq<int>,
    r: Seq<int>,
    o: Seq<int>,
    s1: Seq<int>,
    s2: Seq<int>,
    s3: Seq<int>,
    beta: int,
    gamma: int,
) -> Seq<int> {
    let b = poly_ring::pconst(beta);
    poly_ring::pmul(
        poly_ring::pmul(
            term_poly(l, poly_ring::pmul(b, s1), gamma),
            term_poly(r, poly_ring::pmul(b, s2), gamma),
        ),
        term_poly(o, poly_ring::pmul(b, s3), gamma),
    )
}

/// The grand product one row further: `Z(w X)`.
pub open spec fn shifted_poly(z: Seq<int>, w: int) -> Seq<int> {
    Seq::new(z.len(), |i: int| z[i] * pow(w, i as nat))
}

/// The polynomial behind `fused`.
pub open spec fn fused_poly(
    pi: Seq<int>,
    qk: Seq<int>,
    qcp: Seq<Seq<int>>,
    bsb22: Seq<Seq<int>>,
    k: nat,
) -> Seq<int>
    decreases k,
{
    if k == 0 {
        poly_ring::padd(pi, qk)
    } else {
        poly_ring::padd(
            fused_poly(pi, qk, qcp, bsb22, (k - 1) as nat),
            poly_ring::pmul(qcp[k - 1], bsb22[k - 1]),
        )
    }
}

impl Circuit {
    /// The first Lagrange polynomial.
    pub open spec fn l1_poly(self) -> Seq<int> {
        Seq::new(self.n(), |i: int| fields::finv(self.n() as int))
    }

    /// The polynomial of the gates.
    pub open spec fn gate_poly(self, wit: Witness) -> Seq<int> {
        poly_ring::padd(
            poly_ring::padd(
                poly_ring::padd(
                    poly_ring::padd(
                        poly_ring::pmul(self.ql, wit.l),
                        poly_ring::pmul(self.qr, wit.r),
                    ),
                    poly_ring::pmul(poly_ring::pmul(self.qm, wit.l), wit.r),
                ),
                poly_ring::pmul(self.qo, wit.o),
            ),
            fused_poly(
                wit.pi,
                self.qk,
                self.qcp,
                wit.bsb22,
                quotient::shorter(self.qcp.len(), wit.bsb22.len()),
            ),
        )
    }

    /// The polynomial of the permutation.
    pub open spec fn perm_poly(self, wit: Witness, ch: Challenges) -> Seq<int> {
        poly_ring::pmul(
            poly_ring::pconst(ch.alpha),
            poly_ring::psub(
                poly_ring::pmul(
                    shifted_poly(wit.z, self.w),
                    sigma_poly(
                        wit.l,
                        wit.r,
                        wit.o,
                        self.s1,
                        self.s2,
                        self.s3,
                        ch.beta,
                        ch.gamma,
                    ),
                ),
                poly_ring::pmul(
                    wit.z,
                    id_poly(wit.l, wit.r, wit.o, ch.beta, ch.gamma, self.shift),
                ),
            ),
        )
    }

    /// The polynomial of the start of the grand product.
    pub open spec fn boundary_poly(self, wit: Witness, ch: Challenges) -> Seq<int> {
        poly_ring::pmul(
            poly_ring::pmul(
                poly_ring::pconst(fields::fmul(ch.alpha, ch.alpha)),
                poly_ring::psub(wit.z, poly_ring::pconst(1)),
            ),
            self.l1_poly(),
        )
    }

    /// The polynomial of all constraints.
    pub open spec fn numerator_poly(self, wit: Witness, ch: Challenges) -> Seq<int> {
        poly_ring::padd(
            poly_ring::padd(self.gate_poly(wit), self.perm_poly(wit, ch)),
            self.boundary_poly(wit, ch),
        )
    }
}

/// The challenges are elements of the field.
pub open spec fn in_range(ch: Challenges) -> bool {
    &&& 0 <= ch.alpha < fields::fr_modulus()
    &&& 0 <= ch.beta < fields::fr_modulus()
    &&& 0 <= ch.gamma < fields::fr_modulus()
}

proof fn lemma_term_poly(v: Seq<int>, t: Seq<int>, gamma: int, x: int)
    requires
        0 <= gamma < fields::fr_modulus(),
    ensures
        polynomial::feval(term_poly(v, t, gamma), x) == grand_product::term(
            polynomial::feval(v, x),
            polynomial::feval(t, x),
            gamma,
        ),
{
    fields::lemma_fr_modulus();
    lemma_small_mod(gamma as nat, fields::fr_modulus() as nat);
    poly_ring::law_polynomial_ring(v, t, gamma, x);
    poly_ring::law_polynomial_ring(poly_ring::padd(v, t), poly_ring::pconst(gamma), gamma, x);
}

proof fn lemma_id_poly(
    l: Seq<int>,
    r: Seq<int>,
    o: Seq<int>,
    beta: int,
    gamma: int,
    k1: int,
    x: int,
)
    requires
        0 <= x < fields::fr_modulus(),
        0 <= beta < fields::fr_modulus(),
        0 <= gamma < fields::fr_modulus(),
        0 <= k1 < fields::fr_modulus(),
    ensures
        polynomial::feval(id_poly(l, r, o, beta, gamma, k1), x) == grand_product::id_product(
            polynomial::feval(l, x),
            polynomial::feval(r, x),
            polynomial::feval(o, x),
            x,
            beta,
            gamma,
            k1,
        ),
{
    fields::lemma_fr_modulus();
    let p = fields::fr_modulus();
    let k2 = fields::fmul(k1, k1);
    fields::lemma_frange(k1, k1, 0);
    lemma_small_mod(x as nat, p as nat);
    lemma_small_mod(beta as nat, p as nat);
    lemma_small_mod(k1 as nat, p as nat);
    lemma_small_mod(k2 as nat, p as nat);
    let b = poly_ring::pconst(beta);
    let bx = poly_ring::pmul(b, poly_ring::px());
    poly_ring::law_polynomial_ring(b, poly_ring::px(), beta, x);
    poly_ring::law_polynomial_ring(bx, poly_ring::pconst(k1), k1, x);
    poly_ring::law_polynomial_ring(bx, poly_ring::pconst(k2), k2, x);
    let t1 = term_poly(l, bx, gamma);
    let t2 = term_poly(r, poly_ring::pmul(bx, poly_ring::pconst(k1)), gamma);
    let t3 = term_poly(o, poly_ring::pmul(bx, poly_ring::pconst(k2)), gamma);
    lemma_term_poly(l, bx, gamma, x);
    lemma_term_poly(r, poly_ring::pmul(bx, poly_ring::pconst(k1)), gamma, x);
    lemma_term_poly(o, poly_ring::pmul(bx, poly_ring::pconst(k2)), gamma, x);
    poly_ring::law_polynomial_ring(t1, t2, 0, x);
    poly_ring::law_polynomial_ring(poly_ring::pmul(t1, t2), t3, 0, x);
}

proof fn lemma_sigma_poly(
    l: Seq<int>,
    r: Seq<int>,
    o: Seq<int>,
    s1: Seq<int>,
    s2: Seq<int>,
    s3: Seq<int>,
    beta: int,
    gamma: int,
    x: int,
)
    requires
        0 <= beta < fields::fr_modulus(),
        0 <= gamma < fields::fr_modulus(),
    ensures
        polynomial::feval(sigma_poly(l, r, o, s1, s2, s3, beta, gamma), x)
            == grand_product::sigma_product(
            polynomial::feval(l, x),
            polynomial::feval(r, x),
            polynomial::feval(o, x),
            polynomial::feval(s1, x),
            polynomial::feval(s2, x),
            polynomial::feval(s3, x),
            beta,
            gamma,
        ),
{
    fields::lemma_fr_modulus();
    let p = fields::fr_modulus();
    lemma_small_mod(beta as nat, p as nat);
    let b = poly_ring::pconst(beta);
    poly_ring::law_polynomial_ring(b, s1, beta, x);
    poly_ring::law_polynomial_ring(b, s2, beta, x);
    poly_ring::law_polynomial_ring(b, s3, beta, x);
    let t1 = term_poly(l, poly_ring::pmul(b, s1), gamma);
    let t2 = term_poly(r, poly_ring::pmul(b, s2), gamma);
    let t3 = term_poly(o, poly_ring::pmul(b, s3), gamma);
    lemma_term_poly(l, poly_ring::pmul(b, s1), gamma, x);
    lemma_term_poly(r, poly_ring::pmul(b, s2), gamma, x);
    lemma_term_poly(o, poly_ring::pmul(b, s3), gamma, x);
    poly_ring::law_polynomial_ring(t1, t2, 0, x);
    poly_ring::law_polynomial_ring(poly_ring::pmul(t1, t2), t3, 0, x);
}

proof fn lemma_shifted_poly(z: Seq<int>, w: int, x: int)
    ensures
        polynomial::feval(shifted_poly(z, w), x) == polynomial::feval(z, fields::fmul(w, x)),
{
    fields::lemma_fr_modulus();
    let p = fields::fr_modulus();
    domain::lemma_peval_scaled(z, shifted_poly(z, w), w, x);
    modular::lemma_mod_idem(w * x, p);
    polynomial::lemma_peval_cong(z, z, w * x, fields::fmul(w, x), p);
}

proof fn lemma_fused_poly(
    pi: Seq<int>,
    qk: Seq<int>,
    qcp: Seq<Seq<int>>,
    bsb22: Seq<Seq<int>>,
    k: nat,
    x: int,
)
    requires
        k <= qcp.len(),
        k <= bsb22.len(),
    ensures
        polynomial::feval(fused_poly(pi, qk, qcp, bsb22, k), x) == quotient::fused(
            polynomial::feval(pi, x),
            polynomial::feval(qk, x),
            quotient::values_at(qcp, x),
            quotient::values_at(bsb22, x),
            k,
        ),
    decreases k,
{
    if k == 0 {
        poly_ring::law_polynomial_ring(pi, qk, 0, x);
    } else {
        let j = (k - 1) as nat;
        lemma_fused_poly(pi, qk, qcp, bsb22, j, x);
        poly_ring::law_polynomial_ring(qcp[k - 1], bsb22[k - 1], 0, x);
        poly_ring::law_polynomial_ring(
            fused_poly(pi, qk, qcp, bsb22, j),
            poly_ring::pmul(qcp[k - 1], bsb22[k - 1]),
            0,
            x,
        );
    }
}

proof fn lemma_gate_poly(c: Circuit, wit: Witness, x: int, y: int)
    ensures
        polynomial::feval(c.gate_poly(wit), x) == c.evals_at(wit, x, y).gate(),
{
    let k = quotient::shorter(c.qcp.len(), wit.bsb22.len());
    let f = fused_poly(wit.pi, c.qk, c.qcp, wit.bsb22, k);
    lemma_fused_poly(wit.pi, c.qk, c.qcp, wit.bsb22, k, x);
    let a = poly_ring::pmul(c.ql, wit.l);
    let b = poly_ring::pmul(c.qr, wit.r);
    let m = poly_ring::pmul(c.qm, wit.l);
    let d = poly_ring::pmul(m, wit.r);
    let e = poly_ring::pmul(c.qo, wit.o);
    poly_ring::law_polynomial_ring(c.ql, wit.l, 0, x);
    poly_ring::law_polynomial_ring(c.qr, wit.r, 0, x);
    poly_ring::law_polynomial_ring(c.qm, wit.l, 0, x);
    poly_ring::law_polynomial_ring(m, wit.r, 0, x);
    poly_ring::law_polynomial_ring(c.qo, wit.o, 0, x);
    let s1 = poly_ring::padd(a, b);
    let s2 = poly_ring::padd(s1, d);
    let s3 = poly_ring::padd(s2, e);
    poly_ring::law_polynomial_ring(a, b, 0, x);
    poly_ring::law_polynomial_ring(s1, d, 0, x);
    poly_ring::law_polynomial_ring(s2, e, 0, x);
    poly_ring::law_polynomial_ring(s3, f, 0, x);
}

proof fn lemma_perm_poly(c: Circuit, wit: Witness, ch: Challenges, x: int)
    requires
        0 <= x < fields::fr_modulus(),
        0 <= c.shift < fields::fr_modulus(),
        in_range(ch),
    ensures
        polynomial::feval(c.perm_poly(wit, ch), x) == c.evals_at(
            wit,
            x,
            fields::fmul(c.w, x),
        ).perm(x, ch, c.shift),
{
    fields::lemma_fr_modulus();
    let p = fields::fr_modulus();
    lemma_small_mod(ch.alpha as nat, p as nat);
    let zs = shifted_poly(wit.z, c.w);
    let sg = sigma_poly(wit.l, wit.r, wit.o, c.s1, c.s2, c.s3, ch.beta, ch.gamma);
    let id = id_poly(wit.l, wit.r, wit.o, ch.beta, ch.gamma, c.shift);
    lemma_shifted_poly(wit.z, c.w, x);
    lemma_sigma_poly(wit.l, wit.r, wit.o, c.s1, c.s2, c.s3, ch.beta, ch.gamma, x);
    lemma_id_poly(wit.l, wit.r, wit.o, ch.beta, ch.gamma, c.shift, x);
    let a = poly_ring::pmul(zs, sg);
    let b = poly_ring::pmul(wit.z, id);
    poly_ring::law_polynomial_ring(zs, sg, 0, x);
    poly_ring::law_polynomial_ring(wit.z, id, 0, x);
    poly_ring::law_polynomial_ring(a, b, 0, x);
    poly_ring::law_polynomial_ring(
        poly_ring::pconst(ch.alpha),
        poly_ring::psub(a, b),
        ch.alpha,
        x,
    );
}

proof fn lemma_boundary_poly(c: Circuit, wit: Witness, ch: Challenges, x: int, y: int)
    ensures
        polynomial::feval(c.boundary_poly(wit, ch), x) == c.evals_at(wit, x, y).boundary(
            polynomial::feval(c.l1_poly(), x),
            ch,
        ),
{
    fields::lemma_fr_modulus();
    let p = fields::fr_modulus();
    let a2 = fields::fmul(ch.alpha, ch.alpha);
    fields::lemma_frange(ch.alpha, ch.alpha, 0);
    lemma_small_mod(a2 as nat, p as nat);
    lemma_small_mod(1, p as nat);
    let zm = poly_ring::psub(wit.z, poly_ring::pconst(1));
    poly_ring::law_polynomial_ring(wit.z, poly_ring::pconst(1), 1, x);
    poly_ring::law_polynomial_ring(poly_ring::pconst(a2), zm, a2, x);
    poly_ring::law_polynomial_ring(
        poly_ring::pmul(poly_ring::pconst(a2), zm),
        c.l1_poly(),
        0,
        x,
    );
}

/// The polynomial of all constraints takes their value at every point, with the first
/// Lagrange polynomial in its place.
proof fn lemma_numerator_poly(c: Circuit, wit: Witness, ch: Challenges, x: int)
    requires
        0 <= x < fields::fr_modulus(),
        0 <= c.shift < fields::fr_modulus(),
        in_range(ch),
    ensures
        polynomial::feval(c.numerator_poly(wit, ch), x) == c.evals_at(
            wit,
            x,
            fields::fmul(c.w, x),
        ).numerator(x, polynomial::feval(c.l1_poly(), x), ch, c.shift),
{
    let y = fields::fmul(c.w, x);
    lemma_gate_poly(c, wit, x, y);
    lemma_perm_poly(c, wit, ch, x);
    lemma_boundary_poly(c, wit, ch, x, y);
    let g = c.gate_poly(wit);
    let q = c.perm_poly(wit, ch);
    let b = c.boundary_poly(wit, ch);
    poly_ring::law_polynomial_ring(g, q, 0, x);
    poly_ring::law_polynomial_ring(poly_ring::padd(g, q), b, 0, x);
}

// ---------------------------------------------------------------------------
// Lengths
// ---------------------------------------------------------------------------

/// The polynomials of a proof have no more than `a` coefficients, the grand product no more
/// than `b`, and the public inputs no more than there are rows.
pub open spec fn sized_by(wit: Witness, n: nat, a: nat, b: nat) -> bool {
    &&& 1 <= wit.l.len() <= a
    &&& 1 <= wit.r.len() <= a
    &&& 1 <= wit.o.len() <= a
    &&& 1 <= wit.z.len() <= b
    &&& wit.pi.len() <= n
    &&& forall|j: int| 0 <= j < wit.bsb22.len() ==> 1 <= (#[trigger] wit.bsb22[j]).len() <= a
}

/// The polynomials of a proof are of the sizes that blinding can give them.
pub open spec fn sized(wit: Witness, n: nat) -> bool {
    sized_by(wit, n, n + 2, n + 3)
}

proof fn lemma_product_len(a: Seq<int>, b: Seq<int>, k: nat)
    requires
        a.len() > 0,
        b.len() > 0,
        a.len() + b.len() <= k + 1,
    ensures
        0 < poly_ring::pmul(a, b).len() <= k,
        poly_ring::pmul(a, b).len() == a.len() + b.len() - 1,
{
    poly_ring::lemma_pmul_len(a, b);
}

proof fn lemma_fused_len(
    pi: Seq<int>,
    qk: Seq<int>,
    qcp: Seq<Seq<int>>,
    bsb22: Seq<Seq<int>>,
    k: nat,
    n: nat,
    a: nat,
)
    requires
        1 <= n <= a,
        pi.len() <= n,
        qk.len() == n,
        k <= qcp.len(),
        k <= bsb22.len(),
        forall|j: int| 0 <= j < qcp.len() ==> (#[trigger] qcp[j]).len() == n,
        forall|j: int| 0 <= j < bsb22.len() ==> 1 <= (#[trigger] bsb22[j]).len() <= a,
    ensures
        fused_poly(pi, qk, qcp, bsb22, k).len() <= n + a - 1,
    decreases k,
{
    if k > 0 {
        lemma_fused_len(pi, qk, qcp, bsb22, (k - 1) as nat, n, a);
        assert(qcp[k - 1].len() == n);
        assert(1 <= bsb22[k - 1].len() <= a);
        lemma_product_len(qcp[k - 1], bsb22[k - 1], (n + a - 1) as nat);
    }
}

proof fn lemma_triple_len(t1: Seq<int>, t2: Seq<int>, t3: Seq<int>, a: nat)
    requires
        1 <= t1.len() <= a,
        1 <= t2.len() <= a,
        1 <= t3.len() <= a,
    ensures
        0 < poly_ring::pmul(poly_ring::pmul(t1, t2), t3).len() <= 3 * a - 2,
{
    lemma_product_len(t1, t2, (2 * a - 1) as nat);
    lemma_product_len(poly_ring::pmul(t1, t2), t3, (3 * a - 2) as nat);
}

/// How many coefficients the polynomial of all constraints has at most.
proof fn lemma_numerator_len(c: Circuit, wit: Witness, ch: Challenges, a: nat, b: nat)
    requires
        c.wf(),
        sized_by(wit, c.n(), a, b),
        c.n() <= a,
        2 <= a,
    ensures
        c.numerator_poly(wit, ch).len() <= 3 * a + b - 3,
{
    let n = c.n();
    let top = (3 * a + b - 3) as nat;
    lemma_pow2_pos(c.bits);
    let bt = poly_ring::pconst(ch.beta);
    // The gates.
    assert forall|j: int| 0 <= j < c.qcp.len() implies (#[trigger] c.qcp[j]).len() == n by {
        assert(circuit::is_poly(c.qcp[j], n));
    }
    lemma_fused_len(
        wit.pi,
        c.qk,
        c.qcp,
        wit.bsb22,
        quotient::shorter(c.qcp.len(), wit.bsb22.len()),
        n,
        a,
    );
    lemma_product_len(c.ql, wit.l, (n + a - 1) as nat);
    lemma_product_len(c.qr, wit.r, (n + a - 1) as nat);
    lemma_product_len(c.qm, wit.l, (n + a - 1) as nat);
    lemma_product_len(poly_ring::pmul(c.qm, wit.l), wit.r, (n + 2 * a - 2) as nat);
    lemma_product_len(c.qo, wit.o, (n + a - 1) as nat);
    assert(c.gate_poly(wit).len() <= top);
    // The permutation.
    lemma_product_len(bt, c.s1, n);
    lemma_product_len(bt, c.s2, n);
    lemma_product_len(bt, c.s3, n);
    lemma_triple_len(
        term_poly(wit.l, poly_ring::pmul(bt, c.s1), ch.gamma),
        term_poly(wit.r, poly_ring::pmul(bt, c.s2), ch.gamma),
        term_poly(wit.o, poly_ring::pmul(bt, c.s3), ch.gamma),
        a,
    );
    let bx = poly_ring::pmul(bt, poly_ring::px());
    let k1 = poly_ring::pconst(c.shift);
    let k2 = poly_ring::pconst(fields::fmul(c.shift, c.shift));
    lemma_product_len(bt, poly_ring::px(), 2);
    lemma_product_len(bx, k1, 2);
    lemma_product_len(bx, k2, 2);
    lemma_triple_len(
        term_poly(wit.l, bx, ch.gamma),
        term_poly(wit.r, poly_ring::pmul(bx, k1), ch.gamma),
        term_poly(wit.o, poly_ring::pmul(bx, k2), ch.gamma),
        a,
    );
    let sg = sigma_poly(wit.l, wit.r, wit.o, c.s1, c.s2, c.s3, ch.beta, ch.gamma);
    let id = id_poly(wit.l, wit.r, wit.o, ch.beta, ch.gamma, c.shift);
    let zs = shifted_poly(wit.z, c.w);
    lemma_product_len(zs, sg, top);
    lemma_product_len(wit.z, id, top);
    let d = poly_ring::psub(poly_ring::pmul(zs, sg), poly_ring::pmul(wit.z, id));
    lemma_product_len(poly_ring::pconst(ch.alpha), d, top);
    // The start of the grand product.
    let zm = poly_ring::psub(wit.z, poly_ring::pconst(1));
    let a2 = poly_ring::pconst(fields::fmul(ch.alpha, ch.alpha));
    lemma_product_len(a2, zm, b);
    lemma_product_len(poly_ring::pmul(a2, zm), c.l1_poly(), (b + n - 1) as nat);
}

// ---------------------------------------------------------------------------
// The first Lagrange polynomial
// ---------------------------------------------------------------------------

/// A polynomial whose coefficients are all the same, times `X - 1`.
pub proof fn lemma_constant_poly(k: int, n: nat, x: int)
    ensures
        polynomial::peval(Seq::new(n, |i: int| k), x) * (x - 1) == k * (pow(x, n) - 1),
        x == 1 ==> polynomial::peval(Seq::new(n, |i: int| k), x) == n * k,
    decreases n,
{
    let c = Seq::new(n, |i: int| k);
    if n == 0 {
        lemma_pow0(x);
        assert(0 * (x - 1) == 0);
        assert(k * 0 == 0);
        assert(0 * k == 0);
    } else {
        let m = (n - 1) as nat;
        let d = Seq::new(m, |i: int| k);
        lemma_constant_poly(k, m, x);
        assert(c.skip(1) =~= d);
        let v = polynomial::peval(d, x);
        let t = pow(x, m);
        lemma_pow_adds(x, 1, m);
        lemma_pow1(x);
        assert((k + x * v) * (x - 1) == k * (x * t - 1)) by (nonlinear_arith)
            requires
                v * (x - 1) == k * (t - 1),
        ;
        if x == 1 {
            assert(k + x * v == n * k) by (nonlinear_arith)
                requires
                    v == m * k,
                    x == 1,
                    m == n - 1,
            ;
        }
    }
}

/// The first Lagrange polynomial is `(x^n - 1) / ((x - 1) n)` at every point but one,
/// where it is one.
pub proof fn law_first_lagrange(c: Circuit, x: int)
    requires
        c.geometry(),
        0 <= x < fields::fr_modulus(),
    ensures
        polynomial::feval(c.l1_poly(), x) == c.l1_or_one(x),
{
    fields::lemma_fr_modulus();
    let p = fields::fr_modulus();
    let n = c.n();
    circuit::lemma_n_small(c);
    fields::law_fr_inverse(n as int);
    let k = fields::finv(n as int);
    let v = polynomial::peval(c.l1_poly(), x);
    let s = v % p;
    lemma_constant_poly(k, n, x);
    assert(c.l1_poly() =~= Seq::new(n, |i: int| k));
    if x == 1 {
        assert(s == fields::fmul(n as int, k));
    } else {
        fields::lemma_frange(x, 1, n);
        let xm = fields::fsub(x, 1);
        assert(xm != 0) by {
            if x > 1 {
                lemma_small_mod((x - 1) as nat, p as nat);
            } else {
                modular::lemma_mod_shift(p - 1, -1, 1, p);
                lemma_small_mod((p - 1) as nat, p as nat);
            }
        }
        fields::law_fr_no_zero_divisors(xm, n as int);
        let d = fields::fmul(xm, n as int);
        fields::lemma_frange(xm, n as int, 0);
        fields::law_fr_inverse(d);
        // s d = v (x - 1) n = k n (x^n - 1) = x^n - 1
        let t = pow(x, n);
        modular::lemma_mod_idem(v, p);
        modular::lemma_mod_idem(x - 1, p);
        modular::lemma_mod_idem(xm * n, p);
        modular::lemma_mul_cong(xm, n as int, x - 1, n as int, p);
        modular::lemma_mul_cong(s, d, v, (x - 1) * n, p);
        assert(v * ((x - 1) * n) == (n * k) * (t - 1)) by (nonlinear_arith)
            requires
                v * (x - 1) == k * (t - 1),
        ;
        lemma_small_mod(1, p as nat);
        modular::lemma_mul_cong(n * k, t - 1, 1, t - 1, p);
        modular::lemma_mod_idem(t, p);
        modular::lemma_sub_cong(t % p, 1, t, 1, p);
        assert(fields::fmul(s, d) == c.zh(x));
        fields::law_fr_ring(s, d, fields::finv(d));
        fields::law_fr_units(s, 0);
    }
}

/// On a row the first Lagrange polynomial is one on the first row and zero elsewhere.
proof fn lemma_l1_on_row(c: Circuit, i: int)
    requires
        c.geometry(),
        0 <= i < c.n(),
    ensures
        polynomial::feval(c.l1_poly(), fields::fpow(c.w, i as nat)) == l1_on_row(i),
{
    fields::lemma_fr_modulus();
    let p = fields::fr_modulus();
    let x = fields::fpow(c.w, i as nat);
    fields::lemma_frange(c.w, 0, i as nat);
    law_first_lagrange(c, x);
    if i == 0 {
        lemma_pow0(c.w);
        lemma_small_mod(1, p as nat);
    } else {
        dft::law_root_is_primitive(c.w, c.bits, i as nat);
        dft::law_vanishing_on_domain(c.w, c.bits, i as nat);
        let f = fields::finv(c.l1_divisor(x));
        fields::lemma_frange(c.l1_divisor(x), 0, 0);
        fields::law_fr_units(f, 0);
    }
}

/// The first Lagrange polynomial on a row.
pub open spec fn l1_on_row(i: int) -> int {
    if i == 0 {
        1
    } else {
        0
    }
}

// ---------------------------------------------------------------------------
// Rows
// ---------------------------------------------------------------------------

/// All constraints hold on a row.
pub open spec fn row_holds(c: Circuit, wit: Witness, ch: Challenges, i: int) -> bool {
    let x = fields::fpow(c.w, i as nat);
    let y = fields::fpow(c.w, (i + 1) as nat);
    c.evals_at(wit, x, y).numerator(x, l1_on_row(i), ch, c.shift) == 0
}

/// All constraints hold on all rows.
pub open spec fn rows_hold(c: Circuit, wit: Witness, ch: Challenges) -> bool {
    forall|i: int| 0 <= i < c.n() ==> #[trigger] row_holds(c, wit, ch, i)
}

/// The polynomial of all constraints vanishes on a row that holds.
proof fn lemma_row_vanishes(c: Circuit, wit: Witness, ch: Challenges, i: int)
    requires
        c.wf(),
        in_range(ch),
        0 <= i < c.n(),
        row_holds(c, wit, ch, i),
    ensures
        polynomial::feval(c.numerator_poly(wit, ch), pow(c.w, i as nat)) == 0,
{
    fields::lemma_fr_modulus();
    let p = fields::fr_modulus();
    let x = fields::fpow(c.w, i as nat);
    fields::lemma_frange(c.w, 0, i as nat);
    lemma_numerator_poly(c, wit, ch, x);
    lemma_l1_on_row(c, i);
    polynomial::lemma_fpow_step(c.w, i as nat);
    fields::law_fr_ring(c.w, x, 0);
    let np = c.numerator_poly(wit, ch);
    modular::lemma_mod_idem(pow(c.w, i as nat), p);
    polynomial::lemma_peval_cong(np, np, pow(c.w, i as nat), x, p);
}

/// The point of the coset one row further is `w` times the point.
proof fn lemma_next_point(c: Circuit, i: int)
    requires
        c.wf(),
        c.w == fields::fpow(c.w4, 4),
        0 <= i < c.big_n(),
    ensures
        c.point(c.next_row(i)) == fields::fmul(c.w, c.point(i)),
{
    fields::lemma_fr_modulus();
    let p = fields::fr_modulus();
    let j = c.next_row(i);
    let big = c.big_n();
    lemma_pow2_pos(c.bits);
    circuit::lemma_point(c, i);
    circuit::lemma_point(c, j);
    // w4^(i + 4) = w4^j
    let a = pow(c.w4, i as nat);
    let b = pow(c.w4, j as nat);
    assert(b % p == pow(c.w4, (i + 4) as nat) % p) by {
        if i + 4 < big {
            lemma_small_mod((i + 4) as nat, big);
        } else {
            lemma_fundamental_div_mod_converse(i + 4, big as int, 1, i + 4 - big);
            lemma_pow_adds(c.w4, big, j as nat);
            dft::law_root_order(c.w4, c.bits + 2);
            circuit::lemma_big_n(c);
            lemma_small_mod(1, p as nat);
            modular::lemma_mul_cong(pow(c.w4, big), b, 1, b, p);
        }
    }
    lemma_pow_adds(c.w4, i as nat, 4);
    let f = pow(c.w4, 4);
    modular::lemma_mod_idem(f, p);
    // shift w4^(i + 4) = w (shift w4^i)
    modular::lemma_mul_cong(c.shift, b, c.shift, a * f, p);
    modular::lemma_mul_cong(c.w, c.point(i), f, c.shift * a, p);
    assert(c.shift * (a * f) == f * (c.shift * a)) by (nonlinear_arith);
}

// ---------------------------------------------------------------------------
// The quotient
// ---------------------------------------------------------------------------

/// What a circuit and a witness have to be for the quotient to be what it is for.
pub open spec fn provable(c: Circuit, wit: Witness, ch: Challenges) -> bool {
    &&& c.wf()
    &&& c.n() >= 6
    &&& c.shift != 0
    &&& c.w == fields::fpow(c.w4, 4)
    &&& sized(wit, c.n())
    &&& in_range(ch)
}

/// A circuit and a witness for which the quotient of all constraints by the vanishing
/// polynomial has no more coefficients than the coset has points.
pub open spec fn divisible(c: Circuit, wit: Witness, ch: Challenges) -> bool {
    &&& c.wf()
    &&& c.shift != 0
    &&& c.w == fields::fpow(c.w4, 4)
    &&& in_range(ch)
    &&& exact_quotient(c, wit, ch).len() <= c.big_n()
}

/// The quotient of the polynomial of all constraints by the vanishing polynomial.
pub open spec fn exact_quotient(c: Circuit, wit: Witness, ch: Challenges) -> Seq<int> {
    poly_ring::preduce(poly_ring::vanishing_quotient(c.numerator_poly(wit, ch), c.n()))
}

/// Its value on the coset is what the prover computes there.
proof fn lemma_quotient_value(c: Circuit, wit: Witness, ch: Challenges, i: int)
    requires
        divisible(c, wit, ch),
        rows_hold(c, wit, ch),
        0 <= i < c.big_n(),
    ensures
        c.quotient_values(wit, ch)[i] == polynomial::feval(
            exact_quotient(c, wit, ch),
            c.point(i),
        ),
{
    fields::lemma_fr_modulus();
    let p = fields::fr_modulus();
    let x = c.point(i);
    let np = c.numerator_poly(wit, ch);
    let q = poly_ring::vanishing_quotient(np, c.n());
    circuit::lemma_point(c, i);
    circuit::lemma_coset_misses_domain(c, i);
    lemma_next_point(c, i);
    lemma_numerator_poly(c, wit, ch, x);
    law_first_lagrange(c, x);
    assert(x != 1) by {
        if x == 1 {
            lemma1_pow(c.n());
            lemma_small_mod(1, p as nat);
            lemma_small_mod(0, p as nat);
        }
    }
    assert forall|k: int| 0 <= k < pow2(c.bits) implies #[trigger] polynomial::feval(
        np,
        pow(c.w, k as nat),
    ) == 0 by {
        assert(row_holds(c, wit, ch, k));
        lemma_row_vanishes(c, wit, ch, k);
    }
    poly_ring::law_vanishing_divides(np, c.w, c.bits, x);
    poly_ring::lemma_preduce(q, x);
    let qv = polynomial::feval(q, x);
    let z = c.zh(x);
    modular::lemma_mod_idem(polynomial::peval(q, x), p);
    fields::lemma_frange(fields::fpow(x, c.n()), 1, 0);
    fields::law_fr_inverse(z);
    fields::law_fr_ring(qv, z, fields::finv(z));
    fields::law_fr_units(qv, 0);
}

/// With blinded wires the quotient fits the coset from six rows on, and its three parts.
pub proof fn law_blinded_quotient_fits(c: Circuit, wit: Witness, ch: Challenges)
    requires
        provable(c, wit, ch),
    ensures
        divisible(c, wit, ch),
        exact_quotient(c, wit, ch).len() <= 3 * (c.n() + 2),
{
    let n = c.n();
    lemma_numerator_len(c, wit, ch, n + 2, n + 3);
    let q = poly_ring::vanishing_quotient(c.numerator_poly(wit, ch), n);
    poly_ring::law_vanishing_division(c.numerator_poly(wit, ch), n, 0);
    poly_ring::lemma_preduce(q, 0);
}

/// Without blinding the quotient fits the coset on every domain.
pub proof fn law_plain_quotient_fits(c: Circuit, wit: Witness, ch: Challenges)
    requires
        c.wf(),
        c.shift != 0,
        c.w == fields::fpow(c.w4, 4),
        in_range(ch),
        sized_by(wit, c.n(), c.n(), c.n()),
    ensures
        divisible(c, wit, ch),
{
    let n = c.n();
    lemma_pow2_pos(c.bits);
    let a = if n == 1 {
        2
    } else {
        n
    };
    lemma_numerator_len(c, wit, ch, a, n);
    let q = poly_ring::vanishing_quotient(c.numerator_poly(wit, ch), n);
    poly_ring::law_vanishing_division(c.numerator_poly(wit, ch), n, 0);
    poly_ring::lemma_preduce(q, 0);
}

/// Where all rows hold, the quotient that the prover computes is the quotient of all
/// constraints by the vanishing polynomial.
proof fn lemma_quotient_is_exact(c: Circuit, wit: Witness, ch: Challenges)
    requires
        divisible(c, wit, ch),
        rows_hold(c, wit, ch),
    ensures
        c.quotient(wit, ch) == circuit::padded(exact_quotient(c, wit, ch), c.big_n()),
{
    let h = exact_quotient(c, wit, ch);
    let n = c.n();
    lemma_pow2_pos(c.bits);
    poly_ring::law_vanishing_division(c.numerator_poly(wit, ch), n, 0);
    assert(c.quotient_values(wit, ch) =~= c.on_coset(h)) by {
        assert forall|i: int| 0 <= i < c.big_n() implies #[trigger] c.quotient_values(wit, ch)[i]
            == c.on_coset(h)[i] by {
            lemma_quotient_value(c, wit, ch, i);
        }
    }
    circuit::lemma_on_coset(c, h);
    circuit::lemma_big_n(c);
    let d = circuit::padded(h, c.big_n());
    poly_ring::lemma_preduce(poly_ring::vanishing_quotient(c.numerator_poly(wit, ch), n), 0);
    fields::lemma_fr_modulus();
    assert(dft::in_field(d)) by {
        assert forall|i: int| 0 <= i < d.len() implies 0 <= #[trigger] d[i]
            < fields::fr_modulus() by {
            if i < h.len() {
                assert(d[i] == h[i]);
            }
        }
    }
    dft::law_coset_idft_of_dft(d, c.w4, c.shift, c.bits + 2);
}

/// Where all rows hold, the quotient times the vanishing polynomial is all
/// constraints: `h(x) (x^n - 1)` is their value at every point of the field.
pub proof fn law_quotient_divides(c: Circuit, wit: Witness, ch: Challenges, x: int)
    requires
        divisible(c, wit, ch),
        rows_hold(c, wit, ch),
        0 <= x < fields::fr_modulus(),
    ensures
        fields::fmul(polynomial::feval(c.quotient(wit, ch), x), c.zh(x)) == c.evals_at(
            wit,
            x,
            fields::fmul(c.w, x),
        ).numerator(x, c.l1_or_one(x), ch, c.shift),
{
    fields::lemma_fr_modulus();
    let np = c.numerator_poly(wit, ch);
    let q = poly_ring::vanishing_quotient(np, c.n());
    let h = exact_quotient(c, wit, ch);
    lemma_quotient_is_exact(c, wit, ch);
    circuit::lemma_padded_eval(h, c.big_n(), x);
    poly_ring::lemma_preduce(q, x);
    assert forall|k: int| 0 <= k < pow2(c.bits) implies #[trigger] polynomial::feval(
        np,
        pow(c.w, k as nat),
    ) == 0 by {
        assert(row_holds(c, wit, ch, k));
        lemma_row_vanishes(c, wit, ch, k);
    }
    poly_ring::law_vanishing_divides(np, c.w, c.bits, x);
    lemma_numerator_poly(c, wit, ch, x);
    law_first_lagrange(c, x);
}

/// Where all rows hold, the quotient has no coefficients beyond its three parts.
pub proof fn law_quotient_fits(c: Circuit, wit: Witness, ch: Challenges, i: int)
    requires
        provable(c, wit, ch),
        rows_hold(c, wit, ch),
        3 * (c.n() + 2) <= i < c.big_n(),
    ensures
        c.quotient(wit, ch).len() == c.big_n(),
        c.quotient(wit, ch)[i] == 0,
{
    law_blinded_quotient_fits(c, wit, ch);
    lemma_quotient_is_exact(c, wit, ch);
}

// ---------------------------------------------------------------------------
// Rows of a proof
// ---------------------------------------------------------------------------

/// The inputs of a proof are elements of the field, as many as the circuit asks for, and
/// nothing comes from a device.
pub open spec fn well_sized(key: Key, inp: Inputs) -> bool {
    let n = key.circuit.n();
    &&& inp.alone()
    &&& circuit::is_poly(inp.l, n)
    &&& circuit::is_poly(inp.r, n)
    &&& circuit::is_poly(inp.o, n)
    &&& dft::in_field(inp.pi)
    &&& forall|j: int| 0 <= j < inp.bsb22.len() ==> circuit::is_poly(#[trigger] inp.bsb22[j], n)
    &&& inp.blinding matches Some(b) ==> b.l.len() == 2 && b.r.len() == 2 && b.o.len() == 2
        && b.z.len() == 3
}

/// The values of the arithmetic gate on a row.
pub open spec fn row_evals(key: Key, inp: Inputs, i: int) -> Evals {
    let c = key.circuit;
    let x = fields::fpow(c.w, i as nat);
    Evals {
        l: inp.l[i],
        r: inp.r[i],
        o: inp.o[i],
        z: 0,
        zw: 0,
        ql: polynomial::feval(c.ql, x),
        qr: polynomial::feval(c.qr, x),
        qm: polynomial::feval(c.qm, x),
        qo: polynomial::feval(c.qo, x),
        fused: quotient::fused(
            key.public_value(inp, i),
            polynomial::feval(c.qk, x),
            quotient::values_at(c.qcp, x),
            Seq::new(inp.bsb22.len(), |j: int| inp.bsb22[j][i]),
            quotient::shorter(c.qcp.len(), inp.bsb22.len()),
        ),
        s1: 0,
        s2: 0,
        s3: 0,
    }
}

/// The gates hold on all rows.
pub open spec fn gates_hold(key: Key, inp: Inputs) -> bool {
    forall|i: int| 0 <= i < key.circuit.n() ==> (#[trigger] row_evals(key, inp, i)).gate() == 0
}

/// The public rows are elements of the field.
proof fn lemma_pi_rows_in_field(
    pi: Seq<int>,
    nb_pub: nat,
    commitments: Seq<Point>,
    indexes: Seq<usize>,
    n: nat,
)
    requires
        dft::in_field(pi),
    ensures
        dft::in_field(quotient::pi_rows(pi, nb_pub, commitments, indexes, n)),
        quotient::pi_rows(pi, nb_pub, commitments, indexes, n).len() == n,
        quotient::pi_rows(pi, nb_pub, commitments, indexes, n) == Seq::new(
            n,
            |i: int| quotient::public_value(pi, nb_pub, commitments, indexes, i),
        ),
    decreases commitments.len(),
{
    fields::lemma_fr_modulus();
    quotient::law_public_values(pi, nb_pub, commitments, indexes, n);
    if commitments.len() > 0 {
        lemma_pi_rows_in_field(pi, nb_pub, commitments.drop_last(), indexes, n);
        let h = hash_to_field::hashed(crate::encode_point(commitments.last()));
        assert(0 <= h < fields::fr_modulus());
    }
}

/// A polynomial that was interpolated from rows, blinded or not, takes their values.
proof fn lemma_interpolated(c: Circuit, rows: Seq<int>, bp: Option<Seq<int>>, i: int)
    requires
        c.geometry(),
        circuit::is_poly(rows, c.n()),
        bp matches Some(b) ==> b.len() <= c.n(),
        0 <= i < c.n(),
    ensures
        polynomial::feval(
            rounds::maybe_spliced(domain::idft(rows, c.w), bp),
            fields::fpow(c.w, i as nat),
        ) == rows[i],
{
    fields::lemma_fr_modulus();
    let p = fields::fr_modulus();
    let q = domain::idft(rows, c.w);
    let x = fields::fpow(c.w, i as nat);
    dft::law_dft_of_idft(rows, c.w, c.bits);
    assert(domain::dft(q, c.w)[i] == rows[i]);
    modular::lemma_mod_idem(pow(c.w, i as nat), p);
    polynomial::lemma_peval_cong(q, q, pow(c.w, i as nat), x, p);
    if let Some(b) = bp {
        dft::law_vanishing_on_domain(c.w, c.bits, i as nat);
        fields::lemma_frange(x, 0, c.n());
        fields::law_fr_units(fields::fpow(x, c.n()), 1);
        fields::law_fr_units(1, 0);
        assert(fields::fpow(x, c.n()) == 1);
        blinding::law_blinding_vanishes_on_domain(q, b, x);
    }
}

/// The polynomials of a proof take the values of its rows on the domain: the wires, the
/// grand product, the public values and the BSB22 rows, whatever the blinding is.
pub proof fn law_witness_rows(key: Key, inp: Inputs, i: int)
    requires
        key.circuit.wf(),
        key.circuit.n() >= 3,
        well_sized(key, inp),
        0 <= i < key.circuit.n(),
    ensures
        ({
            let x = fields::fpow(key.circuit.w, i as nat);
            let wit = key.witness(inp);
            &&& polynomial::feval(wit.l, x) == inp.l[i]
            &&& polynomial::feval(wit.r, x) == inp.r[i]
            &&& polynomial::feval(wit.o, x) == inp.o[i]
            &&& polynomial::feval(wit.z, x) == key.permutation(inp).products()[i]
            &&& polynomial::feval(wit.pi, x) == key.public_value(inp, i)
            &&& wit.bsb22.len() == inp.bsb22.len()
            &&& forall|j: int|
                0 <= j < inp.bsb22.len() ==> polynomial::feval(#[trigger] wit.bsb22[j], x)
                    == inp.bsb22[j][i]
        }),
{
    let c = key.circuit;
    let n = c.n();
    let p = key.permutation(inp);
    reveal(Key::witness);
    reveal(Key::permutation);
    lemma_products_in_field(p);
    lemma_pi_rows_in_field(inp.pi, key.nb_pub, inp.commitments, key.indexes, n);
    assert(key.pi_rows(inp) =~= quotient::pi_rows(
        inp.pi,
        key.nb_pub,
        inp.commitments,
        key.indexes,
        n,
    ));
    lemma_interpolated(c, inp.l, inp.bp_l(), i);
    lemma_interpolated(c, inp.r, inp.bp_r(), i);
    lemma_interpolated(c, inp.o, inp.bp_o(), i);
    lemma_interpolated(c, p.products(), inp.bp_z(), i);
    lemma_interpolated(c, key.pi_rows(inp), None, i);
    assert forall|j: int| 0 <= j < inp.bsb22.len() implies polynomial::feval(
        #[trigger] key.witness(inp).bsb22[j],
        fields::fpow(c.w, i as nat),
    ) == inp.bsb22[j][i] by {
        assert(circuit::is_poly(inp.bsb22[j], n));
        lemma_interpolated(c, inp.bsb22[j], None, i);
    }
}

/// The point behind the last row is the first one.
proof fn lemma_wrap(c: Circuit, i: int)
    requires
        c.geometry(),
        0 <= i < c.n(),
    ensures
        fields::fpow(c.w, (i + 1) as nat) == fields::fpow(
            c.w,
            ((i + 1) % (c.n() as int)) as nat,
        ),
{
    fields::lemma_fr_modulus();
    if i + 1 == c.n() {
        dft::law_root_order(c.w, c.bits);
        lemma_pow0(c.w);
        lemma_small_mod(1, fields::fr_modulus() as nat);
        lemma_mod_self_0(c.n() as int);
    } else {
        lemma_small_mod((i + 1) as nat, c.n());
    }
}

/// The step of the grand product from a row to the next one, around the end too.
proof fn lemma_product_step(p: Permutation, n: nat, i: int)
    requires
        n > 0,
        p.l.len() == n,
        p.invertible(),
        p.satisfied(),
        0 <= i < n,
    ensures
        fields::fmul(p.products()[(i + 1) % (n as int)], p.denominator(i)) == fields::fmul(
            p.products()[i],
            p.numerator(i),
        ),
        p.products()[0] == 1,
{
    grand_product::law_grand_product_recurrence(p, i);
    if i + 1 == n {
        lemma_mod_self_0(n as int);
        let d = p.denominator(i);
        fields::lemma_frange(
            fields::fmul(
                grand_product::term(p.l[i], fields::fmul(p.beta, p.s1[i]), p.gamma),
                grand_product::term(p.r[i], fields::fmul(p.beta, p.s2[i]), p.gamma),
            ),
            grand_product::term(p.o[i], fields::fmul(p.beta, p.s3[i]), p.gamma),
            0,
        );
        fields::law_fr_units(d, 0);
    } else {
        lemma_small_mod((i + 1) as nat, n);
    }
}

/// The products are elements of the field.
proof fn lemma_products_in_field(p: Permutation)
    ensures
        circuit::is_poly(p.products(), p.l.len()),
{
    assert forall|i: int| 0 <= i < p.products().len() implies 0 <= #[trigger] p.products()[i]
        < fields::fr_modulus() by {
        fields::lemma_fprod_range(p.ratios().take(i));
    }
}

/// All constraints hold on a row of a proof where the arithmetic gate holds on it.
proof fn lemma_proof_row(key: Key, inp: Inputs, i: int)
    requires
        key.circuit.wf(),
        key.circuit.n() >= 3,
        well_sized(key, inp),
        key.permutation(inp).invertible(),
        key.permutation(inp).satisfied(),
        0 <= i < key.circuit.n(),
        row_evals(key, inp, i).gate() == 0,
    ensures
        row_holds(key.circuit, key.witness(inp), key.challenges(inp), i),
{
    fields::lemma_fr_modulus();
    let pm = fields::fr_modulus();
    let c = key.circuit;
    let n = c.n();
    let wit = key.witness(inp);
    let ch = key.challenges(inp);
    let p = key.permutation(inp);
    let x = fields::fpow(c.w, i as nat);
    let j = (i + 1) % (n as int);
    let y = fields::fpow(c.w, (i + 1) as nat);
    reveal(Key::witness);
    reveal(Key::permutation);
    lemma_mod_bound(i + 1, n as int);
    lemma_wrap(c, i);
    lemma_products_in_field(p);
    lemma_pi_rows_in_field(inp.pi, key.nb_pub, inp.commitments, key.indexes, n);
    lemma_interpolated(c, inp.l, inp.bp_l(), i);
    lemma_interpolated(c, inp.r, inp.bp_r(), i);
    lemma_interpolated(c, inp.o, inp.bp_o(), i);
    lemma_interpolated(c, p.products(), inp.bp_z(), i);
    lemma_interpolated(c, p.products(), inp.bp_z(), j);
    assert(key.pi_rows(inp) =~= quotient::pi_rows(
        inp.pi,
        key.nb_pub,
        inp.commitments,
        key.indexes,
        n,
    ));
    lemma_interpolated(c, key.pi_rows(inp), None, i);
    let e = c.evals_at(wit, x, y);
    let g = row_evals(key, inp, i);
    // The arithmetic gate.
    let b1 = quotient::values_at(wit.bsb22, x);
    let b2 = Seq::new(inp.bsb22.len(), |k: int| inp.bsb22[k][i]);
    assert(b1 =~= b2) by {
        assert forall|k: int| 0 <= k < b1.len() implies #[trigger] b1[k] == b2[k] by {
            assert(circuit::is_poly(inp.bsb22[k], n));
            lemma_interpolated(c, inp.bsb22[k], None, i);
        }
    }
    assert(e.gate() == g.gate());
    // The permutation.
    lemma_product_step(p, n, i);
    assert(domain::dft(c.s1, c.w)[i] == polynomial::feval(c.s1, x)) by {
        modular::lemma_mod_idem(pow(c.w, i as nat), pm);
        polynomial::lemma_peval_cong(c.s1, c.s1, pow(c.w, i as nat), x, pm);
    }
    assert(domain::dft(c.s2, c.w)[i] == polynomial::feval(c.s2, x)) by {
        modular::lemma_mod_idem(pow(c.w, i as nat), pm);
        polynomial::lemma_peval_cong(c.s2, c.s2, pow(c.w, i as nat), x, pm);
    }
    assert(domain::dft(c.s3, c.w)[i] == polynomial::feval(c.s3, x)) by {
        modular::lemma_mod_idem(pow(c.w, i as nat), pm);
        polynomial::lemma_peval_cong(c.s3, c.s3, pow(c.w, i as nat), x, pm);
    }
    let den = p.denominator(i);
    let num = p.numerator(i);
    assert(e.zw == p.products()[j]);
    assert(e.z == p.products()[i]);
    lemma_small_mod(0, pm as nat);
    let d = fields::fmul(e.z, num);
    assert(fields::fsub(d, d) == 0);
    fields::lemma_frange(e.z, num, 0);
    assert(ch.alpha * 0 == 0);
    assert(e.perm(x, ch, c.shift) == 0);
    // The start.
    let a2 = fields::fmul(ch.alpha, ch.alpha);
    if i == 0 {
        assert(e.z == 1);
        assert(fields::fsub(e.z, 1) == 0);
        assert(a2 * 0 == 0);
        assert(0 * l1_on_row(0) == 0);
    } else {
        let f = fields::fmul(a2, fields::fsub(e.z, 1));
        assert(f * 0 == 0);
    }
    assert(e.boundary(l1_on_row(i), ch) == 0);
}

/// Where the gates hold and the permutation is satisfied, all constraints hold on all
/// rows, whatever the challenges and the blinding are.
pub proof fn law_rows_hold(key: Key, inp: Inputs)
    requires
        key.circuit.wf(),
        key.circuit.n() >= 3,
        well_sized(key, inp),
        key.permutation(inp).invertible(),
        key.permutation(inp).satisfied(),
        gates_hold(key, inp),
    ensures
        rows_hold(key.circuit, key.witness(inp), key.challenges(inp)),
{
    assert forall|i: int| 0 <= i < key.circuit.n() implies #[trigger] row_holds(
        key.circuit,
        key.witness(inp),
        key.challenges(inp),
        i,
    ) by {
        assert(row_evals(key, inp, i).gate() == 0);
        lemma_proof_row(key, inp, i);
    }
}

/// The polynomials of a proof are of the sizes that the quotient has room for.
pub proof fn lemma_witness_sized(key: Key, inp: Inputs)
    requires
        key.circuit.wf(),
        key.circuit.n() >= 3,
        well_sized(key, inp),
    ensures
        sized(key.witness(inp), key.circuit.n()),
        key.witness(inp).bsb22.len() == inp.bsb22.len(),
        in_range(key.challenges(inp)),
{
    reveal(Key::witness);
    reveal(Key::permutation);
    fields::lemma_fr_modulus();
    let c = key.circuit;
    let n = c.n();
    let wit = key.witness(inp);
    lemma_pi_rows_in_field(inp.pi, key.nb_pub, inp.commitments, key.indexes, n);
    assert forall|j: int| 0 <= j < wit.bsb22.len() implies 1 <= (#[trigger] wit.bsb22[j]).len()
        <= n + 2 by {
        assert(circuit::is_poly(inp.bsb22[j], n));
    }
    reveal(Key::round1);
    reveal(Key::round2);
    assert forall|d: Seq<u8>| 0 <= #[trigger] rounds::challenge_value(d)
        < fields::fr_modulus() by {
        lemma_mod_bound(crate::bytes::be_value(d), fields::fr_modulus());
    }
}

} // verus!
