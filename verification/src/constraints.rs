//! The constraints of a circuit as formulas over integers, and what the parts of a proof
//! are in terms of its rows.

use crate::acceptance;
use crate::blinding;
use crate::blinding::BlindingPolys;
use crate::circuit;
use crate::circuit::Circuit;
use crate::completeness;
use crate::dft;
use crate::domain;
use crate::fields;
use crate::fields::Fr;
use crate::g1::Point;
use crate::grand_product;
use crate::linearization;
use crate::linearization::Openings;
use crate::modular;
use crate::openings;
use crate::polynomial;
use crate::quotient;
use crate::quotient::{Challenges, Evals};
use crate::rounds::{Inputs, Key};
use crate::sums;
use crate::types::PlonkProvingData;
use crate::BN254Fr;
use vstd::arithmetic::div_mod::*;
use vstd::arithmetic::power::*;
use vstd::arithmetic::power2::*;
use vstd::prelude::*;

verus! {

/// Field operations on residues are the residues of the integer operations.
proof fn lemma_ops(a: int, x: int, b: int, y: int)
    requires
        a % fields::fr_modulus() == x % fields::fr_modulus(),
        b % fields::fr_modulus() == y % fields::fr_modulus(),
    ensures
        fields::fadd(a, b) == (x + y) % fields::fr_modulus(),
        fields::fadd(a, b) % fields::fr_modulus() == (x + y) % fields::fr_modulus(),
        fields::fsub(a, b) == (x - y) % fields::fr_modulus(),
        fields::fsub(a, b) % fields::fr_modulus() == (x - y) % fields::fr_modulus(),
        fields::fmul(a, b) == (x * y) % fields::fr_modulus(),
        fields::fmul(a, b) % fields::fr_modulus() == (x * y) % fields::fr_modulus(),
{
    fields::lemma_fr_modulus();
    let p = fields::fr_modulus();
    modular::lemma_add_cong(a, b, x, y, p);
    modular::lemma_sub_cong(a, b, x, y, p);
    modular::lemma_mul_cong(a, b, x, y, p);
    modular::lemma_mod_idem(x + y, p);
    modular::lemma_mod_idem(x - y, p);
    modular::lemma_mod_idem(x * y, p);
}

/// What an arithmetic gate adds to the wires is the public input, the constant and the sum
/// of the products of BSB22 selectors and values.
pub proof fn law_fused_sum(pi: int, qk: int, qcp: Seq<int>, bsb22: Seq<int>, k: nat)
    ensures
        quotient::fused(pi, qk, qcp, bsb22, k) == (pi + qk + sums::sum(
            |j: int| qcp[j] * bsb22[j],
            k,
        )) % fields::fr_modulus(),
        quotient::fused(pi, qk, qcp, bsb22, k) % fields::fr_modulus() == (pi + qk + sums::sum(
            |j: int| qcp[j] * bsb22[j],
            k,
        )) % fields::fr_modulus(),
    decreases k,
{
    let f = |j: int| qcp[j] * bsb22[j];
    if k == 0 {
        lemma_ops(pi, pi, qk, qk);
    } else {
        law_fused_sum(pi, qk, qcp, bsb22, (k - 1) as nat);
        let rest = quotient::fused(pi, qk, qcp, bsb22, (k - 1) as nat);
        let s = pi + qk + sums::sum(f, (k - 1) as nat);
        lemma_ops(qcp[k - 1], qcp[k - 1], bsb22[k - 1], bsb22[k - 1]);
        lemma_ops(
            rest,
            s,
            fields::fmul(qcp[k - 1], bsb22[k - 1]),
            qcp[k - 1] * bsb22[k - 1],
        );
        assert(sums::sum(f, k) == sums::sum(f, (k - 1) as nat) + f(k - 1));
    }
}

/// What is added to the wires on each row or point: the public input, the constant and the
/// products of BSB22 selectors and values there.
pub proof fn law_fused_values(
    pi: Seq<int>,
    qk: Seq<int>,
    qcp: Seq<Vec<Fr>>,
    bsb22: Seq<Vec<Fr>>,
    i: int,
)
    requires
        0 <= i < pi.len(),
    ensures
        quotient::fused_values(pi, qk, qcp, bsb22).len() == pi.len(),
        quotient::fused_values(pi, qk, qcp, bsb22)[i] == (pi[i] + qk[i] + sums::sum(
            |j: int| qcp[j]@[i]@ * bsb22[j]@[i]@,
            if qcp.len() <= bsb22.len() {
                qcp.len()
            } else {
                bsb22.len()
            },
        )) % fields::fr_modulus(),
{
    let a = quotient::column_at(qcp, i);
    let b = quotient::column_at(bsb22, i);
    let k = quotient::shorter(qcp.len(), bsb22.len());
    law_fused_sum(pi[i], qk[i], a, b, k);
    sums::lemma_sum_eq(|j: int| a[j] * b[j], |j: int| qcp[j]@[i]@ * bsb22[j]@[i]@, k);
}

/// The arithmetic gate is `ql l + qr r + qm l r + qo o` and what is added to the wires.
pub proof fn law_gate(e: Evals)
    ensures
        e.gate() == (e.ql * e.l + e.qr * e.r + e.qm * e.l * e.r + e.qo * e.o + e.fused)
            % fields::fr_modulus(),
        e.gate() % fields::fr_modulus() == e.gate(),
{
    lemma_ops(e.ql, e.ql, e.l, e.l);
    lemma_ops(e.qr, e.qr, e.r, e.r);
    lemma_ops(e.qm, e.qm, e.l, e.l);
    lemma_ops(fields::fmul(e.qm, e.l), e.qm * e.l, e.r, e.r);
    lemma_ops(e.qo, e.qo, e.o, e.o);
    let a = fields::fadd(fields::fmul(e.ql, e.l), fields::fmul(e.qr, e.r));
    lemma_ops(fields::fmul(e.ql, e.l), e.ql * e.l, fields::fmul(e.qr, e.r), e.qr * e.r);
    let m = fields::fmul(fields::fmul(e.qm, e.l), e.r);
    lemma_ops(a, e.ql * e.l + e.qr * e.r, m, e.qm * e.l * e.r);
    let b = fields::fadd(a, m);
    let x = e.ql * e.l + e.qr * e.r + e.qm * e.l * e.r;
    lemma_ops(b, x, fields::fmul(e.qo, e.o), e.qo * e.o);
    lemma_ops(
        fields::fadd(b, fields::fmul(e.qo, e.o)),
        x + e.qo * e.o,
        e.fused,
        e.fused,
    );
}

proof fn lemma_term(v: int, t: int, gamma: int, x: int)
    requires
        t % fields::fr_modulus() == x % fields::fr_modulus(),
    ensures
        grand_product::term(v, t, gamma) % fields::fr_modulus() == (v + x + gamma)
            % fields::fr_modulus(),
{
    lemma_ops(v, v, t, x);
    lemma_ops(fields::fadd(v, t), v + x, gamma, gamma);
}

/// The product for a row at its own place: `beta` times the place of each wire, which is
/// `x`, `k1 x` and `k1^2 x`.
pub proof fn law_id_product(l: int, r: int, o: int, x: int, beta: int, gamma: int, k1: int)
    ensures
        grand_product::id_product(l, r, o, x, beta, gamma, k1) == ((l + beta * x + gamma) * (r
            + beta * x * k1 + gamma) * (o + beta * x * (k1 * k1) + gamma)) % fields::fr_modulus(),
{
    let bx = fields::fmul(beta, x);
    lemma_ops(beta, beta, x, x);
    lemma_ops(bx, beta * x, k1, k1);
    lemma_ops(k1, k1, k1, k1);
    lemma_ops(bx, beta * x, fields::fmul(k1, k1), k1 * k1);
    lemma_term(l, bx, gamma, beta * x);
    lemma_term(r, fields::fmul(bx, k1), gamma, beta * x * k1);
    lemma_term(o, fields::fmul(bx, fields::fmul(k1, k1)), gamma, beta * x * (k1 * k1));
    let a = grand_product::term(l, bx, gamma);
    let b = grand_product::term(r, fields::fmul(bx, k1), gamma);
    let c = grand_product::term(o, fields::fmul(bx, fields::fmul(k1, k1)), gamma);
    lemma_ops(a, l + beta * x + gamma, b, r + beta * x * k1 + gamma);
    lemma_ops(
        fields::fmul(a, b),
        (l + beta * x + gamma) * (r + beta * x * k1 + gamma),
        c,
        o + beta * x * (k1 * k1) + gamma,
    );
}

/// The product for a row at its place under the permutation.
pub proof fn law_sigma_product(
    l: int,
    r: int,
    o: int,
    s1: int,
    s2: int,
    s3: int,
    beta: int,
    gamma: int,
)
    ensures
        grand_product::sigma_product(l, r, o, s1, s2, s3, beta, gamma) == ((l + beta * s1 + gamma)
            * (r + beta * s2 + gamma) * (o + beta * s3 + gamma)) % fields::fr_modulus(),
{
    lemma_ops(beta, beta, s1, s1);
    lemma_ops(beta, beta, s2, s2);
    lemma_ops(beta, beta, s3, s3);
    lemma_term(l, fields::fmul(beta, s1), gamma, beta * s1);
    lemma_term(r, fields::fmul(beta, s2), gamma, beta * s2);
    lemma_term(o, fields::fmul(beta, s3), gamma, beta * s3);
    let a = grand_product::term(l, fields::fmul(beta, s1), gamma);
    let b = grand_product::term(r, fields::fmul(beta, s2), gamma);
    let c = grand_product::term(o, fields::fmul(beta, s3), gamma);
    lemma_ops(a, l + beta * s1 + gamma, b, r + beta * s2 + gamma);
    lemma_ops(
        fields::fmul(a, b),
        (l + beta * s1 + gamma) * (r + beta * s2 + gamma),
        c,
        o + beta * s3 + gamma,
    );
}

/// The permutation constraint: alpha times the step of the grand product from a row to
/// the next one.
pub proof fn law_perm(e: Evals, x: int, ch: Challenges, k1: int)
    ensures
        e.perm(x, ch, k1) == (ch.alpha * (e.zw * ((e.l + ch.beta * e.s1 + ch.gamma) * (e.r + ch.beta
            * e.s2 + ch.gamma) * (e.o + ch.beta * e.s3 + ch.gamma)) - e.z * ((e.l + ch.beta * x
            + ch.gamma) * (e.r + ch.beta * x * k1 + ch.gamma) * (e.o + ch.beta * x * (k1 * k1)
            + ch.gamma)))) % fields::fr_modulus(),
{
    let (b, g) = (ch.beta, ch.gamma);
    let s = (e.l + b * e.s1 + g) * (e.r + b * e.s2 + g) * (e.o + b * e.s3 + g);
    let i = (e.l + b * x + g) * (e.r + b * x * k1 + g) * (e.o + b * x * (k1 * k1) + g);
    law_sigma_product(e.l, e.r, e.o, e.s1, e.s2, e.s3, b, g);
    law_id_product(e.l, e.r, e.o, x, b, g, k1);
    fields::lemma_fr_modulus();
    modular::lemma_mod_idem(s, fields::fr_modulus());
    modular::lemma_mod_idem(i, fields::fr_modulus());
    let sp = grand_product::sigma_product(e.l, e.r, e.o, e.s1, e.s2, e.s3, b, g);
    let ip = grand_product::id_product(e.l, e.r, e.o, x, b, g, k1);
    lemma_ops(e.zw, e.zw, sp, s);
    lemma_ops(e.z, e.z, ip, i);
    lemma_ops(fields::fmul(e.zw, sp), e.zw * s, fields::fmul(e.z, ip), e.z * i);
    lemma_ops(
        ch.alpha,
        ch.alpha,
        fields::fsub(fields::fmul(e.zw, sp), fields::fmul(e.z, ip)),
        e.zw * s - e.z * i,
    );
}

/// The boundary constraint: the square of alpha times `z - 1` on the first row.
pub proof fn law_boundary(e: Evals, l1: int, ch: Challenges)
    ensures
        e.boundary(l1, ch) == (ch.alpha * ch.alpha * (e.z - 1) * l1) % fields::fr_modulus(),
{
    lemma_ops(ch.alpha, ch.alpha, ch.alpha, ch.alpha);
    lemma_ops(e.z, e.z, 1, 1);
    lemma_ops(
        fields::fmul(ch.alpha, ch.alpha),
        ch.alpha * ch.alpha,
        fields::fsub(e.z, 1),
        e.z - 1,
    );
    lemma_ops(
        fields::fmul(fields::fmul(ch.alpha, ch.alpha), fields::fsub(e.z, 1)),
        ch.alpha * ch.alpha * (e.z - 1),
        l1,
        l1,
    );
}

/// All constraints together are the sum of the three.
pub proof fn law_numerator(e: Evals, x: int, l1: int, ch: Challenges, k1: int)
    ensures
        e.numerator(x, l1, ch, k1) == (e.gate() + e.perm(x, ch, k1) + e.boundary(l1, ch))
            % fields::fr_modulus(),
{
    lemma_ops(e.gate(), e.gate(), e.perm(x, ch, k1), e.perm(x, ch, k1));
    lemma_ops(
        fields::fadd(e.gate(), e.perm(x, ch, k1)),
        e.gate() + e.perm(x, ch, k1),
        e.boundary(l1, ch),
        e.boundary(l1, ch),
    );
}

/// The left side of the equation of a row: every selector at the row times its wires, the
/// constant, the public value of the row, and the BSB22 selectors times the BSB22 rows.
pub open spec fn row_equation(key: Key, inp: Inputs, i: int) -> int {
    let c = key.circuit;
    let x = fields::fpow(c.w, i as nat);
    polynomial::feval(c.ql, x) * inp.l[i] + polynomial::feval(c.qr, x) * inp.r[i]
        + polynomial::feval(c.qm, x) * inp.l[i] * inp.r[i] + polynomial::feval(c.qo, x) * inp.o[i]
        + key.public_value(inp, i) + polynomial::feval(c.qk, x) + sums::sum(
        |j: int| polynomial::feval(c.qcp[j], x) * inp.bsb22[j][i],
        if c.qcp.len() <= inp.bsb22.len() {
            c.qcp.len()
        } else {
            inp.bsb22.len()
        },
    )
}

/// The gates hold where the equation of every row holds.
pub proof fn law_gates_hold(key: Key, inp: Inputs)
    ensures
        completeness::gates_hold(key, inp) <==> forall|i: int|
            0 <= i < key.circuit.n() ==> #[trigger] row_equation(key, inp, i)
                % fields::fr_modulus() == 0,
{
    assert forall|i: int| 0 <= i < key.circuit.n() implies #[trigger] completeness::row_evals(
        key,
        inp,
        i,
    ).gate() == row_equation(key, inp, i) % fields::fr_modulus() by {
        lemma_row_equation(key, inp, i);
    }
    if completeness::gates_hold(key, inp) {
        assert forall|i: int| 0 <= i < key.circuit.n() implies #[trigger] row_equation(
            key,
            inp,
            i,
        ) % fields::fr_modulus() == 0 by {
            assert(completeness::row_evals(key, inp, i).gate() == 0);
        }
    }
}

proof fn lemma_row_equation(key: Key, inp: Inputs, i: int)
    ensures
        completeness::row_evals(key, inp, i).gate() == row_equation(key, inp, i)
            % fields::fr_modulus(),
{
    let c = key.circuit;
    let x = fields::fpow(c.w, i as nat);
    let e = completeness::row_evals(key, inp, i);
    let k = quotient::shorter(c.qcp.len(), inp.bsb22.len());
    let qcp = quotient::values_at(c.qcp, x);
    let rows = Seq::new(inp.bsb22.len(), |j: int| inp.bsb22[j][i]);
    let pi = key.public_value(inp, i);
    let qk = polynomial::feval(c.qk, x);
    law_gate(e);
    law_fused_sum(pi, qk, qcp, rows, k);
    let f = |j: int| qcp[j] * rows[j];
    let g = |j: int| polynomial::feval(c.qcp[j], x) * inp.bsb22[j][i];
    sums::lemma_sum_eq(f, g, k);
    let wires = e.ql * e.l + e.qr * e.r + e.qm * e.l * e.r + e.qo * e.o;
    lemma_ops(wires, wires, e.fused, pi + qk + sums::sum(f, k));
    lemma_ops(wires, wires, e.fused, e.fused);
}

/// The polynomials of a circuit take the values of the columns of their names on the
/// domain.
pub proof fn law_circuit_rows(data: PlonkProvingData, i: int)
    requires
        data.valid(),
        0 <= i < data.domain_size,
    ensures
        ({
            let c = data.circuit();
            let r = fields::fr_modulus();
            let x = fields::fpow(data.omega@ % r, i as nat);
            &&& c.n() == data.domain_size
            &&& polynomial::feval(c.ql, x) == data.ql@[i]@ % r
            &&& polynomial::feval(c.qr, x) == data.qr@[i]@ % r
            &&& polynomial::feval(c.qm, x) == data.qm@[i]@ % r
            &&& polynomial::feval(c.qo, x) == data.qo@[i]@ % r
            &&& polynomial::feval(c.qk, x) == data.qk@[i]@ % r
            &&& polynomial::feval(c.s1, x) == data.s1@[i]@ % r
            &&& polynomial::feval(c.s2, x) == data.s2@[i]@ % r
            &&& polynomial::feval(c.s3, x) == data.s3@[i]@ % r
            &&& c.qcp.len() == data.qcp@.len()
            &&& forall|j: int|
                0 <= j < c.qcp.len() ==> polynomial::feval(#[trigger] c.qcp[j], x)
                    == data.qcp@[j]@[i]@ % r
        }),
{
    lemma_column_value(data, data.ql@, i);
    lemma_column_value(data, data.qr@, i);
    lemma_column_value(data, data.qm@, i);
    lemma_column_value(data, data.qo@, i);
    lemma_column_value(data, data.qk@, i);
    lemma_column_value(data, data.s1@, i);
    lemma_column_value(data, data.s2@, i);
    lemma_column_value(data, data.s3@, i);
    let c = data.circuit();
    let r = fields::fr_modulus();
    assert forall|j: int| 0 <= j < c.qcp.len() implies polynomial::feval(
        #[trigger] c.qcp[j],
        fields::fpow(data.omega@ % r, i as nat),
    ) == data.qcp@[j]@[i]@ % r by {
        lemma_column_value(data, data.qcp@[j]@, i);
    }
}

proof fn lemma_column_value(data: PlonkProvingData, column: Seq<BN254Fr>, i: int)
    requires
        data.valid(),
        column.len() == data.domain_size,
        0 <= i < data.domain_size,
    ensures
        polynomial::feval(
            domain::idft(fields::residues(column), data.circuit().w),
            fields::fpow(data.circuit().w, i as nat),
        ) == column[i]@ % fields::fr_modulus(),
{
    fields::lemma_fr_modulus();
    let p = fields::fr_modulus();
    let rows = fields::residues(column);
    let w = data.circuit().w;
    assert forall|j: int| 0 <= j < rows.len() implies 0 <= #[trigger] rows[j] < p by {
        lemma_mod_bound(column[j]@ as int, p);
    }
    lemma_mod_bound(data.omega@ as int, p);
    circuit::lemma_root_nonzero(w, data.bits());
    assert(exists|k: nat| data.domain_size == #[trigger] pow2(k));
    dft::law_dft_of_idft(rows, w, data.bits());
    let q = domain::idft(rows, w);
    assert(domain::dft(q, w)[i] == rows[i]);
    modular::lemma_mod_idem(pow(w, i as nat), p);
    polynomial::lemma_peval_cong(q, q, pow(w, i as nat), fields::fpow(w, i as nat), p);
}

/// The grand product of a proof starts at one, and its step from a row to the next one is
/// `(l + beta w^i + gamma) (r + beta k1 w^i + gamma) (o + beta k1^2 w^i + gamma)` over
/// `(l + beta s1 + gamma) (r + beta s2 + gamma) (o + beta s3 + gamma)`.
pub proof fn law_product_steps(key: Key, inp: Inputs, i: int)
    requires
        key.circuit.wf(),
        completeness::well_sized(key, inp),
        key.permutation(inp).invertible(),
        0 <= i,
        i + 1 < key.circuit.n(),
    ensures
        ({
            let c = key.circuit;
            let z = key.permutation(inp).products();
            let x = fields::fpow(c.w, i as nat);
            let (b, g) = (key.round1(inp).beta, key.round1(inp).gamma);
            let s = |p: Seq<int>| domain::dft(p, c.w)[i];
            &&& z.len() == c.n()
            &&& z[0] == 1
            &&& (z[i + 1] * ((inp.l[i] + b * s(c.s1) + g) * (inp.r[i] + b * s(c.s2) + g) * (
            inp.o[i] + b * s(c.s3) + g))) % fields::fr_modulus() == (z[i] * ((inp.l[i] + b * x + g)
                * (inp.r[i] + b * x * c.shift + g) * (inp.o[i] + b * x * (c.shift * c.shift) + g)))
                % fields::fr_modulus()
        }),
{
    let c = key.circuit;
    let p = key.permutation(inp);
    let z = p.products();
    let x = fields::fpow(c.w, i as nat);
    reveal(Key::permutation);
    grand_product::law_grand_product_recurrence(p, i);
    assert(p.id[i] == x);
    law_sigma_product(inp.l[i], inp.r[i], inp.o[i], p.s1[i], p.s2[i], p.s3[i], p.beta, p.gamma);
    law_id_product(inp.l[i], inp.r[i], inp.o[i], x, p.beta, p.gamma, c.shift);
    let d = (inp.l[i] + p.beta * p.s1[i] + p.gamma) * (inp.r[i] + p.beta * p.s2[i] + p.gamma) * (
    inp.o[i] + p.beta * p.s3[i] + p.gamma);
    let m = (inp.l[i] + p.beta * x + p.gamma) * (inp.r[i] + p.beta * x * c.shift + p.gamma) * (
    inp.o[i] + p.beta * x * (c.shift * c.shift) + p.gamma);
    fields::lemma_fr_modulus();
    modular::lemma_mod_idem(d, fields::fr_modulus());
    modular::lemma_mod_idem(m, fields::fr_modulus());
    lemma_ops(z[i + 1], z[i + 1], p.denominator(i), d);
    lemma_ops(z[i], z[i], p.numerator(i), m);
}

/// The values that a proof claims, one by one: behind the value of the linearised
/// polynomial those of L, R, O, S1 and S2 at zeta, then those of the BSB22 selectors, and
/// apart from them that of Z at omega times zeta.
pub proof fn law_claimed_by_name(key: Key, inp: Inputs)
    ensures
        ({
            let p = key.honest_proof(inp);
            let c = key.circuit;
            let wit = key.witness(inp);
            let zeta = key.round3(inp).zeta;
            &&& p.claimed.len() == 6 + c.qcp.len()
            &&& p.claimed[1] == polynomial::feval(wit.l, zeta)
            &&& p.claimed[2] == polynomial::feval(wit.r, zeta)
            &&& p.claimed[3] == polynomial::feval(wit.o, zeta)
            &&& p.claimed[4] == polynomial::feval(c.s1, zeta)
            &&& p.claimed[5] == polynomial::feval(c.s2, zeta)
            &&& forall|j: int|
                0 <= j < c.qcp.len() ==> p.claimed[6 + j] == polynomial::feval(
                    #[trigger] c.qcp[j],
                    zeta,
                )
            &&& p.z_shifted == polynomial::feval(wit.z, fields::fmul(zeta, c.w))
        }),
{
    openings::law_claimed_values(key, inp);
    let c = key.circuit;
    let zeta = key.round3(inp).zeta;
    assert forall|j: int| 0 <= j < c.qcp.len() implies key.claimed(inp)[6 + j]
        == polynomial::feval(#[trigger] c.qcp[j], zeta) by {
        assert(quotient::values_at(c.qcp, zeta)[j] == polynomial::feval(c.qcp[j], zeta));
    }
    reveal(Key::round4);
}

/// The commitments of a proof, one by one: of L, R and O, of the grand product, and of the
/// parts of the quotient, each the value of its polynomial at the secret.
pub proof fn law_commitments_by_name(key: Key, inp: Inputs, tau: int, g: Point)
    requires
        acceptance::set_up(key, tau, g),
        acceptance::given(key, inp, tau, g),
        key.circuit.wf(),
        key.circuit.n() >= 6,
    ensures
        ({
            let p = key.honest_proof(inp);
            let wit = key.witness(inp);
            let h = key.circuit.quotient(wit, key.challenges(inp));
            let m = key.circuit.n() as int + 2;
            &&& p.lro.len() == 3
            &&& p.lro[0] == acceptance::scaled(polynomial::feval(wit.l, tau), g)
            &&& p.lro[1] == acceptance::scaled(polynomial::feval(wit.r, tau), g)
            &&& p.lro[2] == acceptance::scaled(polynomial::feval(wit.o, tau), g)
            &&& p.z == acceptance::scaled(polynomial::feval(wit.z, tau), g)
            &&& p.h.len() == 3
            &&& p.h[0] == acceptance::scaled(polynomial::feval(h.subrange(0, m), tau), g)
            &&& p.h[1] == acceptance::scaled(polynomial::feval(h.subrange(m, 2 * m), tau), g)
            &&& p.h[2] == acceptance::scaled(polynomial::feval(h.subrange(2 * m, 3 * m), tau), g)
            &&& p.bsb22 == inp.commitments
        }),
{
    acceptance::law_commitments_of_polynomials(key, inp, tau, g);
    acceptance::lemma_quotient_commitments(key, inp, tau, g);
    reveal(Key::round3);
}

/// The polynomials of the fold, one by one: those of the linearisation, which are `ql`,
/// `qr`, `qm`, `qo`, `qk`, `s3`, the grand product, the parts of the quotient and the BSB22
/// polynomials, then L, R, O, S1, S2 and the BSB22 selectors.
pub proof fn law_fold_by_name(key: Key, inp: Inputs)
    ensures
        ({
            let c = key.circuit;
            let wit = key.witness(inp);
            let h = key.round3(inp).h;
            let p = key.fold_polys(inp);
            let s = c.n() as int + 2;
            let m = if wit.bsb22.len() <= c.qcp.len() {
                wit.bsb22.len() as int
            } else {
                c.qcp.len() as int
            };
            &&& p.len() == 15 + m + c.qcp.len()
            &&& p[0] == c.ql
            &&& p[1] == c.qr
            &&& p[2] == c.qm
            &&& p[3] == c.qo
            &&& p[4] == c.qk
            &&& p[5] == c.s3
            &&& p[6] == wit.z
            &&& p[7] == h.subrange(0, s)
            &&& p[8] == h.subrange(s, 2 * s)
            &&& p[9] == h.subrange(2 * s, 3 * s)
            &&& forall|j: int| 0 <= j < m ==> p[10 + j] == #[trigger] wit.bsb22[j]
            &&& p[10 + m] == wit.l
            &&& p[11 + m] == wit.r
            &&& p[12 + m] == wit.o
            &&& p[13 + m] == c.s1
            &&& p[14 + m] == c.s2
            &&& forall|j: int| 0 <= j < c.qcp.len() ==> p[15 + m + j] == #[trigger] c.qcp[j]
        }),
{
    reveal(Key::fold_polys);
    reveal(Key::lin_polys);
}

/// The scalars of the fold of what is opened are the powers of the fold challenge.
pub proof fn law_fold_powers(g: int, n: nat, i: int)
    requires
        0 <= i < n,
    ensures
        linearization::field_powers(g, n).len() == n,
        i == 0 ==> linearization::field_powers(g, n)[i] == 1,
        i > 0 ==> linearization::field_powers(g, n)[i] == (linearization::field_powers(g, n)[i
            - 1] * g) % fields::fr_modulus(),
{
    fields::lemma_fr_modulus();
    let p = fields::fr_modulus();
    reveal(pow);
    if i == 0 {
        lemma_small_mod(1, p as nat);
    } else {
        let q = pow(g, (i - 1) as nat);
        modular::lemma_mod_idem(q, p);
        modular::lemma_mul_cong(q % p, g, q, g, p);
        assert(pow(g, i as nat) == g * q);
        assert(q * g == g * q) by (nonlinear_arith);
    }
}

proof fn lemma_device_wires(key: Key, inp: Inputs, w: (Point, Point, Point))
    requires
        inp.device.wires == Some(w),
    ensures
        key.round1(inp).l == w.0,
        key.round1(inp).r == w.1,
        key.round1(inp).o == w.2,
{
    reveal(Key::round1);
}

proof fn lemma_device_z(key: Key, inp: Inputs, z: Point)
    requires
        inp.device.z == Some(z),
    ensures
        key.round2(inp).z == z,
{
    reveal(Key::round2);
}

proof fn lemma_device_parts(key: Key, inp: Inputs, h: (Point, Point, Point))
    requires
        inp.device.parts == Some(h),
    ensures
        key.round3(inp).h0 == h.0,
        key.round3(inp).h1 == h.1,
        key.round3(inp).h2 == h.2,
{
    reveal(Key::round3);
}

proof fn lemma_device_openings(key: Key, inp: Inputs, o: (Point, Point))
    requires
        inp.device.openings == Some(o),
    ensures
        key.round5(inp).batch_h == o.0,
        key.round5(inp).z_shifted_h == o.1,
{
    reveal(Key::round5);
}

/// What a device gives for the wires, the grand product, the parts of the quotient and the
/// openings is what the proof holds, each in its place.
pub proof fn law_device_points_are_kept(key: Key, inp: Inputs)
    ensures
        ({
            let p = key.honest_proof(inp);
            let d = inp.device;
            &&& d.wires matches Some(w) ==> p.lro == seq![w.0, w.1, w.2]
            &&& d.z matches Some(z) ==> p.z == z
            &&& d.parts matches Some(h) ==> p.h == seq![h.0, h.1, h.2]
            &&& d.openings matches Some(o) ==> p.batch_h == o.0 && p.z_shifted_h == o.1
        }),
{
    let d = inp.device;
    if let Some(w) = d.wires {
        lemma_device_wires(key, inp, w);
    }
    if let Some(z) = d.z {
        lemma_device_z(key, inp, z);
    }
    if let Some(h) = d.parts {
        lemma_device_parts(key, inp, h);
    }
    if let Some(o) = d.openings {
        lemma_device_openings(key, inp, o);
    }
}

/// Each blinding polynomial blinds the polynomial of its name: at every point L, R, O and Z
/// of a proof are those without blinding plus their own `bp(x) (x^n - 1)`.
pub proof fn law_blinding_by_name(key: Key, inp: Inputs, b: BlindingPolys, x: int)
    requires
        inp.blinding == Some(b),
        completeness::well_sized(key, inp),
        key.circuit.n() >= 3,
    ensures
        ({
            let wit = key.witness(inp);
            let w = key.circuit.w;
            let zh = pow(x, key.circuit.n()) - 1;
            let r = fields::fr_modulus();
            let z = key.permutation(inp).products();
            &&& polynomial::feval(wit.l, x) == (polynomial::peval(domain::idft(inp.l, w), x)
                + polynomial::peval(b.l, x) * zh) % r
            &&& polynomial::feval(wit.r, x) == (polynomial::peval(domain::idft(inp.r, w), x)
                + polynomial::peval(b.r, x) * zh) % r
            &&& polynomial::feval(wit.o, x) == (polynomial::peval(domain::idft(inp.o, w), x)
                + polynomial::peval(b.o, x) * zh) % r
            &&& polynomial::feval(wit.z, x) == (polynomial::peval(domain::idft(z, w), x)
                + polynomial::peval(b.z, x) * zh) % r
        }),
{
    reveal(Key::witness);
    reveal(Key::permutation);
    let w = key.circuit.w;
    let z = key.permutation(inp).products();
    blinding::law_blinding_adds_vanishing(domain::idft(inp.l, w), b.l, x);
    blinding::law_blinding_adds_vanishing(domain::idft(inp.r, w), b.r, x);
    blinding::law_blinding_adds_vanishing(domain::idft(inp.o, w), b.o, x);
    blinding::law_blinding_adds_vanishing(domain::idft(z, w), b.z, x);
}

/// The grand product of rows starts at one; its step from a row to the next one is the
/// product of `value + beta place + gamma` over the three wires, at their own places, over
/// that at the places of the permutation; and the copies are taken to hold where the step
/// from the last row leads back to one.
pub proof fn law_grand_product_rows(
    l: Seq<Fr>,
    r: Seq<Fr>,
    o: Seq<Fr>,
    s1: Seq<Fr>,
    s2: Seq<Fr>,
    s3: Seq<Fr>,
    id: Seq<Fr>,
    k1: Fr,
    beta: Fr,
    gamma: Fr,
    i: int,
)
    requires
        r.len() == l.len(),
        o.len() == l.len(),
        s1.len() == l.len(),
        s2.len() == l.len(),
        s3.len() == l.len(),
        id.len() == l.len(),
        grand_product::permutation(l, r, o, s1, s2, s3, id, k1, beta, gamma).invertible(),
        0 <= i < l.len(),
    ensures
        ({
            let p = grand_product::permutation(l, r, o, s1, s2, s3, id, k1, beta, gamma);
            let z = p.products();
            let (b, g, k) = (beta@, gamma@, k1@);
            let own = (l[i]@ + b * id[i]@ + g) * (r[i]@ + b * id[i]@ * k + g) * (o[i]@ + b * id[i]@
                * (k * k) + g);
            let moved = (l[i]@ + b * s1[i]@ + g) * (r[i]@ + b * s2[i]@ + g) * (o[i]@ + b * s3[i]@
                + g);
            let q = fields::fr_modulus();
            &&& z.len() == l.len()
            &&& z[0] == 1
            &&& i + 1 < l.len() ==> (z[i + 1] * moved) % q == (z[i] * own) % q
            &&& i + 1 == l.len() ==> (p.satisfied() <==> moved % q == (z[i] * own) % q)
        }),
{
    let p = grand_product::permutation(l, r, o, s1, s2, s3, id, k1, beta, gamma);
    let z = p.products();
    let (b, g, k) = (beta@, gamma@, k1@);
    let own = (l[i]@ + b * id[i]@ + g) * (r[i]@ + b * id[i]@ * k + g) * (o[i]@ + b * id[i]@ * (k
        * k) + g);
    let moved = (l[i]@ + b * s1[i]@ + g) * (r[i]@ + b * s2[i]@ + g) * (o[i]@ + b * s3[i]@ + g);
    let q = fields::fr_modulus();
    fields::lemma_fr_modulus();
    grand_product::law_grand_product_recurrence(p, i);
    law_sigma_product(l[i]@, r[i]@, o[i]@, s1[i]@, s2[i]@, s3[i]@, b, g);
    law_id_product(l[i]@, r[i]@, o[i]@, id[i]@, b, g, k);
    assert(p.numerator(i) == own % q);
    assert(p.denominator(i) == moved % q);
    modular::lemma_mod_idem(own, q);
    modular::lemma_mod_idem(moved, q);
    lemma_ops(z[i], z[i], p.numerator(i), own);
    if i + 1 < l.len() {
        lemma_ops(z[i + 1], z[i + 1], p.denominator(i), moved);
    } else {
        let rs = p.ratios();
        let d = p.denominator(i);
        let u = fields::finv(d);
        assert(rs.drop_last() =~= rs.take(i));
        assert(p.denominator(i) != 0);
        fields::law_fr_inverse(d);
        fields::law_fr_ring(z[i], p.numerator(i), u);
        if moved % q == (z[i] * own) % q {
            assert(fields::fmul(z[i], p.numerator(i)) == d);
            assert(fields::fprod(rs) == fields::fmul(z[i], fields::fmul(p.numerator(i), u)));
        }
    }
}

/// The coset starts at the shift and goes on by the generator of the large domain, and the
/// vanishing polynomial is `X^n - 1`, where the large domain is four times the domain.
pub proof fn law_coset_points(c: Circuit, i: int, x: int)
    requires
        0 <= i,
    ensures
        c.point(0) == c.shift % fields::fr_modulus(),
        c.point(i + 1) == (c.point(i) * c.w4) % fields::fr_modulus(),
        c.zh(x) == (pow(x, c.n()) - 1) % fields::fr_modulus(),
        c.n() == pow2(c.bits),
        c.big_n() == 4 * c.n(),
{
    fields::lemma_fr_modulus();
    let p = fields::fr_modulus();
    let q = pow(c.w4, i as nat);
    lemma_pow0(c.w4);
    lemma_small_mod(1, p as nat);
    assert(c.shift * 1 == c.shift);
    modular::lemma_mod_idem(q, p);
    modular::lemma_mod_idem(q * c.w4, p);
    reveal(pow);
    assert(pow(c.w4, (i + 1) as nat) == c.w4 * q);
    let a = fields::fpow(c.w4, i as nat);
    lemma_ops(c.shift, c.shift, a, q);
    lemma_ops(c.shift, c.shift, fields::fpow(c.w4, (i + 1) as nat), c.w4 * q);
    lemma_ops(c.point(i), c.shift * q, c.w4, c.w4);
    assert(c.shift * q * c.w4 == c.shift * (c.w4 * q)) by (nonlinear_arith);
    modular::lemma_mod_idem(c.w4 * q, p);
    modular::lemma_mod_idem(pow(x, c.n()), p);
    lemma_ops(fields::fpow(x, c.n()), pow(x, c.n()), 1, 1);
    lemma_pow2_adds(c.bits, 2);
    lemma2_to64();
}

/// The scalars of the linearisation: those of `ql`, `qr`, `qm`, `qo` and `qk` are the wires,
/// their product and one; those of the parts of the quotient take the powers of zeta by
/// which the parts are shifted.
pub proof fn law_lin_scalars(c: Circuit, ch: Challenges, zeta: int, e: Openings)
    ensures
        ({
            let s = c.lin_scalars(ch, zeta, e);
            let r = fields::fr_modulus();
            let (a, b, g) = (ch.alpha, ch.beta, ch.gamma);
            let m = c.n() + 2;
            &&& s.len() == 10
            &&& s[0] == e.l
            &&& s[1] == e.r
            &&& s[2] == (e.l * e.r) % r
            &&& s[3] == e.o
            &&& s[4] == 1
            &&& s[5] == (a * e.zw * (e.l + b * e.s1 + g) * (e.r + b * e.s2 + g) * b) % r
            &&& s[6] == (a * a * c.l1_or_one(zeta) - a * ((e.l + b * zeta + g) * (e.r + b * zeta
                * c.shift + g) * (e.o + b * zeta * (c.shift * c.shift) + g))) % r
            &&& s[7] == (-c.zh(zeta)) % r
            &&& s[8] == (-c.zh(zeta) * pow(zeta, m)) % r
            &&& s[9] == (-c.zh(zeta) * (pow(zeta, m) * pow(zeta, m))) % r
        }),
{
    fields::lemma_fr_modulus();
    let r = fields::fr_modulus();
    let (a, b, g) = (ch.alpha, ch.beta, ch.gamma);
    let m = c.n() + 2;
    // s3
    let x1 = e.l + b * e.s1 + g;
    let x2 = e.r + b * e.s2 + g;
    lemma_ops(b, b, e.s1, e.s1);
    lemma_ops(b, b, e.s2, e.s2);
    lemma_term(e.l, fields::fmul(b, e.s1), g, b * e.s1);
    lemma_term(e.r, fields::fmul(b, e.s2), g, b * e.s2);
    let t1 = grand_product::term(e.l, fields::fmul(b, e.s1), g);
    let t2 = grand_product::term(e.r, fields::fmul(b, e.s2), g);
    lemma_ops(a, a, e.zw, e.zw);
    let u1 = fields::fmul(a, e.zw);
    lemma_ops(u1, a * e.zw, t1, x1);
    let u2 = fields::fmul(u1, t1);
    lemma_ops(u2, a * e.zw * x1, t2, x2);
    lemma_ops(fields::fmul(u2, t2), a * e.zw * x1 * x2, b, b);
    // z
    let i = (e.l + b * zeta + g) * (e.r + b * zeta * c.shift + g) * (e.o + b * zeta * (c.shift
        * c.shift) + g);
    law_id_product(e.l, e.r, e.o, zeta, b, g, c.shift);
    modular::lemma_mod_idem(i, r);
    let ip = grand_product::id_product(e.l, e.r, e.o, zeta, b, g, c.shift);
    lemma_ops(a, a, a, a);
    lemma_ops(fields::fmul(a, a), a * a, c.l1_or_one(zeta), c.l1_or_one(zeta));
    lemma_ops(a, a, ip, i);
    lemma_ops(
        fields::fmul(fields::fmul(a, a), c.l1_or_one(zeta)),
        a * a * c.l1_or_one(zeta),
        fields::fmul(a, ip),
        a * i,
    );
    // The parts of the quotient.
    let z = -c.zh(zeta);
    let q = pow(zeta, m);
    let p = fields::fpow(zeta, m);
    modular::lemma_mod_idem(z, r);
    modular::lemma_mod_idem(q, r);
    lemma_ops(fields::fneg(c.zh(zeta)), z, p, q);
    lemma_ops(p, q, p, q);
    lemma_ops(fields::fneg(c.zh(zeta)), z, fields::fmul(p, p), q * q);
}

/// The value of the linearised polynomial that a verifier computes from the openings.
pub proof fn law_verifier_value(c: Circuit, ch: Challenges, zeta: int, pi: int, e: Openings)
    ensures
        linearization::verifier_value(c, ch, zeta, pi, e) == (ch.alpha * ch.alpha * c.l1_or_one(
            zeta,
        ) - pi - ch.alpha * (e.l + ch.beta * e.s1 + ch.gamma) * (e.r + ch.beta * e.s2 + ch.gamma)
            * (e.o + ch.gamma) * e.zw) % fields::fr_modulus(),
{
    fields::lemma_fr_modulus();
    let r = fields::fr_modulus();
    let (a, b, g) = (ch.alpha, ch.beta, ch.gamma);
    let x1 = e.l + b * e.s1 + g;
    let x2 = e.r + b * e.s2 + g;
    lemma_ops(b, b, e.s1, e.s1);
    lemma_ops(b, b, e.s2, e.s2);
    lemma_term(e.l, fields::fmul(b, e.s1), g, b * e.s1);
    lemma_term(e.r, fields::fmul(b, e.s2), g, b * e.s2);
    let t1 = grand_product::term(e.l, fields::fmul(b, e.s1), g);
    let t2 = grand_product::term(e.r, fields::fmul(b, e.s2), g);
    lemma_ops(e.o, e.o, g, g);
    lemma_ops(a, a, t1, x1);
    let u1 = fields::fmul(a, t1);
    lemma_ops(u1, a * x1, t2, x2);
    let u2 = fields::fmul(u1, t2);
    lemma_ops(u2, a * x1 * x2, fields::fadd(e.o, g), e.o + g);
    let u3 = fields::fmul(u2, fields::fadd(e.o, g));
    lemma_ops(u3, a * x1 * x2 * (e.o + g), e.zw, e.zw);
    let s = linearization::perm_summand(ch, e);
    let sv = a * x1 * x2 * (e.o + g) * e.zw;
    let l1 = c.l1_or_one(zeta);
    lemma_ops(a, a, a, a);
    lemma_ops(fields::fmul(a, a), a * a, l1, l1);
    let k = fields::fmul(fields::fmul(a, a), l1);
    lemma_ops(pi, pi, k, a * a * l1);
    let d = fields::fsub(pi, k);
    lemma_ops(d, pi - a * a * l1, s, sv);
    let t = fields::fadd(d, s);
    modular::lemma_sub_cong(0, t, 0, pi - a * a * l1 + sv, r);
}

} // verus!
