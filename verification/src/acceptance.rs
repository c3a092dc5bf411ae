//! A proof that the prover makes is accepted: its openings pass the checks of a
//! verifier, with the secret of the reference string in place of a pairing.
use crate::circuit;
use crate::circuit::Circuit;
use crate::commit;
use crate::commit_laws;
use crate::completeness;
use crate::dft;
use crate::domain;
use crate::fields;
use crate::g1;
use crate::g1::Point;
use crate::group_law;
use crate::linearization;
use crate::modular;
use crate::openings;
use crate::polynomial;
use crate::prover;
use crate::quotient;
use crate::rounds;
use crate::rounds::{Inputs, Key};
use crate::sums;
use crate::types::{PlonkProvingData, VkSelectorCommits};
use crate::BN254Fr;
use vstd::arithmetic::div_mod::*;
use vstd::arithmetic::power::*;
use vstd::prelude::*;

verus! {

// ---------------------------------------------------------------------------
// Multiples of a generator
// ---------------------------------------------------------------------------

/// A multiple of a point by a field element.
pub open spec fn scaled(v: int, g: Point) -> Point {
    g1::point_mul((v % fields::fr_modulus()) as nat, g)
}

/// Multiples of a point of the group add up modulo its order.
proof fn lemma_scaled(a: int, b: int, g: Point)
    requires
        commit_laws::in_group(g),
    ensures
        commit_laws::valid(scaled(a, g)),
        g1::point_add(scaled(a, g), scaled(b, g)) == scaled(a + b, g),
        scaled(0, g) is Infinity,
        g1::as_affine(scaled(a, g)) == scaled(a, g),
{
    fields::lemma_fr_modulus();
    let r = fields::fr_modulus();
    let (x, y) = ((a % r) as nat, (b % r) as nat);
    lemma_mod_bound(a, r);
    lemma_mod_bound(b, r);
    commit_laws::law_multiple(x, g);
    commit_laws::law_multiples_add(x, y, g, g);
    commit_laws::law_scalar_reduces(x + y, g);
    modular::lemma_mod_idem(a, r);
    modular::lemma_mod_idem(b, r);
    modular::lemma_add_cong(a % r, b % r, a, b, r);
    lemma_small_mod(0, r as nat);
    commit_laws::law_multiple(0, g);
    commit_laws::law_as_affine(scaled(a, g));
}

/// Congruent factors give the same multiple.
proof fn lemma_scaled_cong(a: int, b: int, g: Point)
    requires
        a % fields::fr_modulus() == b % fields::fr_modulus(),
    ensures
        scaled(a, g) == scaled(b, g),
{
}

/// A multiple of a multiple.
proof fn lemma_scaled_times(k: int, v: int, g: Point)
    requires
        commit_laws::in_group(g),
        0 <= k,
    ensures
        g1::point_mul(k as nat, scaled(v, g)) == scaled(k * v, g),
{
    fields::lemma_fr_modulus();
    let r = fields::fr_modulus();
    lemma_mod_bound(v, r);
    let x = (v % r) as nat;
    commit_laws::law_multiples_add(k as nat, x, g, g);
    commit_laws::law_scalar_reduces((k as nat) * x, g);
    modular::lemma_mod_idem(v, r);
    modular::lemma_mul_cong(k, v % r, k, v, r);
}

/// The negative of a multiple.
proof fn lemma_scaled_neg(v: int, g: Point)
    requires
        commit_laws::in_group(g),
    ensures
        g1::point_neg(scaled(v, g)) == scaled(-v, g),
{
    let (a, b) = (scaled(v, g), scaled(-v, g));
    lemma_scaled(v, -v, g);
    lemma_scaled(-v, v, g);
    group_law::law_sum_cancels(a, b);
    group_law::law_inverse(a);
}

/// Points that are multiples of a generator.
pub open spec fn are_scaled(points: Seq<Point>, v: Seq<int>, g: Point) -> bool {
    &&& points.len() <= v.len()
    &&& forall|i: int| 0 <= i < points.len() ==> #[trigger] points[i] == scaled(v[i], g)
}

/// A multi-scalar multiplication of multiples of a generator.
proof fn lemma_msm_scaled(points: Seq<Point>, scalars: Seq<int>, v: Seq<int>, g: Point)
    requires
        commit_laws::in_group(g),
        are_scaled(points, v, g),
        forall|i: int| 0 <= i < points.len() ==> 0 <= #[trigger] scalars[i],
    ensures
        g1::point_msm(points, scalars) == scaled(
            openings::dot_sum(scalars, v, points.len()),
            g,
        ),
    decreases points.len(),
{
    if points.len() == 0 {
        lemma_scaled(0, 0, g);
    } else {
        let front = points.drop_last();
        let k = points.len() - 1;
        assert forall|i: int| 0 <= i < front.len() implies #[trigger] front[i] == scaled(
            v[i],
            g,
        ) by {
            assert(points[i] == front[i]);
        }
        lemma_msm_scaled(front, scalars, v, g);
        assert(points[k] == scaled(v[k], g));
        assert(0 <= scalars[k]);
        lemma_scaled_times(scalars[k], v[k], g);
        lemma_scaled(
            openings::dot_sum(scalars, v, front.len()),
            scalars[k] * v[k],
            g,
        );
    }
}

// ---------------------------------------------------------------------------
// The reference string
// ---------------------------------------------------------------------------

/// The reference string of a secret: its powers times a generator.
pub open spec fn powers_of(srs: Seq<Point>, tau: int, g: Point) -> bool {
    forall|i: int| 0 <= i < srs.len() ==> #[trigger] srs[i] == scaled(pow(tau, i as nat), g)
}

/// The rows of a polynomial that is one on one row.
pub open spec fn unit_rows(i: int, n: nat) -> Seq<int> {
    Seq::new(
        n,
        |j: int|
            if j == i {
                1
            } else {
                0
            },
    )
}

/// The reference string in Lagrange form: the values of the Lagrange polynomials at
/// the secret times a generator.
pub open spec fn lagrange_of(srs: Seq<Point>, c: Circuit, tau: int, g: Point) -> bool {
    &&& srs.len() == c.n()
    &&& forall|i: int|
        0 <= i < srs.len() ==> #[trigger] srs[i] == scaled(
            polynomial::feval(domain::idft(unit_rows(i, c.n()), c.w), tau),
            g,
        )
}

proof fn lemma_powers_in_group(srs: Seq<Point>, tau: int, g: Point)
    requires
        commit_laws::in_group(g),
        powers_of(srs, tau, g),
    ensures
        commit_laws::all_in_group(srs),
{
    assert forall|i: int| 0 <= i < srs.len() implies commit_laws::in_group(#[trigger] srs[i]) by {
        lemma_scaled_in_group(pow(tau, i as nat), g);
    }
}

/// Multiples of a point of the group are in the group.
proof fn lemma_scaled_in_group(v: int, g: Point)
    requires
        commit_laws::in_group(g),
    ensures
        commit_laws::in_group(scaled(v, g)),
{
    fields::lemma_fr_modulus();
    let r = fields::fr_modulus();
    lemma_scaled(v, 0, g);
    lemma_scaled_times(r, v, g);
    modular::lemma_multiple(v, r);
    assert(v * r == r * v) by (nonlinear_arith);
    lemma_small_mod(0, r as nat);
    lemma_scaled_cong(r * v, 0, g);
}

/// A commitment on the canonical reference string is the value at the secret times
/// the generator.
pub proof fn law_commitment_is_evaluation(srs: Seq<Point>, c: Seq<int>, tau: int, g: Point)
    requires
        commit_laws::in_group(g),
        powers_of(srs, tau, g),
        c.len() <= srs.len(),
        forall|i: int| 0 <= i < c.len() ==> 0 <= #[trigger] c[i],
    ensures
        commit::commitment(srs, c) == scaled(polynomial::feval(c, tau), g),
{
    fields::lemma_fr_modulus();
    let n = c.len();
    let points = srs.take(n as int);
    let v = Seq::new(n, |i: int| pow(tau, i as nat));
    assert forall|i: int| 0 <= i < points.len() implies #[trigger] points[i] == scaled(
        v[i],
        g,
    ) by {
        assert(points[i] == srs[i]);
    }
    lemma_msm_scaled(points, c, v, g);
    let f = |i: int| polynomial::coeff(c, i) * pow(tau, i as nat);
    lemma_dot_sum_is_sum(c, v, f, n);
    polynomial::lemma_peval_sum(c, tau, n);
    modular::lemma_mod_idem(polynomial::peval(c, tau), fields::fr_modulus());
    lemma_scaled(openings::dot_sum(c, v, n), 0, g);
}

/// Two ways of writing a sum of products.
proof fn lemma_dot_sum_is_sum(a: Seq<int>, b: Seq<int>, f: spec_fn(int) -> int, n: nat)
    requires
        forall|i: int| 0 <= i < n ==> #[trigger] f(i) == a[i] * b[i],
    ensures
        openings::dot_sum(a, b, n) == sums::sum(f, n),
    decreases n,
{
    if n > 0 {
        lemma_dot_sum_is_sum(a, b, f, (n - 1) as nat);
        assert(f(n - 1) == a[n - 1] * b[n - 1]);
    }
}

/// The value of a Lagrange polynomial, as a sum of powers.
proof fn lemma_lagrange_value(i: int, n: nat, w: int, x: int)
    requires
        0 <= i < n,
    ensures
        polynomial::feval(domain::idft(unit_rows(i, n), w), x) % fields::fr_modulus() == (
        fields::finv(n as int) * openings::power_sum(x * pow(fields::finv(w), i as nat), n))
            % fields::fr_modulus(),
{
    fields::lemma_fr_modulus();
    let r = fields::fr_modulus();
    let rows = unit_rows(i, n);
    let u = fields::finv(w);
    let ninv = fields::finv(n as int);
    openings::lemma_interpolation_sum(rows, w, x);
    let f = |j: int| ninv * rows[j] * openings::power_sum(x * pow(u, j as nat), n);
    lemma_small_mod(0, r as nat);
    assert forall|j: int| 0 <= j < n && j != i implies #[trigger] f(j) % r == 0 by {
        assert(ninv * 0 == 0);
        assert(0 * openings::power_sum(x * pow(u, j as nat), n) == 0);
    }
    sums::lemma_sum_single(f, i, n, r);
    assert(ninv * 1 == ninv);
    modular::lemma_mod_idem(sums::sum(f, n), r);
}

/// A commitment on the Lagrange reference string is the value at the secret of the
/// polynomial with these rows times the generator.
pub proof fn law_lagrange_commitment(
    srs: Seq<Point>,
    c: Circuit,
    rows: Seq<int>,
    tau: int,
    g: Point,
)
    requires
        commit_laws::in_group(g),
        lagrange_of(srs, c, tau, g),
        rows.len() == c.n(),
        forall|i: int| 0 <= i < rows.len() ==> 0 <= #[trigger] rows[i],
    ensures
        commit::commitment(srs, rows) == scaled(
            polynomial::feval(domain::idft(rows, c.w), tau),
            g,
        ),
{
    fields::lemma_fr_modulus();
    let r = fields::fr_modulus();
    let n = c.n();
    let u = fields::finv(c.w);
    let ninv = fields::finv(n as int);
    let points = srs.take(n as int);
    assert(points =~= srs);
    let v = Seq::new(n, |i: int| polynomial::feval(domain::idft(unit_rows(i, n), c.w), tau));
    assert forall|i: int| 0 <= i < points.len() implies #[trigger] points[i] == scaled(
        v[i],
        g,
    ) by {
        assert(points[i] == srs[i]);
    }
    lemma_msm_scaled(points, rows, v, g);
    let f = |i: int| rows[i] * v[i];
    lemma_dot_sum_is_sum(rows, v, f, n);
    openings::lemma_interpolation_sum(rows, c.w, tau);
    let h = |i: int| ninv * rows[i] * openings::power_sum(tau * pow(u, i as nat), n);
    assert forall|i: int| 0 <= i < n implies #[trigger] f(i) % r == h(i) % r by {
        let s = openings::power_sum(tau * pow(u, i as nat), n);
        lemma_lagrange_value(i, n, c.w, tau);
        modular::lemma_mul_cong(rows[i], v[i], rows[i], ninv * s, r);
        assert(rows[i] * (ninv * s) == ninv * rows[i] * s) by (nonlinear_arith);
    }
    sums::lemma_sum_cong(f, h, n, r);
    modular::lemma_mod_idem(sums::sum(h, n), r);
    lemma_scaled(openings::dot_sum(rows, v, n), 0, g);
}

// ---------------------------------------------------------------------------
// The commitments of a proof
// ---------------------------------------------------------------------------

/// The reference strings and the verifying key of a circuit belong to a secret.
pub open spec fn set_up(key: Key, tau: int, g: Point) -> bool {
    let c = key.circuit;
    &&& commit_laws::in_group(g)
    &&& powers_of(key.srs_canonical, tau, g)
    &&& key.srs_canonical.len() >= c.n() + 2
    &&& lagrange_of(key.srs_lagrange, c, tau, g)
    &&& key.vk.ql == scaled(polynomial::feval(c.ql, tau), g)
    &&& key.vk.qr == scaled(polynomial::feval(c.qr, tau), g)
    &&& key.vk.qm == scaled(polynomial::feval(c.qm, tau), g)
    &&& key.vk.qo == scaled(polynomial::feval(c.qo, tau), g)
    &&& key.vk.qk == scaled(polynomial::feval(c.qk, tau), g)
    &&& key.vk.s1 == scaled(polynomial::feval(c.s1, tau), g)
    &&& key.vk.s2 == scaled(polynomial::feval(c.s2, tau), g)
    &&& key.vk.s3 == scaled(polynomial::feval(c.s3, tau), g)
    &&& key.vk.qcp.len() == c.qcp.len()
    &&& forall|j: int|
        0 <= j < c.qcp.len() ==> #[trigger] key.vk.qcp[j] == scaled(
            polynomial::feval(c.qcp[j], tau),
            g,
        )
}

/// The inputs of a proof fit the circuit, and the BSB22 commitments are commitments to
/// the BSB22 rows.
pub open spec fn given(key: Key, inp: Inputs, tau: int, g: Point) -> bool {
    &&& completeness::well_sized(key, inp)
    &&& inp.blinding is Some ==> key.srs_canonical.len() >= key.circuit.n() + 3
    &&& inp.blinding matches Some(b) ==> dft::in_field(b.l) && dft::in_field(b.r)
        && dft::in_field(b.o) && dft::in_field(b.z)
    &&& inp.commitments.len() == inp.bsb22.len()
    &&& forall|j: int|
        0 <= j < inp.bsb22.len() ==> #[trigger] inp.commitments[j] == scaled(
            polynomial::feval(domain::idft(inp.bsb22[j], key.circuit.w), tau),
            g,
        )
}

/// A commitment on the Lagrange reference string, with the blinding added, is the
/// value of the blinded polynomial.
proof fn lemma_blinded(key: Key, rows: Seq<int>, bp: Option<Seq<int>>, tau: int, g: Point)
    requires
        set_up(key, tau, g),
        circuit::is_poly(rows, key.circuit.n()),
        key.circuit.n() >= 3,
        bp is Some ==> key.srs_canonical.len() >= key.circuit.n() + 3,
        bp matches Some(b) ==> b.len() <= 3 && dft::in_field(b),
    ensures
        rounds::maybe_blinded(
            key.srs_canonical,
            bp,
            key.circuit.n() as int,
            commit::commitment(key.srs_lagrange, rows),
        ) == scaled(
            polynomial::feval(
                rounds::maybe_spliced(domain::idft(rows, key.circuit.w), bp),
                tau,
            ),
            g,
        ),
{
    fields::lemma_fr_modulus();
    let c = key.circuit;
    law_lagrange_commitment(key.srs_lagrange, c, rows, tau, g);
    if let Some(b) = bp {
        let p = domain::idft(rows, c.w);
        assert forall|i: int| 0 <= i < p.len() implies 0 <= #[trigger] p[i]
            < fields::fr_modulus() by {
            fields::lemma_frange(
                polynomial::feval(rows, pow(fields::finv(c.w), i as nat)),
                fields::finv(rows.len() as int),
                0,
            );
        }
        law_commitment_is_evaluation(key.srs_canonical, p, tau, g);
        lemma_powers_in_group(key.srs_canonical, tau, g);
        commit_laws::law_blinded_commitment(key.srs_canonical, p, b);
        let q = crate::blinding::spliced(p, b);
        assert forall|i: int| 0 <= i < q.len() implies 0 <= #[trigger] q[i] by {
            if i < p.len() {
                if i < b.len() {
                    fields::lemma_frange(p[i], b[i], 0);
                }
                assert(0 <= p[i]);
            } else {
                assert(0 <= b[i - p.len()]);
            }
        }
        law_commitment_is_evaluation(key.srs_canonical, q, tau, g);
    }
}

/// The commitment to a wire is the value of its polynomial.
proof fn lemma_wire(key: Key, rows: Seq<int>, bp: Option<Seq<int>>, tau: int, g: Point)
    requires
        set_up(key, tau, g),
        circuit::is_poly(rows, key.circuit.n()),
        key.circuit.n() >= 3,
        bp is Some ==> key.srs_canonical.len() >= key.circuit.n() + 3,
        bp matches Some(b) ==> b.len() <= 3 && dft::in_field(b),
    ensures
        key.wire_commitment(rows, bp) == scaled(
            polynomial::feval(
                rounds::maybe_spliced(domain::idft(rows, key.circuit.w), bp),
                tau,
            ),
            g,
        ),
{
    reveal(Key::wire_commitment);
    let s = fields::elements(rows);
    assert forall|i: int| 0 <= i < s.len() implies (#[trigger] s[i]).wf() && s[i]@ == rows[i] by {
        fields::Fr::lemma_of(rows[i]);
        assert(0 <= rows[i] < fields::fr_modulus());
        lemma_small_mod(rows[i] as nat, fields::fr_modulus() as nat);
    }
    assert(fields::vals(s) =~= rows);
    assert forall|i: int| 0 <= i < key.srs_lagrange.len() implies commit_laws::valid(
        #[trigger] key.srs_lagrange[i],
    ) by {
        lemma_scaled(
            polynomial::feval(
                domain::idft(unit_rows(i, key.circuit.n()), key.circuit.w),
                tau,
            ),
            0,
            g,
        );
    }
    commit_laws::law_commit_lagrange_depad(key.srs_lagrange, s, 10, 1000);
    lemma_blinded(key, rows, bp, tau, g);
}

/// The commitments of the first two rounds are the values of the polynomials.
pub proof fn law_commitments_of_polynomials(key: Key, inp: Inputs, tau: int, g: Point)
    requires
        set_up(key, tau, g),
        given(key, inp, tau, g),
        key.circuit.wf(),
        key.circuit.n() >= 3,
    ensures
        key.round1(inp).l == scaled(polynomial::feval(key.witness(inp).l, tau), g),
        key.round1(inp).r == scaled(polynomial::feval(key.witness(inp).r, tau), g),
        key.round1(inp).o == scaled(polynomial::feval(key.witness(inp).o, tau), g),
        key.round2(inp).z == scaled(polynomial::feval(key.witness(inp).z, tau), g),
{
    reveal(Key::round1);
    reveal(Key::round2);
    reveal(Key::witness);
    lemma_wire(key, inp.l, inp.bp_l(), tau, g);
    lemma_wire(key, inp.r, inp.bp_r(), tau, g);
    lemma_wire(key, inp.o, inp.bp_o(), tau, g);
    let z = key.permutation(inp).products();
    assert(z.len() == key.circuit.n()) by {
        reveal(Key::permutation);
    }
    assert forall|i: int| 0 <= i < z.len() implies 0 <= #[trigger] z[i] < fields::fr_modulus() by {
        fields::lemma_fprod_range(key.permutation(inp).ratios().take(i));
    }
    lemma_blinded(key, z, inp.bp_z(), tau, g);
}

/// The commitments to the parts of the quotient are the values of the parts.
pub proof fn lemma_quotient_commitments(key: Key, inp: Inputs, tau: int, g: Point)
    requires
        set_up(key, tau, g),
        inp.device.quotient is None,
        inp.device.parts is None,
        key.circuit.wf(),
        key.circuit.n() >= 6,
    ensures
        ({
            let r3 = key.round3(inp);
            &&& r3.h0 == scaled(polynomial::feval(key.part(r3.h, 0), tau), g)
            &&& r3.h1 == scaled(polynomial::feval(key.part(r3.h, 1), tau), g)
            &&& r3.h2 == scaled(polynomial::feval(key.part(r3.h, 2), tau), g)
        }),
{
    reveal(Key::round3);
    let c = key.circuit;
    let h = c.quotient(key.witness(inp), key.challenges(inp));
    let v = c.quotient_values(key.witness(inp), key.challenges(inp));
    assert(h.len() == c.big_n());
    assert(c.big_n() == 4 * c.n());
    assert forall|i: int| 0 <= i < h.len() implies 0 <= #[trigger] h[i] by {
        fields::lemma_frange(
            domain::idft(v, c.w4)[i],
            fields::fpow(fields::finv(c.shift), i as nat),
            0,
        );
    }
    let s = (c.n() + 2) as int;
    assert(0 * s == 0 && 1 * s == s && 2 * s == s + s && 3 * s == s + s + s);
    assert forall|k: int| 0 <= k < 3 implies commit::commitment(
        key.srs_canonical,
        #[trigger] key.part(h, k),
    ) == scaled(polynomial::feval(key.part(h, k), tau), g) by {
        let q = key.part(h, k);
        assert(0 <= k * s && (k + 1) * s <= h.len() && (k + 1) * s - k * s == s)
            by (nonlinear_arith)
            requires
                0 <= k < 3,
                s > 0,
                3 * s <= h.len(),
        ;
        assert forall|i: int| 0 <= i < q.len() implies 0 <= #[trigger] q[i] by {
            assert(q[i] == h[k * s + i]);
        }
        law_commitment_is_evaluation(key.srs_canonical, q, tau, g);
    }
    assert(key.part(h, 0) == key.part(h, 0));
    assert(key.part(h, 1) == key.part(h, 1));
    assert(key.part(h, 2) == key.part(h, 2));
}

/// The scalars of the linearisation are elements of the field.
proof fn lemma_lin_scalars(key: Key, inp: Inputs, m: nat, i: int)
    requires
        m <= key.circuit.qcp.len(),
        0 <= i < 10 + m,
    ensures
        ({
            let r4 = key.round4(inp);
            let s = key.lin_scalars(inp, r4.openings, r4.qcp, m);
            s.len() == 10 + m && 0 <= s[i]
        }),
{
    reveal(Key::lin_scalars);
    reveal(Key::round4);
    fields::lemma_fr_modulus();
    let r = fields::fr_modulus();
    let c = key.circuit;
    let ch = key.challenges(inp);
    let zeta = key.round3(inp).zeta;
    let wit = key.witness(inp);
    let r4 = key.round4(inp);
    let e = r4.openings;
    lemma_mod_bound(polynomial::peval(wit.l, zeta), r);
    lemma_mod_bound(polynomial::peval(wit.r, zeta), r);
    lemma_mod_bound(polynomial::peval(wit.o, zeta), r);
    fields::lemma_frange(e.l, e.r, 0);
    fields::lemma_frange(c.zh(zeta), 0, 0);
    let t = fields::fpow(zeta, c.n() + 2);
    let nz = fields::fneg(c.zh(zeta));
    fields::lemma_frange(nz, t, 0);
    fields::lemma_frange(nz, fields::fmul(t, t), 0);
    let ls = c.lin_scalars(ch, zeta, e);
    assert(ls.len() == 10);
    if i == 5 {
        fields::lemma_frange(
            fields::fmul(
                fields::fmul(
                    fields::fmul(ch.alpha, e.zw),
                    crate::grand_product::term(e.l, fields::fmul(ch.beta, e.s1), ch.gamma),
                ),
                crate::grand_product::term(e.r, fields::fmul(ch.beta, e.s2), ch.gamma),
            ),
            ch.beta,
            0,
        );
    }
    if i == 6 {
        fields::lemma_frange(
            fields::fmul(fields::fmul(ch.alpha, ch.alpha), c.l1_or_one(zeta)),
            fields::fmul(
                ch.alpha,
                crate::grand_product::id_product(
                    e.l,
                    e.r,
                    e.o,
                    zeta,
                    ch.beta,
                    ch.gamma,
                    c.shift,
                ),
            ),
            0,
        );
    }
    if i >= 10 {
        lemma_mod_bound(polynomial::peval(c.qcp[i - 10], zeta), r);
        assert(r4.qcp[i - 10] == polynomial::feval(c.qcp[i - 10], zeta));
    }
}

/// The commitment that a verifier computes for the linearised polynomial from the
/// other commitments is the value of that polynomial.
pub proof fn law_linearised_commitment(key: Key, inp: Inputs, tau: int, g: Point)
    requires
        set_up(key, tau, g),
        given(key, inp, tau, g),
        key.circuit.wf(),
        key.circuit.n() >= 6,
    ensures
        key.lin_commitment(inp) == scaled(openings::opened(key, inp, tau)[0], g),
{
    fields::lemma_fr_modulus();
    let c = key.circuit;
    let wit = key.witness(inp);
    let r2 = key.round2(inp);
    let r3 = key.round3(inp);
    let r4 = key.round4(inp);
    let m = quotient::shorter(c.qcp.len(), inp.commitments.len());
    assert(wit.bsb22.len() == inp.bsb22.len()) by {
        reveal(Key::witness);
    }
    assert(m == quotient::shorter(wit.bsb22.len(), c.qcp.len()));
    let points = seq![
        key.vk.ql,
        key.vk.qr,
        key.vk.qm,
        key.vk.qo,
        key.vk.qk,
        key.vk.s3,
        r2.z,
        r3.h0,
        r3.h1,
        r3.h2,
    ] + inp.commitments.take(m as int);
    let polys = key.lin_polys(inp);
    let v = quotient::values_at(polys, tau);
    let ls = key.lin_scalars(inp, r4.openings, r4.qcp, m);
    law_commitments_of_polynomials(key, inp, tau, g);
    lemma_quotient_commitments(key, inp, tau, g);
    assert(polys =~= c.lin_polys(
        wit.z,
        key.part(r3.h, 0),
        key.part(r3.h, 1),
        key.part(r3.h, 2),
    ) + wit.bsb22.take(m as int)) by {
        reveal(Key::lin_polys);
    }
    assert(points.len() == 10 + m);
    assert(polys.len() == 10 + m);
    assert forall|i: int| 0 <= i < points.len() implies #[trigger] points[i] == scaled(
        v[i],
        g,
    ) by {
        if i >= 10 {
            let j = i - 10;
            assert(points[i] == inp.commitments[j]);
            assert(polys[i] == wit.bsb22[j]);
            assert(wit.bsb22[j] == domain::idft(inp.bsb22[j], c.w)) by {
                reveal(Key::witness);
            }
        }
    }
    assert forall|i: int| 0 <= i < points.len() implies 0 <= #[trigger] ls[i] by {
        lemma_lin_scalars(key, inp, m, i);
    }
    lemma_lin_scalars(key, inp, m, 0);
    lemma_msm_scaled(points, ls, v, g);
    openings::lemma_dot(ls, v);
    let d = openings::dot_sum(ls, v, points.len());
    lemma_scaled_cong(d, linearization::dot(ls, v), g);
    lemma_scaled(d, 0, g);
    reveal(Key::lin_commitment);
}

/// The commitments that are opened at zeta are the values of the polynomials behind
/// them.
proof fn lemma_digests(key: Key, inp: Inputs, tau: int, g: Point)
    requires
        set_up(key, tau, g),
        given(key, inp, tau, g),
        key.circuit.wf(),
        key.circuit.n() >= 6,
    ensures
        key.digests(inp).len() == 6 + key.circuit.qcp.len(),
        are_scaled(key.digests(inp), openings::opened(key, inp, tau), g),
{
    reveal(Key::digests);
    law_commitments_of_polynomials(key, inp, tau, g);
    law_linearised_commitment(key, inp, tau, g);
    let d = key.digests(inp);
    let v = openings::opened(key, inp, tau);
    assert forall|i: int| 0 <= i < d.len() implies #[trigger] d[i] == scaled(v[i], g) by {
        if i >= 6 {
            assert(d[i] == key.vk.qcp[i - 6]);
            assert(v[i] == polynomial::feval(key.circuit.qcp[i - 6], tau));
        }
    }
}

// ---------------------------------------------------------------------------
// The checks of a verifier
// ---------------------------------------------------------------------------

/// An opening is right: the commitment to the quotient, times the secret less the
/// point, is the commitment less the value times the generator. A verifier checks
/// this by a pairing.
pub open spec fn opens(
    commitment: Point,
    value: int,
    at: int,
    quotient: Point,
    tau: int,
    g: Point,
) -> bool {
    g1::point_mul(fields::fsub(tau, at) as nat, quotient) == g1::point_add(
        commitment,
        g1::point_neg(scaled(value, g)),
    )
}

/// An exact quotient opens a commitment.
proof fn lemma_opens(
    c: Seq<int>,
    srs: Seq<Point>,
    commitment: Point,
    of: int,
    value: int,
    at: int,
    tau: int,
    g: Point,
)
    requires
        commit_laws::in_group(g),
        powers_of(srs, tau, g),
        c.len() <= srs.len(),
        commitment == scaled(of, g),
        polynomial::feval(c, tau) == fields::fsub(of, value),
        polynomial::feval(c, tau) == ((tau - at) * polynomial::peval(
            linearization::divided(c, at),
            tau,
        )) % fields::fr_modulus(),
    ensures
        opens(
            commitment,
            value,
            at,
            commit::commitment(srs, linearization::divided(c, at)),
            tau,
            g,
        ),
{
    fields::lemma_fr_modulus();
    let r = fields::fr_modulus();
    let q = linearization::divided(c, at);
    assert forall|i: int| 0 <= i < q.len() implies 0 <= #[trigger] q[i] by {
        lemma_mod_bound(polynomial::peval(c.skip(i + 1), at), r);
    }
    law_commitment_is_evaluation(srs, q, tau, g);
    let v = polynomial::peval(q, tau);
    let k = fields::fsub(tau, at);
    lemma_mod_bound(tau - at, r);
    lemma_scaled_times(k, polynomial::feval(q, tau), g);
    modular::lemma_mod_idem(tau - at, r);
    modular::lemma_mod_idem(v, r);
    modular::lemma_mul_cong(k, v % r, tau - at, v, r);
    modular::lemma_mod_idem((tau - at) * v, r);
    modular::lemma_mod_idem(of - value, r);
    lemma_scaled_cong(k * polynomial::feval(q, tau), of - value, g);
    lemma_scaled_neg(value, g);
    lemma_scaled(of, -value, g);
}

/// The polynomials of a proof are no longer than the reference string.
proof fn lemma_witness_lens(key: Key, inp: Inputs)
    requires
        key.circuit.wf(),
        key.circuit.n() >= 6,
        completeness::well_sized(key, inp),
    ensures
        ({
            let wit = key.witness(inp);
            let top = key.circuit.n() + prover::srs_excess(inp.blinding is Some);
            wit.l.len() <= top && wit.r.len() <= top && wit.o.len() <= top && wit.z.len() <= top
        }),
{
    reveal(Key::witness);
    reveal(Key::permutation);
}

/// The folded polynomial is not too long for the reference string.
proof fn lemma_folded_len(key: Key, inp: Inputs)
    requires
        key.circuit.wf(),
        key.circuit.n() >= 6,
        completeness::well_sized(key, inp),
    ensures
        key.folded(inp).len() <= key.circuit.n() + prover::srs_excess(inp.blinding is Some),
{
    completeness::lemma_witness_sized(key, inp);
    let c = key.circuit;
    let n = c.n();
    let wit = key.witness(inp);
    let h = key.round3(inp).h;
    let m = quotient::shorter(wit.bsb22.len(), c.qcp.len());
    let polys = key.fold_polys(inp);
    assert(h.len() == 4 * n) by {
        reveal(Key::round3);
    }
    let top = n + prover::srs_excess(inp.blinding is Some);
    assert(wit.l.len() <= top && wit.r.len() <= top && wit.o.len() <= top && wit.z.len() <= top)
        by {
        lemma_witness_lens(key, inp);
    }
    let s = (n + 2) as int;
    assert(0 * s == 0 && 1 * s == s && 2 * s == s + s && 3 * s == s + s + s);
    let parts = seq![key.part(h, 0), key.part(h, 1), key.part(h, 2)];
    let more = seq![wit.l, wit.r, wit.o, c.s1, c.s2] + c.qcp;
    let lin = c.lin_polys(wit.z, parts[0], parts[1], parts[2]);
    assert(polys =~= lin + wit.bsb22.take(m as int) + more) by {
        reveal(Key::fold_polys);
        reveal(Key::lin_polys);
    }
    assert forall|j: int| 0 <= j < polys.len() implies (#[trigger] polys[j]).len() <= top by {
        if j < 10 {
            assert(polys[j] == lin[j]);
        } else if j < 10 + m {
            assert(polys[j] == wit.bsb22[j - 10]);
        } else if j < 15 + m {
            assert(polys[j] == more[j - 10 - m]);
        } else {
            assert(polys[j] == c.qcp[j - 15 - m]);
            assert(circuit::is_poly(c.qcp[j - 15 - m], n));
        }
    }
    polynomial::lemma_longest_bound(polys, top);
    reveal(Key::folded);
}

/// A proof is accepted. Where the gates hold, the permutation is satisfied and the
/// reference string belongs to a secret, the proof of the prover passes every check
/// of a verifier, whatever the blinding is: the claimed value of the linearised
/// polynomial is the one that the other values give, the folded commitments open to
/// the folded values at zeta, and the commitment to the grand product opens to its
/// value at omega times zeta. It takes that zeta is no root of unity of the domain.
pub proof fn law_proof_is_accepted(key: Key, inp: Inputs, tau: int, g: Point)
    requires
        key.circuit.wf(),
        key.circuit.n() >= 6,
        key.circuit.shift != 0,
        key.circuit.w == fields::fpow(key.circuit.w4, 4),
        set_up(key, tau, g),
        given(key, inp, tau, g),
        key.permutation(inp).invertible(),
        key.permutation(inp).satisfied(),
        completeness::gates_hold(key, inp),
        key.circuit.zh(key.round3(inp).zeta) != 0,
    ensures
        ({
            let c = key.circuit;
            let p = key.honest_proof(inp);
            let zeta = key.round3(inp).zeta;
            let powers = linearization::field_powers(key.gamma_fold(inp), p.claimed.len());
            &&& p.claimed[0] == linearization::verifier_value(
                c,
                key.challenges(inp),
                zeta,
                linearization::lagrange_sum(c, key.pi_rows(inp), zeta, c.n()),
                key.round4(inp).openings,
            )
            &&& opens(
                g1::point_msm(key.digests(inp), powers),
                linearization::dot(powers, p.claimed),
                zeta,
                p.batch_h,
                tau,
                g,
            )
            &&& opens(p.z, p.z_shifted, fields::fmul(zeta, c.w), p.z_shifted_h, tau, g)
        }),
{
    fields::lemma_fr_modulus();
    let r = fields::fr_modulus();
    let c = key.circuit;
    let zeta = key.round3(inp).zeta;
    let y = fields::fmul(zeta, c.w);
    openings::law_verifier_equation(key, inp);
    law_folds_open(key, inp, tau, g);
    // The grand product.
    law_commitments_of_polynomials(key, inp, tau, g);
    completeness::lemma_witness_sized(key, inp);
    let wit = key.witness(inp);
    openings::law_openings_are_exact(key, inp, tau);
    let z = key.z_less_opening(inp);
    let zw = key.round4(inp).openings.zw;
    openings::law_less_constant(wit.z, zw, tau);
    assert(z == linearization::less_constant(wit.z, zw)) by {
        reveal(Key::z_less_opening);
    }
    lemma_witness_lens(key, inp);
    lemma_opens(
        z,
        key.srs_canonical,
        key.round2(inp).z,
        polynomial::feval(wit.z, tau),
        zw,
        y,
        tau,
        g,
    );
    assert(key.round5(inp).z_shifted_h == commit::commitment(
        key.srs_canonical,
        linearization::divided(z, y),
    )) by {
        reveal(Key::round5);
        reveal(Key::opening_quotients);
    }
    openings::law_claimed_values(key, inp);
}

/// The folded commitments open to the folded values at zeta, whether or not the gates
/// hold.
pub proof fn law_folds_open(key: Key, inp: Inputs, tau: int, g: Point)
    requires
        key.circuit.wf(),
        key.circuit.n() >= 6,
        set_up(key, tau, g),
        given(key, inp, tau, g),
    ensures
        ({
            let p = key.honest_proof(inp);
            let powers = linearization::field_powers(key.gamma_fold(inp), p.claimed.len());
            opens(
                g1::point_msm(key.digests(inp), powers),
                linearization::dot(powers, p.claimed),
                key.round3(inp).zeta,
                p.batch_h,
                tau,
                g,
            )
        }),
{
    fields::lemma_fr_modulus();
    let r = fields::fr_modulus();
    let c = key.circuit;
    let zeta = key.round3(inp).zeta;
    let k = 6 + c.qcp.len();
    let powers = linearization::field_powers(key.gamma_fold(inp), k);
    let v = openings::opened(key, inp, tau);
    lemma_digests(key, inp, tau, g);
    assert forall|i: int| 0 <= i < k implies 0 <= #[trigger] powers[i] by {
        lemma_mod_bound(pow(key.gamma_fold(inp), i as nat), r);
    }
    lemma_msm_scaled(key.digests(inp), powers, v, g);
    openings::lemma_dot(powers, v);
    lemma_scaled_cong(
        openings::dot_sum(powers, v, k),
        linearization::dot(powers, v),
        g,
    );
    openings::law_claimed_values(key, inp);
    openings::law_folded_value(key, inp, tau);
    completeness::lemma_witness_sized(key, inp);
    openings::law_openings_are_exact(key, inp, tau);
    lemma_folded_len(key, inp);
    lemma_opens(
        key.folded(inp),
        key.srs_canonical,
        g1::point_msm(key.digests(inp), powers),
        linearization::dot(powers, v),
        linearization::dot(powers, key.claimed(inp)),
        zeta,
        tau,
        g,
    );
    assert(key.round5(inp).batch_h == commit::commitment(
        key.srs_canonical,
        linearization::divided(key.folded(inp), zeta),
    )) by {
        reveal(Key::round5);
        reveal(Key::opening_quotients);
    }
}

/// A verifying key that was computed from the data of a circuit belongs to the secret
/// of its reference strings.
pub proof fn law_computed_key(data: PlonkProvingData, tau: int, g: Point)
    requires
        data.valid(),
        data.vk_selector_commits is None,
        commit_laws::in_group(g),
        powers_of(circuit::bn_points(data.srs_canonical@), tau, g),
        data.srs_canonical@.len() >= data.circuit().n() + 2,
        lagrange_of(circuit::bn_points(data.srs_lagrange@), data.circuit(), tau, g),
    ensures
        set_up(
            (Key {
                circuit: data.circuit(),
                vk: data.vk_points(),
                srs_lagrange: circuit::bn_points(data.srs_lagrange@),
                srs_canonical: circuit::bn_points(data.srs_canonical@),
                nb_pub: data.nb_public_variables as nat,
                indexes: data.commitment_constraint_indexes@,
            }),
            tau,
            g,
        ),
{
    let c = data.circuit();
    assert(c.n() == data.domain_size);
    lemma_column(data, data.ql@, tau, g);
    lemma_column(data, data.qr@, tau, g);
    lemma_column(data, data.qm@, tau, g);
    lemma_column(data, data.qo@, tau, g);
    lemma_column(data, data.qk@, tau, g);
    lemma_column(data, data.s1@, tau, g);
    lemma_column(data, data.s2@, tau, g);
    lemma_column(data, data.s3@, tau, g);
    assert forall|j: int| 0 <= j < c.qcp.len() implies #[trigger] data.vk_points().qcp[j]
        == scaled(polynomial::feval(c.qcp[j], tau), g) by {
        lemma_column(data, data.qcp@[j]@, tau, g);
    }
}

/// A verifying key that came with the data of a circuit belongs to the secret of its
/// reference strings where each of its commitments is the value, at the secret, of the
/// polynomial through the column of its name.
pub proof fn law_stored_key(data: PlonkProvingData, vk: VkSelectorCommits, tau: int, g: Point)
    requires
        data.valid(),
        data.vk_selector_commits == Some(vk),
        commit_laws::in_group(g),
        powers_of(circuit::bn_points(data.srs_canonical@), tau, g),
        data.srs_canonical@.len() >= data.circuit().n() + 2,
        lagrange_of(circuit::bn_points(data.srs_lagrange@), data.circuit(), tau, g),
        vk.s_perm[0]@ == scaled(
            polynomial::feval(
                domain::idft(fields::residues(data.s1@), data.circuit().w),
                tau,
            ),
            g,
        ),
        vk.s_perm[1]@ == scaled(
            polynomial::feval(
                domain::idft(fields::residues(data.s2@), data.circuit().w),
                tau,
            ),
            g,
        ),
        vk.s_perm[2]@ == scaled(
            polynomial::feval(
                domain::idft(fields::residues(data.s3@), data.circuit().w),
                tau,
            ),
            g,
        ),
        vk.ql@ == scaled(
            polynomial::feval(
                domain::idft(fields::residues(data.ql@), data.circuit().w),
                tau,
            ),
            g,
        ),
        vk.qr@ == scaled(
            polynomial::feval(
                domain::idft(fields::residues(data.qr@), data.circuit().w),
                tau,
            ),
            g,
        ),
        vk.qm@ == scaled(
            polynomial::feval(
                domain::idft(fields::residues(data.qm@), data.circuit().w),
                tau,
            ),
            g,
        ),
        vk.qo@ == scaled(
            polynomial::feval(
                domain::idft(fields::residues(data.qo@), data.circuit().w),
                tau,
            ),
            g,
        ),
        vk.qk@ == scaled(
            polynomial::feval(
                domain::idft(fields::residues(data.qk@), data.circuit().w),
                tau,
            ),
            g,
        ),
        vk.qcp@.len() == data.qcp@.len(),
        forall|j: int|
            0 <= j < vk.qcp@.len() ==> (#[trigger] vk.qcp@[j])@ == scaled(
                polynomial::feval(
                    domain::idft(fields::residues(data.qcp@[j]@), data.circuit().w),
                    tau,
                ),
                g,
            ),
    ensures
        set_up(
            (Key {
                circuit: data.circuit(),
                vk: data.vk_points(),
                srs_lagrange: circuit::bn_points(data.srs_lagrange@),
                srs_canonical: circuit::bn_points(data.srs_canonical@),
                nb_pub: data.nb_public_variables as nat,
                indexes: data.commitment_constraint_indexes@,
            }),
            tau,
            g,
        ),
{
    let c = data.circuit();
    assert forall|j: int| 0 <= j < c.qcp.len() implies #[trigger] data.vk_points().qcp[j]
        == scaled(polynomial::feval(c.qcp[j], tau), g) by {
        assert(data.vk_points().qcp[j] == vk.qcp@[j]@);
    }
}

/// The commitment to a column is the value of its polynomial.
proof fn lemma_column(data: PlonkProvingData, column: Seq<BN254Fr>, tau: int, g: Point)
    requires
        commit_laws::in_group(g),
        lagrange_of(circuit::bn_points(data.srs_lagrange@), data.circuit(), tau, g),
        column.len() == data.circuit().n(),
    ensures
        commit::commitment(
            circuit::bn_points(data.srs_lagrange@),
            fields::residues(column),
        ) == scaled(
            polynomial::feval(domain::idft(fields::residues(column), data.circuit().w), tau),
            g,
        ),
{
    fields::lemma_fr_modulus();
    let rows = fields::residues(column);
    assert forall|i: int| 0 <= i < rows.len() implies 0 <= #[trigger] rows[i] by {
        lemma_mod_bound(column[i]@ as int, fields::fr_modulus());
    }
    law_lagrange_commitment(
        circuit::bn_points(data.srs_lagrange@),
        data.circuit(),
        rows,
        tau,
        g,
    );
}

/// On the domain of the usual root of unity the generator of the large domain is a
/// fourth root of the generator.
pub proof fn law_usual_domain(data: PlonkProvingData)
    requires
        data.bits() + 2 <= 28,
        data.circuit().w == domain::root_value(data.bits()),
    ensures
        data.circuit().w == fields::fpow(data.circuit().w4, 4),
{
    domain::law_root_fourth_power(data.bits());
}

} // verus!
