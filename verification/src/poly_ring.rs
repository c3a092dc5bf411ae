//! The ring of polynomials by their coefficients, and division by `X^n - 1`.

use crate::dft;
use crate::domain;
use crate::fields;
use crate::modular;
use crate::polynomial;
use vstd::arithmetic::div_mod::*;
use vstd::arithmetic::mul::*;
use vstd::arithmetic::power::*;
use vstd::arithmetic::power2::*;
use vstd::prelude::*;

verus! {

/// The larger of two lengths.
pub open spec fn longer(a: nat, b: nat) -> nat {
    if a >= b {
        a
    } else {
        b
    }
}

/// The sum of two polynomials.
pub open spec fn padd(a: Seq<int>, b: Seq<int>) -> Seq<int> {
    Seq::new(
        longer(a.len(), b.len()),
        |i: int| polynomial::coeff(a, i) + polynomial::coeff(b, i),
    )
}

/// A polynomial times a number.
pub open spec fn pscale(a: Seq<int>, k: int) -> Seq<int> {
    Seq::new(a.len(), |i: int| a[i] * k)
}

/// A polynomial times `X^n`.
pub open spec fn pshift(a: Seq<int>, n: nat) -> Seq<int> {
    Seq::new(
        a.len() + n,
        |i: int|
            if i < n {
                0
            } else {
                a[i - n]
            },
    )
}

/// The difference of two polynomials.
pub open spec fn psub(a: Seq<int>, b: Seq<int>) -> Seq<int> {
    padd(a, pscale(b, -1))
}

/// The product of two polynomials.
pub open spec fn pmul(a: Seq<int>, b: Seq<int>) -> Seq<int>
    decreases a.len(),
{
    if a.len() == 0 {
        seq![]
    } else {
        padd(pscale(b, a[0]), pshift(pmul(a.skip(1), b), 1))
    }
}

/// A constant.
pub open spec fn pconst(k: int) -> Seq<int> {
    seq![k]
}

/// The indeterminate.
pub open spec fn px() -> Seq<int> {
    seq![0, 1]
}

/// The coefficients reduced.
pub open spec fn preduce(a: Seq<int>) -> Seq<int> {
    Seq::new(a.len(), |i: int| a[i] % fields::fr_modulus())
}

spec fn tail(a: Seq<int>) -> Seq<int> {
    if a.len() == 0 {
        a
    } else {
        a.skip(1)
    }
}

proof fn lemma_peval_tail(a: Seq<int>, x: int)
    ensures
        polynomial::peval(a, x) == polynomial::coeff(a, 0) + x * polynomial::peval(tail(a), x),
{
    if a.len() == 0 {
        assert(x * 0 == 0);
    }
}

/// The value of a sum is the sum of the values.
pub proof fn lemma_padd(a: Seq<int>, b: Seq<int>, x: int)
    ensures
        polynomial::peval(padd(a, b), x) == polynomial::peval(a, x) + polynomial::peval(b, x),
    decreases longer(a.len(), b.len()),
{
    let c = padd(a, b);
    if c.len() > 0 {
        lemma_padd(tail(a), tail(b), x);
        lemma_peval_tail(a, x);
        lemma_peval_tail(b, x);
        assert(c.skip(1) =~= padd(tail(a), tail(b)));
        lemma_mul_is_distributive_add(
            x,
            polynomial::peval(tail(a), x),
            polynomial::peval(tail(b), x),
        );
    }
}

/// The value of a scaled polynomial.
pub proof fn lemma_pscale(a: Seq<int>, k: int, x: int)
    ensures
        polynomial::peval(pscale(a, k), x) == k * polynomial::peval(a, x),
    decreases a.len(),
{
    if a.len() > 0 {
        lemma_pscale(a.skip(1), k, x);
        assert(pscale(a, k).skip(1) =~= pscale(a.skip(1), k));
        let v = polynomial::peval(a.skip(1), x);
        assert(a[0] * k + x * (k * v) == k * (a[0] + x * v)) by (nonlinear_arith);
    }
}

/// The value of a shifted polynomial.
pub proof fn lemma_pshift(a: Seq<int>, n: nat, x: int)
    ensures
        polynomial::peval(pshift(a, n), x) == pow(x, n) * polynomial::peval(a, x),
    decreases n,
{
    if n == 0 {
        lemma_pow0(x);
        assert(pshift(a, 0) =~= a);
    } else {
        let k = (n - 1) as nat;
        lemma_pshift(a, k, x);
        let s = pshift(a, n);
        assert(s.skip(1) =~= pshift(a, k));
        lemma_pow_adds(x, 1, k);
        lemma_pow1(x);
        lemma_mul_is_associative(x, pow(x, k), polynomial::peval(a, x));
    }
}

/// The value of a product is the product of the values.
pub proof fn lemma_pmul(a: Seq<int>, b: Seq<int>, x: int)
    ensures
        polynomial::peval(pmul(a, b), x) == polynomial::peval(a, x) * polynomial::peval(b, x),
    decreases a.len(),
{
    if a.len() > 0 {
        let rest = pmul(a.skip(1), b);
        lemma_pmul(a.skip(1), b, x);
        lemma_padd(pscale(b, a[0]), pshift(rest, 1), x);
        lemma_pscale(b, a[0], x);
        lemma_pshift(rest, 1, x);
        lemma_pow1(x);
        let u = polynomial::peval(a.skip(1), x);
        let v = polynomial::peval(b, x);
        assert(a[0] * v + x * (u * v) == (a[0] + x * u) * v) by (nonlinear_arith);
    }
}

/// The number of coefficients of a product.
pub proof fn lemma_pmul_len(a: Seq<int>, b: Seq<int>)
    ensures
        a.len() > 0 && b.len() > 0 ==> pmul(a, b).len() == a.len() + b.len() - 1,
        pmul(a, b).len() <= a.len() + b.len(),
    decreases a.len(),
{
    if a.len() > 0 {
        lemma_pmul_len(a.skip(1), b);
    }
}

/// Sums, differences and products of polynomials over the scalar field, by their
/// values.
pub proof fn law_polynomial_ring(a: Seq<int>, b: Seq<int>, k: int, x: int)
    ensures
        polynomial::feval(padd(a, b), x) == fields::fadd(
            polynomial::feval(a, x),
            polynomial::feval(b, x),
        ),
        polynomial::feval(psub(a, b), x) == fields::fsub(
            polynomial::feval(a, x),
            polynomial::feval(b, x),
        ),
        polynomial::feval(pmul(a, b), x) == fields::fmul(
            polynomial::feval(a, x),
            polynomial::feval(b, x),
        ),
        polynomial::feval(pconst(k), x) == k % fields::fr_modulus(),
        polynomial::feval(px(), x) == x % fields::fr_modulus(),
{
    fields::lemma_fr_modulus();
    let p = fields::fr_modulus();
    let u = polynomial::peval(a, x);
    let v = polynomial::peval(b, x);
    modular::lemma_mod_idem(u, p);
    modular::lemma_mod_idem(v, p);
    lemma_padd(a, b, x);
    modular::lemma_add_cong(u % p, v % p, u, v, p);
    lemma_padd(a, pscale(b, -1), x);
    lemma_pscale(b, -1, x);
    modular::lemma_sub_cong(u % p, v % p, u, v, p);
    lemma_pmul(a, b, x);
    modular::lemma_mul_cong(u % p, v % p, u, v, p);
    assert(polynomial::peval(pconst(k), x) == k) by {
        reveal_with_fuel(polynomial::peval, 2);
        assert(pconst(k).skip(1) =~= seq![]);
        assert(x * 0 == 0);
    }
    assert(polynomial::peval(px(), x) == x) by {
        reveal_with_fuel(polynomial::peval, 3);
        assert(px().skip(1) =~= pconst(1));
        assert(pconst(1).skip(1) =~= seq![]);
        assert(x * 0 == 0);
        assert(x * 1 == x);
    }
}

/// Reduction changes no value.
pub proof fn lemma_preduce(a: Seq<int>, x: int)
    ensures
        polynomial::feval(preduce(a), x) == polynomial::feval(a, x),
        dft::in_field(preduce(a)),
{
    fields::lemma_fr_modulus();
    let p = fields::fr_modulus();
    let r = preduce(a);
    assert forall|i: int| 0 <= i < r.len() implies 0 <= #[trigger] r[i] < p && r[i] % p == a[i]
        % p by {
        modular::lemma_mod_idem(a[i], p);
    }
    polynomial::lemma_peval_cong(r, a, x, x, p);
}

// ---------------------------------------------------------------------------
// Division by X^n - 1
// ---------------------------------------------------------------------------

/// The quotient of a polynomial by `X^n - 1`.
pub open spec fn vanishing_quotient(c: Seq<int>, n: nat) -> Seq<int>
    decreases c.len(),
{
    if n == 0 || c.len() <= n {
        seq![]
    } else {
        let high = c.skip(n as int);
        padd(vanishing_quotient(padd(c.take(n as int), high), n), high)
    }
}

/// The remainder of a polynomial by `X^n - 1`.
pub open spec fn vanishing_remainder(c: Seq<int>, n: nat) -> Seq<int>
    decreases c.len(),
{
    if n == 0 || c.len() <= n {
        c
    } else {
        vanishing_remainder(padd(c.take(n as int), c.skip(n as int)), n)
    }
}

/// A polynomial is its first terms and the rest.
pub proof fn lemma_take_skip(c: Seq<int>, n: nat, x: int)
    requires
        n <= c.len(),
    ensures
        polynomial::peval(c, x) == polynomial::peval(c.take(n as int), x) + pow(x, n)
            * polynomial::peval(c.skip(n as int), x),
{
    let low = c.take(n as int);
    let high = c.skip(n as int);
    lemma_padd(low, pshift(high, n), x);
    lemma_pshift(high, n, x);
    assert(padd(low, pshift(high, n)) =~= c);
}

/// Quotient times `X^n - 1` plus remainder is the polynomial.
pub proof fn law_vanishing_division(c: Seq<int>, n: nat, x: int)
    requires
        n > 0,
    ensures
        polynomial::peval(c, x) == polynomial::peval(vanishing_quotient(c, n), x) * (pow(x, n) - 1)
            + polynomial::peval(vanishing_remainder(c, n), x),
        vanishing_remainder(c, n).len() <= n,
        vanishing_quotient(c, n).len() == (if c.len() <= n {
            0
        } else {
            c.len() - n
        }),
    decreases c.len(),
{
    if c.len() > n {
        let low = c.take(n as int);
        let high = c.skip(n as int);
        let d = padd(low, high);
        law_vanishing_division(d, n, x);
        lemma_take_skip(c, n, x);
        lemma_padd(low, high, x);
        lemma_padd(vanishing_quotient(d, n), high, x);
        let q = polynomial::peval(vanishing_quotient(d, n), x);
        let r = polynomial::peval(vanishing_remainder(d, n), x);
        let h = polynomial::peval(high, x);
        let l = polynomial::peval(low, x);
        let t = pow(x, n);
        assert(l + t * h == (q + h) * (t - 1) + r) by (nonlinear_arith)
            requires
                l + h == q * (t - 1) + r,
        ;
    } else {
        assert(0 * (pow(x, n) - 1) == 0);
    }
}

/// A polynomial with no more coefficients than the domain has points that vanishes on
/// the domain is zero.
proof fn lemma_vanishing_small(c: Seq<int>, w: int, bits: nat, x: int)
    requires
        0 < w < fields::fr_modulus(),
        domain::is_primitive_root(w, bits),
        c.len() <= pow2(bits),
        forall|i: int|
            0 <= i < pow2(bits) ==> #[trigger] polynomial::feval(c, pow(w, i as nat)) == 0,
    ensures
        polynomial::feval(c, x) == 0,
{
    fields::lemma_fr_modulus();
    let p = fields::fr_modulus();
    let n = pow2(bits);
    let zeros = Seq::new(n, |i: int| 0int);
    let full = preduce(padd(c, zeros));
    lemma_small_mod(0, p as nat);
    assert forall|y: int| #[trigger] polynomial::peval(zeros, y) == 0 by {
        lemma_zeros(n, y);
    }
    assert forall|y: int| #[trigger] polynomial::feval(full, y) == polynomial::feval(c, y) by {
        lemma_preduce(padd(c, zeros), y);
        lemma_padd(c, zeros, y);
        assert(polynomial::peval(zeros, y) == 0);
    }
    lemma_preduce(padd(c, zeros), 0);
    assert(dft::in_field(zeros));
    assert(domain::dft(full, w) =~= domain::dft(zeros, w)) by {
        assert forall|i: int| 0 <= i < n implies #[trigger] domain::dft(full, w)[i] == domain::dft(
            zeros,
            w,
        )[i] by {
            assert(polynomial::feval(c, pow(w, i as nat)) == 0);
            assert(polynomial::feval(full, pow(w, i as nat)) == polynomial::feval(
                c,
                pow(w, i as nat),
            ));
            assert(polynomial::peval(zeros, pow(w, i as nat)) == 0);
        }
    }
    dft::law_dft_injective(full, zeros, w, bits);
    assert(polynomial::feval(full, x) == polynomial::feval(c, x));
    assert(polynomial::peval(zeros, x) == 0);
}

proof fn lemma_zeros(n: nat, x: int)
    ensures
        polynomial::peval(Seq::new(n, |i: int| 0int), x) == 0,
    decreases n,
{
    if n > 0 {
        let k = (n - 1) as nat;
        lemma_zeros(k, x);
        assert(Seq::new(n, |i: int| 0int).skip(1) =~= Seq::new(k, |i: int| 0int));
        assert(x * 0 == 0);
    }
}

/// A polynomial that vanishes on the domain is its quotient by `X^n - 1` times
/// `X^n - 1`.
pub proof fn law_vanishing_divides(c: Seq<int>, w: int, bits: nat, x: int)
    requires
        0 < w < fields::fr_modulus(),
        domain::is_primitive_root(w, bits),
        forall|i: int|
            0 <= i < pow2(bits) ==> #[trigger] polynomial::feval(c, pow(w, i as nat)) == 0,
    ensures
        polynomial::feval(c, x) == fields::fmul(
            polynomial::feval(vanishing_quotient(c, pow2(bits)), x),
            fields::fsub(fields::fpow(x, pow2(bits)), 1),
        ),
{
    fields::lemma_fr_modulus();
    let p = fields::fr_modulus();
    let n = pow2(bits);
    lemma_pow2_pos(bits);
    let q = vanishing_quotient(c, n);
    let r = vanishing_remainder(c, n);
    lemma_small_mod(0, p as nat);
    assert forall|i: int| 0 <= i < n implies #[trigger] polynomial::feval(r, pow(w, i as nat))
        == 0 by {
        let y = pow(w, i as nat);
        law_vanishing_division(c, n, y);
        assert(polynomial::feval(c, y) == 0);
        // y^n is one.
        dft::law_vanishing_on_domain(w, bits, i as nat);
        let t = pow(y, n);
        modular::lemma_mod_idem(y, p);
        modular::lemma_pow_cong(fields::fpow(w, i as nat), y, n, p);
        modular::lemma_mod_idem(t, p);
        modular::lemma_sub_cong(t % p, 1, t, 1, p);
        let qv = polynomial::peval(q, y);
        let rv = polynomial::peval(r, y);
        assert((t - 1) % p == 0);
        modular::lemma_mul_cong(qv, t - 1, qv, 0, p);
        assert(qv * 0 == 0);
        modular::lemma_add_cong(qv * (t - 1), rv, 0, rv, p);
    }
    law_vanishing_division(c, n, x);
    lemma_vanishing_small(r, w, bits, x);
    let t = pow(x, n);
    let qv = polynomial::peval(q, x);
    let rv = polynomial::peval(r, x);
    modular::lemma_add_cong(qv * (t - 1), rv, qv * (t - 1), 0, p);
    modular::lemma_mod_idem(t, p);
    modular::lemma_sub_cong(t % p, 1, t, 1, p);
    modular::lemma_mod_idem(t - 1, p);
    modular::lemma_mod_idem(qv, p);
    modular::lemma_mul_cong(qv % p, (t - 1) % p, qv, t - 1, p);
}

} // verus!
