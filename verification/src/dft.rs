//! Laws of the transforms: they undo each other, they are linear, and the
//! vanishing polynomial vanishes on the domain.

use crate::domain;
use crate::fields;
use crate::modular;
use crate::polynomial;
use crate::sums;
use vstd::arithmetic::div_mod::*;
use vstd::arithmetic::mul::*;
use vstd::arithmetic::power::*;
use vstd::arithmetic::power2::*;
use vstd::prelude::*;

verus! {

/// Every element of the sequence lies in the scalar field.
pub open spec fn in_field(s: Seq<int>) -> bool {
    forall|i: int| 0 <= i < s.len() ==> 0 <= #[trigger] s[i] < fields::fr_modulus()
}

/// The full order takes a primitive root of unity to one.
pub proof fn law_root_order(w: int, bits: nat)
    requires
        domain::is_primitive_root(w, bits),
    ensures
        fields::fpow(w, pow2(bits)) == 1,
{
    fields::lemma_fr_modulus();
    let p = fields::fr_modulus();
    lemma_small_mod(1, p as nat);
    if bits == 0 {
        lemma2_to64();
        lemma_pow1(w);
    } else {
        let h = pow2((bits - 1) as nat);
        lemma_pow2_unfold(bits);
        lemma_pow_adds(w, h, h);
        modular::lemma_mod_shift(p - 1, -1, 1, p);
        modular::lemma_mod_idem(pow(w, h), p);
        modular::lemma_mul_cong(pow(w, h), pow(w, h), -1, -1, p);
    }
}

/// No smaller positive exponent takes a primitive root of unity to one.
pub proof fn law_root_is_primitive(w: int, bits: nat, d: nat)
    requires
        domain::is_primitive_root(w, bits),
        0 < d < pow2(bits),
    ensures
        fields::fpow(w, d) != 1,
    decreases bits,
{
    fields::lemma_fr_modulus();
    let p = fields::fr_modulus();
    lemma2_to64();
    if fields::fpow(w, d) == 1 {
        let h = pow2((bits - 1) as nat);
        lemma_pow2_unfold(bits);
        lemma_small_mod(1, p as nat);
        if d % 2 == 1 {
            // w^(d h) would be both 1 and (-1)^d.
            lemma_pow_multiplies(w, d, h);
            lemma_pow_multiplies(w, h, d);
            assert(d * h == h * d) by (nonlinear_arith);
            modular::lemma_pow_cong(pow(w, d), 1, h, p);
            lemma1_pow(h);
            modular::lemma_mod_shift(p - 1, -1, 1, p);
            modular::lemma_mod_idem(pow(w, h), p);
            modular::lemma_pow_cong(pow(w, h), -1, d, p);
            lemma_pow_adds(-1, (d - 1) as nat, 1);
            lemma_pow1(-1);
            lemma_pow_multiplies(-1, 2, d / 2);
            lemma_pow_adds(-1, 1, 1);
            lemma1_pow(d / 2);
            assert((d - 1) as nat == 2 * (d / 2));
            lemma_small_mod((p - 1) as nat, p as nat);
        } else {
            // The square of w is a primitive root of half the order.
            assert(bits >= 2);
            let v = w * w;
            let q = pow2((bits - 2) as nat);
            lemma_pow2_unfold((bits - 1) as nat);
            lemma_pow1(w);
            lemma_pow_adds(w, 1, 1);
            lemma_pow_multiplies(w, 2, q);
            lemma_pow_multiplies(w, 2, d / 2);
            assert(2 * (d / 2) == d);
            law_root_is_primitive(v, (bits - 1) as nat, d / 2);
        }
    }
}

/// The sum over the domain of the powers of `u^k w^j`: the size where `j` is `k`
/// and zero elsewhere, for `u` the inverse of `w`.
proof fn lemma_orthogonal(w: int, u: int, bits: nat, j: nat, k: nat)
    requires
        domain::is_primitive_root(w, bits),
        fields::fmul(w, u) == 1,
        j < pow2(bits),
        k < pow2(bits),
    ensures
        sums::sum(|i: int| pow(pow(u, k) * pow(w, j), i as nat), pow2(bits))
            % fields::fr_modulus() == (if j == k {
            pow2(bits) as int
        } else {
            0
        }) % fields::fr_modulus(),
{
    fields::lemma_fr_modulus();
    let p = fields::fr_modulus();
    let n = pow2(bits);
    let x = pow(u, k) * pow(w, j);
    let f = |i: int| pow(x, i as nat);
    lemma_small_mod(1, p as nat);
    lemma_small_mod(0, p as nat);
    lemma_inverse_powers(w, u, k);
    if j == k {
        let one = |i: int| 1int;
        lemma_mul_is_commutative(pow(u, k), pow(w, j));
        assert forall|i: int| 0 <= i < n implies #[trigger] f(i) % p == one(i) % p by {
            modular::lemma_pow_cong(x, 1, i as nat, p);
            lemma1_pow(i as nat);
        }
        sums::lemma_sum_cong(f, one, n, p);
        lemma_sum_ones(n);
    } else {
        // x^n = 1.
        law_root_order(w, bits);
        lemma_inverse_powers(w, u, n);
        lemma_pow_distributes(pow(u, k), pow(w, j), n);
        lemma_pow_multiplies(u, k, n);
        lemma_pow_multiplies(u, n, k);
        lemma_pow_multiplies(w, j, n);
        lemma_pow_multiplies(w, n, j);
        lemma_mul_is_commutative(k as int, n as int);
        lemma_mul_is_commutative(j as int, n as int);
        modular::lemma_mul_cong(pow(w, n), pow(u, n), 1, pow(u, n), p);
        assert(pow(u, n) % p == 1);
        modular::lemma_pow_cong(pow(u, n), 1, k, p);
        modular::lemma_pow_cong(pow(w, n), 1, j, p);
        lemma1_pow(k);
        lemma1_pow(j);
        modular::lemma_mul_cong(pow(u, k * n), pow(w, j * n), 1, 1, p);
        // x is not 1.
        if x % p == 1 {
            // w^j = w^k u^k w^j = w^k
            let a = pow(w, k) * pow(u, k);
            modular::lemma_mul_cong(a, pow(w, j), 1, pow(w, j), p);
            modular::lemma_mul_cong(pow(w, k), x, pow(w, k), 1, p);
            assert(pow(w, k) * (pow(u, k) * pow(w, j)) == a * pow(w, j)) by (nonlinear_arith)
                requires
                    a == pow(w, k) * pow(u, k),
            ;
            let (lo, hi) = if j < k {
                (j, k)
            } else {
                (k, j)
            };
            let d = (hi - lo) as nat;
            lemma_pow_adds(w, d, lo);
            assert(w % p != 0) by {
                if w % p == 0 {
                    modular::lemma_mul_cong(w, u, 0, u, p);
                }
            }
            modular::lemma_pow_nonzero(w, lo, p);
            modular::lemma_cancel(pow(w, d), 1, pow(w, lo), p);
            law_root_is_primitive(w, bits, d);
        }
        sums::lemma_geometric_vanishes(x, n, p);
    }
}

proof fn lemma_sum_ones(n: nat)
    ensures
        sums::sum(|i: int| 1int, n) == n,
    decreases n,
{
    if n > 0 {
        lemma_sum_ones((n - 1) as nat);
    }
}

/// Powers of inverses are inverse.
proof fn lemma_inverse_powers(w: int, u: int, k: nat)
    requires
        fields::fmul(w, u) == 1,
    ensures
        (pow(w, k) * pow(u, k)) % fields::fr_modulus() == 1,
{
    fields::lemma_fr_modulus();
    let p = fields::fr_modulus();
    lemma_small_mod(1, p as nat);
    lemma_pow_distributes(w, u, k);
    modular::lemma_pow_cong(w * u, 1, k, p);
    lemma1_pow(k);
}

/// The double sum behind a transform and its inverse: where `d[i]` is `scale`
/// times the value of `e` at `u^i`, the value of `d` at `w^j` is `n * scale`
/// times `e[j]`.
proof fn lemma_transform_pair(
    e: Seq<int>,
    d: Seq<int>,
    w: int,
    u: int,
    scale: int,
    bits: nat,
    j: nat,
)
    requires
        domain::is_primitive_root(w, bits),
        fields::fmul(w, u) == 1,
        e.len() == pow2(bits),
        d.len() == pow2(bits),
        j < pow2(bits),
        forall|i: int|
            0 <= i < d.len() ==> #[trigger] d[i] % fields::fr_modulus() == (scale
                * polynomial::peval(e, pow(u, i as nat))) % fields::fr_modulus(),
    ensures
        polynomial::peval(d, pow(w, j)) % fields::fr_modulus() == (scale * (pow2(bits)
            * e[j as int])) % fields::fr_modulus(),
{
    fields::lemma_fr_modulus();
    let p = fields::fr_modulus();
    let n = pow2(bits);
    let x = pow(w, j);
    // The value of d as a double sum.
    let term = |i: int, k: int| e[k] * pow(pow(u, k as nat) * x, i as nat);
    let f = |i: int| polynomial::coeff(d, i) * pow(x, i as nat);
    let inner = |i: int| sums::sum(|k: int| term(i, k), n);
    let g = |i: int| scale * inner(i);
    polynomial::lemma_peval_sum(d, x, n);
    assert forall|i: int| 0 <= i < n implies #[trigger] f(i) % p == g(i) % p by {
        let y = pow(u, i as nat);
        polynomial::lemma_peval_sum(e, y, n);
        let h = |k: int| polynomial::coeff(e, k) * pow(y, k as nat);
        let xi = pow(x, i as nat);
        sums::lemma_sum_scale(h, xi, n);
        let a = |k: int| xi * h(k);
        let b = |k: int| term(i, k);
        assert forall|k: int| 0 <= k < n implies #[trigger] a(k) == b(k) by {
            lemma_pow_multiplies(u, i as nat, k as nat);
            lemma_pow_multiplies(u, k as nat, i as nat);
            lemma_mul_is_commutative(i, k);
            lemma_pow_distributes(pow(u, k as nat), x, i as nat);
            let ek = e[k];
            let uk = pow(pow(u, k as nat), i as nat);
            assert(xi * (ek * uk) == ek * (uk * xi)) by (nonlinear_arith);
        }
        sums::lemma_sum_eq(a, b, n);
        assert(d[i] % p == (scale * polynomial::peval(e, y)) % p);
        modular::lemma_mul_cong(d[i], xi, scale * polynomial::peval(e, y), xi, p);
        let pe = polynomial::peval(e, y);
        assert((scale * pe) * xi == scale * (xi * pe)) by (nonlinear_arith);
    }
    sums::lemma_sum_cong(f, g, n, p);
    sums::lemma_sum_scale(inner, scale, n);
    sums::lemma_sum_swap(term, n, n);
    // For each k the sum over i is a geometric one.
    let outer = |k: int| sums::sum(|i: int| term(i, k), n);
    assert forall|k: int| 0 <= k < n implies #[trigger] outer(k) % p == (if j == k {
        n * e[k]
    } else {
        0
    }) % p by {
        lemma_column(e, w, u, bits, j, k as nat);
        sums::lemma_sum_eq(
            |i: int| term(i, k),
            |i: int| e[k as nat as int] * pow(pow(u, k as nat) * pow(w, j), i as nat),
            n,
        );
    }
    lemma_small_mod(0, p as nat);
    assert(outer(j as int) % p == (n * e[j as int]) % p);
    sums::lemma_sum_single(outer, j as int, n, p);
    let s = sums::sum(outer, n);
    modular::lemma_mul_cong(scale, s, scale, n * e[j as int], p);
}

/// One column of the double sum.
proof fn lemma_column(e: Seq<int>, w: int, u: int, bits: nat, j: nat, k: nat)
    requires
        domain::is_primitive_root(w, bits),
        fields::fmul(w, u) == 1,
        j < pow2(bits),
        k < pow2(bits),
    ensures
        sums::sum(|i: int| e[k as int] * pow(pow(u, k) * pow(w, j), i as nat), pow2(bits))
            % fields::fr_modulus() == (if j == k {
            pow2(bits) * e[k as int]
        } else {
            0
        }) % fields::fr_modulus(),
{
    fields::lemma_fr_modulus();
    let p = fields::fr_modulus();
    let n = pow2(bits);
    let x = pow(u, k) * pow(w, j);
    let ek = e[k as int];
    let f = |i: int| pow(x, i as nat);
    sums::lemma_sum_scale(f, ek, n);
    let a = |i: int| ek * f(i);
    let b = |i: int| ek * pow(pow(u, k) * pow(w, j), i as nat);
    sums::lemma_sum_eq(a, b, n);
    lemma_orthogonal(w, u, bits, j, k);
    let t = if j == k {
        n as int
    } else {
        0
    };
    modular::lemma_mul_cong(ek, sums::sum(f, n), ek, t, p);
    lemma_mul_is_commutative(ek, t);
    assert(0 * ek == 0);
}

/// The inverse of the size cancels it.
proof fn lemma_size_cancels(bits: nat, c: int)
    requires
        bits <= 28,
        0 <= c < fields::fr_modulus(),
    ensures
        (fields::finv(pow2(bits) as int) * (pow2(bits) * c)) % fields::fr_modulus() == c,
{
    fields::lemma_fr_modulus();
    let p = fields::fr_modulus();
    let n = pow2(bits) as int;
    lemma2_to64();
    lemma_pow2_pos(bits);
    if bits < 28 {
        lemma_pow2_strictly_increases(bits, 28);
    }
    fields::law_fr_inverse(n);
    let v = fields::finv(n);
    lemma_small_mod(1, p as nat);
    modular::lemma_mul_cong(v * n, c, 1, c, p);
    assert(v * (n * c) == (v * n) * c) by (nonlinear_arith);
    lemma_small_mod(c as nat, p as nat);
}

/// The coefficients that the inverse transform gives are those of a polynomial
/// with the given values: transforming them gives the values again.
pub proof fn law_dft_of_idft(e: Seq<int>, w: int, bits: nat)
    requires
        0 < w < fields::fr_modulus(),
        domain::is_primitive_root(w, bits),
        e.len() == pow2(bits),
        in_field(e),
    ensures
        domain::dft(domain::idft(e, w), w) == e,
{
    fields::lemma_fr_modulus();
    let p = fields::fr_modulus();
    let d = domain::idft(e, w);
    let u = fields::finv(w);
    let scale = fields::finv(e.len() as int);
    fields::law_fr_inverse(w);
    domain::law_two_adicity(w, bits);
    assert forall|i: int| 0 <= i < d.len() implies #[trigger] d[i] % p == (scale
        * polynomial::peval(e, pow(u, i as nat))) % p by {
        let v = polynomial::peval(e, pow(u, i as nat));
        modular::lemma_mod_idem(v, p);
        modular::lemma_mul_cong(v % p, scale, v, scale, p);
        modular::lemma_mod_idem((v % p) * scale, p);
        lemma_mul_is_commutative(v, scale);
    }
    assert forall|j: int| 0 <= j < e.len() implies #[trigger] domain::dft(d, w)[j] == e[j] by {
        lemma_transform_pair(e, d, w, u, scale, bits, j as nat);
        lemma_size_cancels(bits, e[j]);
    }
    assert(domain::dft(d, w) =~= e);
}

/// Transforming coefficients and back gives them again.
pub proof fn law_idft_of_dft(c: Seq<int>, w: int, bits: nat)
    requires
        0 < w < fields::fr_modulus(),
        domain::is_primitive_root(w, bits),
        c.len() == pow2(bits),
        in_field(c),
    ensures
        domain::idft(domain::dft(c, w), w) == c,
{
    fields::lemma_fr_modulus();
    let p = fields::fr_modulus();
    let d = domain::dft(c, w);
    let u = fields::finv(w);
    let scale = fields::finv(c.len() as int);
    fields::law_fr_inverse(w);
    domain::law_two_adicity(w, bits);
    domain::lemma_inverse_root(w, bits);
    assert forall|i: int| 0 <= i < d.len() implies #[trigger] d[i] % p == (1 * polynomial::peval(
        c,
        pow(w, i as nat),
    )) % p by {
        modular::lemma_mod_idem(polynomial::peval(c, pow(w, i as nat)), p);
    }
    assert forall|j: int| 0 <= j < c.len() implies #[trigger] domain::idft(d, w)[j] == c[j] by {
        lemma_transform_pair(c, d, u, w, 1, bits, j as nat);
        let v = polynomial::peval(d, pow(u, j as nat));
        let t = pow2(bits) * c[j];
        assert(1 * t == t);
        modular::lemma_mod_idem(v, p);
        modular::lemma_mul_cong(v % p, scale, t, scale, p);
        lemma_mul_is_commutative(t, scale);
        lemma_size_cancels(bits, c[j]);
    }
    assert(domain::idft(d, w) =~= c);
}

/// Two polynomials of fewer coefficients than points that agree on the domain
/// are equal.
pub proof fn law_dft_injective(c: Seq<int>, d: Seq<int>, w: int, bits: nat)
    requires
        0 < w < fields::fr_modulus(),
        domain::is_primitive_root(w, bits),
        c.len() == pow2(bits),
        d.len() == pow2(bits),
        in_field(c),
        in_field(d),
        domain::dft(c, w) == domain::dft(d, w),
    ensures
        c == d,
{
    law_idft_of_dft(c, w, bits);
    law_idft_of_dft(d, w, bits);
}

/// The coset transform of `c` is the transform of the scaled coefficients.
proof fn lemma_coset_scaling(c: Seq<int>, d: Seq<int>, w: int, shift: int)
    requires
        c.len() == d.len(),
        forall|i: int|
            0 <= i < c.len() ==> #[trigger] d[i] == fields::fmul(
                c[i],
                fields::fpow(shift, i as nat),
            ),
    ensures
        domain::coset_dft(c, w, shift) == domain::dft(d, w),
{
    fields::lemma_fr_modulus();
    let p = fields::fr_modulus();
    let e = Seq::new(c.len(), |i: int| c[i] * pow(shift, i as nat));
    assert forall|i: int| 0 <= i < d.len() implies #[trigger] d[i] % p == e[i] % p by {
        let s = pow(shift, i as nat);
        modular::lemma_mod_idem(s, p);
        modular::lemma_mul_cong(c[i], s % p, c[i], s, p);
        modular::lemma_mod_idem(c[i] * (s % p), p);
    }
    assert forall|i: int| 0 <= i < c.len() implies #[trigger] domain::coset_dft(c, w, shift)[i]
        == domain::dft(d, w)[i] by {
        let x = pow(w, i as nat);
        polynomial::lemma_peval_cong(d, e, x, x, p);
        domain::lemma_peval_scaled(c, e, shift, x);
    }
    assert(domain::coset_dft(c, w, shift) =~= domain::dft(d, w));
}

/// Scaling by a power and by the power of the inverse cancel.
proof fn lemma_scale_back(c: int, shift: int, i: nat)
    requires
        0 <= c < fields::fr_modulus(),
        0 < shift < fields::fr_modulus(),
    ensures
        fields::fmul(
            fields::fmul(c, fields::fpow(shift, i)),
            fields::fpow(fields::finv(shift), i),
        ) == c,
        fields::fmul(
            fields::fmul(c, fields::fpow(fields::finv(shift), i)),
            fields::fpow(shift, i),
        ) == c,
{
    fields::lemma_fr_modulus();
    let p = fields::fr_modulus();
    let t = fields::finv(shift);
    fields::law_fr_inverse(shift);
    lemma_inverse_powers(shift, t, i);
    let a = pow(shift, i);
    let b = pow(t, i);
    modular::lemma_mod_idem(a, p);
    modular::lemma_mod_idem(b, p);
    modular::lemma_mul_cong(a % p, b % p, a, b, p);
    fields::law_fr_ring(c, a % p, b % p);
    fields::law_fr_ring(c, b % p, a % p);
    fields::law_fr_ring(a % p, b % p, 0);
    fields::law_fr_units(c, 0);
}

/// On a coset, too, transforming coefficients and back gives them again.
pub proof fn law_coset_idft_of_dft(c: Seq<int>, w: int, shift: int, bits: nat)
    requires
        0 < w < fields::fr_modulus(),
        0 < shift < fields::fr_modulus(),
        domain::is_primitive_root(w, bits),
        c.len() == pow2(bits),
        in_field(c),
    ensures
        domain::coset_idft(domain::coset_dft(c, w, shift), w, shift) == c,
{
    fields::lemma_fr_modulus();
    let d = Seq::new(c.len(), |i: int| fields::fmul(c[i], fields::fpow(shift, i as nat)));
    lemma_coset_scaling(c, d, w, shift);
    assert(in_field(d)) by {
        assert forall|i: int| 0 <= i < d.len() implies 0 <= #[trigger] d[i] < fields::fr_modulus() by {
            fields::lemma_frange(c[i], fields::fpow(shift, i as nat), 0);
        }
    }
    law_idft_of_dft(d, w, bits);
    let e = domain::coset_dft(c, w, shift);
    assert forall|i: int| 0 <= i < c.len() implies #[trigger] domain::coset_idft(e, w, shift)[i]
        == c[i] by {
        assert(domain::idft(e, w)[i] == d[i]);
        lemma_scale_back(c[i], shift, i as nat);
    }
    assert(domain::coset_idft(e, w, shift) =~= c);
}

/// On a coset, too, the inverse transform interpolates.
pub proof fn law_coset_dft_of_idft(e: Seq<int>, w: int, shift: int, bits: nat)
    requires
        0 < w < fields::fr_modulus(),
        0 < shift < fields::fr_modulus(),
        domain::is_primitive_root(w, bits),
        e.len() == pow2(bits),
        in_field(e),
    ensures
        domain::coset_dft(domain::coset_idft(e, w, shift), w, shift) == e,
{
    fields::lemma_fr_modulus();
    let c = domain::coset_idft(e, w, shift);
    let d = domain::idft(e, w);
    assert forall|i: int| 0 <= i < c.len() implies #[trigger] d[i] == fields::fmul(
        c[i],
        fields::fpow(shift, i as nat),
    ) by {
        fields::lemma_frange(
            polynomial::feval(e, pow(fields::finv(w), i as nat)),
            fields::finv(e.len() as int),
            0,
        );
        lemma_scale_back(d[i], shift, i as nat);
    }
    lemma_coset_scaling(c, d, w, shift);
    law_dft_of_idft(e, w, bits);
}

/// The transform is linear: the values of a sum are the sums of the values.
pub proof fn law_dft_linear(a: Seq<int>, b: Seq<int>, c: Seq<int>, w: int)
    requires
        a.len() == c.len(),
        b.len() == c.len(),
        forall|i: int| 0 <= i < c.len() ==> #[trigger] c[i] == fields::fadd(a[i], b[i]),
    ensures
        forall|i: int|
            0 <= i < c.len() ==> #[trigger] domain::dft(c, w)[i] == fields::fadd(
                domain::dft(a, w)[i],
                domain::dft(b, w)[i],
            ),
{
    fields::lemma_fr_modulus();
    let p = fields::fr_modulus();
    assert forall|i: int| 0 <= i < c.len() implies #[trigger] domain::dft(c, w)[i] == fields::fadd(
        domain::dft(a, w)[i],
        domain::dft(b, w)[i],
    ) by {
        let x = pow(w, i as nat);
        lemma_peval_add(a, b, c, x);
        let va = polynomial::peval(a, x);
        let vb = polynomial::peval(b, x);
        modular::lemma_mod_idem(va, p);
        modular::lemma_mod_idem(vb, p);
        modular::lemma_add_cong(va % p, vb % p, va, vb, p);
    }
}

/// The value of a sum of polynomials.
pub proof fn lemma_peval_add(a: Seq<int>, b: Seq<int>, c: Seq<int>, x: int)
    requires
        a.len() == c.len(),
        b.len() == c.len(),
        forall|i: int| 0 <= i < c.len() ==> #[trigger] c[i] == fields::fadd(a[i], b[i]),
    ensures
        polynomial::peval(c, x) % fields::fr_modulus() == (polynomial::peval(a, x)
            + polynomial::peval(b, x)) % fields::fr_modulus(),
{
    fields::lemma_fr_modulus();
    let p = fields::fr_modulus();
    let n = c.len();
    let fa = |i: int| polynomial::coeff(a, i) * pow(x, i as nat);
    let fb = |i: int| polynomial::coeff(b, i) * pow(x, i as nat);
    let fc = |i: int| polynomial::coeff(c, i) * pow(x, i as nat);
    let fs = |i: int| fa(i) + fb(i);
    polynomial::lemma_peval_sum(a, x, n);
    polynomial::lemma_peval_sum(b, x, n);
    polynomial::lemma_peval_sum(c, x, n);
    sums::lemma_sum_add(fa, fb, n);
    assert forall|i: int| 0 <= i < n implies #[trigger] fc(i) % p == fs(i) % p by {
        assert(c[i] == fields::fadd(a[i], b[i]));
        let q = pow(x, i as nat);
        modular::lemma_mod_idem(a[i] + b[i], p);
        modular::lemma_mul_cong(c[i], q, a[i] + b[i], q, p);
        assert((a[i] + b[i]) * q == a[i] * q + b[i] * q) by (nonlinear_arith);
    }
    sums::lemma_sum_cong(fc, fs, n, p);
}

/// The vanishing polynomial is zero at every point of the domain.
pub proof fn law_vanishing_on_domain(w: int, bits: nat, i: nat)
    requires
        domain::is_primitive_root(w, bits),
    ensures
        fields::fsub(fields::fpow(fields::fpow(w, i), pow2(bits)), 1) == 0,
{
    fields::lemma_fr_modulus();
    let p = fields::fr_modulus();
    let n = pow2(bits);
    law_root_order(w, bits);
    modular::lemma_mod_idem(pow(w, i), p);
    modular::lemma_pow_cong(fields::fpow(w, i), pow(w, i), n, p);
    lemma_pow_multiplies(w, i, n);
    lemma_pow_multiplies(w, n, i);
    lemma_mul_is_commutative(i as int, n as int);
    lemma_small_mod(1, p as nat);
    modular::lemma_pow_cong(pow(w, n), 1, i, p);
    lemma1_pow(i);
    lemma_small_mod(0, p as nat);
}

/// What the transforms compute at each place: the value of the polynomial at a power of the
/// root, or at the shift times that power.
pub proof fn law_transform_values(c: Seq<int>, w: int, shift: int, i: int)
    requires
        0 <= i < c.len(),
    ensures
        domain::dft(c, w).len() == c.len(),
        domain::dft(c, w)[i] == polynomial::feval(c, fields::fpow(w, i as nat)),
        domain::coset_dft(c, w, shift).len() == c.len(),
        domain::coset_dft(c, w, shift)[i] == polynomial::feval(
            c,
            fields::fmul(shift, fields::fpow(w, i as nat)),
        ),
{
    fields::lemma_fr_modulus();
    let p = fields::fr_modulus();
    let q = pow(w, i as nat);
    let x = fields::fpow(w, i as nat);
    modular::lemma_mod_idem(q, p);
    polynomial::lemma_peval_cong(c, c, q, x, p);
    modular::lemma_mul_cong(shift, q, shift, x, p);
    modular::lemma_mod_idem(shift * x, p);
    polynomial::lemma_peval_cong(c, c, shift * q, fields::fmul(shift, x), p);
}

} // verus!
