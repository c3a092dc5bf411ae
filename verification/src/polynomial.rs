//! Polynomials over the scalar field in coefficient form.

use crate::fields;
use crate::fields::Fr;
use crate::modular;
use crate::sums;
use vstd::arithmetic::div_mod::*;
use vstd::arithmetic::mul::*;
use vstd::arithmetic::power::*;
use vstd::prelude::*;

verus! {

/// The value at `x` of the integer polynomial with coefficients `c`, the
/// constant term first.
pub open spec fn peval(c: Seq<int>, x: int) -> int
    decreases c.len(),
{
    if c.len() == 0 {
        0
    } else {
        c[0] + x * peval(c.skip(1), x)
    }
}

/// The value at `x` of the polynomial over the scalar field with coefficients
/// `c`.
pub open spec fn feval(c: Seq<int>, x: int) -> int {
    peval(c, x) % fields::fr_modulus()
}

/// The coefficient of `X^i`, zero beyond the end.
pub open spec fn coeff(c: Seq<int>, i: int) -> int {
    if 0 <= i < c.len() {
        c[i]
    } else {
        0
    }
}

/// A polynomial evaluates to the sum of its terms.
pub proof fn lemma_peval_sum(c: Seq<int>, x: int, n: nat)
    requires
        n >= c.len(),
    ensures
        peval(c, x) == sums::sum(|i: int| coeff(c, i) * pow(x, i as nat), n),
    decreases c.len(), n,
{
    let f = |i: int| coeff(c, i) * pow(x, i as nat);
    if n > c.len() {
        lemma_peval_sum(c, x, (n - 1) as nat);
        assert(coeff(c, n - 1) * pow(x, (n - 1) as nat) == 0) by (nonlinear_arith)
            requires
                coeff(c, n - 1) == 0,
        ;
    } else if n > 0 {
        let d = c.skip(1);
        let n1 = (n - 1) as nat;
        lemma_peval_sum(d, x, n1);
        let g = |i: int| coeff(d, i) * pow(x, i as nat);
        sums::lemma_sum_scale(g, x, n1);
        let h = |i: int| x * g(i);
        lemma_sum_shift(f, n1);
        let shifted = |i: int| f(i + 1);
        assert forall|i: int| 0 <= i < n1 implies #[trigger] shifted(i) == h(i) by {
            lemma_pow_adds(x, 1, i as nat);
            lemma_pow1(x);
            let a = coeff(d, i);
            let q = pow(x, i as nat);
            assert(a * (x * q) == x * (a * q)) by (nonlinear_arith);
        }
        sums::lemma_sum_eq(shifted, h, n1);
        lemma_pow0(x);
        assert(f(0) == c[0]);
    }
}

/// The first term of a sum can be split off.
proof fn lemma_sum_shift(f: spec_fn(int) -> int, n: nat)
    ensures
        sums::sum(f, n + 1) == f(0) + sums::sum(|i: int| f(i + 1), n),
    decreases n,
{
    let g = |i: int| f(i + 1);
    if n > 0 {
        lemma_sum_shift(f, (n - 1) as nat);
        assert(sums::sum(f, n + 1) == sums::sum(f, n) + f(n as int));
    } else {
        assert(sums::sum(f, 1) == sums::sum(f, 0) + f(0));
    }
}

/// Congruent coefficients and arguments give congruent values.
pub proof fn lemma_peval_cong(c: Seq<int>, d: Seq<int>, x: int, y: int, m: int)
    requires
        m > 0,
        c.len() == d.len(),
        forall|i: int| 0 <= i < c.len() ==> #[trigger] c[i] % m == d[i] % m,
        x % m == y % m,
    ensures
        peval(c, x) % m == peval(d, y) % m,
    decreases c.len(),
{
    if c.len() > 0 {
        assert forall|i: int| 0 <= i < c.skip(1).len() implies #[trigger] c.skip(1)[i] % m
            == d.skip(1)[i] % m by {
            assert(c[i + 1] % m == d[i + 1] % m);
        }
        lemma_peval_cong(c.skip(1), d.skip(1), x, y, m);
        modular::lemma_mul_cong(x, peval(c.skip(1), x), y, peval(d.skip(1), y), m);
        assert(c[0] % m == d[0] % m);
        modular::lemma_add_cong(c[0], x * peval(c.skip(1), x), d[0], y * peval(d.skip(1), y), m);
    }
}

/// A polynomial splits into its even and odd coefficients.
pub proof fn lemma_peval_split(c: Seq<int>, even: Seq<int>, odd: Seq<int>, x: int)
    requires
        c.len() == 2 * even.len(),
        odd.len() == even.len(),
        forall|i: int| 0 <= i < even.len() ==> #[trigger] even[i] == c[2 * i],
        forall|i: int| 0 <= i < odd.len() ==> #[trigger] odd[i] == c[2 * i + 1],
    ensures
        peval(c, x) == peval(even, x * x) + x * peval(odd, x * x),
    decreases c.len(),
{
    if c.len() > 0 {
        let c1 = c.skip(1);
        let c2 = c.skip(2);
        assert(c1.skip(1) =~= c2);
        let e1 = even.skip(1);
        let o1 = odd.skip(1);
        assert forall|i: int| 0 <= i < e1.len() implies #[trigger] e1[i] == c2[2 * i] by {
            assert(even[i + 1] == c[2 * (i + 1)]);
        }
        assert forall|i: int| 0 <= i < o1.len() implies #[trigger] o1[i] == c2[2 * i + 1] by {
            assert(odd[i + 1] == c[2 * (i + 1) + 1]);
        }
        lemma_peval_split(c2, e1, o1, x);
        assert(even[0] == c[0] && odd[0] == c[1]);
        let pe = peval(e1, x * x);
        let po = peval(o1, x * x);
        let p2 = peval(c2, x);
        assert(peval(c1, x) == c[1] + x * p2);
        assert(c[0] + x * (c[1] + x * p2) == (c[0] + (x * x) * pe) + x * (c[1] + (x * x) * po))
            by (nonlinear_arith)
            requires
                p2 == pe + x * po,
        ;
    } else {
        assert(x * 0 == 0);
    }
}

/// Evaluates the polynomial with the given coefficients at a point by Horner's
/// rule.
pub fn eval_poly_at(coeffs: &[Fr], x: &Fr) -> (r: Fr)
    requires
        fields::all_wf(coeffs@),
        x.wf(),
    ensures
        r.wf(),
        r@ == feval(fields::vals(coeffs@), x@),
{
    let mut result = Fr::zero();
    let ghost v = fields::vals(coeffs@);
    let n = coeffs.len();
    let mut i: usize = n;
    proof {
        fields::lemma_fr_modulus();
        assert(v.skip(n as int).len() == 0);
        lemma_small_mod(0, fields::fr_modulus() as nat);
    }
    while i > 0
        invariant
            i <= n,
            n == coeffs@.len(),
            v == fields::vals(coeffs@),
            fields::all_wf(coeffs@),
            x.wf(),
            result.wf(),
            result@ == feval(v.skip(i as int), x@),
        decreases i,
    {
        i = i - 1;
        let next = result.mul(x).add(&coeffs[i]);
        proof {
            fields::lemma_fr_modulus();
            let p = fields::fr_modulus();
            let t = v.skip(i as int);
            assert(t.skip(1) =~= v.skip(i + 1));
            let q = peval(v.skip(i + 1), x@);
            modular::lemma_mod_idem(q, p);
            modular::lemma_mul_cong(result@, x@, q, x@, p);
            lemma_mul_is_commutative(q, x@);
            modular::lemma_mod_idem(result@ * x@, p);
            modular::lemma_add_cong(fields::fmul(result@, x@), v[i as int], x@ * q, v[i as int], p);
        }
        result = next;
    }
    assert(v.skip(0) =~= v);
    result
}

/// The coefficient of `X^i` in the combination of the polynomials with the
/// scalars, as an integer.
pub open spec fn combined(polys: Seq<Seq<int>>, scalars: Seq<int>, i: int) -> int
    decreases polys.len(),
{
    if polys.len() == 0 {
        0
    } else {
        combined(polys.drop_last(), scalars, i) + coeff(polys.last(), i) * scalars[polys.len() - 1]
    }
}

/// The value of the combination of the polynomials with the scalars, as an
/// integer.
pub open spec fn combined_eval(polys: Seq<Seq<int>>, scalars: Seq<int>, x: int) -> int
    decreases polys.len(),
{
    if polys.len() == 0 {
        0
    } else {
        combined_eval(polys.drop_last(), scalars, x) + scalars[polys.len() - 1] * peval(
            polys.last(),
            x,
        )
    }
}

/// A coefficient of a combination is the sum over all polynomials of its coefficient times
/// the scalar, and so for the value.
pub proof fn law_combination_sum(polys: Seq<Seq<int>>, scalars: Seq<int>, i: int, x: int)
    requires
        polys.len() <= scalars.len(),
    ensures
        combined(polys, scalars, i) == sums::sum(
            |j: int| coeff(polys[j], i) * scalars[j],
            polys.len(),
        ),
        combined_eval(polys, scalars, x) == sums::sum(
            |j: int| peval(polys[j], x) * scalars[j],
            polys.len(),
        ),
    decreases polys.len(),
{
    let f = |j: int| coeff(polys[j], i) * scalars[j];
    let g = |j: int| peval(polys[j], x) * scalars[j];
    if polys.len() > 0 {
        let rest = polys.drop_last();
        let n = rest.len();
        law_combination_sum(rest, scalars, i, x);
        let fr = |j: int| coeff(rest[j], i) * scalars[j];
        let gr = |j: int| peval(rest[j], x) * scalars[j];
        assert forall|j: int| 0 <= j < n implies #[trigger] fr(j) == f(j) by {
            assert(rest[j] == polys[j]);
        }
        assert forall|j: int| 0 <= j < n implies #[trigger] gr(j) == g(j) by {
            assert(rest[j] == polys[j]);
        }
        sums::lemma_sum_eq(fr, f, n);
        sums::lemma_sum_eq(gr, g, n);
        assert(sums::sum(f, polys.len()) == sums::sum(f, n) + f(n as int));
        assert(sums::sum(g, polys.len()) == sums::sum(g, n) + g(n as int));
        lemma_mul_is_commutative(scalars[n as int], peval(polys.last(), x));
    }
}

/// The length of the longest of the polynomials.
pub open spec fn longest(polys: Seq<Seq<int>>) -> nat
    decreases polys.len(),
{
    if polys.len() == 0 {
        0
    } else if longest(polys.drop_last()) >= polys.last().len() {
        longest(polys.drop_last())
    } else {
        polys.last().len()
    }
}

/// No polynomial is longer than the longest.
pub proof fn lemma_longest(polys: Seq<Seq<int>>)
    ensures
        forall|j: int| 0 <= j < polys.len() ==> (#[trigger] polys[j]).len() <= longest(polys),
    decreases polys.len(),
{
    if polys.len() > 0 {
        lemma_longest(polys.drop_last());
        assert forall|j: int| 0 <= j < polys.len() implies (#[trigger] polys[j]).len() <= longest(
            polys,
        ) by {
            if j < polys.len() - 1 {
                assert(polys.drop_last()[j] == polys[j]);
            }
        }
    }
}

/// A bound on the lengths of polynomials bounds the longest.
pub proof fn lemma_longest_bound(polys: Seq<Seq<int>>, k: nat)
    requires
        forall|j: int| 0 <= j < polys.len() ==> (#[trigger] polys[j]).len() <= k,
    ensures
        longest(polys) <= k,
    decreases polys.len(),
{
    if polys.len() > 0 {
        assert forall|j: int| 0 <= j < polys.drop_last().len() implies (
        #[trigger] polys.drop_last()[j]).len() <= k by {
            assert(polys.drop_last()[j] == polys[j]);
        }
        lemma_longest_bound(polys.drop_last(), k);
        assert(polys.last() == polys[polys.len() - 1]);
    }
}

/// The combination of polynomials evaluates to the combination of their values:
/// evaluation is linear.
pub proof fn law_combination_eval(
    polys: Seq<Seq<int>>,
    scalars: Seq<int>,
    result: Seq<int>,
    x: int,
)
    requires
        forall|j: int| 0 <= j < polys.len() ==> (#[trigger] polys[j]).len() <= result.len(),
        forall|i: int|
            0 <= i < result.len() ==> (#[trigger] result[i]) % fields::fr_modulus() == combined(
                polys,
                scalars,
                i,
            ) % fields::fr_modulus(),
    ensures
        feval(result, x) == combined_eval(polys, scalars, x) % fields::fr_modulus(),
{
    fields::lemma_fr_modulus();
    let p = fields::fr_modulus();
    let n = result.len();
    let f = |i: int| coeff(result, i) * pow(x, i as nat);
    let g = |i: int| combined(polys, scalars, i) * pow(x, i as nat);
    lemma_peval_sum(result, x, n);
    assert forall|i: int| 0 <= i < n implies #[trigger] f(i) % p == g(i) % p by {
        assert(result[i] % p == combined(polys, scalars, i) % p);
        modular::lemma_mul_cong(
            result[i],
            pow(x, i as nat),
            combined(polys, scalars, i),
            pow(x, i as nat),
            p,
        );
    }
    sums::lemma_sum_cong(f, g, n, p);
    lemma_combined_sum(polys, scalars, x, n);
}

proof fn lemma_combined_sum(polys: Seq<Seq<int>>, scalars: Seq<int>, x: int, n: nat)
    requires
        forall|j: int| 0 <= j < polys.len() ==> (#[trigger] polys[j]).len() <= n,
    ensures
        sums::sum(|i: int| combined(polys, scalars, i) * pow(x, i as nat), n) == combined_eval(
            polys,
            scalars,
            x,
        ),
    decreases polys.len(),
{
    let g = |i: int| combined(polys, scalars, i) * pow(x, i as nat);
    if polys.len() == 0 {
        assert forall|i: int| 0 <= i < n implies #[trigger] g(i) == 0 by {
            assert(0 * pow(x, i as nat) == 0);
        }
        sums::lemma_sum_zero(g, n);
    } else {
        let rest = polys.drop_last();
        let last = polys.last();
        let s = scalars[polys.len() - 1];
        assert(polys[polys.len() - 1].len() <= n);
        assert forall|j: int| 0 <= j < rest.len() implies (#[trigger] rest[j]).len() <= n by {
            assert(polys[j].len() <= n);
        }
        lemma_combined_sum(rest, scalars, x, n);
        let a = |i: int| combined(rest, scalars, i) * pow(x, i as nat);
        let b = |i: int| coeff(last, i) * pow(x, i as nat);
        let sb = |i: int| s * b(i);
        let ab = |i: int| a(i) + sb(i);
        assert forall|i: int| 0 <= i < n implies #[trigger] g(i) == ab(i) by {
            let u = combined(rest, scalars, i);
            let v = coeff(last, i);
            let q = pow(x, i as nat);
            assert((u + v * s) * q == u * q + s * (v * q)) by (nonlinear_arith);
        }
        sums::lemma_sum_eq(g, ab, n);
        sums::lemma_sum_add(a, sb, n);
        sums::lemma_sum_scale(b, s, n);
        lemma_peval_sum(last, x, n);
    }
}

/// The coefficients of the polynomials behind slices of scalars.
pub open spec fn slice_vals(polys: Seq<&[Fr]>) -> Seq<Seq<int>> {
    Seq::new(polys.len(), |j: int| fields::vals(polys[j]@))
}

/// Adds `scalar` times a polynomial to the coefficients in `result`; terms
/// beyond its end are left out.
pub fn add_scaled(result: &mut [Fr], poly: &[Fr], scalar: &Fr)
    requires
        fields::all_wf(old(result)@),
        fields::all_wf(poly@),
        scalar.wf(),
    ensures
        final(result)@.len() == old(result)@.len(),
        fields::all_wf(final(result)@),
        forall|i: int|
            0 <= i < final(result)@.len() ==> (#[trigger] final(result)@[i])@ == (old(result)@[i]@
                + coeff(fields::vals(poly@), i) * scalar@) % fields::fr_modulus(),
{
    let n = result.len();
    let len: usize = if poly.len() < n {
        poly.len()
    } else {
        n
    };
    let ghost start = result@;
    let ghost v = fields::vals(poly@);
    proof {
        fields::lemma_fr_modulus();
    }
    for k in 0..len
        invariant
            n == result@.len(),
            n == start.len(),
            len <= n,
            len <= poly@.len(),
            v == fields::vals(poly@),
            scalar.wf(),
            fields::all_wf(poly@),
            fields::all_wf(start),
            fields::fr_modulus() > 0,
            forall|i: int|
                0 <= i < n ==> (#[trigger] result@[i]).wf() && (if i < k {
                    result@[i]@ == (start[i]@ + coeff(v, i) * scalar@) % fields::fr_modulus()
                } else {
                    result@[i] == start[i]
                }),
    {
        let term = poly[k].mul(scalar);
        let x = result[k].add(&term);
        proof {
            let p = fields::fr_modulus();
            let t = poly@[k as int]@ * scalar@;
            modular::lemma_mod_idem(t, p);
            modular::lemma_add_cong(start[k as int]@, t % p, start[k as int]@, t, p);
        }
        result[k] = x;
    }
    proof {
        assert forall|i: int| 0 <= i < n implies (#[trigger] result@[i])@ == (start[i]@ + coeff(
            v,
            i,
        ) * scalar@) % fields::fr_modulus() by {
            if i >= len {
                assert(0 * scalar@ == 0);
                start[i].lemma_of_view();
                lemma_small_mod(start[i]@ as nat, fields::fr_modulus() as nat);
            }
        }
    }
}

/// Adds the combination of the polynomials with the scalars to the coefficients
/// in `result`; terms beyond its end are left out.
pub fn linear_combination_into(result: &mut [Fr], polys: &[&[Fr]], scalars: &[Fr])
    requires
        polys@.len() == scalars@.len(),
        fields::all_wf(old(result)@),
        fields::all_wf(scalars@),
        forall|j: int| 0 <= j < polys@.len() ==> fields::all_wf((#[trigger] polys@[j])@),
    ensures
        final(result)@.len() == old(result)@.len(),
        fields::all_wf(final(result)@),
        forall|i: int|
            0 <= i < final(result)@.len() ==> (#[trigger] final(result)@[i])@ == (old(result)@[i]@
                + combined(slice_vals(polys@), fields::vals(scalars@), i)) % fields::fr_modulus(),
{
    let ghost start = result@;
    let ghost ps = slice_vals(polys@);
    let ghost ss = fields::vals(scalars@);
    proof {
        fields::lemma_fr_modulus();
        assert forall|i: int| 0 <= i < start.len() implies (#[trigger] start[i])@ == (start[i]@
            + combined(ps.take(0), ss, i)) % fields::fr_modulus() by {
            start[i].lemma_of_view();
            lemma_small_mod(start[i]@ as nat, fields::fr_modulus() as nat);
        }
    }
    for j in 0..polys.len()
        invariant
            polys@.len() == scalars@.len(),
            fields::all_wf(scalars@),
            forall|k: int| 0 <= k < polys@.len() ==> fields::all_wf((#[trigger] polys@[k])@),
            ps == slice_vals(polys@),
            ss == fields::vals(scalars@),
            fields::fr_modulus() > 0,
            result@.len() == start.len(),
            fields::all_wf(result@),
            forall|i: int|
                0 <= i < start.len() ==> (#[trigger] result@[i])@ == (start[i]@ + combined(
                    ps.take(j as int),
                    ss,
                    i,
                )) % fields::fr_modulus(),
    {
        let ghost before = result@;
        add_scaled(result, polys[j], &scalars[j]);
        proof {
            let p = fields::fr_modulus();
            assert(ps.take(j + 1).drop_last() =~= ps.take(j as int));
            assert forall|i: int| 0 <= i < start.len() implies (#[trigger] result@[i])@ == (
            start[i]@ + combined(ps.take(j + 1), ss, i)) % p by {
                let a = start[i]@ + combined(ps.take(j as int), ss, i);
                let b = coeff(ps[j as int], i) * ss[j as int];
                assert(before[i]@ == a % p);
                modular::lemma_mod_idem(a, p);
                modular::lemma_add_cong(a % p, b, a, b, p);
            }
        }
    }
    assert(ps.take(polys@.len() as int) =~= ps);
}

/// A polynomial: its coefficients, the constant term first.
#[derive(Clone, Debug)]
pub struct Polynomial {
    pub coeffs: Vec<Fr>,
}

impl View for Polynomial {
    type V = Seq<int>;

    open spec fn view(&self) -> Seq<int> {
        fields::vals(self.coeffs@)
    }
}

/// The coefficients of the polynomials.
pub open spec fn poly_vals(polys: Seq<&Polynomial>) -> Seq<Seq<int>> {
    Seq::new(polys.len(), |j: int| polys[j]@)
}

/// The first `n` powers of `g`, as integers.
pub open spec fn powers(g: int, n: nat) -> Seq<int> {
    Seq::new(n, |j: int| pow(g, j as nat))
}

impl Polynomial {
    /// Every coefficient is reduced.
    pub open spec fn wf(self) -> bool {
        fields::all_wf(self.coeffs@)
    }

    /// The polynomial with the given coefficients.
    pub fn new(coeffs: Vec<Fr>) -> (r: Self)
        ensures
            r.coeffs@ == coeffs@,
            r@ == fields::vals(coeffs@),
    {
        Self { coeffs }
    }

    /// The zero polynomial with `n` coefficients.
    pub fn zero(n: usize) -> (r: Self)
        ensures
            r.wf(),
            r@ == Seq::new(n as nat, |i: int| 0int),
    {
        let r = Self { coeffs: vec![Fr::zero(); n] };
        assert(r@ =~= Seq::new(n as nat, |i: int| 0int));
        r
    }

    /// The number of coefficients.
    pub fn len(&self) -> (r: usize)
        ensures
            r == self@.len(),
    {
        self.coeffs.len()
    }

    /// Whether there are no coefficients.
    pub fn is_empty(&self) -> (r: bool)
        ensures
            r == (self@.len() == 0),
    {
        self.coeffs.is_empty()
    }

    /// The value at a point.
    pub fn eval(&self, x: &Fr) -> (r: Fr)
        requires
            self.wf(),
            x.wf(),
        ensures
            r.wf(),
            r@ == feval(self@, x@),
    {
        eval_poly_at(self.coeffs.as_slice(), x)
    }

    /// Synthetic division by `X - z`: the quotient and the remainder, which is
    /// the value at `z`. The coefficient of `X^i` in the quotient is the value
    /// at `z` of what remains above the coefficient of `X^i`.
    pub fn div_by_linear(&self, z: &Fr) -> (r: (Polynomial, Fr))
        requires
            self.wf(),
            z.wf(),
        ensures
            r.0.wf(),
            r.1.wf(),
            r.1@ == feval(self@, z@),
            r.0@.len() == if self@.len() == 0 {
                0
            } else {
                self@.len() - 1
            },
            forall|i: int|
                0 <= i < r.0@.len() ==> #[trigger] r.0@[i] == feval(self@.skip(i + 1), z@),
    {
        let n = self.coeffs.len();
        let ghost v = self@;
        proof {
            fields::lemma_fr_modulus();
        }
        if n == 0 {
            proof {
                lemma_small_mod(0, fields::fr_modulus() as nat);
            }
            return (Polynomial::zero(0), Fr::zero());
        }
        let mut q: Vec<Fr> = vec![Fr::zero(); n - 1];
        let mut carry = Fr::zero();
        let mut i: usize = n;
        proof {
            assert(v.skip(n as int).len() == 0);
            lemma_small_mod(0, fields::fr_modulus() as nat);
        }
        // Invariant: `carry` is the value at `z` of the coefficients from `i` on.
        while i > 0
            invariant
                i <= n,
                n == self.coeffs@.len(),
                n > 0,
                v == self@,
                self.wf(),
                z.wf(),
                carry.wf(),
                carry@ == feval(v.skip(i as int), z@),
                q@.len() == n - 1,
                fields::all_wf(q@),
                fields::fr_modulus() > 0,
                forall|k: int|
                    i <= k < n - 1 ==> (#[trigger] q@[k])@ == feval(v.skip(k + 1), z@),
            decreases i,
        {
            i = i - 1;
            if i < n - 1 {
                q.set(i, carry);
            }
            let next = self.coeffs[i].add(&z.mul(&carry));
            proof {
                let p = fields::fr_modulus();
                let t = v.skip(i as int);
                assert(t.skip(1) =~= v.skip(i + 1));
                let u = peval(v.skip(i + 1), z@);
                modular::lemma_mod_idem(u, p);
                modular::lemma_mul_cong(z@, carry@, z@, u, p);
                modular::lemma_mod_idem(z@ * carry@, p);
                modular::lemma_add_cong(v[i as int], fields::fmul(z@, carry@), v[i as int], z@ * u, p);
            }
            carry = next;
        }
        assert(v.skip(0) =~= v);
        (Polynomial::new(q), carry)
    }

    /// The sum, with the shorter polynomial padded by zeros.
    pub fn add(&self, other: &Polynomial) -> (r: Polynomial)
        requires
            self.wf(),
            other.wf(),
        ensures
            r.wf(),
            r@.len() == if self@.len() >= other@.len() {
                self@.len()
            } else {
                other@.len()
            },
            forall|i: int|
                0 <= i < r@.len() ==> #[trigger] r@[i] == fields::fadd(
                    coeff(self@, i),
                    coeff(other@, i),
                ),
    {
        let n: usize = if self.coeffs.len() >= other.coeffs.len() {
            self.coeffs.len()
        } else {
            other.coeffs.len()
        };
        let mut result: Vec<Fr> = Vec::with_capacity(n);
        for i in 0..n
            invariant
                n >= self.coeffs@.len(),
                n >= other.coeffs@.len(),
                self.wf(),
                other.wf(),
                result@.len() == i,
                fields::all_wf(result@),
                forall|k: int|
                    0 <= k < i ==> (#[trigger] result@[k])@ == fields::fadd(
                        coeff(self@, k),
                        coeff(other@, k),
                    ),
        {
            let a = if i < self.coeffs.len() {
                self.coeffs[i]
            } else {
                Fr::zero()
            };
            let b = if i < other.coeffs.len() {
                other.coeffs[i]
            } else {
                Fr::zero()
            };
            result.push(a.add(&b));
        }
        Polynomial::new(result)
    }

    /// The difference, with the shorter polynomial padded by zeros.
    pub fn sub(&self, other: &Polynomial) -> (r: Polynomial)
        requires
            self.wf(),
            other.wf(),
        ensures
            r.wf(),
            r@.len() == if self@.len() >= other@.len() {
                self@.len()
            } else {
                other@.len()
            },
            forall|i: int|
                0 <= i < r@.len() ==> #[trigger] r@[i] == fields::fsub(
                    coeff(self@, i),
                    coeff(other@, i),
                ),
    {
        let n: usize = if self.coeffs.len() >= other.coeffs.len() {
            self.coeffs.len()
        } else {
            other.coeffs.len()
        };
        let mut result: Vec<Fr> = Vec::with_capacity(n);
        for i in 0..n
            invariant
                n >= self.coeffs@.len(),
                n >= other.coeffs@.len(),
                self.wf(),
                other.wf(),
                result@.len() == i,
                fields::all_wf(result@),
                forall|k: int|
                    0 <= k < i ==> (#[trigger] result@[k])@ == fields::fsub(
                        coeff(self@, k),
                        coeff(other@, k),
                    ),
        {
            let a = if i < self.coeffs.len() {
                self.coeffs[i]
            } else {
                Fr::zero()
            };
            let b = if i < other.coeffs.len() {
                other.coeffs[i]
            } else {
                Fr::zero()
            };
            result.push(a.sub(&b));
        }
        Polynomial::new(result)
    }

    /// Every coefficient times a scalar.
    pub fn scale(&self, s: &Fr) -> (r: Polynomial)
        requires
            self.wf(),
            s.wf(),
        ensures
            r.wf(),
            r@.len() == self@.len(),
            forall|i: int|
                0 <= i < r@.len() ==> #[trigger] r@[i] == fields::fmul(self@[i], s@),
    {
        let mut result: Vec<Fr> = Vec::with_capacity(self.coeffs.len());
        for i in 0..self.coeffs.len()
            invariant
                self.wf(),
                s.wf(),
                result@.len() == i,
                fields::all_wf(result@),
                forall|k: int|
                    0 <= k < i ==> (#[trigger] result@[k])@ == fields::fmul(self@[k], s@),
        {
            result.push(self.coeffs[i].mul(s));
        }
        Polynomial::new(result)
    }

    /// The combination of the polynomials with the scalars.
    pub fn linear_combination(polys: &[&Polynomial], scalars: &[Fr]) -> (r: Polynomial)
        requires
            polys@.len() == scalars@.len(),
            fields::all_wf(scalars@),
            forall|j: int| 0 <= j < polys@.len() ==> (#[trigger] polys@[j]).wf(),
        ensures
            r.wf(),
            r@.len() == longest(poly_vals(polys@)),
            forall|i: int|
                0 <= i < r@.len() ==> #[trigger] r@[i] == combined(
                    poly_vals(polys@),
                    fields::vals(scalars@),
                    i,
                ) % fields::fr_modulus(),
    {
        let ghost ps = poly_vals(polys@);
        let ghost ss = fields::vals(scalars@);
        let mut result: Vec<Fr> = vec![Fr::zero(); longest_len(polys)];
        proof {
            fields::lemma_fr_modulus();
            lemma_small_mod(0, fields::fr_modulus() as nat);
        }
        for j in 0..polys.len()
            invariant
                polys@.len() == scalars@.len(),
                fields::all_wf(scalars@),
                forall|k: int| 0 <= k < polys@.len() ==> (#[trigger] polys@[k]).wf(),
                ps == poly_vals(polys@),
                ss == fields::vals(scalars@),
                fields::fr_modulus() > 0,
                result@.len() == longest(ps),
                fields::all_wf(result@),
                forall|i: int|
                    0 <= i < longest(ps) ==> (#[trigger] result@[i])@ == combined(
                        ps.take(j as int),
                        ss,
                        i,
                    ) % fields::fr_modulus(),
        {
            let ghost before = result@;
            add_scaled(result.as_mut_slice(), polys[j].coeffs.as_slice(), &scalars[j]);
            proof {
                let p = fields::fr_modulus();
                assert(ps.take(j + 1).drop_last() =~= ps.take(j as int));
                assert forall|i: int| 0 <= i < longest(ps) implies (#[trigger] result@[i])@
                    == combined(ps.take(j + 1), ss, i) % p by {
                    let a = combined(ps.take(j as int), ss, i);
                    let b = coeff(ps[j as int], i) * ss[j as int];
                    assert(before[i]@ == a % p);
                    modular::lemma_mod_idem(a, p);
                    modular::lemma_add_cong(a % p, b, a, b, p);
                }
            }
        }
        assert(ps.take(polys@.len() as int) =~= ps);
        Polynomial::new(result)
    }

    /// The combination of the polynomials with the powers of a challenge.
    pub fn fold(polys: &[&Polynomial], gamma: &Fr) -> (r: Polynomial)
        requires
            gamma.wf(),
            forall|j: int| 0 <= j < polys@.len() ==> (#[trigger] polys@[j]).wf(),
        ensures
            r.wf(),
            r@.len() == longest(poly_vals(polys@)),
            forall|i: int|
                0 <= i < r@.len() ==> #[trigger] r@[i] == combined(
                    poly_vals(polys@),
                    powers(gamma@, polys@.len()),
                    i,
                ) % fields::fr_modulus(),
    {
        let scalars = power_vec(gamma, polys.len());
        let r = Polynomial::linear_combination(polys, scalars.as_slice());
        proof {
            fields::lemma_fr_modulus();
            let ps = poly_vals(polys@);
            let ss = fields::vals(scalars@);
            let gs = powers(gamma@, polys@.len());
            assert forall|j: int| 0 <= j < ps.len() implies #[trigger] ss[j]
                % fields::fr_modulus() == gs[j] % fields::fr_modulus() by {
                assert(scalars@[j]@ == fields::fpow(gamma@, j as nat));
                modular::lemma_mod_idem(pow(gamma@, j as nat), fields::fr_modulus());
            }
            assert forall|i: int| 0 <= i < r@.len() implies #[trigger] r@[i] == combined(
                ps,
                gs,
                i,
            ) % fields::fr_modulus() by {
                lemma_combined_cong(ps, ss, gs, i, fields::fr_modulus());
            }
        }
        r
    }
}

/// Congruent scalars give congruent combinations.
pub proof fn lemma_combined_cong(polys: Seq<Seq<int>>, s: Seq<int>, t: Seq<int>, i: int, m: int)
    requires
        m > 0,
        s.len() >= polys.len(),
        t.len() >= polys.len(),
        forall|j: int| 0 <= j < polys.len() ==> #[trigger] s[j] % m == t[j] % m,
    ensures
        combined(polys, s, i) % m == combined(polys, t, i) % m,
    decreases polys.len(),
{
    if polys.len() > 0 {
        let k = polys.len() - 1;
        lemma_combined_cong(polys.drop_last(), s, t, i, m);
        assert(s[k] % m == t[k] % m);
        modular::lemma_mul_cong(coeff(polys.last(), i), s[k], coeff(polys.last(), i), t[k], m);
        modular::lemma_add_cong(
            combined(polys.drop_last(), s, i),
            coeff(polys.last(), i) * s[k],
            combined(polys.drop_last(), t, i),
            coeff(polys.last(), i) * t[k],
            m,
        );
    }
}

/// The length of the longest polynomial.
fn longest_len(polys: &[&Polynomial]) -> (r: usize)
    ensures
        r == longest(poly_vals(polys@)),
{
    let mut r: usize = 0;
    let ghost ps = poly_vals(polys@);
    for j in 0..polys.len()
        invariant
            ps == poly_vals(polys@),
            r == longest(ps.take(j as int)),
    {
        proof {
            assert(ps.take(j + 1).drop_last() =~= ps.take(j as int));
        }
        if polys[j].len() > r {
            r = polys[j].len();
        }
    }
    assert(ps.take(polys@.len() as int) =~= ps);
    r
}

/// The first `n` powers of a scalar, starting with one.
pub fn power_vec(x: &Fr, n: usize) -> (r: Vec<Fr>)
    requires
        x.wf(),
    ensures
        r@.len() == n,
        fields::all_wf(r@),
        forall|i: int| 0 <= i < n ==> (#[trigger] r@[i])@ == fields::fpow(x@, i as nat),
{
    let mut r: Vec<Fr> = Vec::with_capacity(n);
    let mut current = Fr::one();
    proof {
        fields::lemma_fr_modulus();
        lemma_pow0(x@);
        lemma_small_mod(1, fields::fr_modulus() as nat);
    }
    for i in 0..n
        invariant
            x.wf(),
            current.wf(),
            current@ == fields::fpow(x@, i as nat),
            r@.len() == i,
            fields::all_wf(r@),
            fields::fr_modulus() > 0,
            forall|k: int| 0 <= k < i ==> (#[trigger] r@[k])@ == fields::fpow(x@, k as nat),
    {
        r.push(current);
        let next = current.mul(x);
        proof {
            lemma_fpow_step(x@, i as nat);
        }
        current = next;
    }
    r
}

/// One more factor raises the exponent by one.
pub proof fn lemma_fpow_step(x: int, e: nat)
    ensures
        fields::fmul(fields::fpow(x, e), x) == fields::fpow(x, e + 1),
{
    fields::lemma_fr_modulus();
    let p = fields::fr_modulus();
    modular::lemma_mod_idem(pow(x, e), p);
    modular::lemma_mul_cong(fields::fpow(x, e), x, pow(x, e), x, p);
    lemma_pow_adds(x, e, 1);
    lemma_pow1(x);
}

/// Dividing by `X - z` and multiplying back gives the polynomial again: at every
/// point its value is that of the quotient times `x - z`, plus the remainder.
pub proof fn law_div_by_linear(c: Seq<int>, q: Seq<int>, z: int, x: int)
    requires
        c.len() > 0,
        q.len() == c.len() - 1,
        forall|i: int| 0 <= i < q.len() ==> #[trigger] q[i] == feval(c.skip(i + 1), z),
    ensures
        feval(c, x) == ((x - z) * peval(q, x) + feval(c, z)) % fields::fr_modulus(),
    decreases c.len(),
{
    fields::lemma_fr_modulus();
    let p = fields::fr_modulus();
    modular::lemma_mod_idem(peval(c, z), p);
    if c.len() == 1 {
        assert(peval(c.skip(1), x) == 0 && peval(c.skip(1), z) == 0);
        assert(peval(c, x) == c[0] + x * 0);
        assert(peval(c, z) == c[0] + z * 0);
        assert((x - z) * 0 == 0);
    } else {
        let d = c.skip(1);
        let r = q.skip(1);
        assert forall|i: int| 0 <= i < r.len() implies #[trigger] r[i] == feval(d.skip(i + 1), z) by {
            assert(q[i + 1] == feval(c.skip(i + 2), z));
            assert(d.skip(i + 1) =~= c.skip(i + 2));
        }
        law_div_by_linear(d, r, z, x);
        let pr = peval(r, x);
        let dz = peval(d, z);
        let dx = peval(d, x);
        assert(q[0] == feval(c.skip(1), z));
        // d(x) = (x - z) r(x) + d(z), and q(x) = d(z) + x r(x).
        modular::lemma_mod_idem(dz, p);
        modular::lemma_add_cong((x - z) * pr, dz % p, (x - z) * pr, dz, p);
        modular::lemma_mul_cong(x, dx, x, (x - z) * pr + dz, p);
        modular::lemma_add_cong(c[0], x * dx, c[0], x * ((x - z) * pr + dz), p);
        modular::lemma_add_cong(q[0], x * pr, dz, x * pr, p);
        modular::lemma_mul_cong(x - z, peval(q, x), x - z, dz + x * pr, p);
        modular::lemma_add_cong(
            (x - z) * peval(q, x),
            feval(c, z),
            (x - z) * (dz + x * pr),
            c[0] + z * dz,
            p,
        );
        assert(c[0] + x * ((x - z) * pr + dz) == (x - z) * (dz + x * pr) + (c[0] + z * dz))
            by (nonlinear_arith);
    }
}

/// A polynomial with a root at `z` is divided by `X - z` without a remainder.
pub proof fn law_root_divides(c: Seq<int>, q: Seq<int>, z: int, x: int)
    requires
        c.len() > 0,
        feval(c, z) == 0,
        q.len() == c.len() - 1,
        forall|i: int| 0 <= i < q.len() ==> #[trigger] q[i] == feval(c.skip(i + 1), z),
    ensures
        feval(c, x) == ((x - z) * peval(q, x)) % fields::fr_modulus(),
{
    law_div_by_linear(c, q, z, x);
}

} // verus!
