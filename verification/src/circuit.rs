//! What a circuit fixes for every proof: its polynomials, their values on the
//! coset, and tables.

use crate::dft;
use crate::domain;
use crate::domain::Domain;
use crate::fields;
use crate::fields::Fr;
use crate::g1;
use crate::g1::{G1Affine, Point};
use crate::limbs;
use crate::modular;
use crate::polynomial;
use crate::sums;
use crate::types::PlonkProvingData;
use crate::{BN254Fr, BN254G1Affine};
use vstd::arithmetic::div_mod::*;
use vstd::arithmetic::mul::*;
use vstd::arithmetic::power::*;
use vstd::arithmetic::power2::*;
use vstd::prelude::*;

verus! {

/// A circuit: the domain, the coset, and the selectors and permutation polynomials
/// by their coefficients.
pub struct Circuit {
    /// The logarithm of the size of the domain.
    pub bits: nat,
    /// The generator of the domain.
    pub w: int,
    /// The generator of the domain of four times the size.
    pub w4: int,
    /// The shift of the coset.
    pub shift: int,
    pub ql: Seq<int>,
    pub qr: Seq<int>,
    pub qm: Seq<int>,
    pub qo: Seq<int>,
    pub qk: Seq<int>,
    pub s1: Seq<int>,
    pub s2: Seq<int>,
    pub s3: Seq<int>,
    pub qcp: Seq<Seq<int>>,
}

/// Coefficients of a polynomial on a domain.
pub open spec fn is_poly(c: Seq<int>, n: nat) -> bool {
    c.len() == n && dft::in_field(c)
}

impl Circuit {
    /// The size of the domain.
    pub open spec fn n(self) -> nat {
        pow2(self.bits)
    }

    /// The size of the coset.
    pub open spec fn big_n(self) -> nat {
        4 * self.n()
    }

    /// The generators and the shift are what they have to be.
    pub open spec fn geometry(self) -> bool {
        &&& self.bits + 2 <= 28
        &&& 0 < self.w < fields::fr_modulus()
        &&& 0 < self.w4 < fields::fr_modulus()
        &&& 0 <= self.shift < fields::fr_modulus()
        &&& domain::is_primitive_root(self.w, self.bits)
        &&& domain::is_primitive_root(self.w4, self.bits + 2)
        &&& fields::fpow(self.shift, self.big_n()) != 1
    }

    /// The polynomials have as many coefficients as the domain has points.
    pub open spec fn wf(self) -> bool {
        &&& self.geometry()
        &&& is_poly(self.ql, self.n())
        &&& is_poly(self.qr, self.n())
        &&& is_poly(self.qm, self.n())
        &&& is_poly(self.qo, self.n())
        &&& is_poly(self.qk, self.n())
        &&& is_poly(self.s1, self.n())
        &&& is_poly(self.s2, self.n())
        &&& is_poly(self.s3, self.n())
        &&& forall|j: int| 0 <= j < self.qcp.len() ==> is_poly(#[trigger] self.qcp[j], self.n())
    }

    /// A point of the coset.
    pub open spec fn point(self, i: int) -> int {
        fields::fmul(self.shift, fields::fpow(self.w4, i as nat))
    }

    /// The value of the vanishing polynomial of the domain.
    pub open spec fn zh(self, x: int) -> int {
        fields::fsub(fields::fpow(x, self.n()), 1)
    }

    /// `(x - 1) n`, by which the vanishing polynomial is divided to give the first
    /// Lagrange polynomial.
    pub open spec fn l1_divisor(self, x: int) -> int {
        fields::fmul(fields::fsub(x, 1), self.n() as int)
    }

    /// The values of a polynomial on the coset.
    pub open spec fn on_coset(self, c: Seq<int>) -> Seq<int> {
        Seq::new(self.big_n(), |i: int| polynomial::feval(c, self.point(i)))
    }
}

/// A polynomial with zeros for the missing coefficients.
pub open spec fn padded(c: Seq<int>, m: nat) -> Seq<int> {
    Seq::new(m, |i: int| polynomial::coeff(c, i))
}

/// Padding changes no value.
pub proof fn lemma_padded_eval(c: Seq<int>, m: nat, x: int)
    requires
        c.len() <= m,
    ensures
        polynomial::peval(padded(c, m), x) == polynomial::peval(c, x),
{
    let d = padded(c, m);
    polynomial::lemma_peval_sum(c, x, m);
    polynomial::lemma_peval_sum(d, x, m);
    let f = |i: int| polynomial::coeff(c, i) * pow(x, i as nat);
    let g = |i: int| polynomial::coeff(d, i) * pow(x, i as nat);
    sums::lemma_sum_eq(f, g, m);
}

/// The coset transform of a padded polynomial gives its values on the coset.
pub proof fn lemma_on_coset(c: Circuit, p: Seq<int>)
    requires
        p.len() <= c.big_n(),
    ensures
        domain::coset_dft(padded(p, c.big_n()), c.w4, c.shift) == c.on_coset(p),
{
    let d = padded(p, c.big_n());
    let m = fields::fr_modulus();
    fields::lemma_fr_modulus();
    assert forall|i: int| 0 <= i < c.big_n() implies #[trigger] domain::coset_dft(
        d,
        c.w4,
        c.shift,
    )[i] == c.on_coset(p)[i] by {
        let x = c.shift * pow(c.w4, i as nat);
        lemma_padded_eval(p, c.big_n(), x);
        lemma_point(c, i);
        polynomial::lemma_peval_cong(p, p, x, c.point(i), m);
    }
    assert(domain::coset_dft(d, c.w4, c.shift) =~= c.on_coset(p));
}

/// A point of the coset is congruent to the shift times a power.
pub proof fn lemma_point(c: Circuit, i: int)
    requires
        i >= 0,
    ensures
        (c.shift * pow(c.w4, i as nat)) % fields::fr_modulus() == c.point(i)
            % fields::fr_modulus(),
        c.point(i) == (c.shift * pow(c.w4, i as nat)) % fields::fr_modulus(),
        0 <= c.point(i) < fields::fr_modulus(),
{
    fields::lemma_fr_modulus();
    let m = fields::fr_modulus();
    let y = pow(c.w4, i as nat);
    modular::lemma_mod_idem(y, m);
    modular::lemma_mul_cong(c.shift, fields::fpow(c.w4, i as nat), c.shift, y, m);
    modular::lemma_mod_idem(c.shift * y, m);
}

/// The coset misses the domain: the vanishing polynomial is nowhere zero on it, nor
/// is what divides it.
pub proof fn lemma_coset_misses_domain(c: Circuit, i: int)
    requires
        c.geometry(),
        i >= 0,
    ensures
        c.zh(c.point(i)) != 0,
        c.l1_divisor(c.point(i)) != 0,
{
    fields::lemma_fr_modulus();
    let m = fields::fr_modulus();
    let x = c.point(i);
    let n = c.n();
    let big = c.big_n();
    let y = c.shift * pow(c.w4, i as nat);
    lemma_point(c, i);
    lemma_small_mod(1, m as nat);
    lemma_small_mod(0, m as nat);
    // x^4n is the shift to the 4n.
    assert(fields::fpow(x, big) == fields::fpow(c.shift, big)) by {
        modular::lemma_pow_cong(x, y, big, m);
        let a = pow(c.shift, big);
        let b = pow(pow(c.w4, i as nat), big);
        lemma_pow_distributes(c.shift, pow(c.w4, i as nat), big);
        lemma_pow_multiplies(c.w4, i as nat, big);
        lemma_pow_multiplies(c.w4, big, i as nat);
        lemma_mul_is_commutative(i, big as int);
        dft::law_root_order(c.w4, c.bits + 2);
        lemma_big_n(c);
        modular::lemma_pow_cong(pow(c.w4, big), 1, i as nat, m);
        lemma1_pow(i as nat);
        modular::lemma_mul_cong(a, b, a, 1, m);
    }
    if c.zh(x) == 0 {
        let z = pow(x, n);
        modular::lemma_mod_idem(z, m);
        modular::lemma_add_cong(fields::fpow(x, n) - 1, 1, 0, 1, m);
        assert(fields::fpow(x, n) % m == 1);
        modular::lemma_pow_cong(z, 1, 4, m);
        lemma1_pow(4);
        lemma_pow_multiplies(x, n, 4);
        lemma_mul_is_commutative(n as int, 4);
        assert(false);
    }
    if x == 1 {
        lemma1_pow(n);
        assert(fields::fpow(1, n) == 1);
        assert(false);
    }
    lemma_pow2_pos(c.bits);
    lemma_n_small(c);
    if x == 0 {
        lemma_mod_minus_one(m);
    }
    fields::lemma_frange(x, 1, 0);
    assert(fields::fsub(x, 1) != 0) by {
        if x > 0 {
            lemma_small_mod((x - 1) as nat, m as nat);
        }
    }
    fields::law_fr_no_zero_divisors(fields::fsub(x, 1), n as int);
}

proof fn lemma_mod_minus_one(m: int)
    requires
        m > 1,
    ensures
        (-1int) % m == m - 1,
{
    modular::lemma_mod_shift(m - 1, -1, 1, m);
    lemma_small_mod((m - 1) as nat, m as nat);
}

/// The size of the domain is small next to the field.
pub proof fn lemma_n_small(c: Circuit)
    requires
        c.bits + 2 <= 28,
    ensures
        0 < c.n() < fields::fr_modulus(),
        c.n() <= 0x4000000,
        c.big_n() <= 0x10000000,
{
    fields::lemma_fr_modulus();
    lemma_pow2_pos(c.bits);
    lemma2_to64();
    if c.bits < 26 {
        lemma_pow2_strictly_increases(c.bits, 26);
    }
}

/// Four times the size is a power of two too.
pub proof fn lemma_big_n(c: Circuit)
    ensures
        c.big_n() == pow2(c.bits + 2),
{
    lemma_pow2_adds(c.bits, 2);
    lemma2_to64();
}

/// Everything that proofs of a circuit share, in the form in which they use it.
pub struct CachedFrData {
    pub domain: Domain,
    pub coset_shift: Fr,
    pub srs_lagrange: Vec<G1Affine>,
    pub srs_canonical: Vec<G1Affine>,
    pub s1: Vec<Fr>,
    pub s2: Vec<Fr>,
    pub s3: Vec<Fr>,
    pub num_qcp: usize,
    /// The powers of the generator of the domain.
    pub omega_powers: Vec<Fr>,
    pub ql_coeffs: Vec<Fr>,
    pub qr_coeffs: Vec<Fr>,
    pub qm_coeffs: Vec<Fr>,
    pub qo_coeffs: Vec<Fr>,
    pub qk_coeffs: Vec<Fr>,
    pub s1_coeffs: Vec<Fr>,
    pub s2_coeffs: Vec<Fr>,
    pub s3_coeffs: Vec<Fr>,
    pub qcp_coeffs: Vec<Vec<Fr>>,
    pub ql_coset_evals: Vec<Fr>,
    pub qr_coset_evals: Vec<Fr>,
    pub qm_coset_evals: Vec<Fr>,
    pub qo_coset_evals: Vec<Fr>,
    pub qk_coset_evals: Vec<Fr>,
    pub s1_coset_evals: Vec<Fr>,
    pub s2_coset_evals: Vec<Fr>,
    pub s3_coset_evals: Vec<Fr>,
    pub qcp_coset_evals: Vec<Vec<Fr>>,
    /// The domain of four times the size.
    pub big_domain: Domain,
    pub coset_points: Vec<Fr>,
    /// The vanishing polynomial on the coset.
    pub zh_values: Vec<Fr>,
    pub zh_inv: Vec<Fr>,
    /// The inverse of `(x - 1) n` on the coset.
    pub x_minus_one_n_inv: Vec<Fr>,
    /// The first four values of the vanishing polynomial, which repeat.
    pub zh_vals_4: [Fr; 4],
    pub zh_invs_4: [Fr; 4],
    /// The low powers of the generator of the large domain.
    pub omega_lo_table: Vec<Fr>,
    /// The powers of the generator of the large domain by steps of the length of
    /// the low table.
    pub omega_hi_table: Vec<Fr>,
    /// Whether `qm` is zero.
    pub qm_is_zero: bool,
}

/// The coefficients behind vectors of scalars.
pub open spec fn vec_vals(v: Seq<Vec<Fr>>) -> Seq<Seq<int>> {
    Seq::new(v.len(), |j: int| fields::vals(v[j]@))
}

/// Every scalar of every vector is reduced.
pub open spec fn vecs_wf(v: Seq<Vec<Fr>>) -> bool {
    forall|j: int| 0 <= j < v.len() ==> fields::all_wf((#[trigger] v[j])@)
}

/// The first powers of a field element.
pub open spec fn power_seq(w: int, n: nat) -> Seq<int> {
    Seq::new(n, |i: int| fields::fpow(w, i as nat))
}

impl CachedFrData {
    /// The circuit that the data belongs to.
    pub open spec fn circuit(self) -> Circuit {
        Circuit {
            bits: self.domain.log_size as nat,
            w: self.domain.omega@,
            w4: self.big_domain.omega@,
            shift: self.coset_shift@,
            ql: fields::vals(self.ql_coeffs@),
            qr: fields::vals(self.qr_coeffs@),
            qm: fields::vals(self.qm_coeffs@),
            qo: fields::vals(self.qo_coeffs@),
            qk: fields::vals(self.qk_coeffs@),
            s1: fields::vals(self.s1_coeffs@),
            s2: fields::vals(self.s2_coeffs@),
            s3: fields::vals(self.s3_coeffs@),
            qcp: vec_vals(self.qcp_coeffs@),
        }
    }

    /// The points of the Lagrange reference string.
    pub open spec fn lagrange_points(self) -> Seq<Point> {
        g1::points_of(self.srs_lagrange@)
    }

    /// The points of the canonical reference string.
    pub open spec fn canonical_points(self) -> Seq<Point> {
        g1::points_of(self.srs_canonical@)
    }

    /// All scalars are reduced.
    pub open spec fn reduced(self) -> bool {
        &&& self.coset_shift.wf()
        &&& fields::all_wf(self.s1@)
        &&& fields::all_wf(self.s2@)
        &&& fields::all_wf(self.s3@)
        &&& fields::all_wf(self.omega_powers@)
        &&& fields::all_wf(self.ql_coeffs@)
        &&& fields::all_wf(self.qr_coeffs@)
        &&& fields::all_wf(self.qm_coeffs@)
        &&& fields::all_wf(self.qo_coeffs@)
        &&& fields::all_wf(self.qk_coeffs@)
        &&& fields::all_wf(self.s1_coeffs@)
        &&& fields::all_wf(self.s2_coeffs@)
        &&& fields::all_wf(self.s3_coeffs@)
        &&& vecs_wf(self.qcp_coeffs@)
        &&& fields::all_wf(self.ql_coset_evals@)
        &&& fields::all_wf(self.qr_coset_evals@)
        &&& fields::all_wf(self.qm_coset_evals@)
        &&& fields::all_wf(self.qo_coset_evals@)
        &&& fields::all_wf(self.qk_coset_evals@)
        &&& fields::all_wf(self.s1_coset_evals@)
        &&& fields::all_wf(self.s2_coset_evals@)
        &&& fields::all_wf(self.s3_coset_evals@)
        &&& vecs_wf(self.qcp_coset_evals@)
        &&& fields::all_wf(self.coset_points@)
        &&& fields::all_wf(self.zh_values@)
        &&& fields::all_wf(self.zh_inv@)
        &&& fields::all_wf(self.x_minus_one_n_inv@)
        &&& fields::all_wf(self.zh_vals_4@)
        &&& fields::all_wf(self.zh_invs_4@)
        &&& fields::all_wf(self.omega_lo_table@)
        &&& fields::all_wf(self.omega_hi_table@)
    }

    /// The tables hold what they are for.
    pub open spec fn tables(self) -> bool {
        let c = self.circuit();
        &&& fields::vals(self.omega_powers@) == power_seq(c.w, c.n())
        &&& fields::vals(self.s1@) == domain::dft(c.s1, c.w)
        &&& fields::vals(self.s2@) == domain::dft(c.s2, c.w)
        &&& fields::vals(self.s3@) == domain::dft(c.s3, c.w)
        &&& fields::vals(self.ql_coset_evals@) == c.on_coset(c.ql)
        &&& fields::vals(self.qr_coset_evals@) == c.on_coset(c.qr)
        &&& fields::vals(self.qm_coset_evals@) == c.on_coset(c.qm)
        &&& fields::vals(self.qo_coset_evals@) == c.on_coset(c.qo)
        &&& fields::vals(self.qk_coset_evals@) == c.on_coset(c.qk)
        &&& fields::vals(self.s1_coset_evals@) == c.on_coset(c.s1)
        &&& fields::vals(self.s2_coset_evals@) == c.on_coset(c.s2)
        &&& fields::vals(self.s3_coset_evals@) == c.on_coset(c.s3)
        &&& self.qcp_coset_evals@.len() == c.qcp.len()
        &&& forall|j: int|
            0 <= j < c.qcp.len() ==> fields::vals((#[trigger] self.qcp_coset_evals@[j])@)
                == c.on_coset(c.qcp[j])
        &&& fields::vals(self.coset_points@) == Seq::new(c.big_n(), |i: int| c.point(i))
        &&& fields::vals(self.zh_values@) == Seq::new(c.big_n(), |i: int| c.zh(c.point(i)))
        &&& fields::vals(self.zh_inv@) == Seq::new(
            c.big_n(),
            |i: int| fields::finv(c.zh(c.point(i))),
        )
        &&& fields::vals(self.x_minus_one_n_inv@) == Seq::new(
            c.big_n(),
            |i: int| fields::finv(c.l1_divisor(c.point(i))),
        )
        &&& fields::vals(self.zh_vals_4@) == Seq::new(4, |i: int| c.zh(c.point(i)))
        &&& fields::vals(self.zh_invs_4@) == Seq::new(4, |i: int| fields::finv(c.zh(c.point(i))))
        &&& fields::vals(self.omega_lo_table@) == power_seq(c.w4, 0x4000)
        &&& fields::vals(self.omega_hi_table@) == power_seq(
            fields::fpow(c.w4, 0x4000),
            c.big_n() / 0x4000,
        )
    }

    /// The data is that of a circuit.
    pub open spec fn wf(self) -> bool {
        &&& self.circuit().wf()
        &&& self.domain.primitive()
        &&& self.big_domain.primitive()
        &&& self.big_domain.size == 4 * self.domain.size
        &&& self.num_qcp == self.qcp_coeffs@.len()
        &&& self.qm_is_zero == (forall|i: int|
            0 <= i < self.circuit().qm.len() ==> #[trigger] self.circuit().qm[i] == 0)
        &&& g1::all_points_wf(self.srs_lagrange@)
        &&& g1::all_points_wf(self.srs_canonical@)
        &&& self.reduced()
        &&& self.tables()
    }
}

/// The values of a polynomial on the coset.
pub(crate) fn coset_eval(coeffs: &[Fr], big_domain: &Domain, shift: &Fr, Ghost(c): Ghost<Circuit>) -> (r:
    Vec<Fr>)
    requires
        big_domain.primitive(),
        big_domain.size == c.big_n(),
        big_domain.omega@ == c.w4,
        shift.wf(),
        shift@ == c.shift,
        coeffs@.len() <= big_domain.size,
        fields::all_wf(coeffs@),
    ensures
        fields::all_wf(r@),
        fields::vals(r@) == c.on_coset(fields::vals(coeffs@)),
{
    let m = big_domain.size;
    let mut buf: Vec<Fr> = vstd::slice::slice_to_vec(coeffs);
    let start = coeffs.len();
    for i in start..m
        invariant
            start == coeffs@.len(),
            start <= m,
            fields::all_wf(coeffs@),
            buf@.len() == i,
            fields::all_wf(buf@),
            forall|j: int|
                0 <= j < i ==> (#[trigger] buf@[j])@ == polynomial::coeff(
                    fields::vals(coeffs@),
                    j,
                ),
    {
        buf.push(Fr::zero());
    }
    proof {
        assert(fields::vals(buf@) =~= padded(fields::vals(coeffs@), m as nat));
        lemma_on_coset(c, fields::vals(coeffs@));
    }
    big_domain.cpu_coset_fft(buf.as_slice(), shift)
}

/// A primitive root of unity is not zero.
pub proof fn lemma_root_nonzero(w: int, bits: nat)
    requires
        0 <= w < fields::fr_modulus(),
        domain::is_primitive_root(w, bits),
    ensures
        w != 0,
{
    fields::lemma_fr_modulus();
    if bits > 0 && w == 0 {
        let e = pow2((bits - 1) as nat);
        lemma_pow2_pos((bits - 1) as nat);
        lemma0_pow(e);
        lemma_small_mod(0, fields::fr_modulus() as nat);
    }
}

/// The logarithm of a power of two is determined.
pub proof fn lemma_pow2_injective(a: nat, b: nat)
    requires
        pow2(a) == pow2(b),
    ensures
        a == b,
{
    if a < b {
        lemma_pow2_strictly_increases(a, b);
    } else if b < a {
        lemma_pow2_strictly_increases(b, a);
    }
}

/// The points of the coset, the vanishing polynomial on them, and `(x - 1) n`.
pub(crate) fn coset_tables(
    domain: &Domain,
    big_domain: &Domain,
    shift: &Fr,
    Ghost(c): Ghost<Circuit>,
) -> (r: (Vec<Fr>, Vec<Fr>, Vec<Fr>))
    requires
        c.geometry(),
        domain.wf(),
        domain.size == c.n(),
        big_domain.wf(),
        big_domain.size == c.big_n(),
        big_domain.omega@ == c.w4,
        shift.wf(),
        shift@ == c.shift,
    ensures
        fields::all_wf(r.0@),
        fields::all_wf(r.1@),
        fields::all_wf(r.2@),
        fields::all_nonzero(r.1@),
        fields::all_nonzero(r.2@),
        fields::vals(r.0@) == Seq::new(c.big_n(), |i: int| c.point(i)),
        fields::vals(r.1@) == Seq::new(c.big_n(), |i: int| c.zh(c.point(i))),
        fields::vals(r.2@) == Seq::new(c.big_n(), |i: int| c.l1_divisor(c.point(i))),
{
    let powers = big_domain.omega_powers();
    let big_n = big_domain.size;
    let n_fr = Fr::from_u64(domain.size as u64);
    let one = Fr::one();
    let mut points: Vec<Fr> = Vec::with_capacity(big_n);
    let mut zh: Vec<Fr> = Vec::with_capacity(big_n);
    let mut xm1n: Vec<Fr> = Vec::with_capacity(big_n);
    for i in 0..big_n
        invariant
            c.geometry(),
            domain.wf(),
            domain.size == c.n(),
            big_n == c.big_n(),
            shift.wf(),
            shift@ == c.shift,
            one.wf(),
            one@ == 1,
            n_fr.wf(),
            n_fr@ == c.n(),
            powers@.len() == big_n,
            fields::all_wf(powers@),
            forall|j: int|
                0 <= j < big_n ==> (#[trigger] powers@[j])@ == fields::fpow(c.w4, j as nat),
            points@.len() == i,
            zh@.len() == i,
            xm1n@.len() == i,
            fields::all_wf(points@),
            fields::all_wf(zh@),
            fields::all_wf(xm1n@),
            fields::all_nonzero(zh@),
            fields::all_nonzero(xm1n@),
            forall|j: int| 0 <= j < i ==> (#[trigger] points@[j])@ == c.point(j),
            forall|j: int| 0 <= j < i ==> (#[trigger] zh@[j])@ == c.zh(c.point(j)),
            forall|j: int| 0 <= j < i ==> (#[trigger] xm1n@[j])@ == c.l1_divisor(c.point(j)),
    {
        let x = shift.mul(&powers[i]);
        proof {
            lemma_coset_misses_domain(c, i as int);
        }
        points.push(x);
        zh.push(domain.vanishing_eval(&x));
        xm1n.push(x.sub(&one).mul(&n_fr));
    }
    proof {
        assert(fields::vals(points@) =~= Seq::new(c.big_n(), |i: int| c.point(i)));
        assert(fields::vals(zh@) =~= Seq::new(c.big_n(), |i: int| c.zh(c.point(i))));
        assert(fields::vals(xm1n@) =~= Seq::new(c.big_n(), |i: int| c.l1_divisor(c.point(i))));
    }
    (points, zh, xm1n)
}

/// The first powers of a scalar.
pub(crate) fn power_table(w: &Fr, n: usize) -> (r: Vec<Fr>)
    requires
        w.wf(),
    ensures
        fields::all_wf(r@),
        fields::vals(r@) == power_seq(w@, n as nat),
{
    let r = polynomial::power_vec(w, n);
    assert(fields::vals(r@) =~= power_seq(w@, n as nat));
    r
}

/// The points behind the exchange form.
pub(crate) fn convert_points(points: &[BN254G1Affine]) -> (r: Vec<G1Affine>)
    requires
        bn_points_wf(points@),
    ensures
        g1::all_points_wf(r@),
        g1::points_of(r@) == bn_points(points@),
{
    let mut r: Vec<G1Affine> = Vec::with_capacity(points.len());
    for i in 0..points.len()
        invariant
            bn_points_wf(points@),
            r@.len() == i,
            g1::all_points_wf(r@),
            forall|j: int| 0 <= j < i ==> (#[trigger] r@[j])@ == points@[j]@,
    {
        r.push(G1Affine::from_bn254(&points[i]));
    }
    assert(g1::points_of(r@) =~= bn_points(points@));
    r
}

/// The points behind the exchange form.
pub open spec fn bn_points(s: Seq<BN254G1Affine>) -> Seq<Point> {
    Seq::new(s.len(), |i: int| s[i]@)
}

/// All coordinates are reduced.
pub open spec fn bn_points_wf(s: Seq<BN254G1Affine>) -> bool {
    forall|i: int| 0 <= i < s.len() ==> (#[trigger] s[i]).wf()
}

/// A column of values and its polynomial.
struct Column {
    evals: Vec<Fr>,
    coeffs: Vec<Fr>,
    coset: Vec<Fr>,
}

/// Whether all coefficients are zero.
fn all_zero(coeffs: &[Fr]) -> (r: bool)
    requires
        fields::all_wf(coeffs@),
    ensures
        r == (forall|i: int| 0 <= i < coeffs@.len() ==> #[trigger] fields::vals(coeffs@)[i] == 0),
{
    for i in 0..coeffs.len()
        invariant
            fields::all_wf(coeffs@),
            forall|j: int| 0 <= j < i ==> #[trigger] fields::vals(coeffs@)[j] == 0,
    {
        if !coeffs[i].is_zero() {
            assert(fields::vals(coeffs@)[i as int] != 0);
            return false;
        }
    }
    true
}

/// The number of coefficients of a polynomial, unless all of them are zero.
pub open spec fn len_unless_zero(p: Seq<int>) -> Option<usize> {
    if forall|i: int| 0 <= i < p.len() ==> #[trigger] p[i] == 0 {
        None
    } else {
        Some(p.len() as usize)
    }
}

/// The number of coefficients of a polynomial, unless all of them are zero.
fn nonzero_len(coeffs: &Vec<Fr>) -> (r: Option<usize>)
    requires
        fields::all_wf(coeffs@),
    ensures
        r == len_unless_zero(fields::vals(coeffs@)),
{
    if all_zero(coeffs.as_slice()) {
        None
    } else {
        Some(coeffs.len())
    }
}

impl CachedFrData {
    /// The lengths of `ql`, `qr`, `qo`, `qk`, `s1`, `s2`, `s3` and `qm`, each unless the
    /// polynomial is zero: what of them is worth keeping on a device.
    pub fn canonical_lens(&self) -> (r: [Option<usize>; 8])
        requires
            self.wf(),
        ensures
            ({
                let c = self.circuit();
                r@ == seq![
                    len_unless_zero(c.ql),
                    len_unless_zero(c.qr),
                    len_unless_zero(c.qo),
                    len_unless_zero(c.qk),
                    len_unless_zero(c.s1),
                    len_unless_zero(c.s2),
                    len_unless_zero(c.s3),
                    len_unless_zero(c.qm),
                ]
            }),
    {
        let qm = if self.qm_is_zero {
            None
        } else {
            Some(self.qm_coeffs.len())
        };
        [
            nonzero_len(&self.ql_coeffs),
            nonzero_len(&self.qr_coeffs),
            nonzero_len(&self.qo_coeffs),
            nonzero_len(&self.qk_coeffs),
            nonzero_len(&self.s1_coeffs),
            nonzero_len(&self.s2_coeffs),
            nonzero_len(&self.s3_coeffs),
            qm,
        ]
    }
}

impl Column {
    /// The values are those of a column of the circuit, in the three forms.
    #[verifier::opaque]
    spec fn is(self, poly: Seq<BN254Fr>, c: Circuit) -> bool {
        &&& fields::all_wf(self.evals@)
        &&& fields::all_wf(self.coeffs@)
        &&& fields::all_wf(self.coset@)
        &&& fields::vals(self.coeffs@) == domain::idft(fields::residues(poly), c.w)
        &&& fields::vals(self.evals@) == domain::dft(fields::vals(self.coeffs@), c.w)
        &&& fields::vals(self.coset@) == c.on_coset(fields::vals(self.coeffs@))
        &&& is_poly(fields::vals(self.coeffs@), c.n())
    }
}

/// Read a column, and turn it into coefficients and into values on the coset.
fn column(
    poly: &[BN254Fr],
    domain: &Domain,
    big_domain: &Domain,
    shift: &Fr,
    Ghost(c): Ghost<Circuit>,
) -> (r: Column)
    requires
        domain.primitive(),
        domain.size == c.n(),
        domain.omega@ == c.w,
        big_domain.primitive(),
        big_domain.size == c.big_n(),
        big_domain.omega@ == c.w4,
        shift.wf(),
        shift@ == c.shift,
        poly@.len() == domain.size,
    ensures
        r.is(poly@, c),
{
    let evals = fields::par_from_bn254fr(poly);
    assert(fields::vals(evals@).len() == poly@.len());
    let coeffs = domain.ifft(evals.as_slice());
    proof {
        let e = fields::vals(evals@);
        assert(dft::in_field(e)) by {
            assert forall|i: int| 0 <= i < e.len() implies 0 <= #[trigger] e[i]
                < fields::fr_modulus() by {
                evals@[i].lemma_of_view();
            }
        }
        domain.omega.lemma_of_view();
        dft::law_dft_of_idft(e, c.w, domain.log_size as nat);
        assert(fields::vals(coeffs@).len() == e.len());
        let d = fields::vals(coeffs@);
        assert(dft::in_field(d)) by {
            assert forall|i: int| 0 <= i < d.len() implies 0 <= #[trigger] d[i]
                < fields::fr_modulus() by {
                coeffs@[i].lemma_of_view();
            }
        }
    }
    let coset = coset_eval(coeffs.as_slice(), big_domain, shift, Ghost(c));
    proof {
        reveal(Column::is);
    }
    Column { evals, coeffs, coset }
}

/// Read several columns.
fn columns(
    polys: &Vec<Vec<BN254Fr>>,
    domain: &Domain,
    big_domain: &Domain,
    shift: &Fr,
    Ghost(c): Ghost<Circuit>,
) -> (r: (Vec<Vec<Fr>>, Vec<Vec<Fr>>))
    requires
        domain.primitive(),
        domain.size == c.n(),
        domain.omega@ == c.w,
        big_domain.primitive(),
        big_domain.size == c.big_n(),
        big_domain.omega@ == c.w4,
        shift.wf(),
        shift@ == c.shift,
        forall|j: int| 0 <= j < polys@.len() ==> (#[trigger] polys@[j])@.len() == domain.size,
    ensures
        r.0@.len() == polys@.len(),
        r.1@.len() == polys@.len(),
        vecs_wf(r.0@),
        vecs_wf(r.1@),
        forall|j: int|
            0 <= j < polys@.len() ==> fields::vals((#[trigger] r.0@[j])@) == domain::idft(
                fields::residues(polys@[j]@),
                c.w,
            ) && is_poly(fields::vals(r.0@[j]@), c.n()),
        forall|j: int|
            0 <= j < polys@.len() ==> fields::vals((#[trigger] r.1@[j])@) == c.on_coset(
                fields::vals(r.0@[j]@),
            ),
{
    let mut coeffs: Vec<Vec<Fr>> = Vec::new();
    let mut coset: Vec<Vec<Fr>> = Vec::new();
    for i in 0..polys.len()
        invariant
            domain.primitive(),
            domain.size == c.n(),
            domain.omega@ == c.w,
            big_domain.primitive(),
            big_domain.size == c.big_n(),
            big_domain.omega@ == c.w4,
            shift.wf(),
            shift@ == c.shift,
            forall|j: int| 0 <= j < polys@.len() ==> (#[trigger] polys@[j])@.len() == domain.size,
            coeffs@.len() == i,
            coset@.len() == i,
            vecs_wf(coeffs@),
            vecs_wf(coset@),
            forall|j: int|
                0 <= j < i ==> fields::vals((#[trigger] coeffs@[j])@) == domain::idft(
                    fields::residues(polys@[j]@),
                    c.w,
                ) && is_poly(fields::vals(coeffs@[j]@), c.n()),
            forall|j: int|
                0 <= j < i ==> fields::vals((#[trigger] coset@[j])@) == c.on_coset(
                    fields::vals(coeffs@[j]@),
                ),
    {
        let col = column(polys[i].as_slice(), domain, big_domain, shift, Ghost(c));
        proof {
            reveal(Column::is);
        }
        coeffs.push(col.coeffs);
        coset.push(col.coset);
    }
    (coeffs, coset)
}

impl PlonkProvingData {
    /// The logarithm of the size of the domain.
    pub open spec fn bits(self) -> nat {
        choose|k: nat| self.domain_size == #[trigger] pow2(k)
    }

    /// The circuit that the data describes.
    pub open spec fn circuit(self) -> Circuit {
        let w = self.omega@ % fields::fr_modulus();
        Circuit {
            bits: self.bits(),
            w,
            w4: domain::root_value(self.bits() + 2),
            shift: self.coset_shift@ % fields::fr_modulus(),
            ql: domain::idft(fields::residues(self.ql@), w),
            qr: domain::idft(fields::residues(self.qr@), w),
            qm: domain::idft(fields::residues(self.qm@), w),
            qo: domain::idft(fields::residues(self.qo@), w),
            qk: domain::idft(fields::residues(self.qk@), w),
            s1: domain::idft(fields::residues(self.s1@), w),
            s2: domain::idft(fields::residues(self.s2@), w),
            s3: domain::idft(fields::residues(self.s3@), w),
            qcp: Seq::new(
                self.qcp@.len(),
                |j: int| domain::idft(fields::residues(self.qcp@[j]@), w),
            ),
        }
    }

    /// The size is a power of two of at most two to the 26, `omega` generates the
    /// domain, the coset misses it, every polynomial has a value for each row, and
    /// coordinates are reduced.
    pub open spec fn valid(self) -> bool {
        let n = self.domain_size;
        &&& exists|k: nat| n == #[trigger] pow2(k)
        &&& self.bits() + 2 <= 28
        &&& domain::is_primitive_root(self.circuit().w, self.bits())
        &&& fields::fpow(self.circuit().shift, 4 * n as nat) != 1
        &&& self.ql@.len() == n
        &&& self.qr@.len() == n
        &&& self.qm@.len() == n
        &&& self.qo@.len() == n
        &&& self.qk@.len() == n
        &&& self.s1@.len() == n
        &&& self.s2@.len() == n
        &&& self.s3@.len() == n
        &&& forall|j: int| 0 <= j < self.qcp@.len() ==> (#[trigger] self.qcp@[j])@.len() == n
        &&& bn_points_wf(self.srs_lagrange@)
        &&& bn_points_wf(self.srs_canonical@)
    }
}

/// The inverses of `(x - 1) n` and of the vanishing polynomial on the coset, and the first
/// four values of the latter with their inverses.
fn inverse_tables(zh_values: &[Fr], x_minus_one_n: &[Fr], Ghost(c): Ghost<Circuit>) -> (r: (
    Vec<Fr>,
    Vec<Fr>,
    [Fr; 4],
    [Fr; 4],
))
    requires
        c.big_n() >= 4,
        fields::all_wf(zh_values@),
        fields::all_nonzero(zh_values@),
        fields::vals(zh_values@) == Seq::new(c.big_n(), |i: int| c.zh(c.point(i))),
        fields::all_wf(x_minus_one_n@),
        fields::all_nonzero(x_minus_one_n@),
        fields::vals(x_minus_one_n@) == Seq::new(c.big_n(), |i: int| c.l1_divisor(c.point(i))),
    ensures
        fields::all_wf(r.0@),
        fields::all_wf(r.1@),
        fields::all_wf(r.2@),
        fields::all_wf(r.3@),
        fields::vals(r.0@) == Seq::new(
            c.big_n(),
            |i: int| fields::finv(c.l1_divisor(c.point(i))),
        ),
        fields::vals(r.1@) == Seq::new(c.big_n(), |i: int| fields::finv(c.zh(c.point(i)))),
        fields::vals(r.2@) == Seq::new(4, |i: int| c.zh(c.point(i))),
        fields::vals(r.3@) == Seq::new(4, |i: int| fields::finv(c.zh(c.point(i)))),
{
    let ghost zv = fields::vals(zh_values@);
    let ghost xv = fields::vals(x_minus_one_n@);
    assert(zv.len() == zh_values@.len() && xv.len() == x_minus_one_n@.len());
    let x_inv = fields::batch_inv_fr(x_minus_one_n);
    let zh_inv = fields::batch_inv_fr(zh_values);
    let zh_vals_4 = [zh_values[0], zh_values[1], zh_values[2], zh_values[3]];
    let zh_invs_4 = [zh_inv[0], zh_inv[1], zh_inv[2], zh_inv[3]];
    proof {
        assert forall|i: int| 0 <= i < c.big_n() implies (#[trigger] zh_inv@[i])@ == fields::finv(
            c.zh(c.point(i)),
        ) by {
            assert(zv[i] == c.zh(c.point(i)));
        }
        assert forall|i: int| 0 <= i < c.big_n() implies (#[trigger] x_inv@[i])@ == fields::finv(
            c.l1_divisor(c.point(i)),
        ) by {
            assert(xv[i] == c.l1_divisor(c.point(i)));
        }
        assert forall|i: int| 0 <= i < 4 implies (#[trigger] zh_values@[i])@ == c.zh(
            c.point(i),
        ) by {
            assert(zv[i] == c.zh(c.point(i)));
        }
        assert(fields::vals(x_inv@) =~= Seq::new(
            c.big_n(),
            |i: int| fields::finv(c.l1_divisor(c.point(i))),
        ));
        assert(fields::vals(zh_inv@) =~= Seq::new(
            c.big_n(),
            |i: int| fields::finv(c.zh(c.point(i))),
        ));
        assert(fields::vals(zh_vals_4@) =~= Seq::new(4, |i: int| c.zh(c.point(i))));
        assert(fields::vals(zh_invs_4@) =~= Seq::new(
            4,
            |i: int| fields::finv(c.zh(c.point(i))),
        ));
    }
    (x_inv, zh_inv, zh_vals_4, zh_invs_4)
}

impl CachedFrData {
    /// Compute what proofs of a circuit share.
    #[verifier::rlimit(40)]
    pub fn build(data: &PlonkProvingData) -> (r: Self)
        requires
            data.valid(),
        ensures
            r.wf(),
            r.circuit() == data.circuit(),
            r.lagrange_points() == bn_points(data.srs_lagrange@),
            r.canonical_points() == bn_points(data.srs_canonical@),
            r.srs_lagrange@.len() == data.srs_lagrange@.len(),
    {
        let n = data.domain_size;
        let omega = Fr::from_bn254fr(&data.omega);
        let coset_shift = Fr::from_bn254fr(&data.coset_shift);
        let ghost c = data.circuit();
        let ghost k = data.bits();
        proof {
            omega.lemma_of_view();
            coset_shift.lemma_of_view();
            lemma_root_nonzero(omega@, k);
            lemma_n_small(c);
            lemma_big_n(c);
        }
        let domain = Domain::new(n, omega);
        proof {
            lemma_pow2_injective(domain.log_size as nat, k);
        }
        let big_log: u32 = domain.log_size + 2;
        let omega_4n = domain::root_of_unity(big_log);
        proof {
            omega_4n.lemma_of_view();
            lemma_root_nonzero(omega_4n@, big_log as nat);
            assert(4 * n == pow2(big_log as nat));
        }
        let big_domain = Domain::new(4 * n, omega_4n);
        proof {
            lemma_pow2_injective(big_domain.log_size as nat, big_log as nat);
        }
        let (coset_points, zh_values, x_minus_one_n) = coset_tables(
            &domain,
            &big_domain,
            &coset_shift,
            Ghost(c),
        );
        let ql = column(data.ql.as_slice(), &domain, &big_domain, &coset_shift, Ghost(c));
        let qr = column(data.qr.as_slice(), &domain, &big_domain, &coset_shift, Ghost(c));
        let qm = column(data.qm.as_slice(), &domain, &big_domain, &coset_shift, Ghost(c));
        let qo = column(data.qo.as_slice(), &domain, &big_domain, &coset_shift, Ghost(c));
        let qk = column(data.qk.as_slice(), &domain, &big_domain, &coset_shift, Ghost(c));
        let s1 = column(data.s1.as_slice(), &domain, &big_domain, &coset_shift, Ghost(c));
        let s2 = column(data.s2.as_slice(), &domain, &big_domain, &coset_shift, Ghost(c));
        let s3 = column(data.s3.as_slice(), &domain, &big_domain, &coset_shift, Ghost(c));
        let (qcp_coeffs, qcp_coset_evals) = columns(
            &data.qcp,
            &domain,
            &big_domain,
            &coset_shift,
            Ghost(c),
        );
        let omega_powers = power_table(&domain.omega, n);
        let omega_lo_table = power_table(&omega_4n, 0x4000);
        let lo_len: [u64; 4] = [0x4000, 0, 0, 0];
        let omega_step = omega_4n.pow(&lo_len);
        let omega_hi_table = power_table(&omega_step, (4 * n) / 0x4000);
        let (x_minus_one_n_inv, zh_inv, zh_vals_4, zh_invs_4) = inverse_tables(
            zh_values.as_slice(),
            x_minus_one_n.as_slice(),
            Ghost(c),
        );
        assert(fields::all_wf(qm.coeffs@)) by {
            reveal(Column::is);
        }
        let qm_is_zero = all_zero(qm.coeffs.as_slice());
        let srs_lagrange = convert_points(data.srs_lagrange.as_slice());
        let srs_canonical = convert_points(data.srs_canonical.as_slice());
        let r = CachedFrData {
            domain,
            coset_shift,
            srs_lagrange,
            srs_canonical,
            s1: s1.evals,
            s2: s2.evals,
            s3: s3.evals,
            num_qcp: data.qcp.len(),
            omega_powers,
            ql_coeffs: ql.coeffs,
            qr_coeffs: qr.coeffs,
            qm_coeffs: qm.coeffs,
            qo_coeffs: qo.coeffs,
            qk_coeffs: qk.coeffs,
            s1_coeffs: s1.coeffs,
            s2_coeffs: s2.coeffs,
            s3_coeffs: s3.coeffs,
            qcp_coeffs,
            ql_coset_evals: ql.coset,
            qr_coset_evals: qr.coset,
            qm_coset_evals: qm.coset,
            qo_coset_evals: qo.coset,
            qk_coset_evals: qk.coset,
            s1_coset_evals: s1.coset,
            s2_coset_evals: s2.coset,
            s3_coset_evals: s3.coset,
            qcp_coset_evals,
            big_domain,
            coset_points,
            zh_values,
            zh_inv,
            x_minus_one_n_inv,
            zh_vals_4,
            zh_invs_4,
            omega_lo_table,
            omega_hi_table,
            qm_is_zero,
        };
        proof {
            assert(r.circuit() == c && c.wf()) by {
                reveal(Column::is);
                assert(r.circuit().qcp =~= c.qcp);
            }
            assert(r.reduced()) by {
                reveal(Column::is);
            }
            assert(limbs::value(lo_len) == 0x4000);
            assert(r.tables()) by {
                reveal(Column::is);
            }
            assert(g1::points_of(r.srs_lagrange@).len() == bn_points(data.srs_lagrange@).len());
        }
        r
    }
}

} // verus!
