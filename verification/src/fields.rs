//! The BN254 scalar field `Fr` and base field `Fq`.
//!
//! Elements are kept in Montgomery form in four `u64` limbs, and convert to and
//! from the eight-`u32` layout of the exchange types.

use crate::bytes;
use crate::limbs;
use crate::modular;
use crate::primes;
use crate::{BN254Fq, BN254Fr};
use rayon::prelude::IntoParallelRefIterator;
use rayon::prelude::ParallelIterator;
use rayon::prelude::ParallelSlice;
use vstd::arithmetic::div_mod::*;
use vstd::arithmetic::mul::*;
use vstd::arithmetic::power::*;
use vstd::prelude::*;

verus! {

/// The scalar field modulus.
pub const FR_MODULUS: [u64; 4] = [
    0x43e1f593f0000001,
    0x2833e84879b97091,
    0xb85045b68181585d,
    0x30644e72e131a029,
];

/// The negated inverse of the scalar field modulus modulo two to the 64.
pub const FR_INV: u64 = 0xc2e1f593efffffff;

/// The Montgomery form of one in the scalar field.
pub const FR_R: [u64; 4] = [
    0xac96341c4ffffffb,
    0x36fc76959f60cd29,
    0x666ea36f7879462e,
    0x0e0a77c19a07df2f,
];

/// The Montgomery form of two to the 256 in the scalar field.
pub const FR_R2: [u64; 4] = [
    0x1bb8e645ae216da7,
    0x53fe3ab1e35c59e3,
    0x8c49833d53bb8085,
    0x0216d0b17f4e44a5,
];

/// The exponent of inversion in the scalar field.
pub const FR_MODULUS_MINUS_2: [u64; 4] = [
    0x43e1f593efffffff,
    0x2833e84879b97091,
    0xb85045b68181585d,
    0x30644e72e131a029,
];

/// The base field modulus.
pub const FQ_MODULUS: [u64; 4] = [
    0x3c208c16d87cfd47,
    0x97816a916871ca8d,
    0xb85045b68181585d,
    0x30644e72e131a029,
];

/// The negated inverse of the base field modulus modulo two to the 64.
pub const FQ_INV: u64 = 0x87d20782e4866389;

/// The Montgomery form of one in the base field.
pub const FQ_R: [u64; 4] = [
    0xd35d438dc58f0d9d,
    0x0a78eb28f5c70b3d,
    0x666ea36f7879462c,
    0x0e0a77c19a07df2f,
];

/// The Montgomery form of two to the 256 in the base field.
pub const FQ_R2: [u64; 4] = [
    0xf32cfc5b538afa89,
    0xb5e71911d44501fb,
    0x47ab1eff0a417ff6,
    0x06d89f71cab8351f,
];

/// The exponent of inversion in the base field.
pub const FQ_MODULUS_MINUS_2: [u64; 4] = [
    0x3c208c16d87cfd45,
    0x97816a916871ca8d,
    0xb85045b68181585d,
    0x30644e72e131a029,
];

// ---------------------------------------------------------------------------
// Fr: the scalar field
// ---------------------------------------------------------------------------

/// The modulus of the scalar field.
#[verifier::opaque]
pub open spec fn fr_modulus() -> int {
    21888242871839275222246405745257275088548364400416034343698204186575808495617int
}

/// What the constants of the scalar field stand for.
pub proof fn lemma_fr_modulus()
    ensures
        0x1_0000000000000000_0000000000000000int < fr_modulus() < limbs::mont_r() / 2,
        fr_modulus() > 0x1000000000000000_0000000000000000_0000000000000000_0000000000000000int,
        limbs::value(FR_MODULUS) == fr_modulus(),
        modular::is_prime(fr_modulus()),
        limbs::radix_invertible(fr_modulus()),
        limbs::is_neg_inverse(FR_INV, FR_MODULUS),
        limbs::value(FR_R) < fr_modulus(),
        limbs::mont_value(limbs::value(FR_R), fr_modulus()) == 1,
        limbs::value(FR_R2) < fr_modulus(),
        limbs::value(FR_R2) % fr_modulus() == (limbs::mont_r() * limbs::mont_r()) % fr_modulus(),
        limbs::value(FR_MODULUS_MINUS_2) == fr_modulus() - 2,
{
    reveal(fr_modulus);
    let p = 21888242871839275222246405745257275088548364400416034343698204186575808495617int;
    primes::lemma_prime_fr_modulus();
    assert(limbs::value(FR_MODULUS) == p);
    assert((0x1_0000000000000000_0000000000000000_0000000000000000_0000000000000000int
        * 9915499612839321149637521777990102151350674507940716049588462388200839649614int) % 21888242871839275222246405745257275088548364400416034343698204186575808495617int == 1);
    assert(limbs::inverts_radix(9915499612839321149637521777990102151350674507940716049588462388200839649614int, p));
    assert(limbs::value(FR_R) == 6350874878119819312338956282401532410528162663560392320966563075034087161851int);
    assert(limbs::value(FR_R) % p == limbs::mont_r() % p);
    limbs::lemma_mont_decode(limbs::value(FR_R), 1, p);
    assert(limbs::value(FR_R2) == 944936681149208446651664254269745548490766851729442924617792859073125903783int);
    assert((0x1_0000000000000000_0000000000000000_0000000000000000_0000000000000000int
        * 0x1_0000000000000000_0000000000000000_0000000000000000_0000000000000000int) % 21888242871839275222246405745257275088548364400416034343698204186575808495617int
        == 944936681149208446651664254269745548490766851729442924617792859073125903783int);
    assert(FR_INV * FR_MODULUS[0] + 1 == 68689682465639167076274959920635314176int) by {
        assert(14042775128853446655int * 4891460686036598785int + 1 == 68689682465639167076274959920635314176int);
    }
}

/// Addition in the scalar field.
pub open spec fn fadd(a: int, b: int) -> int {
    (a + b) % fr_modulus()
}

/// Subtraction in the scalar field.
pub open spec fn fsub(a: int, b: int) -> int {
    (a - b) % fr_modulus()
}

/// Multiplication in the scalar field.
pub open spec fn fmul(a: int, b: int) -> int {
    (a * b) % fr_modulus()
}

/// Negation in the scalar field.
pub open spec fn fneg(a: int) -> int {
    (-a) % fr_modulus()
}

/// Exponentiation in the scalar field.
pub open spec fn fpow(a: int, e: nat) -> int {
    pow(a, e) % fr_modulus()
}

/// The inverse of a nonzero element of the scalar field.
pub open spec fn finv(a: int) -> int {
    fpow(a, (fr_modulus() - 2) as nat)
}

/// Every result lies in the field.
pub proof fn lemma_frange(a: int, b: int, e: nat)
    ensures
        0 <= fadd(a, b) < fr_modulus(),
        0 <= fsub(a, b) < fr_modulus(),
        0 <= fmul(a, b) < fr_modulus(),
        0 <= fneg(a) < fr_modulus(),
        0 <= fpow(a, e) < fr_modulus(),
        0 <= finv(a) < fr_modulus(),
{
    lemma_fr_modulus();
    lemma_mod_bound(a + b, fr_modulus());
    lemma_mod_bound(a - b, fr_modulus());
    lemma_mod_bound(a * b, fr_modulus());
    lemma_mod_bound(-a, fr_modulus());
    lemma_mod_bound(pow(a, e), fr_modulus());
    lemma_mod_bound(pow(a, (fr_modulus() - 2) as nat), fr_modulus());
}

/// Addition and multiplication in the scalar field are commutative and
/// associative, and multiplication distributes over addition and subtraction.
pub proof fn law_fr_ring(a: int, b: int, c: int)
    ensures
        fadd(a, b) == fadd(b, a),
        fmul(a, b) == fmul(b, a),
        fadd(fadd(a, b), c) == fadd(a, fadd(b, c)),
        fmul(fmul(a, b), c) == fmul(a, fmul(b, c)),
        fmul(a, fadd(b, c)) == fadd(fmul(a, b), fmul(a, c)),
        fmul(a, fsub(b, c)) == fsub(fmul(a, b), fmul(a, c)),
{
    lemma_fr_modulus();
    let p = fr_modulus();
    lemma_mul_is_commutative(a, b);
    modular::lemma_mod_idem(a + b, p);
    modular::lemma_mod_idem(b + c, p);
    modular::lemma_mod_idem(b - c, p);
    modular::lemma_mod_idem(a * b, p);
    modular::lemma_mod_idem(b * c, p);
    modular::lemma_mod_idem(a * c, p);
    modular::lemma_add_cong(fadd(a, b), c, a + b, c, p);
    modular::lemma_add_cong(a, fadd(b, c), a, b + c, p);
    modular::lemma_mul_cong(fmul(a, b), c, a * b, c, p);
    modular::lemma_mul_cong(a, fmul(b, c), a, b * c, p);
    lemma_mul_is_associative(a, b, c);
    modular::lemma_mul_cong(a, fadd(b, c), a, b + c, p);
    modular::lemma_add_cong(fmul(a, b), fmul(a, c), a * b, a * c, p);
    lemma_mul_is_distributive_add(a, b, c);
    modular::lemma_mul_cong(a, fsub(b, c), a, b - c, p);
    modular::lemma_sub_cong(fmul(a, b), fmul(a, c), a * b, a * c, p);
    lemma_mul_is_distributive_sub(a, b, c);
}

/// Zero and one are neutral, a difference undoes a sum, and the negative is the
/// additive inverse.
pub proof fn law_fr_units(a: int, b: int)
    requires
        0 <= a < fr_modulus(),
    ensures
        fadd(a, 0) == a,
        fadd(0, a) == a,
        fmul(a, 1) == a,
        fmul(1, a) == a,
        fmul(a, 0) == 0,
        fmul(0, a) == 0,
        fsub(fadd(a, b), b) == a,
        fadd(fsub(a, b), b) == a,
        fadd(a, fneg(a)) == 0,
        fsub(a, b) == fadd(a, fneg(b)),
{
    lemma_fr_modulus();
    let p = fr_modulus();
    lemma_small_mod(a as nat, p as nat);
    lemma_small_mod(0, p as nat);
    modular::lemma_mod_idem(a + b, p);
    modular::lemma_mod_idem(a - b, p);
    modular::lemma_mod_idem(-a, p);
    modular::lemma_mod_idem(-b, p);
    modular::lemma_sub_cong(fadd(a, b), b, a + b, b, p);
    modular::lemma_add_cong(fsub(a, b), b, a - b, b, p);
    modular::lemma_add_cong(a, fneg(a), a, -a, p);
    modular::lemma_add_cong(a, fneg(b), a, -b, p);
}

/// A nonzero element times its inverse is one.
pub proof fn law_fr_inverse(a: int)
    requires
        0 < a < fr_modulus(),
    ensures
        fmul(a, finv(a)) == 1,
        fmul(finv(a), a) == 1,
        finv(a) != 0,
{
    lemma_fr_modulus();
    let p = fr_modulus();
    lemma_small_mod(a as nat, p as nat);
    modular::lemma_fermat(a, p);
    lemma_pow_adds(a, 1, (p - 2) as nat);
    lemma_pow1(a);
    modular::lemma_mod_idem(pow(a, (p - 2) as nat), p);
    modular::lemma_mul_cong(a, finv(a), a, pow(a, (p - 2) as nat), p);
    lemma_mul_is_commutative(a, finv(a));
    if finv(a) == 0 {
        lemma_small_mod(0, p as nat);
        assert(a * 0 == 0);
    }
}

/// An element that gives one with `a` is the inverse of `a`.
pub proof fn lemma_finv_unique(a: int, b: int)
    requires
        0 <= b < fr_modulus(),
        fmul(a, b) == 1,
    ensures
        a % fr_modulus() != 0,
        b == finv(a),
{
    lemma_fr_modulus();
    let p = fr_modulus();
    lemma_small_mod(0, p as nat);
    if a % p == 0 {
        modular::lemma_mul_cong(a, b, 0, b, p);
    }
    let r = a % p;
    modular::lemma_mod_idem(a, p);
    modular::lemma_fermat(a, p);
    lemma_pow_adds(a, 1, (p - 2) as nat);
    lemma_pow1(a);
    let c = pow(a, (p - 2) as nat);
    assert((c * a) % p == (b * a) % p) by {
        lemma_mul_is_commutative(a, b);
        lemma_mul_is_commutative(a, c);
    }
    modular::lemma_cancel(c, b, a, p);
    lemma_small_mod(b as nat, p as nat);
}

/// A product is zero only where a factor is.
pub proof fn law_fr_no_zero_divisors(a: int, b: int)
    requires
        0 < a < fr_modulus(),
        0 < b < fr_modulus(),
    ensures
        fmul(a, b) != 0,
{
    lemma_fr_modulus();
    lemma_small_mod(a as nat, fr_modulus() as nat);
    lemma_small_mod(b as nat, fr_modulus() as nat);
    if fmul(a, b) == 0 {
        modular::lemma_euclid(a, b, fr_modulus());
    }
}

/// Fermat's little theorem in the scalar field.
pub proof fn law_fr_fermat(a: int)
    requires
        0 < a < fr_modulus(),
    ensures
        fpow(a, (fr_modulus() - 1) as nat) == 1,
{
    lemma_fr_modulus();
    lemma_small_mod(a as nat, fr_modulus() as nat);
    modular::lemma_fermat(a, fr_modulus());
}

/// An element of the scalar field in Montgomery form: four little-endian limbs
/// that hold the element times two to the 256.
#[derive(Clone, Copy, Debug, Hash)]
pub struct Fr(pub [u64; 4]);

impl View for Fr {
    type V = int;

    /// The element of the field, from zero up to the modulus.
    open spec fn view(&self) -> int {
        limbs::mont_value(limbs::value(self.0), fr_modulus())
    }
}

impl PartialEq for Fr {
    fn eq(&self, other: &Self) -> (r: bool) {
        limbs::limbs_equal(&self.0, &other.0)
    }
}

impl Eq for Fr {

}

impl vstd::std_specs::cmp::PartialEqSpecImpl for Fr {
    open spec fn obeys_eq_spec() -> bool {
        true
    }

    open spec fn eq_spec(&self, other: &Self) -> bool {
        *self == *other
    }
}

impl Fr {
    /// The limbs are reduced.
    pub open spec fn wf(self) -> bool {
        limbs::value(self.0) < fr_modulus()
    }

    /// The reduced Montgomery form of a number.
    pub open spec fn of(v: int) -> Fr {
        Fr(limbs::limbs_of((v * limbs::mont_r()) % fr_modulus()))
    }

    /// The Montgomery form of a number is reduced and stands for its residue.
    pub broadcast proof fn lemma_of(v: int)
        ensures
            (#[trigger] Fr::of(v)).wf(),
            Fr::of(v)@ == v % fr_modulus(),
    {
        lemma_fr_modulus();
        let p = fr_modulus();
        let c = (v * limbs::mont_r()) % p;
        modular::lemma_mod_idem(v * limbs::mont_r(), p);
        limbs::lemma_limbs_of(c);
        modular::lemma_mod_idem(v, p);
        lemma_mul_mod_noop_left(v, limbs::mont_r(), p);
        limbs::lemma_mont_decode(c, v % p, p);
    }

    /// A reduced element is the Montgomery form of what it stands for.
    pub proof fn lemma_of_view(self)
        requires
            self.wf(),
        ensures
            Fr::of(self@) == self,
            0 <= self@ < fr_modulus(),
    {
        lemma_fr_modulus();
        limbs::lemma_value_bound(self.0);
        limbs::lemma_mont_form(limbs::value(self.0), fr_modulus());
        limbs::lemma_limbs_of(limbs::value(self.0));
        limbs::lemma_value_injective(Fr::of(self@).0, self.0);
    }

    /// Reduced elements that stand for the same field element are equal.
    pub proof fn lemma_view_injective(a: Fr, b: Fr)
        requires
            a.wf(),
            b.wf(),
            a@ == b@,
        ensures
            a == b,
    {
        a.lemma_of_view();
        b.lemma_of_view();
    }

    /// The range of the field element that limbs stand for.
    pub broadcast proof fn lemma_view_range(self)
        ensures
            0 <= #[trigger] self@ < fr_modulus(),
    {
        lemma_fr_modulus();
        lemma_mod_bound(
            limbs::value(self.0) * limbs::radix_inverse(fr_modulus()),
            fr_modulus(),
        );
    }

    /// Zero.
    pub fn zero() -> (r: Self)
        ensures
            r.wf(),
            r@ == 0,
            r == Fr::of(0),
    {
        let r = Fr([0, 0, 0, 0]);
        proof {
            lemma_fr_modulus();
            limbs::lemma_mont_zero(0, fr_modulus());
            r.lemma_of_view();
        }
        r
    }

    /// One.
    pub fn one() -> (r: Self)
        ensures
            r.wf(),
            r@ == 1,
            r == Fr::of(1),
    {
        let r = Fr(FR_R);
        proof {
            lemma_fr_modulus();
            r.lemma_of_view();
        }
        r
    }

    /// The sum.
    pub fn add(&self, rhs: &Self) -> (r: Self)
        requires
            self.wf(),
            rhs.wf(),
        ensures
            r.wf(),
            r@ == fadd(self@, rhs@),
    {
        proof {
            lemma_fr_modulus();
            limbs::lemma_mont_add(limbs::value(self.0), limbs::value(rhs.0), fr_modulus());
        }
        Fr(limbs::add_mod(&self.0, &rhs.0, &FR_MODULUS))
    }

    /// The difference.
    pub fn sub(&self, rhs: &Self) -> (r: Self)
        requires
            self.wf(),
            rhs.wf(),
        ensures
            r.wf(),
            r@ == fsub(self@, rhs@),
    {
        proof {
            lemma_fr_modulus();
            limbs::lemma_mont_add(limbs::value(self.0), limbs::value(rhs.0), fr_modulus());
        }
        Fr(limbs::sub_mod(&self.0, &rhs.0, &FR_MODULUS))
    }

    /// The product.
    pub fn mul(&self, rhs: &Self) -> (r: Self)
        requires
            self.wf(),
            rhs.wf(),
        ensures
            r.wf(),
            r@ == fmul(self@, rhs@),
    {
        proof {
            lemma_fr_modulus();
        }
        let r = Fr(limbs::mont_mul(&self.0, &rhs.0, &FR_MODULUS, FR_INV));
        proof {
            limbs::lemma_mont_product(
                limbs::value(self.0),
                limbs::value(rhs.0),
                limbs::value(r.0),
                fr_modulus(),
            );
        }
        r
    }

    /// The negative.
    pub fn neg(&self) -> (r: Self)
        requires
            self.wf(),
        ensures
            r.wf(),
            r@ == fneg(self@),
    {
        proof {
            lemma_fr_modulus();
            limbs::lemma_mont_add(0, limbs::value(self.0), fr_modulus());
            limbs::lemma_mont_zero(0, fr_modulus());
        }
        Fr(limbs::neg_mod(&self.0, &FR_MODULUS))
    }

    /// The square.
    pub fn square(&self) -> (r: Self)
        requires
            self.wf(),
        ensures
            r.wf(),
            r@ == fmul(self@, self@),
    {
        self.mul(self)
    }

    /// The double.
    pub fn double(&self) -> (r: Self)
        requires
            self.wf(),
        ensures
            r.wf(),
            r@ == fadd(self@, self@),
    {
        self.add(self)
    }

    /// The multiplicative inverse of a nonzero element, by Fermat's little
    /// theorem.
    pub fn inv(&self) -> (r: Self)
        requires
            self.wf(),
            self@ != 0,
        ensures
            r.wf(),
            r@ == finv(self@),
            fmul(self@, r@) == 1,
    {
        proof {
            lemma_fr_modulus();
            self.lemma_of_view();
            law_fr_inverse(self@);
        }
        Fr(limbs::mont_pow(&self.0, &FR_MODULUS_MINUS_2, &FR_MODULUS, FR_INV, &FR_R))
    }

    /// The power with an exponent of four little-endian limbs.
    pub fn pow(&self, exp: &[u64; 4]) -> (r: Self)
        requires
            self.wf(),
        ensures
            r.wf(),
            r@ == fpow(self@, limbs::value(*exp) as nat),
    {
        proof {
            lemma_fr_modulus();
        }
        Fr(limbs::mont_pow(&self.0, exp, &FR_MODULUS, FR_INV, &FR_R))
    }

    /// Whether all limbs are zero, which for a reduced element is whether it is
    /// zero.
    pub fn is_zero(&self) -> (r: bool)
        ensures
            r == (limbs::value(self.0) == 0),
            self.wf() ==> r == (self@ == 0),
    {
        proof {
            lemma_fr_modulus();
            if self.wf() {
                limbs::lemma_mont_zero(limbs::value(self.0), fr_modulus());
            }
        }
        self.0[0] == 0 && self.0[1] == 0 && self.0[2] == 0 && self.0[3] == 0
    }

    /// The element that four little-endian limbs stand for, reduced.
    pub fn from_canonical(v: &[u64; 4]) -> (r: Self)
        ensures
            r.wf(),
            r@ == limbs::value(*v) % fr_modulus(),
    {
        proof {
            lemma_fr_modulus();
            limbs::lemma_value_bound(*v);
        }
        let r = Fr(limbs::mont_mul(v, &FR_R2, &FR_MODULUS, FR_INV));
        proof {
            limbs::lemma_mont_encode(
                limbs::value(*v),
                limbs::value(FR_R2),
                limbs::value(r.0),
                fr_modulus(),
            );
        }
        r
    }

    /// The limbs of the field element.
    pub fn to_canonical(&self) -> (r: [u64; 4])
        ensures
            limbs::value(r) == self@,
    {
        proof {
            lemma_fr_modulus();
            limbs::lemma_value_bound(self.0);
        }
        let one: [u64; 4] = [1, 0, 0, 0];
        let r = limbs::mont_mul(&self.0, &one, &FR_MODULUS, FR_INV);
        proof {
            limbs::lemma_value_bound(r);
            assert(limbs::value(one) == 1);
            limbs::lemma_mont_decode(limbs::value(self.0), limbs::value(r), fr_modulus());
        }
        r
    }

    /// A small number as a field element.
    pub fn from_u64(v: u64) -> (r: Self)
        ensures
            r.wf(),
            r@ == v,
    {
        proof {
            lemma_fr_modulus();
            lemma_small_mod(v as nat, fr_modulus() as nat);
            assert(limbs::value([v, 0, 0, 0]) == v);
        }
        Self::from_canonical(&[v, 0, 0, 0])
    }

    /// The element that canonical `u32` limbs stand for, reduced.
    pub fn from_bn254fr(v: &BN254Fr) -> (r: Self)
        ensures
            r.wf(),
            r@ == limbs::value32(v.limbs) % fr_modulus(),
    {
        let canonical = limbs::u32_to_u64(&v.limbs);
        Self::from_canonical(&canonical)
    }

    /// The canonical `u32` limbs of the field element.
    pub fn to_bn254fr(&self) -> (r: BN254Fr)
        ensures
            limbs::value32(r.limbs) == self@,
    {
        let canonical = self.to_canonical();
        BN254Fr { limbs: limbs::u64_to_u32(&canonical) }
    }

    /// The residue of the number that 32 big-endian bytes stand for.
    pub fn from_be_bytes_mod_order(bytes: &[u8; 32]) -> (r: Self)
        ensures
            r.wf(),
            r@ == bytes::be_value(bytes@) % fr_modulus(),
    {
        let mut l = bytes::limbs_from_be(bytes.as_slice(), 0);
        let ghost v = bytes::be_value(bytes@);
        proof {
            assert(bytes@.subrange(0, 32) =~= bytes@);
            lemma_fr_modulus();
            limbs::lemma_value_bound(l);
        }
        while limbs::gte(&l, &FR_MODULUS)
            invariant
                limbs::value(FR_MODULUS) == fr_modulus(),
                fr_modulus() > 1,
                limbs::value(l) % fr_modulus() == v % fr_modulus(),
            decreases limbs::value(l),
        {
            let (next, borrow) = limbs::sub_limbs(&l, &FR_MODULUS);
            proof {
                limbs::lemma_value_bound(l);
                limbs::lemma_value_bound(next);
                modular::lemma_mod_shift(
                    limbs::value(next),
                    limbs::value(l),
                    -1,
                    fr_modulus(),
                );
            }
            l = next;
        }
        Self::from_canonical(&l)
    }

    /// The 32 big-endian bytes of the field element.
    pub fn to_be_bytes(&self) -> (r: [u8; 32])
        ensures
            r@ == bytes::be_bytes(self@, 32),
            bytes::be_value(r@) == self@,
    {
        let canonical = self.to_canonical();
        bytes::limbs_to_be(&canonical)
    }

    /// The 32 little-endian bytes of the field element.
    pub fn to_le_bytes(&self) -> (r: [u8; 32])
        ensures
            r@ == bytes::le_bytes(self@, 32),
            bytes::le_value(r@) == self@,
    {
        let be = self.to_be_bytes();
        proof {
            assert(be@.reverse().reverse() =~= be@);
        }
        bytes::reverse_32(&be)
    }
}

impl Fr {
    /// Add to this element.
    pub fn add_assign(&mut self, rhs: Self)
        requires
            old(self).wf(),
            rhs.wf(),
        ensures
            final(self).wf(),
            final(self)@ == fadd(old(self)@, rhs@),
    {
        *self = Fr::add(self, &rhs);
    }

    /// Subtract from this element.
    pub fn sub_assign(&mut self, rhs: Self)
        requires
            old(self).wf(),
            rhs.wf(),
        ensures
            final(self).wf(),
            final(self)@ == fsub(old(self)@, rhs@),
    {
        *self = Fr::sub(self, &rhs);
    }

    /// Multiply this element.
    pub fn mul_assign(&mut self, rhs: Self)
        requires
            old(self).wf(),
            rhs.wf(),
        ensures
            final(self).wf(),
            final(self)@ == fmul(old(self)@, rhs@),
    {
        *self = Fr::mul(self, &rhs);
    }

    /// The element as text: `0x` and 64 hexadecimal digits.
    pub fn to_text(&self) -> (r: String)
        ensures
            r@ == "0x"@ + hex_text(self@, 64),
    {
        let c = self.to_canonical();
        let r = format_limbs(&c);
        proof {
            lemma_hex_limbs(c);
        }
        r
    }
}

/// The character of a hexadecimal digit.
pub open spec fn hex_char(d: int) -> char {
    if d < 10 {
        (0x30 + d) as char
    } else {
        (0x61 + d - 10) as char
    }
}

/// The last `n` hexadecimal digits of a number.
pub open spec fn hex_text(v: int, n: nat) -> Seq<char>
    decreases n,
{
    if n == 0 {
        seq![]
    } else {
        hex_text(v / 16, (n - 1) as nat).push(hex_char(v % 16))
    }
}

/// `format!` with `{:016x}` for each limb, the highest first, behind `0x`. Claims that
/// such a field is the lower-case hexadecimal form, with zeros in front up to sixteen
/// digits.
#[verifier::external_body]
fn format_limbs(c: &[u64; 4]) -> (r: String)
    ensures
        r@ == "0x"@ + hex_text(c[3] as int, 16) + hex_text(c[2] as int, 16) + hex_text(
            c[1] as int,
            16,
        ) + hex_text(c[0] as int, 16),
{
    format!("0x{:016x}{:016x}{:016x}{:016x}", c[3], c[2], c[1], c[0])
}

/// Sixteen digits are two to the 64.
proof fn lemma_pow16()
    ensures
        pow(16, 16) == 0x1_0000000000000000int,
{
    lemma_pow1(16);
    lemma_pow_adds(16, 1, 1);
    assert(pow(16, 2) == 256);
    lemma_pow_adds(16, 2, 2);
    assert(pow(16, 4) == 65536);
    lemma_pow_adds(16, 4, 4);
    assert(pow(16, 8) == 4294967296);
    lemma_pow_adds(16, 8, 8);
}

/// The digits of a number are those of its high part and then those of its low part.
proof fn lemma_hex_split(high: int, low: int, m: nat, n: nat)
    requires
        0 <= high,
        0 <= low < pow(16, n),
    ensures
        hex_text(high * pow(16, n) + low, m + n) == hex_text(high, m) + hex_text(low, n),
    decreases n,
{
    if n == 0 {
        lemma_pow0(16);
        assert(high * pow(16, 0) + low == high);
        assert(hex_text(high, m) + hex_text(low, 0) =~= hex_text(high, m));
    } else {
        let k = (n - 1) as nat;
        lemma_pow_positive(16, k);
        lemma_pow_adds(16, k, 1);
        lemma_pow1(16);
        let p = pow(16, k);
        let v = high * pow(16, n) + low;
        lemma_fundamental_div_mod(low, 16);
        let q = low / 16;
        let r = low % 16;
        assert(q < p) by (nonlinear_arith)
            requires
                low == 16 * q + r,
                0 <= r,
                low < p * 16,
        ;
        assert(v == (high * p + q) * 16 + r) by (nonlinear_arith)
            requires
                v == high * (p * 16) + low,
                low == 16 * q + r,
        ;
        lemma_fundamental_div_mod_converse(v, 16, high * p + q, r);
        lemma_hex_split(high, q, m, k);
        assert(hex_text(high, m) + hex_text(low, n) =~= (hex_text(high, m) + hex_text(q, k)).push(
            hex_char(r),
        ));
    }
}

/// The digits of a number are those of its limbs.
proof fn lemma_hex_limbs(c: [u64; 4])
    ensures
        "0x"@ + hex_text(limbs::value(c), 64) == "0x"@ + hex_text(c[3] as int, 16) + hex_text(
            c[2] as int,
            16,
        ) + hex_text(c[1] as int, 16) + hex_text(c[0] as int, 16),
{
    lemma_pow16();
    let b = 0x1_0000000000000000int;
    let v2 = c[3] * b + c[2];
    let v3 = v2 * b + c[1];
    let v4 = v3 * b + c[0];
    lemma_hex_split(c[3] as int, c[2] as int, 16, 16);
    lemma_hex_split(v2, c[1] as int, 32, 16);
    lemma_hex_split(v3, c[0] as int, 48, 16);
    assert(v4 == limbs::value(c));
    assert("0x"@ + hex_text(limbs::value(c), 64) =~= "0x"@ + hex_text(c[3] as int, 16) + hex_text(
        c[2] as int,
        16,
    ) + hex_text(c[1] as int, 16) + hex_text(c[0] as int, 16));
}

impl std::ops::Add for Fr {
    type Output = Self;

    fn add(self, rhs: Self) -> (r: Self) {
        let r = Fr::add(&self, &rhs);
        proof {
            r.lemma_of_view();
        }
        r
    }
}

impl vstd::std_specs::ops::AddSpecImpl for Fr {
    open spec fn obeys_add_spec() -> bool {
        true
    }

    open spec fn add_req(self, rhs: Self) -> bool {
        self.wf() && rhs.wf()
    }

    open spec fn add_spec(self, rhs: Self) -> Self {
        Fr::of(fadd(self@, rhs@))
    }
}

impl std::ops::Sub for Fr {
    type Output = Self;

    fn sub(self, rhs: Self) -> (r: Self) {
        let r = Fr::sub(&self, &rhs);
        proof {
            r.lemma_of_view();
        }
        r
    }
}

impl vstd::std_specs::ops::SubSpecImpl for Fr {
    open spec fn obeys_sub_spec() -> bool {
        true
    }

    open spec fn sub_req(self, rhs: Self) -> bool {
        self.wf() && rhs.wf()
    }

    open spec fn sub_spec(self, rhs: Self) -> Self {
        Fr::of(fsub(self@, rhs@))
    }
}

impl std::ops::Mul for Fr {
    type Output = Self;

    fn mul(self, rhs: Self) -> (r: Self) {
        let r = Fr::mul(&self, &rhs);
        proof {
            r.lemma_of_view();
        }
        r
    }
}

impl vstd::std_specs::ops::MulSpecImpl for Fr {
    open spec fn obeys_mul_spec() -> bool {
        true
    }

    open spec fn mul_req(self, rhs: Self) -> bool {
        self.wf() && rhs.wf()
    }

    open spec fn mul_spec(self, rhs: Self) -> Self {
        Fr::of(fmul(self@, rhs@))
    }
}

impl std::ops::Neg for Fr {
    type Output = Self;

    fn neg(self) -> (r: Self) {
        let r = Fr::neg(&self);
        proof {
            r.lemma_of_view();
        }
        r
    }
}

impl vstd::std_specs::ops::NegSpecImpl for Fr {
    open spec fn obeys_neg_spec() -> bool {
        true
    }

    open spec fn neg_req(self) -> bool {
        self.wf()
    }

    open spec fn neg_spec(self) -> Self {
        Fr::of(fneg(self@))
    }
}

// ---------------------------------------------------------------------------
// Fq: the base field
// ---------------------------------------------------------------------------

/// The modulus of the base field.
#[verifier::opaque]
pub open spec fn fq_modulus() -> int {
    21888242871839275222246405745257275088696311157297823662689037894645226208583int
}

/// What the constants of the base field stand for.
pub proof fn lemma_fq_modulus()
    ensures
        0x1_0000000000000000_0000000000000000int < fq_modulus() < limbs::mont_r() / 2,
        fq_modulus() > 0x1000000000000000_0000000000000000_0000000000000000_0000000000000000int,
        limbs::value(FQ_MODULUS) == fq_modulus(),
        modular::is_prime(fq_modulus()),
        limbs::radix_invertible(fq_modulus()),
        limbs::is_neg_inverse(FQ_INV, FQ_MODULUS),
        limbs::value(FQ_R) < fq_modulus(),
        limbs::mont_value(limbs::value(FQ_R), fq_modulus()) == 1,
        limbs::value(FQ_R2) < fq_modulus(),
        limbs::value(FQ_R2) % fq_modulus() == (limbs::mont_r() * limbs::mont_r()) % fq_modulus(),
        limbs::value(FQ_MODULUS_MINUS_2) == fq_modulus() - 2,
{
    reveal(fq_modulus);
    let p = 21888242871839275222246405745257275088696311157297823662689037894645226208583int;
    primes::lemma_prime_fq_modulus();
    assert(limbs::value(FQ_MODULUS) == p);
    assert((0x1_0000000000000000_0000000000000000_0000000000000000_0000000000000000int
        * 20988524275117001072002809824448087578619730785600314334253784976379291040311int) % 21888242871839275222246405745257275088696311157297823662689037894645226208583int == 1);
    assert(limbs::inverts_radix(20988524275117001072002809824448087578619730785600314334253784976379291040311int, p));
    assert(limbs::value(FQ_R) == 6350874878119819312338956282401532409788428879151445726012394534686998597021int);
    assert(limbs::value(FQ_R) % p == limbs::mont_r() % p);
    limbs::lemma_mont_decode(limbs::value(FQ_R), 1, p);
    assert(limbs::value(FQ_R2) == 3096616502983703923843567936837374451735540968419076528771170197431451843209int);
    assert((0x1_0000000000000000_0000000000000000_0000000000000000_0000000000000000int
        * 0x1_0000000000000000_0000000000000000_0000000000000000_0000000000000000int) % 21888242871839275222246405745257275088696311157297823662689037894645226208583int
        == 3096616502983703923843567936837374451735540968419076528771170197431451843209int);
    assert(FQ_INV * FQ_MODULUS[0] + 1 == 42402858591359079530883058164727545856int) by {
        assert(9786893198990664585int * 4332616871279656263int + 1 == 42402858591359079530883058164727545856int);
    }
}

/// Addition in the base field.
pub open spec fn qadd(a: int, b: int) -> int {
    (a + b) % fq_modulus()
}

/// Subtraction in the base field.
pub open spec fn qsub(a: int, b: int) -> int {
    (a - b) % fq_modulus()
}

/// Multiplication in the base field.
pub open spec fn qmul(a: int, b: int) -> int {
    (a * b) % fq_modulus()
}

/// Negation in the base field.
pub open spec fn qneg(a: int) -> int {
    (-a) % fq_modulus()
}

/// Exponentiation in the base field.
pub open spec fn qpow(a: int, e: nat) -> int {
    pow(a, e) % fq_modulus()
}

/// The inverse of a nonzero element of the base field.
pub open spec fn qinv(a: int) -> int {
    qpow(a, (fq_modulus() - 2) as nat)
}

/// Every result lies in the field.
pub proof fn lemma_qrange(a: int, b: int, e: nat)
    ensures
        0 <= qadd(a, b) < fq_modulus(),
        0 <= qsub(a, b) < fq_modulus(),
        0 <= qmul(a, b) < fq_modulus(),
        0 <= qneg(a) < fq_modulus(),
        0 <= qpow(a, e) < fq_modulus(),
        0 <= qinv(a) < fq_modulus(),
{
    lemma_fq_modulus();
    lemma_mod_bound(a + b, fq_modulus());
    lemma_mod_bound(a - b, fq_modulus());
    lemma_mod_bound(a * b, fq_modulus());
    lemma_mod_bound(-a, fq_modulus());
    lemma_mod_bound(pow(a, e), fq_modulus());
    lemma_mod_bound(pow(a, (fq_modulus() - 2) as nat), fq_modulus());
}

/// Addition and multiplication in the base field are commutative and
/// associative, and multiplication distributes over addition and subtraction.
pub proof fn law_fq_ring(a: int, b: int, c: int)
    ensures
        qadd(a, b) == qadd(b, a),
        qmul(a, b) == qmul(b, a),
        qadd(qadd(a, b), c) == qadd(a, qadd(b, c)),
        qmul(qmul(a, b), c) == qmul(a, qmul(b, c)),
        qmul(a, qadd(b, c)) == qadd(qmul(a, b), qmul(a, c)),
        qmul(a, qsub(b, c)) == qsub(qmul(a, b), qmul(a, c)),
{
    lemma_fq_modulus();
    let p = fq_modulus();
    lemma_mul_is_commutative(a, b);
    modular::lemma_mod_idem(a + b, p);
    modular::lemma_mod_idem(b + c, p);
    modular::lemma_mod_idem(b - c, p);
    modular::lemma_mod_idem(a * b, p);
    modular::lemma_mod_idem(b * c, p);
    modular::lemma_mod_idem(a * c, p);
    modular::lemma_add_cong(qadd(a, b), c, a + b, c, p);
    modular::lemma_add_cong(a, qadd(b, c), a, b + c, p);
    modular::lemma_mul_cong(qmul(a, b), c, a * b, c, p);
    modular::lemma_mul_cong(a, qmul(b, c), a, b * c, p);
    lemma_mul_is_associative(a, b, c);
    modular::lemma_mul_cong(a, qadd(b, c), a, b + c, p);
    modular::lemma_add_cong(qmul(a, b), qmul(a, c), a * b, a * c, p);
    lemma_mul_is_distributive_add(a, b, c);
    modular::lemma_mul_cong(a, qsub(b, c), a, b - c, p);
    modular::lemma_sub_cong(qmul(a, b), qmul(a, c), a * b, a * c, p);
    lemma_mul_is_distributive_sub(a, b, c);
}

/// Zero and one are neutral, a difference undoes a sum, and the negative is the
/// additive inverse.
pub proof fn law_fq_units(a: int, b: int)
    requires
        0 <= a < fq_modulus(),
    ensures
        qadd(a, 0) == a,
        qadd(0, a) == a,
        qmul(a, 1) == a,
        qmul(1, a) == a,
        qmul(a, 0) == 0,
        qmul(0, a) == 0,
        qsub(qadd(a, b), b) == a,
        qadd(qsub(a, b), b) == a,
        qadd(a, qneg(a)) == 0,
        qsub(a, b) == qadd(a, qneg(b)),
{
    lemma_fq_modulus();
    let p = fq_modulus();
    lemma_small_mod(a as nat, p as nat);
    lemma_small_mod(0, p as nat);
    modular::lemma_mod_idem(a + b, p);
    modular::lemma_mod_idem(a - b, p);
    modular::lemma_mod_idem(-a, p);
    modular::lemma_mod_idem(-b, p);
    modular::lemma_sub_cong(qadd(a, b), b, a + b, b, p);
    modular::lemma_add_cong(qsub(a, b), b, a - b, b, p);
    modular::lemma_add_cong(a, qneg(a), a, -a, p);
    modular::lemma_add_cong(a, qneg(b), a, -b, p);
}

/// A nonzero element times its inverse is one.
pub proof fn law_fq_inverse(a: int)
    requires
        0 < a < fq_modulus(),
    ensures
        qmul(a, qinv(a)) == 1,
        qmul(qinv(a), a) == 1,
        qinv(a) != 0,
{
    lemma_fq_modulus();
    let p = fq_modulus();
    lemma_small_mod(a as nat, p as nat);
    modular::lemma_fermat(a, p);
    lemma_pow_adds(a, 1, (p - 2) as nat);
    lemma_pow1(a);
    modular::lemma_mod_idem(pow(a, (p - 2) as nat), p);
    modular::lemma_mul_cong(a, qinv(a), a, pow(a, (p - 2) as nat), p);
    lemma_mul_is_commutative(a, qinv(a));
    if qinv(a) == 0 {
        lemma_small_mod(0, p as nat);
        assert(a * 0 == 0);
    }
}

/// A product is zero only where a factor is.
pub proof fn law_fq_no_zero_divisors(a: int, b: int)
    requires
        0 < a < fq_modulus(),
        0 < b < fq_modulus(),
    ensures
        qmul(a, b) != 0,
{
    lemma_fq_modulus();
    lemma_small_mod(a as nat, fq_modulus() as nat);
    lemma_small_mod(b as nat, fq_modulus() as nat);
    if qmul(a, b) == 0 {
        modular::lemma_euclid(a, b, fq_modulus());
    }
}

/// Fermat's little theorem in the base field.
pub proof fn law_fq_fermat(a: int)
    requires
        0 < a < fq_modulus(),
    ensures
        qpow(a, (fq_modulus() - 1) as nat) == 1,
{
    lemma_fq_modulus();
    lemma_small_mod(a as nat, fq_modulus() as nat);
    modular::lemma_fermat(a, fq_modulus());
}

/// An element of the base field in Montgomery form: four little-endian limbs
/// that hold the element times two to the 256.
#[derive(Clone, Copy, Debug, Hash)]
pub struct Fq(pub [u64; 4]);

impl View for Fq {
    type V = int;

    /// The element of the field, from zero up to the modulus.
    open spec fn view(&self) -> int {
        limbs::mont_value(limbs::value(self.0), fq_modulus())
    }
}

impl PartialEq for Fq {
    fn eq(&self, other: &Self) -> (r: bool) {
        limbs::limbs_equal(&self.0, &other.0)
    }
}

impl Eq for Fq {

}

impl vstd::std_specs::cmp::PartialEqSpecImpl for Fq {
    open spec fn obeys_eq_spec() -> bool {
        true
    }

    open spec fn eq_spec(&self, other: &Self) -> bool {
        *self == *other
    }
}

impl Fq {
    /// The limbs are reduced.
    pub open spec fn wf(self) -> bool {
        limbs::value(self.0) < fq_modulus()
    }

    /// The reduced Montgomery form of a number.
    pub open spec fn of(v: int) -> Fq {
        Fq(limbs::limbs_of((v * limbs::mont_r()) % fq_modulus()))
    }

    /// The Montgomery form of a number is reduced and stands for its residue.
    pub broadcast proof fn lemma_of(v: int)
        ensures
            (#[trigger] Fq::of(v)).wf(),
            Fq::of(v)@ == v % fq_modulus(),
    {
        lemma_fq_modulus();
        let p = fq_modulus();
        let c = (v * limbs::mont_r()) % p;
        modular::lemma_mod_idem(v * limbs::mont_r(), p);
        limbs::lemma_limbs_of(c);
        modular::lemma_mod_idem(v, p);
        lemma_mul_mod_noop_left(v, limbs::mont_r(), p);
        limbs::lemma_mont_decode(c, v % p, p);
    }

    /// A reduced element is the Montgomery form of what it stands for.
    pub proof fn lemma_of_view(self)
        requires
            self.wf(),
        ensures
            Fq::of(self@) == self,
            0 <= self@ < fq_modulus(),
    {
        lemma_fq_modulus();
        limbs::lemma_value_bound(self.0);
        limbs::lemma_mont_form(limbs::value(self.0), fq_modulus());
        limbs::lemma_limbs_of(limbs::value(self.0));
        limbs::lemma_value_injective(Fq::of(self@).0, self.0);
    }

    /// Reduced elements that stand for the same field element are equal.
    pub proof fn lemma_view_injective(a: Fq, b: Fq)
        requires
            a.wf(),
            b.wf(),
            a@ == b@,
        ensures
            a == b,
    {
        a.lemma_of_view();
        b.lemma_of_view();
    }

    /// The range of the field element that limbs stand for.
    pub broadcast proof fn lemma_view_range(self)
        ensures
            0 <= #[trigger] self@ < fq_modulus(),
    {
        lemma_fq_modulus();
        lemma_mod_bound(
            limbs::value(self.0) * limbs::radix_inverse(fq_modulus()),
            fq_modulus(),
        );
    }

    /// Zero.
    pub fn zero() -> (r: Self)
        ensures
            r.wf(),
            r@ == 0,
            r == Fq::of(0),
    {
        let r = Fq([0, 0, 0, 0]);
        proof {
            lemma_fq_modulus();
            limbs::lemma_mont_zero(0, fq_modulus());
            r.lemma_of_view();
        }
        r
    }

    /// One.
    pub fn one() -> (r: Self)
        ensures
            r.wf(),
            r@ == 1,
            r == Fq::of(1),
    {
        let r = Fq(FQ_R);
        proof {
            lemma_fq_modulus();
            r.lemma_of_view();
        }
        r
    }

    /// The sum.
    pub fn add(&self, rhs: &Self) -> (r: Self)
        requires
            self.wf(),
            rhs.wf(),
        ensures
            r.wf(),
            r@ == qadd(self@, rhs@),
    {
        proof {
            lemma_fq_modulus();
            limbs::lemma_mont_add(limbs::value(self.0), limbs::value(rhs.0), fq_modulus());
        }
        Fq(limbs::add_mod(&self.0, &rhs.0, &FQ_MODULUS))
    }

    /// The difference.
    pub fn sub(&self, rhs: &Self) -> (r: Self)
        requires
            self.wf(),
            rhs.wf(),
        ensures
            r.wf(),
            r@ == qsub(self@, rhs@),
    {
        proof {
            lemma_fq_modulus();
            limbs::lemma_mont_add(limbs::value(self.0), limbs::value(rhs.0), fq_modulus());
        }
        Fq(limbs::sub_mod(&self.0, &rhs.0, &FQ_MODULUS))
    }

    /// The product.
    pub fn mul(&self, rhs: &Self) -> (r: Self)
        requires
            self.wf(),
            rhs.wf(),
        ensures
            r.wf(),
            r@ == qmul(self@, rhs@),
    {
        proof {
            lemma_fq_modulus();
        }
        let r = Fq(limbs::mont_mul(&self.0, &rhs.0, &FQ_MODULUS, FQ_INV));
        proof {
            limbs::lemma_mont_product(
                limbs::value(self.0),
                limbs::value(rhs.0),
                limbs::value(r.0),
                fq_modulus(),
            );
        }
        r
    }

    /// The negative.
    pub fn neg(&self) -> (r: Self)
        requires
            self.wf(),
        ensures
            r.wf(),
            r@ == qneg(self@),
    {
        proof {
            lemma_fq_modulus();
            limbs::lemma_mont_add(0, limbs::value(self.0), fq_modulus());
            limbs::lemma_mont_zero(0, fq_modulus());
        }
        Fq(limbs::neg_mod(&self.0, &FQ_MODULUS))
    }

    /// The square.
    pub fn square(&self) -> (r: Self)
        requires
            self.wf(),
        ensures
            r.wf(),
            r@ == qmul(self@, self@),
    {
        self.mul(self)
    }

    /// The double.
    pub fn double(&self) -> (r: Self)
        requires
            self.wf(),
        ensures
            r.wf(),
            r@ == qadd(self@, self@),
    {
        self.add(self)
    }

    /// The multiplicative inverse of a nonzero element, by Fermat's little
    /// theorem.
    pub fn inv(&self) -> (r: Self)
        requires
            self.wf(),
            self@ != 0,
        ensures
            r.wf(),
            r@ == qinv(self@),
            qmul(self@, r@) == 1,
    {
        proof {
            lemma_fq_modulus();
            self.lemma_of_view();
            law_fq_inverse(self@);
        }
        Fq(limbs::mont_pow(&self.0, &FQ_MODULUS_MINUS_2, &FQ_MODULUS, FQ_INV, &FQ_R))
    }

    /// Whether all limbs are zero, which for a reduced element is whether it is
    /// zero.
    pub fn is_zero(&self) -> (r: bool)
        ensures
            r == (limbs::value(self.0) == 0),
            self.wf() ==> r == (self@ == 0),
    {
        proof {
            lemma_fq_modulus();
            if self.wf() {
                limbs::lemma_mont_zero(limbs::value(self.0), fq_modulus());
            }
        }
        self.0[0] == 0 && self.0[1] == 0 && self.0[2] == 0 && self.0[3] == 0
    }

    /// The element that four little-endian limbs stand for, reduced.
    pub fn from_canonical(v: &[u64; 4]) -> (r: Self)
        ensures
            r.wf(),
            r@ == limbs::value(*v) % fq_modulus(),
    {
        proof {
            lemma_fq_modulus();
            limbs::lemma_value_bound(*v);
        }
        let r = Fq(limbs::mont_mul(v, &FQ_R2, &FQ_MODULUS, FQ_INV));
        proof {
            limbs::lemma_mont_encode(
                limbs::value(*v),
                limbs::value(FQ_R2),
                limbs::value(r.0),
                fq_modulus(),
            );
        }
        r
    }

    /// The limbs of the field element.
    pub fn to_canonical(&self) -> (r: [u64; 4])
        ensures
            limbs::value(r) == self@,
    {
        proof {
            lemma_fq_modulus();
            limbs::lemma_value_bound(self.0);
        }
        let one: [u64; 4] = [1, 0, 0, 0];
        let r = limbs::mont_mul(&self.0, &one, &FQ_MODULUS, FQ_INV);
        proof {
            limbs::lemma_value_bound(r);
            assert(limbs::value(one) == 1);
            limbs::lemma_mont_decode(limbs::value(self.0), limbs::value(r), fq_modulus());
        }
        r
    }

    /// A small number as a field element.
    pub fn from_u64(v: u64) -> (r: Self)
        ensures
            r.wf(),
            r@ == v,
    {
        proof {
            lemma_fq_modulus();
            lemma_small_mod(v as nat, fq_modulus() as nat);
            assert(limbs::value([v, 0, 0, 0]) == v);
        }
        Self::from_canonical(&[v, 0, 0, 0])
    }

    /// The element whose Montgomery form the `u32` limbs hold.
    pub fn from_bn254fq_raw(v: &BN254Fq) -> (r: Self)
        ensures
            limbs::value(r.0) == limbs::value32(v.limbs),
    {
        Fq(limbs::u32_to_u64(&v.limbs))
    }

    /// The element that canonical `u32` limbs stand for, reduced.
    pub fn from_bn254fq_canonical(v: &BN254Fq) -> (r: Self)
        ensures
            r.wf(),
            r@ == limbs::value32(v.limbs) % fq_modulus(),
    {
        let canonical = limbs::u32_to_u64(&v.limbs);
        Self::from_canonical(&canonical)
    }

    /// The Montgomery form as `u32` limbs.
    pub fn to_bn254fq_raw(&self) -> (r: BN254Fq)
        ensures
            limbs::value32(r.limbs) == limbs::value(self.0),
    {
        BN254Fq { limbs: limbs::u64_to_u32(&self.0) }
    }
}

impl std::ops::Add for Fq {
    type Output = Self;

    fn add(self, rhs: Self) -> (r: Self) {
        let r = Fq::add(&self, &rhs);
        proof {
            r.lemma_of_view();
        }
        r
    }
}

impl vstd::std_specs::ops::AddSpecImpl for Fq {
    open spec fn obeys_add_spec() -> bool {
        true
    }

    open spec fn add_req(self, rhs: Self) -> bool {
        self.wf() && rhs.wf()
    }

    open spec fn add_spec(self, rhs: Self) -> Self {
        Fq::of(qadd(self@, rhs@))
    }
}

impl std::ops::Sub for Fq {
    type Output = Self;

    fn sub(self, rhs: Self) -> (r: Self) {
        let r = Fq::sub(&self, &rhs);
        proof {
            r.lemma_of_view();
        }
        r
    }
}

impl vstd::std_specs::ops::SubSpecImpl for Fq {
    open spec fn obeys_sub_spec() -> bool {
        true
    }

    open spec fn sub_req(self, rhs: Self) -> bool {
        self.wf() && rhs.wf()
    }

    open spec fn sub_spec(self, rhs: Self) -> Self {
        Fq::of(qsub(self@, rhs@))
    }
}

impl std::ops::Mul for Fq {
    type Output = Self;

    fn mul(self, rhs: Self) -> (r: Self) {
        let r = Fq::mul(&self, &rhs);
        proof {
            r.lemma_of_view();
        }
        r
    }
}

impl vstd::std_specs::ops::MulSpecImpl for Fq {
    open spec fn obeys_mul_spec() -> bool {
        true
    }

    open spec fn mul_req(self, rhs: Self) -> bool {
        self.wf() && rhs.wf()
    }

    open spec fn mul_spec(self, rhs: Self) -> Self {
        Fq::of(qmul(self@, rhs@))
    }
}

impl std::ops::Neg for Fq {
    type Output = Self;

    fn neg(self) -> (r: Self) {
        let r = Fq::neg(&self);
        proof {
            r.lemma_of_view();
        }
        r
    }
}

impl vstd::std_specs::ops::NegSpecImpl for Fq {
    open spec fn obeys_neg_spec() -> bool {
        true
    }

    open spec fn neg_req(self) -> bool {
        self.wf()
    }

    open spec fn neg_spec(self) -> Self {
        Fq::of(qneg(self@))
    }
}


// ---------------------------------------------------------------------------
// Batches of scalars
// ---------------------------------------------------------------------------

/// The field elements that a sequence of scalars stands for.
pub open spec fn vals(s: Seq<Fr>) -> Seq<int> {
    Seq::new(s.len(), |i: int| s[i]@)
}

/// Every scalar of the sequence is reduced.
pub open spec fn all_wf(s: Seq<Fr>) -> bool {
    forall|i: int| 0 <= i < s.len() ==> (#[trigger] s[i]).wf()
}

/// No scalar of the sequence is zero.
pub open spec fn all_nonzero(s: Seq<Fr>) -> bool {
    forall|i: int| 0 <= i < s.len() ==> (#[trigger] s[i])@ != 0
}

/// The product of a sequence of scalar field elements.
pub open spec fn fprod(s: Seq<int>) -> int
    decreases s.len(),
{
    if s.len() == 0 {
        1
    } else {
        fmul(fprod(s.drop_last()), s.last())
    }
}

/// The scalars from `ci * size` on, at most `size` of them.
pub open spec fn chunk_of<T>(s: Seq<T>, size: nat, ci: int) -> Seq<T> {
    s.subrange(
        ci * size,
        if (ci + 1) * size <= s.len() {
            (ci + 1) * size
        } else {
            s.len() as int
        },
    )
}

/// `prefix` holds the running products of `values`, each with its own element.
pub open spec fn running_products(values: Seq<Fr>, prefix: Seq<Fr>) -> bool {
    &&& prefix.len() == values.len()
    &&& all_wf(prefix)
    &&& forall|i: int|
        0 <= i < values.len() ==> (#[trigger] prefix[i])@ == fprod(vals(values).take(i + 1))
}

/// Products can be regrouped.
pub proof fn lemma_fmul_regroup(a: int, b: int, c: int, d: int)
    ensures
        fmul(fmul(a, b), c) == fmul(a, fmul(b, c)),
        fmul(fmul(fmul(a, b), c), d) == fmul(a, fmul(b, fmul(c, d))),
        fmul(fmul(a, d), fmul(b, c)) == fmul(a, fmul(b, fmul(c, d))),
{
    law_fr_ring(a, b, c);
    law_fr_ring(fmul(a, b), c, d);
    law_fr_ring(a, b, fmul(c, d));
    law_fr_ring(a, d, fmul(b, c));
    law_fr_ring(b, c, d);
    law_fr_ring(d, fmul(b, c), 0);
}

/// The product of a concatenation is the product of the products.
pub proof fn lemma_fprod_concat(a: Seq<int>, b: Seq<int>)
    ensures
        0 <= fprod(a) < fr_modulus(),
        fprod(a + b) == fmul(fprod(a), fprod(b)),
    decreases b.len(),
{
    lemma_fprod_range(a);
    if b.len() == 0 {
        assert(a + b =~= a);
        law_fr_units(fprod(a), 0);
    } else {
        lemma_fprod_concat(a, b.drop_last());
        assert((a + b).drop_last() =~= a + b.drop_last());
        law_fr_ring(fprod(a), fprod(b.drop_last()), b.last());
    }
}

/// A product is an element of the field.
pub proof fn lemma_fprod_range(a: Seq<int>)
    ensures
        0 <= fprod(a) < fr_modulus(),
{
    lemma_fr_modulus();
    if a.len() > 0 {
        lemma_frange(fprod(a.drop_last()), a.last(), 0);
    }
}

/// A product of nonzero elements is not zero.
pub proof fn lemma_fprod_nonzero(a: Seq<int>)
    requires
        forall|i: int| 0 <= i < a.len() ==> 0 < #[trigger] a[i] < fr_modulus(),
    ensures
        0 < fprod(a) < fr_modulus(),
    decreases a.len(),
{
    lemma_fprod_range(a);
    if a.len() > 0 {
        lemma_fprod_nonzero(a.drop_last());
        law_fr_no_zero_divisors(fprod(a.drop_last()), a.last());
    } else {
        lemma_fr_modulus();
    }
}

/// The running products of a slice.
pub fn prefix_products(values: &[Fr]) -> (r: Vec<Fr>)
    requires
        all_wf(values@),
    ensures
        running_products(values@, r@),
        r@.len() == values@.len(),
        values@.len() > 0 ==> r@[0]@ == values@[0]@,
        forall|i: int|
            0 <= i && i + 1 < values@.len() ==> (#[trigger] r@[i + 1])@ == fmul(
                r@[i]@,
                values@[i + 1]@,
            ),
{
    let mut prefix: Vec<Fr> = Vec::with_capacity(values.len());
    let mut acc = Fr::one();
    let ghost v = vals(values@);
    assert(v.take(0).len() == 0);
    for i in 0..values.len()
        invariant
            v == vals(values@),
            all_wf(values@),
            acc.wf(),
            acc@ == fprod(v.take(i as int)),
            prefix.len() == i,
            all_wf(prefix@),
            forall|j: int| 0 <= j < i ==> (#[trigger] prefix[j])@ == fprod(v.take(j + 1)),
    {
        proof {
            assert(v.take(i + 1).drop_last() =~= v.take(i as int));
            assert(v.take(i + 1).last() == values[i as int]@);
        }
        acc = acc.mul(&values[i]);
        prefix.push(acc);
    }
    proof {
        assert forall|i: int| 0 <= i && i + 1 < values@.len() implies (#[trigger] prefix@[i + 1])@
            == fmul(prefix@[i]@, values@[i + 1]@) by {
            assert(v.take(i + 2).drop_last() =~= v.take(i + 1));
            assert(v.take(i + 2).last() == values@[i + 1]@);
            assert(prefix[i + 1]@ == fprod(v.take(i + 2)));
            assert(prefix[i]@ == fprod(v.take(i + 1)));
        }
        if values@.len() > 0 {
            assert(v.take(1).drop_last() =~= v.take(0));
            assert(v.take(1).last() == values@[0]@);
            assert(fprod(v.take(0)) == 1);
            assert(fprod(v.take(1)) == fmul(1, values@[0]@));
            values@[0].lemma_view_range();
            law_fr_units(values@[0]@, 0);
            assert(prefix[0]@ == fprod(v.take(1)));
        }
    }
    prefix
}

/// The running products of every chunk of a slice.
///
/// This trusts `rayon`: `par_chunks` cuts the slice into consecutive chunks of
/// the given size, the last one possibly shorter, `map` applies
/// `prefix_products` to each, and `collect` keeps their order.
#[verifier::external_body]
fn par_prefix_products(values: &[Fr], size: usize) -> (r: Vec<Vec<Fr>>)
    requires
        size > 0,
        all_wf(values@),
    ensures
        r@.len() == (values@.len() + size - 1) / size as int,
        forall|ci: int|
            0 <= ci < r@.len() ==> running_products(
                chunk_of(values@, size as nat, ci),
                (#[trigger] r@[ci])@,
            ),
{
    values.par_chunks(size).map(|chunk| prefix_products(chunk)).collect()
}

/// The reduced scalars that stand for numbers.
pub open spec fn elements(v: Seq<int>) -> Seq<Fr> {
    Seq::new(v.len(), |i: int| Fr::of(v[i]))
}

/// Reduced scalars are those that stand for what they stand for.
pub proof fn lemma_elements(s: Seq<Fr>)
    requires
        all_wf(s),
    ensures
        elements(vals(s)) == s,
{
    assert forall|i: int| 0 <= i < s.len() implies #[trigger] elements(vals(s))[i] == s[i] by {
        s[i].lemma_of_view();
    }
    assert(elements(vals(s)) =~= s);
}

/// The residues of numbers.
pub open spec fn residues(s: Seq<BN254Fr>) -> Seq<int> {
    Seq::new(s.len(), |i: int| s[i]@ % fr_modulus())
}

/// The residues of numbers, as field elements.
///
/// This trusts `rayon`: `par_iter` walks the slice, `map` applies
/// `Fr::from_bn254fr` to each item, and `collect` keeps their order.
#[verifier::external_body]
pub(crate) fn par_from_bn254fr(values: &[BN254Fr]) -> (r: Vec<Fr>)
    ensures
        all_wf(r@),
        vals(r@) == residues(values@),
{
    values.par_iter().map(Fr::from_bn254fr).collect()
}

/// The number of threads that `rayon` would use.
///
/// This is `rayon::current_num_threads`; it depends on the machine, and nothing
/// is claimed of it.
#[verifier::external_body]
pub(crate) fn current_num_threads() -> (r: usize) {
    rayon::current_num_threads()
}

/// Inverts the elements of one chunk from its running products, from `before`,
/// the product of what stands before the chunk, and from `inv_total`, the
/// inverse of the product of everything up to the end of the chunk.
fn invert_chunk(chunk: &[Fr], prefix: &Vec<Fr>, inv_total: Fr, before: Fr) -> (r: Vec<Fr>)
    requires
        chunk@.len() > 0,
        all_wf(chunk@),
        running_products(chunk@, prefix@),
        inv_total.wf(),
        before.wf(),
        fmul(inv_total@, fmul(before@, fprod(vals(chunk@)))) == 1,
    ensures
        r@.len() == chunk@.len(),
        all_wf(r@),
        forall|i: int| 0 <= i < r@.len() ==> (#[trigger] r@[i])@ == finv(chunk@[i]@),
{
    let n = chunk.len();
    let ghost v = vals(chunk@);
    let mut r: Vec<Fr> = vec![Fr::zero(); n];
    let mut inv_prod = inv_total;
    let mut i: usize = n - 1;
    proof {
        assert(v.take(n as int) =~= v);
    }
    while i > 0
        invariant
            0 <= i < n,
            n == chunk@.len(),
            v == vals(chunk@),
            all_wf(chunk@),
            running_products(chunk@, prefix@),
            before.wf(),
            inv_prod.wf(),
            fmul(inv_prod@, fmul(before@, fprod(v.take(i + 1)))) == 1,
            r@.len() == n,
            all_wf(r@),
            forall|j: int| i < j < n ==> (#[trigger] r@[j])@ == finv(chunk@[j]@),
        decreases i,
    {
        let x = inv_prod.mul(&before).mul(&prefix[i - 1]);
        proof {
            let c = chunk@[i as int]@;
            let before_i = fprod(v.take(i as int));
            assert(v.take(i + 1).drop_last() =~= v.take(i as int));
            lemma_fmul_regroup(inv_prod@, before@, before_i, c);
            law_fr_ring(x@, c, 0);
            x.lemma_of_view();
            lemma_finv_unique(c, x@);
        }
        r.set(i, x);
        inv_prod = inv_prod.mul(&chunk[i]);
        i = i - 1;
    }
    let x = inv_prod.mul(&before);
    proof {
        let c = chunk@[0]@;
        chunk@[0].lemma_of_view();
        assert(v.take(1).drop_last() =~= Seq::<int>::empty());
        law_fr_units(c, 0);
        assert(v.take(1).last() == c);
        assert(fprod(Seq::<int>::empty()) == 1);
        assert(fprod(v.take(1)) == c);
        lemma_fmul_regroup(inv_prod@, before@, c, 0);
        law_fr_ring(x@, c, 0);
        x.lemma_of_view();
        lemma_finv_unique(c, x@);
    }
    r.set(0, x);
    r
}

/// Inverts every element of a slice with a single field inversion
/// (Montgomery's trick).
pub fn batch_inv_fr(values: &[Fr]) -> (r: Vec<Fr>)
    requires
        all_wf(values@),
        all_nonzero(values@),
    ensures
        r@.len() == values@.len(),
        all_wf(r@),
        forall|i: int| 0 <= i < r@.len() ==> (#[trigger] r@[i])@ == finv(values@[i]@),
{
    let n = values.len();
    if n == 0 {
        return Vec::new();
    }
    if n == 1 {
        let mut r: Vec<Fr> = Vec::new();
        r.push(values[0].inv());
        return r;
    }
    if n >= 65536 {
        return batch_inv_fr_parallel(values, current_num_threads());
    }
    let prefix = prefix_products(values);
    proof {
        let v = vals(values@);
        assert(v.take(n as int) =~= v);
        assert forall|i: int| 0 <= i < v.len() implies 0 < #[trigger] v[i] < fr_modulus() by {
            values@[i].lemma_of_view();
        }
        lemma_fprod_nonzero(v);
        law_fr_units(fprod(v), 0);
        law_fr_ring(fprod(v), finv(fprod(v)), 0);
    }
    let inv_total = prefix[n - 1].inv();
    invert_chunk(values, &prefix, inv_total, Fr::one())
}

/// Multiplying a product that is already inverted.
proof fn lemma_step_back(inv: int, a: int, b: int)
    requires
        fmul(inv, fmul(a, b)) == 1,
    ensures
        fmul(fmul(inv, b), a) == 1,
{
    lemma_fmul_regroup(inv, a, b, 0);
    law_fr_ring(a, b, 0);
    law_fr_ring(inv, b, a);
}

/// What stands before chunk `ci`, and the chunk itself.
proof fn lemma_chunk_split(s: Seq<int>, size: nat, ci: int)
    requires
        size > 0,
        0 <= ci,
        ci * size < s.len(),
    ensures
        s.take(ci * size) + chunk_of(s, size, ci) == s.take(
            if (ci + 1) * size <= s.len() {
                (ci + 1) * size
            } else {
                s.len() as int
            },
        ),
        0 <= ci * size < (ci + 1) * size,
{
    assert(0 <= ci * size < (ci + 1) * size) by (nonlinear_arith)
        requires
            0 <= ci,
            size > 0,
    ;
    assert(s.take(ci * size) + chunk_of(s, size, ci) =~= s.take(
        if (ci + 1) * size <= s.len() {
            (ci + 1) * size
        } else {
            s.len() as int
        },
    ));
}

/// Chunk `ci` of the scalars stands for chunk `ci` of the field elements.
proof fn lemma_chunk_at(s: Seq<Fr>, size: nat, count: int, ci: int)
    requires
        size > 0,
        (count - 1) * size < s.len(),
        0 <= ci < count,
    ensures
        ci * size < s.len(),
        0 <= ci * size < (ci + 1) * size,
        vals(chunk_of(s, size, ci)) == chunk_of(vals(s), size, ci),
        chunk_of(s, size, ci).len() > 0,
        vals(s).take(ci * size) + chunk_of(vals(s), size, ci) == vals(s).take(
            if (ci + 1) * size <= s.len() {
                (ci + 1) * size
            } else {
                s.len() as int
            },
        ),
{
    assert(ci * size <= (count - 1) * size) by (nonlinear_arith)
        requires
            ci <= count - 1,
            size >= 0,
    ;
    lemma_chunk_split(vals(s), size, ci);
    assert(vals(chunk_of(s, size, ci)) =~= chunk_of(vals(s), size, ci));
}

/// The number of chunks.
proof fn lemma_chunk_count(n: int, size: int, count: int)
    requires
        n > 0,
        size > 0,
        count == (n + size - 1) / size,
    ensures
        count > 0,
        (count - 1) * size < n <= count * size,
{
    lemma_fundamental_div_mod(n + size - 1, size);
    lemma_mod_bound(n + size - 1, size);
    let rem = (n + size - 1) % size;
    assert((count - 1) * size == size * count - size) by (nonlinear_arith);
    assert(count * size == size * count) by (nonlinear_arith);
    assert(count > 0) by (nonlinear_arith)
        requires
            size * count >= n,
            n > 0,
            size > 0,
    ;
}

/// The same by chunks: one per thread, each inverted from the products of the
/// chunks before it.
pub fn batch_inv_fr_parallel(values: &[Fr], num_threads: usize) -> (r: Vec<Fr>)
    requires
        values@.len() > 0,
        all_wf(values@),
        all_nonzero(values@),
    ensures
        r@.len() == values@.len(),
        all_wf(r@),
        forall|i: int| 0 <= i < r@.len() ==> (#[trigger] r@[i])@ == finv(values@[i]@),
{
    let n = values.len();
    let threads: usize = if num_threads == 0 {
        1
    } else {
        num_threads
    };
    proof {
        let q = n as int / threads as int;
        lemma_fundamental_div_mod(n as int, threads as int);
        assert(threads == 1 || 2 * q <= n) by (nonlinear_arith)
            requires
                n == threads * q + (n as int % threads as int),
                n as int % threads as int >= 0,
                q >= 0,
                threads >= 1,
        ;
    }
    let size: usize = if n % threads == 0 {
        n / threads
    } else {
        n / threads + 1
    };
    let ghost v = vals(values@);
    let ghost sz = size as nat;
    proof {
        lemma_fundamental_div_mod(n as int, threads as int);
        assert(size > 0) by {
            if n / threads == 0 {
                assert(threads * 0 == 0);
            }
        }
    }
    let prefixes = par_prefix_products(values, size);
    let count = prefixes.len();
    proof {
        lemma_chunk_count(n as int, size as int, count as int);
    }
    // Products of everything before each chunk.
    let mut totals: Vec<Fr> = Vec::with_capacity(count);
    let mut acc = Fr::one();
    proof {
        assert(0 * sz == 0) by (nonlinear_arith);
        assert(v.take(0) =~= Seq::<int>::empty());
    }
    for ci in 0..count
        invariant
            n == values@.len(),
            count == prefixes@.len(),
            (count - 1) * sz < n <= count * sz,
            sz == size,
            sz > 0,
            v == vals(values@),
            forall|k: int|
                0 <= k < count ==> running_products(
                    chunk_of(values@, sz, k),
                    (#[trigger] prefixes@[k])@,
                ),
            acc.wf(),
            acc@ == fprod(
                v.take(
                    if ci * sz <= n {
                        ci * sz
                    } else {
                        n as int
                    },
                ),
            ),
            totals@.len() == ci,
            all_wf(totals@),
            forall|k: int|
                0 <= k < ci ==> (#[trigger] totals@[k])@ == fprod(v.take(k * sz)),
    {
        proof {
            lemma_chunk_at(values@, sz, count as int, ci as int);
            lemma_fprod_concat(v.take(ci * sz), chunk_of(v, sz, ci as int));
            let c = chunk_of(v, sz, ci as int);
            assert(c.take(c.len() as int) =~= c);
        }
        totals.push(acc);
        let len = prefixes[ci].len();
        acc = acc.mul(&prefixes[ci][len - 1]);
    }
    proof {
        assert(v.take(n as int) =~= v);
        assert forall|i: int| 0 <= i < v.len() implies 0 < #[trigger] v[i] < fr_modulus() by {
            values@[i].lemma_of_view();
        }
        lemma_fprod_nonzero(v);
        law_fr_ring(fprod(v), finv(fprod(v)), 0);
    }
    // Inverses of the products up to the end of each chunk, from the last one.
    let mut running_inv = acc.inv();
    let mut corrections: Vec<Fr> = vec![Fr::zero(); count];
    let mut ci: usize = count;
    while ci > 0
        invariant
            ci <= count,
            n == values@.len(),
            count == prefixes@.len(),
            count == totals@.len(),
            (count - 1) * sz < n <= count * sz,
            sz == size,
            sz > 0,
            v == vals(values@),
            v.take(n as int) == v,
            forall|k: int|
                0 <= k < count ==> running_products(
                    chunk_of(values@, sz, k),
                    (#[trigger] prefixes@[k])@,
                ),
            running_inv.wf(),
            fmul(
                running_inv@,
                fprod(
                    v.take(
                        if ci * sz <= n {
                            ci * sz
                        } else {
                            n as int
                        },
                    ),
                ),
            ) == 1,
            corrections@.len() == count,
            all_wf(corrections@),
            forall|k: int|
                ci <= k < count ==> fmul(
                    (#[trigger] corrections@[k])@,
                    fmul(fprod(v.take(k * sz)), fprod(chunk_of(v, sz, k))),
                ) == 1,
        decreases ci,
    {
        ci = ci - 1;
        corrections.set(ci, running_inv);
        let len = prefixes[ci].len();
        proof {
            lemma_chunk_at(values@, sz, count as int, ci as int);
            let c = chunk_of(v, sz, ci as int);
            assert(c.take(c.len() as int) =~= c);
            lemma_fprod_concat(v.take(ci * sz), c);
            lemma_step_back(running_inv@, fprod(v.take(ci * sz)), fprod(c));
        }
        running_inv = running_inv.mul(&prefixes[ci][len - 1]);
    }
    // Backward pass in each chunk.
    let mut result: Vec<Fr> = Vec::with_capacity(n);
    for ci in 0..count
        invariant
            n == values@.len(),
            count == prefixes@.len(),
            count == totals@.len(),
            count == corrections@.len(),
            (count - 1) * sz < n <= count * sz,
            sz == size,
            sz > 0,
            all_wf(values@),
            all_wf(totals@),
            all_wf(corrections@),
            v == vals(values@),
            forall|k: int|
                0 <= k < count ==> running_products(
                    chunk_of(values@, sz, k),
                    (#[trigger] prefixes@[k])@,
                ),
            forall|k: int|
                0 <= k < count ==> (#[trigger] totals@[k])@ == fprod(v.take(k * sz)),
            forall|k: int|
                0 <= k < count ==> fmul(
                    (#[trigger] corrections@[k])@,
                    fmul(fprod(v.take(k * sz)), fprod(chunk_of(v, sz, k))),
                ) == 1,
            result@.len() == (if ci * sz <= n {
                ci * sz
            } else {
                n as int
            }),
            all_wf(result@),
            forall|i: int|
                0 <= i < result@.len() ==> (#[trigger] result@[i])@ == finv(values@[i]@),
    {
        proof {
            lemma_chunk_at(values@, sz, count as int, ci as int);
            assert(corrections@[ci as int].wf());
        }
        let start: usize = ci * size;
        let end: usize = if n - start <= size {
            n
        } else {
            start + size
        };
        proof {
            assert((ci + 1) * sz == ci * sz + sz) by (nonlinear_arith);
        }
        let chunk = vstd::slice::slice_subrange(values, start, end);
        assert(chunk@ =~= chunk_of(values@, sz, ci as int));
        let mut part = invert_chunk(chunk, &prefixes[ci], corrections[ci], totals[ci]);
        let ghost before = result@;
        let ghost piece = part@;
        result.append(&mut part);
        proof {
            assert(result@ == before + piece);
            assert forall|i: int| 0 <= i < result@.len() implies (#[trigger] result@[i]).wf()
                && result@[i]@ == finv(values@[i]@) by {
                if i >= before.len() {
                    assert(piece[i - before.len()].wf());
                }
            }
        }
    }
    result
}

/// The same, written back into the slice.
pub fn batch_inv_fr_inplace(values: &mut [Fr])
    requires
        all_wf(old(values)@),
        all_nonzero(old(values)@),
    ensures
        final(values)@.len() == old(values)@.len(),
        all_wf(final(values)@),
        forall|i: int|
            0 <= i < final(values)@.len() ==> (#[trigger] final(values)@[i])@ == finv(
                old(values)@[i]@,
            ),
{
    let n = values.len();
    if n == 0 {
        return ;
    }
    if n == 1 {
        values[0] = values[0].inv();
        return ;
    }
    let inverses = batch_inv_fr_parallel(values, current_num_threads());
    for i in 0..n
        invariant
            n == values@.len(),
            n == old(values)@.len(),
            n == inverses@.len(),
            all_wf(inverses@),
            forall|j: int|
                0 <= j < n ==> (#[trigger] inverses@[j])@ == finv(old(values)@[j]@),
            forall|j: int| 0 <= j < i ==> #[trigger] values@[j] == inverses@[j],
    {
        values[i] = inverses[i];
    }
    assert forall|j: int| 0 <= j < n implies (#[trigger] values@[j]).wf() by {
        assert(inverses@[j].wf());
    }
}

} // verus!
