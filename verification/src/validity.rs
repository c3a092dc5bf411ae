//! Tests of what the prover asks of its data, for callers that cannot know it.
use crate::circuit;
use crate::domain;
use crate::fields;
use crate::fields::{Fr, FQ_MODULUS, FR_MODULUS};
use crate::g1::G1Jacobian;
use crate::limbs;
use crate::prover;
use crate::prover::PlonkProver;
use crate::types::PlonkProvingData;
use crate::{BN254Fr, BN254G1Affine};
use vstd::arithmetic::power2::*;
use vstd::prelude::*;

verus! {

/// Whether all scalars are reduced.
pub fn scalars_reduced(scalars: &[Fr]) -> (r: bool)
    ensures
        r == fields::all_wf(scalars@),
{
    proof {
        fields::lemma_fr_modulus();
    }
    for i in 0..scalars.len()
        invariant
            limbs::value(FR_MODULUS) == fields::fr_modulus(),
            forall|j: int| 0 <= j < i ==> (#[trigger] scalars@[j]).wf(),
    {
        if limbs::gte(&scalars[i].0, &FR_MODULUS) {
            assert(!scalars@[i as int].wf());
            return false;
        }
    }
    true
}

/// Whether the coordinates of a point are reduced.
pub fn point_reduced(p: &BN254G1Affine) -> (r: bool)
    ensures
        r == p.wf(),
{
    proof {
        fields::lemma_fq_modulus();
    }
    !limbs::gte(&limbs::u32_to_u64(&p.x.limbs), &FQ_MODULUS) && !limbs::gte(
        &limbs::u32_to_u64(&p.y.limbs),
        &FQ_MODULUS,
    )
}

/// Whether the coordinates of a point in Jacobian form are reduced.
pub fn jacobian_reduced(p: &G1Jacobian) -> (r: bool)
    ensures
        r == p.wf(),
{
    proof {
        fields::lemma_fq_modulus();
    }
    !limbs::gte(&p.x.0, &FQ_MODULUS) && !limbs::gte(&p.y.0, &FQ_MODULUS) && !limbs::gte(
        &p.z.0,
        &FQ_MODULUS,
    )
}

/// Whether the coordinates of all points are reduced.
pub fn points_reduced(points: &[BN254G1Affine]) -> (r: bool)
    ensures
        r == circuit::bn_points_wf(points@),
{
    for i in 0..points.len()
        invariant
            forall|j: int| 0 <= j < i ==> (#[trigger] points@[j]).wf(),
    {
        if !point_reduced(&points[i]) {
            assert(!points@[i as int].wf());
            return false;
        }
    }
    true
}

/// Whether all columns have so many rows.
fn all_of_len(columns: &[Vec<BN254Fr>], n: usize) -> (r: bool)
    ensures
        r == (forall|j: int| 0 <= j < columns@.len() ==> (#[trigger] columns@[j])@.len() == n),
{
    for i in 0..columns.len()
        invariant
            forall|j: int| 0 <= j < i ==> (#[trigger] columns@[j])@.len() == n,
    {
        if columns[i].len() != n {
            assert(columns@[i as int]@.len() != n);
            return false;
        }
    }
    true
}

/// The logarithm of the size of a domain of at most two to the 26 rows.
fn domain_log(n: usize) -> (r: Option<u32>)
    ensures
        match r {
            Some(k) => k <= 26 && n == pow2(k as nat),
            None => forall|k: nat| k <= 26 ==> n != #[trigger] pow2(k),
        },
{
    let mut k: u32 = 0;
    let mut power: usize = 1;
    proof {
        lemma2_to64();
    }
    while k < 26
        invariant
            k <= 26,
            power == pow2(k as nat),
            power <= 0x4000000,
            forall|j: nat| j < k ==> n != #[trigger] pow2(j),
        decreases 26 - k,
    {
        if n == power {
            return Some(k);
        }
        proof {
            lemma_pow2_unfold((k + 1) as nat);
            lemma2_to64();
            if k + 1 < 26 {
                lemma_pow2_strictly_increases((k + 1) as nat, 26);
            }
        }
        power = 2 * power;
        k = k + 1;
    }
    if n == power {
        Some(k)
    } else {
        None
    }
}

/// The exponent that a small number is.
proof fn lemma_small_exponent(e: u64)
    ensures
        limbs::value([e, 0, 0, 0]) == e,
{
}

/// Whether `w` is a primitive root of unity of order two to the `k`.
fn is_root(w: &Fr, k: u32) -> (r: bool)
    requires
        w.wf(),
        k <= 26,
    ensures
        r == domain::is_primitive_root(w@, k as nat),
{
    let one = Fr::one();
    proof {
        fields::lemma_fr_modulus();
    }
    if k == 0 {
        proof {
            if w@ == 1 {
                Fr::lemma_view_injective(*w, one);
            }
        }
        return *w == one;
    }
    let mut half: u64 = 1;
    let mut j: u32 = 1;
    proof {
        lemma2_to64();
    }
    while j < k
        invariant
            1 <= j <= k <= 26,
            half == pow2((j - 1) as nat),
            half <= 0x4000000,
        decreases k - j,
    {
        proof {
            lemma_pow2_unfold(j as nat);
            lemma2_to64();
            lemma_pow2_strictly_increases(j as nat, 26);
        }
        half = 2 * half;
        j = j + 1;
    }
    let power = w.pow(&[half, 0, 0, 0]);
    let minus_one = one.neg();
    proof {
        lemma_small_exponent(half);
        let p = fields::fr_modulus();
        assert(minus_one@ == p - 1) by {
            crate::modular::lemma_mod_shift(p - 1, -1, 1, p);
            vstd::arithmetic::div_mod::lemma_small_mod((p - 1) as nat, p as nat);
        }
        if power@ == minus_one@ {
            Fr::lemma_view_injective(power, minus_one);
        }
    }
    power == minus_one
}

impl PlonkProvingData {
    /// What data of a circuit is, with the logarithm of its size.
    proof fn lemma_valid(self)
        ensures
            self.valid() <==> {
                let n = self.domain_size;
                &&& exists|k: nat|
                    k <= 26 && n == #[trigger] pow2(k) && domain::is_primitive_root(
                        self.omega@ % fields::fr_modulus(),
                        k,
                    )
                &&& fields::fpow(self.coset_shift@ % fields::fr_modulus(), 4 * n as nat) != 1
                &&& self.ql@.len() == n && self.qr@.len() == n && self.qm@.len() == n
                &&& self.qo@.len() == n && self.qk@.len() == n
                &&& self.s1@.len() == n && self.s2@.len() == n && self.s3@.len() == n
                &&& forall|j: int|
                    0 <= j < self.qcp@.len() ==> (#[trigger] self.qcp@[j])@.len() == n
                &&& forall|i: int|
                    0 <= i < self.srs_lagrange@.len() ==> (#[trigger] self.srs_lagrange@[i]).wf()
                &&& forall|i: int|
                    0 <= i < self.srs_canonical@.len() ==> (#[trigger] self.srs_canonical@[i]).wf()
            },
    {
        let n = self.domain_size;
        if exists|k: nat| n == #[trigger] pow2(k) {
            let b = self.bits();
            assert(n == pow2(b));
            assert forall|k: nat| n == #[trigger] pow2(k) implies k == b by {
                circuit::lemma_pow2_injective(k, b);
            }
        }
    }

    /// Whether the data is that of a circuit.
    pub fn is_valid(&self) -> (r: bool)
        ensures
            r == self.valid(),
            r <==> {
                let n = self.domain_size;
                &&& exists|k: nat|
                    k <= 26 && n == #[trigger] pow2(k) && domain::is_primitive_root(
                        self.omega@ % fields::fr_modulus(),
                        k,
                    )
                &&& fields::fpow(self.coset_shift@ % fields::fr_modulus(), 4 * n as nat) != 1
                &&& self.ql@.len() == n && self.qr@.len() == n && self.qm@.len() == n
                &&& self.qo@.len() == n && self.qk@.len() == n
                &&& self.s1@.len() == n && self.s2@.len() == n && self.s3@.len() == n
                &&& forall|j: int|
                    0 <= j < self.qcp@.len() ==> (#[trigger] self.qcp@[j])@.len() == n
                &&& forall|i: int|
                    0 <= i < self.srs_lagrange@.len() ==> (#[trigger] self.srs_lagrange@[i]).wf()
                &&& forall|i: int|
                    0 <= i < self.srs_canonical@.len() ==> (#[trigger] self.srs_canonical@[i]).wf()
            },
    {
        proof {
            self.lemma_valid();
        }
        let n = self.domain_size;
        let k = match domain_log(n) {
            Some(k) => k,
            None => {
                assert(!self.valid());
                return false;
            },
        };
        proof {
            circuit::lemma_pow2_injective(self.bits(), k as nat);
            lemma2_to64();
            if k < 26 {
                lemma_pow2_strictly_increases(k as nat, 26);
            }
        }
        let omega = Fr::from_bn254fr(&self.omega);
        if !is_root(&omega, k) {
            return false;
        }
        let shift = Fr::from_bn254fr(&self.coset_shift);
        let around = shift.pow(&[4 * n as u64, 0, 0, 0]);
        let one = Fr::one();
        proof {
            lemma_small_exponent((4 * n) as u64);
            if around@ == 1 {
                Fr::lemma_view_injective(around, one);
            }
        }
        if around == one {
            return false;
        }
        self.ql.len() == n && self.qr.len() == n && self.qm.len() == n && self.qo.len() == n
            && self.qk.len() == n && self.s1.len() == n && self.s2.len() == n && self.s3.len() == n
            && all_of_len(self.qcp.as_slice(), n) && points_reduced(self.srs_lagrange.as_slice())
            && points_reduced(self.srs_canonical.as_slice())
    }

    /// Whether the commitments of the verifying key came with the data or can be computed.
    pub fn has_vk(&self) -> (r: bool)
        ensures
            r == self.vk_available(),
    {
        match &self.vk_selector_commits {
            Some(vk) => point_reduced(&vk.s_perm[0]) && point_reduced(&vk.s_perm[1])
                && point_reduced(&vk.s_perm[2]) && point_reduced(&vk.ql) && point_reduced(&vk.qr)
                && point_reduced(&vk.qm) && point_reduced(&vk.qo) && point_reduced(&vk.qk)
                && points_reduced(vk.qcp.as_slice()),
            None => self.domain_size <= self.srs_lagrange.len(),
        }
    }
}

impl PlonkProver {
    /// Whether the reference strings and the domain are large enough for a proof.
    pub fn is_able(&self, blinded: bool) -> (r: bool)
        requires
            self.wf(),
        ensures
            r == prover::can_prove(self.key(), blinded),
            r <==> {
                let n = self.key().circuit.n();
                &&& n >= 6
                &&& self.key().circuit.shift != 0
                &&& self.key().srs_lagrange.len() >= n
                &&& self.key().srs_canonical.len() >= n + 2
                &&& blinded ==> self.key().srs_canonical.len() >= n + 3
            },
    {
        let n = self.data.domain_size;
        proof {
            circuit::lemma_n_small(self.key().circuit);
            assert(self.cached.lagrange_points().len() == self.cached.srs_lagrange@.len());
            assert(self.cached.canonical_points().len() == self.cached.srs_canonical@.len());
        }
        let excess: usize = if blinded {
            3
        } else {
            2
        };
        n >= 6 && !self.cached.coset_shift.is_zero() && self.cached.srs_lagrange.len() >= n
            && self.cached.srs_canonical.len() >= n + excess
    }

    /// Whether the inputs of a proof are of the sizes of the circuit.
    pub fn takes_inputs(
        &self,
        l: &[BN254Fr],
        r: &[BN254Fr],
        o: &[BN254Fr],
        public_inputs: &[BN254Fr],
        bsb22_commitments: &[BN254G1Affine],
        bsb22_polys: &[Vec<BN254Fr>],
    ) -> (res: bool)
        requires
            self.wf(),
        ensures
            res == prover::inputs_fit(
                self.key(),
                l@,
                r@,
                o@,
                public_inputs@,
                bsb22_commitments@,
                bsb22_polys@,
            ),
            res <==> {
                let n = self.key().circuit.n();
                &&& l@.len() == n && r@.len() == n && o@.len() == n
                &&& public_inputs@.len() <= n || self.key().nb_pub <= n
                &&& forall|j: int|
                    0 <= j < bsb22_commitments@.len() ==> (#[trigger] bsb22_commitments@[j]).wf()
                &&& forall|j: int|
                    0 <= j < bsb22_polys@.len() ==> (#[trigger] bsb22_polys@[j])@.len() == n
            },
    {
        let n = self.data.domain_size;
        let nb_pub = self.data.nb_public_variables;
        l.len() == n && r.len() == n && o.len() == n && (public_inputs.len() <= n || nb_pub <= n)
            && points_reduced(bsb22_commitments) && all_of_len(bsb22_polys, n)
    }
}

} // verus!
