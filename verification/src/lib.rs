//! The BN254 PLONK prover.
//!
//! A proof is made in five rounds:
//!
//! 1. commit to the wire polynomials L, R, O, and derive gamma and beta;
//! 2. compute the grand product Z, commit to it, and derive alpha;
//! 3. compute and commit to the quotient polynomial, and derive zeta;
//! 4. evaluate the polynomials at zeta and linearise;
//! 5. open everything in one batch.

use vstd::prelude::*;

pub mod acceptance;
pub mod blinding;
pub mod bytes;
pub mod challenges;
pub mod circuit;
pub mod commit;
pub mod commit_laws;
pub mod completeness;
pub mod constraints;
pub mod copy_constraints;
pub mod dft;
pub mod diagnostics;
pub mod domain;
pub mod fields;
pub mod g1;
pub mod gpu_kernels;
pub mod gpu_plan;
pub mod grand_product;
pub mod group_law;
pub mod hash_to_field;
pub mod kzg;
pub mod limbs;
pub mod linearization;
pub mod modular;
pub mod ntt_buffer;
pub mod openings;
pub mod plonk_proof;
pub mod poly_ring;
pub mod polynomial;
pub mod primes;
pub mod prover;
pub mod proving;
pub mod quotient;
pub mod quotient_plan;
pub mod rounds;
pub mod sha256;
pub mod solver;
pub mod staged;
pub mod static_cache;
pub mod steps;
pub mod sums;
pub mod tally;
pub mod text;
pub mod transcript;
pub mod types;
pub mod validity;
pub mod verifying;

verus! {

/// A BN254 scalar field element as eight little-endian `u32` limbs, in canonical
/// form.
#[derive(Clone, Copy, Debug, Default)]
pub struct BN254Fr {
    pub limbs: [u32; 8],
}

/// A BN254 base field element as eight little-endian `u32` limbs.
#[derive(Clone, Copy, Debug, Default)]
pub struct BN254Fq {
    pub limbs: [u32; 8],
}

/// A point of the BN254 curve in affine coordinates, each coordinate in
/// Montgomery form. Two zeros stand for the point at infinity.
#[derive(Clone, Copy, Debug, Default)]
pub struct BN254G1Affine {
    pub x: BN254Fq,
    pub y: BN254Fq,
}

/// A point of the BN254 curve in Jacobian coordinates, each coordinate in
/// Montgomery form.
#[derive(Clone, Copy, Debug, Default)]
pub struct BN254G1Jacobian {
    pub x: BN254Fq,
    pub y: BN254Fq,
    pub z: BN254Fq,
}

impl View for BN254Fr {
    type V = int;

    /// The number that the limbs stand for.
    open spec fn view(&self) -> int {
        limbs::value32(self.limbs)
    }
}

impl View for BN254Fq {
    type V = int;

    /// The element whose Montgomery form the limbs hold.
    open spec fn view(&self) -> int {
        limbs::mont_value(limbs::value32(self.limbs), fields::fq_modulus())
    }
}

impl PartialEq for BN254Fr {
    fn eq(&self, other: &Self) -> (r: bool) {
        limbs::limbs32_equal(&self.limbs, &other.limbs)
    }
}

impl Eq for BN254Fr {

}

impl vstd::std_specs::cmp::PartialEqSpecImpl for BN254Fr {
    open spec fn obeys_eq_spec() -> bool {
        true
    }

    open spec fn eq_spec(&self, other: &Self) -> bool {
        *self == *other
    }
}

impl PartialEq for BN254Fq {
    fn eq(&self, other: &Self) -> (r: bool) {
        limbs::limbs32_equal(&self.limbs, &other.limbs)
    }
}

impl Eq for BN254Fq {

}

impl vstd::std_specs::cmp::PartialEqSpecImpl for BN254Fq {
    open spec fn obeys_eq_spec() -> bool {
        true
    }

    open spec fn eq_spec(&self, other: &Self) -> bool {
        *self == *other
    }
}

impl PartialEq for BN254G1Affine {
    fn eq(&self, other: &Self) -> (r: bool) {
        self.x == other.x && self.y == other.y
    }
}

impl Eq for BN254G1Affine {

}

impl vstd::std_specs::cmp::PartialEqSpecImpl for BN254G1Affine {
    open spec fn obeys_eq_spec() -> bool {
        true
    }

    open spec fn eq_spec(&self, other: &Self) -> bool {
        *self == *other
    }
}

impl PartialEq for BN254G1Jacobian {
    fn eq(&self, other: &Self) -> (r: bool) {
        self.x == other.x && self.y == other.y && self.z == other.z
    }
}

impl Eq for BN254G1Jacobian {

}

impl vstd::std_specs::cmp::PartialEqSpecImpl for BN254G1Jacobian {
    open spec fn obeys_eq_spec() -> bool {
        true
    }

    open spec fn eq_spec(&self, other: &Self) -> bool {
        *self == *other
    }
}

impl BN254Fr {
    /// Zero.
    pub fn zero() -> (r: Self)
        ensures
            r@ == 0,
    {
        BN254Fr { limbs: [0, 0, 0, 0, 0, 0, 0, 0] }
    }

    /// Whether the number is zero.
    pub fn is_zero(&self) -> (r: bool)
        ensures
            r == (self@ == 0),
    {
        let l = &self.limbs;
        l[0] == 0 && l[1] == 0 && l[2] == 0 && l[3] == 0 && l[4] == 0 && l[5] == 0 && l[6] == 0
            && l[7] == 0
    }

    /// The number that 32 little-endian bytes stand for.
    pub fn from_le_bytes(bytes: &[u8; 32]) -> (r: Self)
        ensures
            r@ == bytes::le_value(bytes@),
    {
        let be = bytes::reverse_32(bytes);
        let l = bytes::limbs_from_be(be.as_slice(), 0);
        assert(be@.subrange(0, 32) =~= be@);
        BN254Fr { limbs: limbs::u64_to_u32(&l) }
    }

    /// The 32 little-endian bytes of the number.
    pub fn to_le_bytes(&self) -> (r: [u8; 32])
        ensures
            r@ == bytes::le_bytes(self@, 32),
            bytes::le_value(r@) == self@,
    {
        let be = self.to_be_bytes();
        assert(be@.reverse().reverse() =~= be@);
        bytes::reverse_32(&be)
    }

    /// The 32 big-endian bytes of the number.
    pub fn to_be_bytes(&self) -> (r: [u8; 32])
        ensures
            r@ == bytes::be_bytes(self@, 32),
            bytes::be_value(r@) == self@,
    {
        let l = limbs::u32_to_u64(&self.limbs);
        bytes::limbs_to_be(&l)
    }
}

/// The 64 bytes of a point: its coordinates in canonical form, big-endian.
pub open spec fn point_bytes(x: int, y: int) -> Seq<u8> {
    bytes::be_bytes(x, 32) + bytes::be_bytes(y, 32)
}

/// The 64 bytes of a point; two zeros stand for the point at infinity.
pub open spec fn encode_point(p: g1::Point) -> Seq<u8> {
    match p {
        g1::Point::Infinity => point_bytes(0, 0),
        g1::Point::At { x, y } => point_bytes(x, y),
    }
}

impl BN254G1Affine {
    /// The coordinates are reduced.
    pub open spec fn wf(self) -> bool {
        limbs::value32(self.x.limbs) < fields::fq_modulus() && limbs::value32(self.y.limbs)
            < fields::fq_modulus()
    }

    /// The point at infinity.
    pub fn zero() -> (r: Self)
        ensures
            r.wf(),
            r.x@ == 0,
            r.y@ == 0,
    {
        let z = BN254Fq { limbs: [0, 0, 0, 0, 0, 0, 0, 0] };
        proof {
            fields::lemma_fq_modulus();
            limbs::lemma_mont_zero(0, fields::fq_modulus());
        }
        BN254G1Affine { x: z, y: z }
    }

    /// The 64 bytes that are bound to a transcript and written to a proof: both
    /// coordinates in canonical form, big-endian.
    pub fn to_transcript_bytes(&self) -> (r: [u8; 64])
        ensures
            r@ == point_bytes(self.x@, self.y@),
            r@ == encode_point(self@),
    {
        let x = fields::Fq::from_bn254fq_raw(&self.x).to_canonical();
        let y = fields::Fq::from_bn254fq_raw(&self.y).to_canonical();
        let xb = bytes::limbs_to_be(&x);
        let yb = bytes::limbs_to_be(&y);
        let mut r: [u8; 64] = [0u8; 64];
        for i in 0..32usize
            invariant
                forall|j: int| 0 <= j < i ==> r[j] == xb[j],
                forall|j: int| 0 <= j < i ==> r[32 + j] == yb[j],
        {
            r[i] = xb[i];
            r[32 + i] = yb[i];
        }
        proof {
            assert forall|j: int| 0 <= j < 64 implies #[trigger] r[j] == (xb@ + yb@)[j] by {
                if j >= 32 {
                    assert(r[32 + (j - 32)] == yb[j - 32]);
                }
            }
            assert(r@ =~= xb@ + yb@);
        }
        r
    }
}

/// The point whose coordinates stand in 64 bytes from `at` on, big-endian; two zeros
/// stand for the point at infinity.
pub open spec fn read_point(b: Seq<u8>, at: int) -> g1::Point {
    g1::affine_point(
        bytes::be_value(b.subrange(at, at + 32)),
        bytes::be_value(b.subrange(at + 32, at + 64)),
    )
}

/// The 64 bytes of a point read back as that point: first its x coordinate, then its
/// y coordinate, big-endian. The byte string that they stand in may be longer.
pub proof fn law_point_bytes(p: g1::Point, b: Seq<u8>, at: int)
    requires
        g1::in_range(p),
        0 <= at,
        at + 64 <= b.len(),
        b.subrange(at, at + 64) == encode_point(p),
    ensures
        encode_point(p).len() == 64,
        read_point(b, at) == g1::as_affine(p),
{
    fields::lemma_fq_modulus();
    bytes::lemma_pow_256();
    let (x, y) = match p {
        g1::Point::Infinity => (0int, 0int),
        g1::Point::At { x, y } => (x, y),
    };
    bytes::lemma_be_bytes_len(x, 32);
    bytes::lemma_be_bytes_len(y, 32);
    bytes::lemma_be_value_of_bytes(x, 32);
    bytes::lemma_be_value_of_bytes(y, 32);
    let e = encode_point(p);
    assert(e.subrange(0, 32) =~= bytes::be_bytes(x, 32));
    assert(e.subrange(32, 64) =~= bytes::be_bytes(y, 32));
    assert(b.subrange(at, at + 32) =~= e.subrange(0, 32));
    assert(b.subrange(at + 32, at + 64) =~= e.subrange(32, 64));
}

/// Two points with the same bytes are the same point.
pub proof fn law_point_bytes_differ(p: g1::Point, q: g1::Point)
    requires
        g1::in_range(p),
        g1::in_range(q),
        encode_point(p) == encode_point(q),
    ensures
        g1::as_affine(p) == g1::as_affine(q),
{
    bytes::lemma_be_bytes_len(0, 32);
    match p {
        g1::Point::Infinity => {},
        g1::Point::At { x, y } => {
            bytes::lemma_be_bytes_len(x, 32);
            bytes::lemma_be_bytes_len(y, 32);
        },
    }
    let e = encode_point(p);
    assert(e.subrange(0, 64) =~= e);
    law_point_bytes(p, e, 0);
    law_point_bytes(q, e, 0);
}

} // verus!
