//! The proof and its two byte formats.

use crate::bytes;
use crate::circuit;
use crate::fields;
use crate::g1;
use crate::g1::Point;
use crate::kzg::{BatchOpeningProof, OpeningProof};
use crate::limbs;
use crate::rounds::ProofView;
use crate::{BN254Fr, BN254G1Affine};
use vstd::prelude::*;

verus! {

/// A PLONK proof.
#[derive(Clone, Debug)]
pub struct PlonkProof {
    /// The commitments to the wire polynomials L, R, O.
    pub lro: [BN254G1Affine; 3],
    /// The commitments to the three parts of the quotient.
    pub h: [BN254G1Affine; 3],
    /// The commitment to the grand product.
    pub z: BN254G1Affine,
    /// The BSB22 commitments.
    pub bsb22_commitments: Vec<BN254G1Affine>,
    /// The batch opening at zeta. Its values are those of the linearised
    /// polynomial, L, R, O, S1, S2 and of one polynomial for each BSB22
    /// commitment.
    pub batched_proof: BatchOpeningProof,
    /// The opening of the grand product at omega times zeta.
    pub z_shifted_opening: OpeningProof,
}

/// The numbers behind the exchange form.
pub open spec fn numbers(s: Seq<BN254Fr>) -> Seq<int> {
    s.map_values(|x: BN254Fr| x@)
}

impl View for PlonkProof {
    type V = ProofView;

    open spec fn view(&self) -> ProofView {
        ProofView {
            lro: circuit::bn_points(self.lro@),
            h: circuit::bn_points(self.h@),
            z: self.z@,
            bsb22: circuit::bn_points(self.bsb22_commitments@),
            batch_h: self.batched_proof.h@,
            claimed: numbers(self.batched_proof.claimed_values@),
            z_shifted_h: self.z_shifted_opening.h@,
            z_shifted: self.z_shifted_opening.claimed_value@,
        }
    }
}

/// The bytes of points, one after the other.
pub open spec fn points_bytes(s: Seq<BN254G1Affine>) -> Seq<u8>
    decreases s.len(),
{
    if s.len() == 0 {
        seq![]
    } else {
        points_bytes(s.drop_last()) + crate::encode_point(s.last()@)
    }
}

/// The bytes of scalars, one after the other.
pub open spec fn scalars_bytes(s: Seq<BN254Fr>) -> Seq<u8>
    decreases s.len(),
{
    if s.len() == 0 {
        seq![]
    } else {
        scalars_bytes(s.drop_last()) + bytes::be_bytes(s.last()@, 32)
    }
}

/// The bytes of the BSB22 commitments, each behind its claimed value where there
/// is one.
pub open spec fn bsb22_bytes(points: Seq<BN254G1Affine>, values: Seq<BN254Fr>) -> Seq<u8>
    decreases points.len(),
{
    if points.len() == 0 {
        seq![]
    } else {
        let i = points.len() - 1;
        bsb22_bytes(points.drop_last(), values) + (if 6 + i < values.len() {
            bytes::be_bytes(values[6 + i]@, 32)
        } else {
            seq![]
        }) + crate::encode_point(points.last()@)
    }
}

fn append_point(v: &mut Vec<u8>, p: &BN254G1Affine)
    ensures
        final(v)@ == old(v)@ + crate::encode_point(p@),
{
    let b = p.to_transcript_bytes();
    bytes::append(v, b.as_slice());
}

fn append_scalar(v: &mut Vec<u8>, x: &BN254Fr)
    ensures
        final(v)@ == old(v)@ + bytes::be_bytes(x@, 32),
{
    let b = x.to_be_bytes();
    bytes::append(v, b.as_slice());
}

fn append_points(v: &mut Vec<u8>, s: &[BN254G1Affine])
    ensures
        final(v)@ == old(v)@ + points_bytes(s@),
{
    let ghost start = v@;
    assert(start + points_bytes(s@.take(0)) =~= start);
    for i in 0..s.len()
        invariant
            v@ == start + points_bytes(s@.take(i as int)),
    {
        proof {
            assert(s@.take(i + 1).drop_last() =~= s@.take(i as int));
        }
        append_point(v, &s[i]);
        assert(v@ =~= start + points_bytes(s@.take(i + 1)));
    }
    assert(s@.take(s@.len() as int) =~= s@);
}

fn append_scalars(v: &mut Vec<u8>, s: &[BN254Fr])
    ensures
        final(v)@ == old(v)@ + scalars_bytes(s@),
{
    let ghost start = v@;
    assert(start + scalars_bytes(s@.take(0)) =~= start);
    for i in 0..s.len()
        invariant
            v@ == start + scalars_bytes(s@.take(i as int)),
    {
        proof {
            assert(s@.take(i + 1).drop_last() =~= s@.take(i as int));
        }
        append_scalar(v, &s[i]);
        assert(v@ =~= start + scalars_bytes(s@.take(i + 1)));
    }
    assert(s@.take(s@.len() as int) =~= s@);
}

impl PlonkProof {
    /// The format that the Solidity verifier reads.
    pub open spec fn solidity_bytes(self) -> Seq<u8> {
        points_bytes(self.lro@) + points_bytes(self.h@) + scalars_bytes(
            self.batched_proof.claimed_values@.subrange(1, 6),
        ) + crate::encode_point(self.z@) + bytes::be_bytes(
            self.z_shifted_opening.claimed_value@,
            32,
        ) + crate::encode_point(self.batched_proof.h@) + crate::encode_point(
            self.z_shifted_opening.h@,
        ) + bsb22_bytes(self.bsb22_commitments@, self.batched_proof.claimed_values@)
    }

    /// The raw format, with a length in front of each list.
    pub open spec fn raw_bytes(self) -> Seq<u8> {
        points_bytes(self.lro@) + crate::encode_point(self.z@) + points_bytes(self.h@)
            + crate::encode_point(self.batched_proof.h@) + bytes::be_bytes(
            self.batched_proof.claimed_values@.len() as int,
            4,
        ) + scalars_bytes(self.batched_proof.claimed_values@) + crate::encode_point(
            self.z_shifted_opening.h@,
        ) + bytes::be_bytes(self.z_shifted_opening.claimed_value@, 32) + bytes::be_bytes(
            self.bsb22_commitments@.len() as int,
            4,
        ) + points_bytes(self.bsb22_commitments@)
    }

    /// Where the entry of the `i`-th BSB22 commitment begins in the format that the
    /// Solidity verifier reads: an entry is 32 bytes for the claimed value, where there
    /// is one, and 64 bytes for the point.
    pub open spec fn solidity_offset(self, i: int) -> int {
        let valued = self.batched_proof.claimed_values@.len() - 6;
        768 + 64 * i + 32 * (if i < valued {
            i
        } else {
            valued
        })
    }

    /// The entry of the `i`-th BSB22 commitment stands in its place: the claimed value of
    /// its selector, where there is one, and behind it the commitment.
    pub open spec fn holds_entry(self, b: Seq<u8>, i: int) -> bool {
        let at = self.solidity_offset(i);
        let end = self.solidity_offset(i + 1);
        &&& 768 <= at <= end - 64
        &&& end <= b.len()
        &&& b.subrange(end - 64, end) == crate::encode_point(self.bsb22_commitments@[i]@)
        &&& 6 + i < self.batched_proof.claimed_values@.len() ==> at == end - 96 && b.subrange(
            at,
            at + 32,
        ) == bytes::be_bytes(self.batched_proof.claimed_values@[6 + i]@, 32)
    }

    /// Where the claimed values end in the raw format.
    pub open spec fn raw_values_end(self) -> int {
        516 + 32 * (self.batched_proof.claimed_values@.len() as int)
    }

    /// The parts of the format that the Solidity verifier reads, one after the other.
    fn join_solidity(&self) -> (r: Vec<u8>)
        requires
            self.batched_proof.claimed_values@.len() >= 6,
        ensures
            r@ == self.solidity_bytes(),
    {
        let mut v: Vec<u8> = Vec::new();
        append_points(&mut v, self.lro.as_slice());
        append_points(&mut v, self.h.as_slice());
        append_scalars(
            &mut v,
            vstd::slice::slice_subrange(self.batched_proof.claimed_values.as_slice(), 1, 6),
        );
        append_point(&mut v, &self.z);
        append_scalar(&mut v, &self.z_shifted_opening.claimed_value);
        append_point(&mut v, &self.batched_proof.h);
        append_point(&mut v, &self.z_shifted_opening.h);
        let ghost start = v@;
        let ghost points = self.bsb22_commitments@;
        let ghost values = self.batched_proof.claimed_values@;
        assert(start + bsb22_bytes(points.take(0), values) =~= start);
        let n = self.bsb22_commitments.len();
        for i in 0..n
            invariant
                n == self.bsb22_commitments@.len(),
                points == self.bsb22_commitments@,
                values == self.batched_proof.claimed_values@,
                v@ == start + bsb22_bytes(points.take(i as int), values),
        {
            proof {
                assert(points.take(i + 1).drop_last() =~= points.take(i as int));
            }
            if i < self.batched_proof.claimed_values.len() && 6
                < self.batched_proof.claimed_values.len() - i {
                append_scalar(&mut v, &self.batched_proof.claimed_values[6 + i]);
            }
            append_point(&mut v, &self.bsb22_commitments[i]);
            assert(v@ =~= start + bsb22_bytes(points.take(i + 1), values));
        }
        assert(points.take(n as int) =~= points);
        v
    }

    /// Write the proof in the format that the Solidity verifier reads.
    pub fn to_bytes(&self) -> (r: Vec<u8>)
        requires
            self.batched_proof.claimed_values@.len() >= 6,
        ensures
            r@ == self.solidity_bytes(),
            r@.len() == self.solidity_offset(self.bsb22_commitments@.len() as int),
            r@.subrange(0, 64) == crate::encode_point(self.lro[0]@),
            r@.subrange(64, 128) == crate::encode_point(self.lro[1]@),
            r@.subrange(128, 192) == crate::encode_point(self.lro[2]@),
            r@.subrange(192, 256) == crate::encode_point(self.h[0]@),
            r@.subrange(256, 320) == crate::encode_point(self.h[1]@),
            r@.subrange(320, 384) == crate::encode_point(self.h[2]@),
            r@.subrange(384, 416) == bytes::be_bytes(self.batched_proof.claimed_values@[1]@, 32),
            r@.subrange(416, 448) == bytes::be_bytes(self.batched_proof.claimed_values@[2]@, 32),
            r@.subrange(448, 480) == bytes::be_bytes(self.batched_proof.claimed_values@[3]@, 32),
            r@.subrange(480, 512) == bytes::be_bytes(self.batched_proof.claimed_values@[4]@, 32),
            r@.subrange(512, 544) == bytes::be_bytes(self.batched_proof.claimed_values@[5]@, 32),
            r@.subrange(544, 608) == crate::encode_point(self.z@),
            r@.subrange(608, 640) == bytes::be_bytes(self.z_shifted_opening.claimed_value@, 32),
            r@.subrange(640, 704) == crate::encode_point(self.batched_proof.h@),
            r@.subrange(704, 768) == crate::encode_point(self.z_shifted_opening.h@),
            forall|i: int|
                0 <= i < self.bsb22_commitments@.len() ==> #[trigger] self.holds_entry(r@, i),
    {
        let v = self.join_solidity();
        proof {
            law_solidity_layout(*self);
        }
        v
    }

    /// The parts of the raw format, one after the other.
    fn join_raw(&self) -> (r: Vec<u8>)
        ensures
            r@ == self.raw_bytes(),
    {
        let mut v: Vec<u8> = Vec::new();
        append_points(&mut v, self.lro.as_slice());
        append_point(&mut v, &self.z);
        append_points(&mut v, self.h.as_slice());
        append_point(&mut v, &self.batched_proof.h);
        let n_cv = bytes::len_to_be(self.batched_proof.claimed_values.len());
        bytes::append(&mut v, n_cv.as_slice());
        append_scalars(&mut v, self.batched_proof.claimed_values.as_slice());
        append_point(&mut v, &self.z_shifted_opening.h);
        append_scalar(&mut v, &self.z_shifted_opening.claimed_value);
        let n_bsb22 = bytes::len_to_be(self.bsb22_commitments.len());
        bytes::append(&mut v, n_bsb22.as_slice());
        append_points(&mut v, self.bsb22_commitments.as_slice());
        v
    }

    /// Write the proof in the raw format.
    pub fn to_write_raw_bytes(&self) -> (r: Vec<u8>)
        ensures
            r@ == self.raw_bytes(),
            r@.len() == self.raw_values_end() + 100 + 64 * self.bsb22_commitments@.len(),
            r@.subrange(0, 64) == crate::encode_point(self.lro[0]@),
            r@.subrange(64, 128) == crate::encode_point(self.lro[1]@),
            r@.subrange(128, 192) == crate::encode_point(self.lro[2]@),
            r@.subrange(192, 256) == crate::encode_point(self.z@),
            r@.subrange(256, 320) == crate::encode_point(self.h[0]@),
            r@.subrange(320, 384) == crate::encode_point(self.h[1]@),
            r@.subrange(384, 448) == crate::encode_point(self.h[2]@),
            r@.subrange(448, 512) == crate::encode_point(self.batched_proof.h@),
            r@.subrange(512, 516) == bytes::be_bytes(
                self.batched_proof.claimed_values@.len() as int,
                4,
            ),
            forall|i: int|
                0 <= i < self.batched_proof.claimed_values@.len() ==> r@.subrange(
                    516 + 32 * i,
                    548 + 32 * i,
                ) == bytes::be_bytes((#[trigger] self.batched_proof.claimed_values@[i])@, 32),
            r@.subrange(self.raw_values_end(), self.raw_values_end() + 64) == crate::encode_point(
                self.z_shifted_opening.h@,
            ),
            r@.subrange(self.raw_values_end() + 64, self.raw_values_end() + 96)
                == bytes::be_bytes(self.z_shifted_opening.claimed_value@, 32),
            r@.subrange(self.raw_values_end() + 96, self.raw_values_end() + 100)
                == bytes::be_bytes(self.bsb22_commitments@.len() as int, 4),
            forall|i: int|
                0 <= i < self.bsb22_commitments@.len() ==> r@.subrange(
                    self.raw_values_end() + 100 + 64 * i,
                    self.raw_values_end() + 164 + 64 * i,
                ) == crate::encode_point((#[trigger] self.bsb22_commitments@[i])@),
    {
        let v = self.join_raw();
        proof {
            law_raw_layout(*self);
        }
        v
    }
}

/// The length of the bytes of a point.
proof fn lemma_encode_point_len(p: Point)
    ensures
        crate::encode_point(p).len() == 64,
{
    match p {
        Point::Infinity => {
            bytes::lemma_be_bytes_len(0, 32);
        },
        Point::At { x, y } => {
            bytes::lemma_be_bytes_len(x, 32);
            bytes::lemma_be_bytes_len(y, 32);
        },
    }
}

proof fn lemma_points_bytes_len(s: Seq<BN254G1Affine>)
    ensures
        points_bytes(s).len() == 64 * s.len(),
    decreases s.len(),
{
    if s.len() > 0 {
        lemma_points_bytes_len(s.drop_last());
        lemma_encode_point_len(s.last()@);
    }
}

proof fn lemma_scalars_bytes_len(s: Seq<BN254Fr>)
    ensures
        scalars_bytes(s).len() == 32 * s.len(),
    decreases s.len(),
{
    if s.len() > 0 {
        lemma_scalars_bytes_len(s.drop_last());
        bytes::lemma_be_bytes_len(s.last()@, 32);
    }
}

proof fn lemma_bsb22_bytes_len(points: Seq<BN254G1Affine>, values: Seq<BN254Fr>)
    requires
        values.len() >= 6 + points.len(),
    ensures
        bsb22_bytes(points, values).len() == 96 * points.len(),
    decreases points.len(),
{
    if points.len() > 0 {
        lemma_bsb22_bytes_len(points.drop_last(), values);
        lemma_encode_point_len(points.last()@);
        bytes::lemma_be_bytes_len(values[6 + points.len() - 1]@, 32);
    }
}

/// A proof in the format that the Solidity verifier reads has 768 bytes and 96
/// more for each BSB22 commitment.
pub proof fn law_solidity_len(p: PlonkProof)
    requires
        p.batched_proof.claimed_values@.len() >= 6 + p.bsb22_commitments@.len(),
    ensures
        p.solidity_bytes().len() == 768 + 96 * p.bsb22_commitments@.len(),
{
    let values = p.batched_proof.claimed_values@;
    lemma_points_bytes_len(p.lro@);
    lemma_points_bytes_len(p.h@);
    lemma_scalars_bytes_len(values.subrange(1, 6));
    lemma_encode_point_len(p.z@);
    lemma_encode_point_len(p.batched_proof.h@);
    lemma_encode_point_len(p.z_shifted_opening.h@);
    bytes::lemma_be_bytes_len(p.z_shifted_opening.claimed_value@, 32);
    lemma_bsb22_bytes_len(p.bsb22_commitments@, values);
}

/// A proof in the raw format has 616 bytes, 32 more for each claimed value and 64
/// more for each BSB22 commitment.
pub proof fn law_raw_len(p: PlonkProof)
    ensures
        p.raw_bytes().len() == 616 + 32 * p.batched_proof.claimed_values@.len() + 64
            * p.bsb22_commitments@.len(),
{
    lemma_points_bytes_len(p.lro@);
    lemma_points_bytes_len(p.h@);
    lemma_encode_point_len(p.z@);
    lemma_encode_point_len(p.batched_proof.h@);
    lemma_encode_point_len(p.z_shifted_opening.h@);
    bytes::lemma_be_bytes_len(p.z_shifted_opening.claimed_value@, 32);
    bytes::lemma_be_bytes_len(p.batched_proof.claimed_values@.len() as int, 4);
    bytes::lemma_be_bytes_len(p.bsb22_commitments@.len() as int, 4);
    lemma_scalars_bytes_len(p.batched_proof.claimed_values@);
    lemma_points_bytes_len(p.bsb22_commitments@);
}

proof fn lemma_points_bytes_at(s: Seq<BN254G1Affine>, i: int)
    requires
        0 <= i < s.len(),
    ensures
        points_bytes(s).len() == 64 * s.len(),
        points_bytes(s).subrange(64 * i, 64 * i + 64) == crate::encode_point(s[i]@),
    decreases s.len(),
{
    lemma_points_bytes_len(s);
    let rest = s.drop_last();
    lemma_points_bytes_len(rest);
    lemma_encode_point_len(s.last()@);
    if i == s.len() - 1 {
        assert(points_bytes(s).subrange(64 * i, 64 * i + 64) =~= crate::encode_point(s[i]@));
    } else {
        lemma_points_bytes_at(rest, i);
        assert(points_bytes(s).subrange(64 * i, 64 * i + 64) =~= points_bytes(rest).subrange(
            64 * i,
            64 * i + 64,
        ));
    }
}

proof fn lemma_scalars_bytes_at(s: Seq<BN254Fr>, i: int)
    requires
        0 <= i < s.len(),
    ensures
        scalars_bytes(s).len() == 32 * s.len(),
        scalars_bytes(s).subrange(32 * i, 32 * i + 32) == bytes::be_bytes(s[i]@, 32),
    decreases s.len(),
{
    lemma_scalars_bytes_len(s);
    let rest = s.drop_last();
    lemma_scalars_bytes_len(rest);
    bytes::lemma_be_bytes_len(s.last()@, 32);
    if i == s.len() - 1 {
        assert(scalars_bytes(s).subrange(32 * i, 32 * i + 32) =~= bytes::be_bytes(s[i]@, 32));
    } else {
        lemma_scalars_bytes_at(rest, i);
        assert(scalars_bytes(s).subrange(32 * i, 32 * i + 32) =~= scalars_bytes(rest).subrange(
            32 * i,
            32 * i + 32,
        ));
    }
}

/// The length of the entries of the first BSB22 commitments.
spec fn entries_len(values: int, i: int) -> int {
    64 * i + 32 * (if i < values - 6 {
        i
    } else {
        values - 6
    })
}

proof fn lemma_entries_len(points: Seq<BN254G1Affine>, values: Seq<BN254Fr>)
    requires
        values.len() >= 6,
    ensures
        bsb22_bytes(points, values).len() == entries_len(
            values.len() as int,
            points.len() as int,
        ),
    decreases points.len(),
{
    if points.len() > 0 {
        lemma_entries_len(points.drop_last(), values);
        lemma_encode_point_len(points.last()@);
        if 6 + points.len() - 1 < values.len() {
            bytes::lemma_be_bytes_len(values[6 + points.len() - 1]@, 32);
        }
    }
}

proof fn lemma_entries_at(points: Seq<BN254G1Affine>, values: Seq<BN254Fr>, i: int)
    requires
        values.len() >= 6,
        0 <= i < points.len(),
    ensures
        ({
            let b = bsb22_bytes(points, values);
            let at = entries_len(values.len() as int, i);
            let end = entries_len(values.len() as int, i + 1);
            &&& 0 <= at <= end - 64
            &&& end <= b.len()
            &&& b.subrange(end - 64, end) == crate::encode_point(points[i]@)
            &&& 6 + i < values.len() ==> at == end - 96 && b.subrange(at, at + 32)
                == bytes::be_bytes(values[6 + i]@, 32)
        }),
    decreases points.len(),
{
    let b = bsb22_bytes(points, values);
    let at = entries_len(values.len() as int, i);
    let end = entries_len(values.len() as int, i + 1);
    let rest = points.drop_last();
    let c = bsb22_bytes(rest, values);
    lemma_entries_len(points, values);
    lemma_entries_len(rest, values);
    lemma_encode_point_len(points.last()@);
    if i == points.len() - 1 {
        if 6 + i < values.len() {
            bytes::lemma_be_bytes_len(values[6 + i]@, 32);
            assert(b.subrange(at, at + 32) =~= bytes::be_bytes(values[6 + i]@, 32));
        }
        assert(b.subrange(end - 64, end) =~= crate::encode_point(points[i]@));
    } else {
        lemma_entries_at(rest, values, i);
        assert(c =~= b.take(c.len() as int));
        assert(b.subrange(end - 64, end) =~= c.subrange(end - 64, end));
        if 6 + i < values.len() {
            assert(b.subrange(at, at + 32) =~= c.subrange(at, at + 32));
        }
    }
}

/// Where each part of a proof stands in the format that the Solidity verifier reads.
pub proof fn law_solidity_layout(p: PlonkProof)
    requires
        p.batched_proof.claimed_values@.len() >= 6,
    ensures
        ({
            let b = p.solidity_bytes();
            let cv = p.batched_proof.claimed_values@;
            &&& b.len() == p.solidity_offset(p.bsb22_commitments@.len() as int)
            &&& forall|i: int|
                0 <= i < 3 ==> b.subrange(64 * i, 64 * i + 64) == crate::encode_point(
                    (#[trigger] p.lro[i])@,
                )
            &&& forall|i: int|
                0 <= i < 3 ==> b.subrange(192 + 64 * i, 256 + 64 * i) == crate::encode_point(
                    (#[trigger] p.h[i])@,
                )
            &&& forall|i: int|
                1 <= i < 6 ==> b.subrange(352 + 32 * i, 384 + 32 * i) == bytes::be_bytes(
                    (#[trigger] cv[i])@,
                    32,
                )
            &&& b.subrange(544, 608) == crate::encode_point(p.z@)
            &&& b.subrange(608, 640) == bytes::be_bytes(p.z_shifted_opening.claimed_value@, 32)
            &&& b.subrange(640, 704) == crate::encode_point(p.batched_proof.h@)
            &&& b.subrange(704, 768) == crate::encode_point(p.z_shifted_opening.h@)
            &&& forall|i: int|
                0 <= i < p.bsb22_commitments@.len() ==> #[trigger] p.holds_entry(b, i)
        }),
{
    let b = p.solidity_bytes();
    let cv = p.batched_proof.claimed_values@;
    let lro = points_bytes(p.lro@);
    let h = points_bytes(p.h@);
    let opened = scalars_bytes(cv.subrange(1, 6));
    let z = crate::encode_point(p.z@);
    let zs = bytes::be_bytes(p.z_shifted_opening.claimed_value@, 32);
    let batch = crate::encode_point(p.batched_proof.h@);
    let shifted = crate::encode_point(p.z_shifted_opening.h@);
    let entries = bsb22_bytes(p.bsb22_commitments@, cv);
    lemma_points_bytes_len(p.lro@);
    lemma_points_bytes_len(p.h@);
    lemma_scalars_bytes_len(cv.subrange(1, 6));
    lemma_encode_point_len(p.z@);
    lemma_encode_point_len(p.batched_proof.h@);
    lemma_encode_point_len(p.z_shifted_opening.h@);
    bytes::lemma_be_bytes_len(p.z_shifted_opening.claimed_value@, 32);
    lemma_entries_len(p.bsb22_commitments@, cv);
    assert(b == lro + h + opened + z + zs + batch + shifted + entries);
    assert(b.subrange(544, 608) =~= z);
    assert(b.subrange(608, 640) =~= zs);
    assert(b.subrange(640, 704) =~= batch);
    assert(b.subrange(704, 768) =~= shifted);
    assert forall|i: int| 0 <= i < 3 implies b.subrange(64 * i, 64 * i + 64)
        == crate::encode_point((#[trigger] p.lro[i])@) by {
        lemma_points_bytes_at(p.lro@, i);
        assert(b.subrange(64 * i, 64 * i + 64) =~= lro.subrange(64 * i, 64 * i + 64));
    }
    assert forall|i: int| 0 <= i < 3 implies b.subrange(192 + 64 * i, 256 + 64 * i)
        == crate::encode_point((#[trigger] p.h[i])@) by {
        lemma_points_bytes_at(p.h@, i);
        assert(b.subrange(192 + 64 * i, 256 + 64 * i) =~= h.subrange(64 * i, 64 * i + 64));
    }
    assert forall|i: int| 1 <= i < 6 implies b.subrange(352 + 32 * i, 384 + 32 * i)
        == bytes::be_bytes((#[trigger] cv[i])@, 32) by {
        lemma_scalars_bytes_at(cv.subrange(1, 6), i - 1);
        assert(b.subrange(352 + 32 * i, 384 + 32 * i) =~= opened.subrange(
            32 * (i - 1),
            32 * (i - 1) + 32,
        ));
    }
    assert forall|i: int| 0 <= i < p.bsb22_commitments@.len() implies #[trigger] p.holds_entry(
        b,
        i,
    ) by {
        lemma_entries_at(p.bsb22_commitments@, cv, i);
        let at = entries_len(cv.len() as int, i);
        let end = entries_len(cv.len() as int, i + 1);
        assert(p.solidity_offset(i) == 768 + at);
        assert(p.solidity_offset(i + 1) == 768 + end);
        assert(b.subrange(768 + end - 64, 768 + end) =~= entries.subrange(end - 64, end));
        if 6 + i < cv.len() {
            assert(b.subrange(768 + at, 768 + at + 32) =~= entries.subrange(at, at + 32));
        }
    }
}

/// Behind 768 bytes come 96 for each BSB22 commitment, where as many selectors have a
/// claimed value: that value, then the commitment.
pub proof fn law_solidity_entry(p: PlonkProof, i: int)
    requires
        p.batched_proof.claimed_values@.len() >= 6 + p.bsb22_commitments@.len(),
        0 <= i < p.bsb22_commitments@.len(),
    ensures
        p.solidity_bytes().subrange(768 + 96 * i, 800 + 96 * i) == bytes::be_bytes(
            p.batched_proof.claimed_values@[6 + i]@,
            32,
        ),
        p.solidity_bytes().subrange(800 + 96 * i, 864 + 96 * i) == crate::encode_point(
            p.bsb22_commitments@[i]@,
        ),
{
    law_solidity_layout(p);
    assert(p.holds_entry(p.solidity_bytes(), i));
}

/// Where each part of a proof stands in the raw format.
pub proof fn law_raw_layout(p: PlonkProof)
    ensures
        ({
            let b = p.raw_bytes();
            let cv = p.batched_proof.claimed_values@;
            let e = p.raw_values_end();
            &&& b.len() == e + 100 + 64 * p.bsb22_commitments@.len()
            &&& forall|i: int|
                0 <= i < 3 ==> b.subrange(64 * i, 64 * i + 64) == crate::encode_point(
                    (#[trigger] p.lro[i])@,
                )
            &&& b.subrange(192, 256) == crate::encode_point(p.z@)
            &&& forall|i: int|
                0 <= i < 3 ==> b.subrange(256 + 64 * i, 320 + 64 * i) == crate::encode_point(
                    (#[trigger] p.h[i])@,
                )
            &&& b.subrange(448, 512) == crate::encode_point(p.batched_proof.h@)
            &&& b.subrange(512, 516) == bytes::be_bytes(cv.len() as int, 4)
            &&& forall|i: int|
                0 <= i < cv.len() ==> b.subrange(516 + 32 * i, 548 + 32 * i) == bytes::be_bytes(
                    (#[trigger] cv[i])@,
                    32,
                )
            &&& b.subrange(e, e + 64) == crate::encode_point(p.z_shifted_opening.h@)
            &&& b.subrange(e + 64, e + 96) == bytes::be_bytes(
                p.z_shifted_opening.claimed_value@,
                32,
            )
            &&& b.subrange(e + 96, e + 100) == bytes::be_bytes(
                p.bsb22_commitments@.len() as int,
                4,
            )
            &&& forall|i: int|
                0 <= i < p.bsb22_commitments@.len() ==> b.subrange(
                    e + 100 + 64 * i,
                    e + 164 + 64 * i,
                ) == crate::encode_point((#[trigger] p.bsb22_commitments@[i])@)
        }),
{
    let b = p.raw_bytes();
    let cv = p.batched_proof.claimed_values@;
    let bs = p.bsb22_commitments@;
    let e = p.raw_values_end();
    let lro = points_bytes(p.lro@);
    let h = points_bytes(p.h@);
    let z = crate::encode_point(p.z@);
    let batch = crate::encode_point(p.batched_proof.h@);
    let n_cv = bytes::be_bytes(cv.len() as int, 4);
    let values = scalars_bytes(cv);
    let shifted = crate::encode_point(p.z_shifted_opening.h@);
    let zs = bytes::be_bytes(p.z_shifted_opening.claimed_value@, 32);
    let n_bs = bytes::be_bytes(bs.len() as int, 4);
    let points = points_bytes(bs);
    law_raw_len(p);
    lemma_points_bytes_len(p.lro@);
    lemma_points_bytes_len(p.h@);
    lemma_encode_point_len(p.z@);
    lemma_encode_point_len(p.batched_proof.h@);
    lemma_encode_point_len(p.z_shifted_opening.h@);
    bytes::lemma_be_bytes_len(p.z_shifted_opening.claimed_value@, 32);
    bytes::lemma_be_bytes_len(cv.len() as int, 4);
    bytes::lemma_be_bytes_len(bs.len() as int, 4);
    lemma_scalars_bytes_len(cv);
    lemma_points_bytes_len(bs);
    let front = lro + z + h + batch + n_cv;
    let back = shifted + zs + n_bs + points;
    assert(b =~= front + values + back);
    assert(front.len() == 516);
    assert(b.subrange(192, 256) =~= z);
    assert(b.subrange(448, 512) =~= batch);
    assert(b.subrange(512, 516) =~= n_cv);
    assert(b.subrange(e, e + 64) =~= shifted);
    assert(b.subrange(e + 64, e + 96) =~= zs);
    assert(b.subrange(e + 96, e + 100) =~= n_bs);
    assert forall|i: int| 0 <= i < 3 implies b.subrange(64 * i, 64 * i + 64)
        == crate::encode_point((#[trigger] p.lro[i])@) by {
        lemma_points_bytes_at(p.lro@, i);
        assert(b.subrange(64 * i, 64 * i + 64) =~= lro.subrange(64 * i, 64 * i + 64));
    }
    assert forall|i: int| 0 <= i < 3 implies b.subrange(256 + 64 * i, 320 + 64 * i)
        == crate::encode_point((#[trigger] p.h[i])@) by {
        lemma_points_bytes_at(p.h@, i);
        assert(b.subrange(256 + 64 * i, 320 + 64 * i) =~= h.subrange(64 * i, 64 * i + 64));
    }
    assert forall|i: int| 0 <= i < cv.len() implies b.subrange(516 + 32 * i, 548 + 32 * i)
        == bytes::be_bytes((#[trigger] cv[i])@, 32) by {
        lemma_scalars_bytes_at(cv, i);
        assert(b.subrange(516 + 32 * i, 548 + 32 * i) =~= values.subrange(32 * i, 32 * i + 32));
    }
    assert forall|i: int| 0 <= i < bs.len() implies b.subrange(e + 100 + 64 * i, e + 164 + 64 * i)
        == crate::encode_point((#[trigger] bs[i])@) by {
        lemma_points_bytes_at(bs, i);
        assert(b.subrange(e + 100 + 64 * i, e + 164 + 64 * i) =~= points.subrange(
            64 * i,
            64 * i + 64,
        ));
    }
}

/// The coordinates of a point in the exchange form lie in the base field.
proof fn lemma_point_in_range(p: BN254G1Affine)
    ensures
        g1::in_range(p@),
        g1::as_affine(p@) == p@,
{
    fields::lemma_fq_modulus();
}

/// Numbers in the exchange form are told apart by their 32 bytes.
proof fn lemma_same_scalar(a: BN254Fr, b: BN254Fr)
    requires
        bytes::be_bytes(a@, 32) == bytes::be_bytes(b@, 32),
    ensures
        a@ == b@,
{
    bytes::lemma_pow_256();
    assert(0 <= a@ < limbs::mont_r() && 0 <= b@ < limbs::mont_r());
    bytes::lemma_be_value_of_bytes(a@, 32);
    bytes::lemma_be_value_of_bytes(b@, 32);
}

proof fn lemma_same_point(a: BN254G1Affine, b: BN254G1Affine)
    requires
        crate::encode_point(a@) == crate::encode_point(b@),
    ensures
        a@ == b@,
{
    lemma_point_in_range(a);
    lemma_point_in_range(b);
    crate::law_point_bytes_differ(a@, b@);
}

/// Two proofs with the same bytes in the format that the Solidity verifier reads and
/// as many values and commitments are the same proof, but for the value of the
/// linearised polynomial, which that format leaves out.
pub proof fn law_solidity_determines(p: PlonkProof, q: PlonkProof)
    requires
        p.bsb22_commitments@.len() == q.bsb22_commitments@.len(),
        p.batched_proof.claimed_values@.len() == 6 + p.bsb22_commitments@.len(),
        q.batched_proof.claimed_values@.len() == 6 + q.bsb22_commitments@.len(),
        p.solidity_bytes() == q.solidity_bytes(),
    ensures
        p@.lro == q@.lro,
        p@.h == q@.h,
        p@.z == q@.z,
        p@.bsb22 == q@.bsb22,
        p@.batch_h == q@.batch_h,
        p@.claimed.skip(1) == q@.claimed.skip(1),
        p@.z_shifted_h == q@.z_shifted_h,
        p@.z_shifted == q@.z_shifted,
{
    law_solidity_layout(p);
    law_solidity_layout(q);
    let pv = p.batched_proof.claimed_values@;
    let qv = q.batched_proof.claimed_values@;
    assert forall|i: int| 0 <= i < 3 implies #[trigger] p.lro[i]@ == q.lro[i]@ by {
        lemma_same_point(p.lro[i], q.lro[i]);
    }
    assert(p@.lro =~= q@.lro);
    assert forall|i: int| 0 <= i < 3 implies #[trigger] p.h[i]@ == q.h[i]@ by {
        lemma_same_point(p.h[i], q.h[i]);
    }
    assert(p@.h =~= q@.h);
    lemma_same_point(p.z, q.z);
    lemma_same_point(p.batched_proof.h, q.batched_proof.h);
    lemma_same_point(p.z_shifted_opening.h, q.z_shifted_opening.h);
    lemma_same_scalar(p.z_shifted_opening.claimed_value, q.z_shifted_opening.claimed_value);
    assert forall|i: int| 0 <= i < p.bsb22_commitments@.len() implies #[trigger] p@.bsb22[i]
        == q@.bsb22[i] by {
        assert(p.holds_entry(p.solidity_bytes(), i));
        assert(q.holds_entry(q.solidity_bytes(), i));
        assert(p.solidity_offset(i) == q.solidity_offset(i));
        assert(p.solidity_offset(i + 1) == q.solidity_offset(i + 1));
        lemma_same_point(p.bsb22_commitments@[i], q.bsb22_commitments@[i]);
    }
    assert(p@.bsb22 =~= q@.bsb22);
    assert forall|i: int| 1 <= i < pv.len() implies #[trigger] pv[i]@ == qv[i]@ by {
        if i >= 6 {
            assert(p.holds_entry(p.solidity_bytes(), i - 6));
            assert(q.holds_entry(q.solidity_bytes(), i - 6));
            assert(p.solidity_offset(i - 6) == q.solidity_offset(i - 6));
        }
        lemma_same_scalar(pv[i], qv[i]);
    }
    assert(p@.claimed.skip(1) =~= q@.claimed.skip(1));
}

/// Two proofs with the same bytes in the raw format are the same proof. The lengths
/// that the format holds have to fit into four bytes.
pub proof fn law_raw_determines(p: PlonkProof, q: PlonkProof)
    requires
        p.batched_proof.claimed_values@.len() <= u32::MAX,
        q.batched_proof.claimed_values@.len() <= u32::MAX,
        p.raw_bytes() == q.raw_bytes(),
    ensures
        p@ == q@,
{
    law_raw_layout(p);
    law_raw_layout(q);
    let pv = p.batched_proof.claimed_values@;
    let qv = q.batched_proof.claimed_values@;
    vstd::arithmetic::power::lemma_pow_adds(256, 2, 2);
    assert(vstd::arithmetic::power::pow(256, 4) == 0x1_0000_0000int) by {
        reveal(vstd::arithmetic::power::pow);
        reveal_with_fuel(vstd::arithmetic::power::pow, 5);
    }
    bytes::lemma_be_value_of_bytes(pv.len() as int, 4);
    bytes::lemma_be_value_of_bytes(qv.len() as int, 4);
    assert(pv.len() == qv.len());
    assert(p.raw_values_end() == q.raw_values_end());
    assert(p.bsb22_commitments@.len() == q.bsb22_commitments@.len());
    assert forall|i: int| 0 <= i < 3 implies #[trigger] p.lro[i]@ == q.lro[i]@ by {
        lemma_same_point(p.lro[i], q.lro[i]);
    }
    assert(p@.lro =~= q@.lro);
    assert forall|i: int| 0 <= i < 3 implies #[trigger] p.h[i]@ == q.h[i]@ by {
        lemma_same_point(p.h[i], q.h[i]);
    }
    assert(p@.h =~= q@.h);
    lemma_same_point(p.z, q.z);
    lemma_same_point(p.batched_proof.h, q.batched_proof.h);
    lemma_same_point(p.z_shifted_opening.h, q.z_shifted_opening.h);
    lemma_same_scalar(p.z_shifted_opening.claimed_value, q.z_shifted_opening.claimed_value);
    assert forall|i: int| 0 <= i < p.bsb22_commitments@.len() implies #[trigger] p@.bsb22[i]
        == q@.bsb22[i] by {
        lemma_same_point(p.bsb22_commitments@[i], q.bsb22_commitments@[i]);
    }
    assert(p@.bsb22 =~= q@.bsb22);
    assert forall|i: int| 0 <= i < pv.len() implies #[trigger] pv[i]@ == qv[i]@ by {
        lemma_same_scalar(pv[i], qv[i]);
    }
    assert(p@.claimed =~= q@.claimed);
}

} // verus!
