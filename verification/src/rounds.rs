//! The proof that the prover makes, round by round, as a function of the circuit and
//! the witness.

use crate::blinding;
use crate::blinding::BlindingPolys;
use crate::bytes;
use crate::circuit;
use crate::circuit::Circuit;
use crate::commit;
use crate::domain;
use crate::fields;
use crate::g1;
use crate::g1::Point;
use crate::grand_product::Permutation;
use crate::linearization;
use crate::linearization::Openings;
use crate::polynomial;
use crate::quotient;
use crate::quotient::{Challenges, Witness};
use crate::transcript::TranscriptState;
use vstd::prelude::*;

verus! {

/// The commitments of a verifying key.
pub struct VkPoints {
    pub s1: Point,
    pub s2: Point,
    pub s3: Point,
    pub ql: Point,
    pub qr: Point,
    pub qm: Point,
    pub qo: Point,
    pub qk: Point,
    pub qcp: Seq<Point>,
}

impl VkPoints {
    /// The commitments in the order in which a transcript takes them.
    pub open spec fn in_order(self) -> Seq<Point> {
        seq![self.s1, self.s2, self.s3, self.ql, self.qr, self.qm, self.qo, self.qk] + self.qcp
    }
}

/// What the prover knows of a circuit.
pub struct Key {
    pub circuit: Circuit,
    pub vk: VkPoints,
    pub srs_lagrange: Seq<Point>,
    pub srs_canonical: Seq<Point>,
    pub nb_pub: nat,
    pub indexes: Seq<usize>,
}

/// What a proof is made from: rows of the wires, public inputs, the BSB22
/// commitments and the rows behind them, the blinding, and what a device has computed in
/// place of the prover.
pub struct Inputs {
    pub l: Seq<int>,
    pub r: Seq<int>,
    pub o: Seq<int>,
    pub pi: Seq<int>,
    pub commitments: Seq<Point>,
    pub bsb22: Seq<Seq<int>>,
    pub blinding: Option<BlindingPolys>,
    pub device: DeviceValues,
}

/// What a device has computed in place of the prover.
pub struct DeviceValues {
    /// The commitments to the wires.
    pub wires: Option<(Point, Point, Point)>,
    /// The rows of the grand product.
    pub product: Option<Seq<int>>,
    /// The commitment to the grand product.
    pub z: Option<Point>,
    /// The quotient.
    pub quotient: Option<Seq<int>>,
    /// The commitments to the parts of the quotient.
    pub parts: Option<(Point, Point, Point)>,
    /// The combination of the polynomials that are opened together.
    pub combination: Option<Seq<int>>,
    /// The commitments to the quotients of both openings.
    pub openings: Option<(Point, Point)>,
}

impl DeviceValues {
    /// Nothing.
    pub open spec fn none() -> Self {
        DeviceValues {
            wires: None,
            product: None,
            z: None,
            quotient: None,
            parts: None,
            combination: None,
            openings: None,
        }
    }
}

impl Inputs {
    /// Nothing comes from a device.
    pub open spec fn alone(self) -> bool {
        self.device == DeviceValues::none()
    }

    /// The same inputs with nothing from a device.
    pub open spec fn without_device(self) -> Inputs {
        self.with_device(DeviceValues::none())
    }

    /// The same inputs with other values from a device.
    pub open spec fn with_device(self, device: DeviceValues) -> Inputs {
        Inputs { device, ..self }
    }
}

/// The names of the challenges.
pub open spec fn challenge_names() -> Seq<Seq<char>> {
    seq!["gamma"@, "beta"@, "alpha"@, "zeta"@, "u"@]
}

/// The field element that a challenge gives.
pub open spec fn challenge_value(digest: Seq<u8>) -> int {
    bytes::be_value(digest) % fields::fr_modulus()
}

/// A transcript after points were bound.
pub open spec fn bind_points(t: TranscriptState, s: Seq<Point>) -> TranscriptState
    decreases s.len(),
{
    if s.len() == 0 {
        t
    } else {
        bind_points(t, s.drop_last()).bind(crate::encode_point(s.last()))
    }
}

/// A transcript after scalars were bound.
pub open spec fn bind_scalars(t: TranscriptState, s: Seq<int>) -> TranscriptState
    decreases s.len(),
{
    if s.len() == 0 {
        t
    } else {
        bind_scalars(t, s.drop_last()).bind(bytes::be_bytes(s.last(), 32))
    }
}

/// Round 1: the commitments to the wires, and gamma and beta.
pub struct Round1 {
    pub l: Point,
    pub r: Point,
    pub o: Point,
    pub gamma: int,
    pub beta: int,
    pub transcript: TranscriptState,
}

/// Round 2: the commitment to the grand product, and alpha.
pub struct Round2 {
    pub z: Point,
    pub alpha: int,
    pub transcript: TranscriptState,
}

/// Round 3: the quotient, the commitments to its parts, and zeta.
pub struct Round3 {
    pub h: Seq<int>,
    pub h0: Point,
    pub h1: Point,
    pub h2: Point,
    pub zeta: int,
    pub transcript: TranscriptState,
}

/// Round 4: the openings at zeta and the value of the linearised polynomial.
pub struct Round4 {
    pub openings: Openings,
    pub qcp: Seq<int>,
    pub const_lin: int,
}

/// Round 5: the fold challenge and the two opening proofs.
pub struct Round5 {
    pub gamma_fold: int,
    pub batch_h: Point,
    pub z_shifted_h: Point,
}

/// A proof by what it holds.
pub struct ProofView {
    pub lro: Seq<Point>,
    pub h: Seq<Point>,
    pub z: Point,
    pub bsb22: Seq<Point>,
    pub batch_h: Point,
    pub claimed: Seq<int>,
    pub z_shifted_h: Point,
    pub z_shifted: int,
}

/// The blinding of a polynomial, where there is one.
pub open spec fn maybe_spliced(p: Seq<int>, bp: Option<Seq<int>>) -> Seq<int> {
    match bp {
        Some(b) => blinding::spliced(p, b),
        None => p,
    }
}

/// The commitment to a polynomial with its blinding, where there is one.
pub open spec fn maybe_blinded(srs: Seq<Point>, bp: Option<Seq<int>>, n: int, c: Point) -> Point {
    match bp {
        Some(b) => commit::blinded(srs, b, n, c),
        None => c,
    }
}

impl Inputs {
    /// The blinding of L.
    pub open spec fn bp_l(self) -> Option<Seq<int>> {
        match self.blinding {
            Some(b) => Some(b.l),
            None => None,
        }
    }

    /// The blinding of R.
    pub open spec fn bp_r(self) -> Option<Seq<int>> {
        match self.blinding {
            Some(b) => Some(b.r),
            None => None,
        }
    }

    /// The blinding of O.
    pub open spec fn bp_o(self) -> Option<Seq<int>> {
        match self.blinding {
            Some(b) => Some(b.o),
            None => None,
        }
    }

    /// The blinding of Z.
    pub open spec fn bp_z(self) -> Option<Seq<int>> {
        match self.blinding {
            Some(b) => Some(b.z),
            None => None,
        }
    }
}

impl Key {
    /// The commitment to a wire.
    #[verifier::opaque]
    pub open spec fn wire_commitment(self, rows: Seq<int>, bp: Option<Seq<int>>) -> Point {
        let s = fields::elements(rows);
        maybe_blinded(
            self.srs_canonical,
            bp,
            self.circuit.n() as int,
            commit::depadded_commitment(
                self.srs_lagrange,
                s,
                commit::hot_values(s, 10, 1000),
            ),
        )
    }

    /// The commitments to the wires.
    pub open spec fn wires(self, inp: Inputs) -> (Point, Point, Point) {
        match inp.device.wires {
            Some(w) => w,
            None => (
                self.wire_commitment(inp.l, inp.bp_l()),
                self.wire_commitment(inp.r, inp.bp_r()),
                self.wire_commitment(inp.o, inp.bp_o()),
            ),
        }
    }

    /// Round 1.
    #[verifier::opaque]
    pub open spec fn round1(self, inp: Inputs) -> Round1 {
        let (l, r, o) = self.wires(inp);
        let t0 = bind_points(TranscriptState::start(challenge_names()), self.vk.in_order());
        let t1 = bind_scalars(t0, inp.pi).bind(crate::encode_point(l)).bind(
            crate::encode_point(r),
        ).bind(crate::encode_point(o));
        let t2 = t1.advance();
        Round1 {
            l,
            r,
            o,
            gamma: challenge_value(t1.next()),
            beta: challenge_value(t2.next()),
            transcript: t2.advance(),
        }
    }

    /// The permutation argument of a proof.
    #[verifier::opaque]
    pub open spec fn permutation(self, inp: Inputs) -> Permutation {
        let c = self.circuit;
        Permutation {
            l: inp.l,
            r: inp.r,
            o: inp.o,
            s1: domain::dft(c.s1, c.w),
            s2: domain::dft(c.s2, c.w),
            s3: domain::dft(c.s3, c.w),
            id: circuit::power_seq(c.w, c.n()),
            k1: c.shift,
            beta: self.round1(inp).beta,
            gamma: self.round1(inp).gamma,
        }
    }

    /// The rows of the grand product.
    pub open spec fn product(self, inp: Inputs) -> Seq<int> {
        match inp.device.product {
            Some(z) => z,
            None => self.permutation(inp).products(),
        }
    }

    /// The commitment to the grand product.
    pub open spec fn product_commitment(self, inp: Inputs) -> Point {
        match inp.device.z {
            Some(z) => z,
            None => maybe_blinded(
                self.srs_canonical,
                inp.bp_z(),
                self.circuit.n() as int,
                commit::commitment(self.srs_lagrange, self.product(inp)),
            ),
        }
    }

    /// Round 2.
    #[verifier::opaque]
    pub open spec fn round2(self, inp: Inputs) -> Round2 {
        let z = self.product_commitment(inp);
        let t = bind_points(
            self.round1(inp).transcript,
            inp.commitments,
        ).bind(crate::encode_point(z));
        Round2 { z, alpha: challenge_value(t.next()), transcript: t.advance() }
    }

    /// The challenges up to the quotient.
    pub open spec fn challenges(self, inp: Inputs) -> Challenges {
        Challenges {
            alpha: self.round2(inp).alpha,
            beta: self.round1(inp).beta,
            gamma: self.round1(inp).gamma,
        }
    }

    /// The value of the public input polynomial on a row.
    pub open spec fn public_value(self, inp: Inputs, i: int) -> int {
        quotient::public_value(inp.pi, self.nb_pub, inp.commitments, self.indexes, i)
    }

    /// The rows of the public input polynomial.
    pub open spec fn pi_rows(self, inp: Inputs) -> Seq<int> {
        Seq::new(self.circuit.n(), |i: int| self.public_value(inp, i))
    }

    /// The polynomials of a proof.
    #[verifier::opaque]
    pub open spec fn witness(self, inp: Inputs) -> Witness {
        let w = self.circuit.w;
        Witness {
            l: maybe_spliced(domain::idft(inp.l, w), inp.bp_l()),
            r: maybe_spliced(domain::idft(inp.r, w), inp.bp_r()),
            o: maybe_spliced(domain::idft(inp.o, w), inp.bp_o()),
            z: maybe_spliced(domain::idft(self.product(inp), w), inp.bp_z()),
            pi: domain::idft(self.pi_rows(inp), w),
            bsb22: Seq::new(inp.bsb22.len(), |j: int| domain::idft(inp.bsb22[j], w)),
        }
    }

    /// The quotient of a proof.
    pub open spec fn quotient(self, inp: Inputs) -> Seq<int> {
        match inp.device.quotient {
            Some(h) => h,
            None => self.circuit.quotient(self.witness(inp), self.challenges(inp)),
        }
    }

    /// The commitments to the parts of the quotient.
    pub open spec fn parts(self, inp: Inputs) -> (Point, Point, Point) {
        let h = self.quotient(inp);
        match inp.device.parts {
            Some(p) => p,
            None => (
                commit::commitment(self.srs_canonical, self.part(h, 0)),
                commit::commitment(self.srs_canonical, self.part(h, 1)),
                commit::commitment(self.srs_canonical, self.part(h, 2)),
            ),
        }
    }

    /// Round 3.
    #[verifier::opaque]
    pub open spec fn round3(self, inp: Inputs) -> Round3 {
        let h = self.quotient(inp);
        let (h0, h1, h2) = self.parts(inp);
        let t = self.round2(inp).transcript.bind(crate::encode_point(h0)).bind(
            crate::encode_point(h1),
        ).bind(crate::encode_point(h2));
        Round3 { h, h0, h1, h2, zeta: challenge_value(t.next()), transcript: t.advance() }
    }

    /// One of the three parts of the quotient.
    pub open spec fn part(self, h: Seq<int>, k: int) -> Seq<int> {
        let stride = self.circuit.n() + 2;
        h.subrange(k * stride, (k + 1) * stride)
    }

    /// The polynomials of the linearisation.
    #[verifier::opaque]
    pub open spec fn lin_polys(self, inp: Inputs) -> Seq<Seq<int>> {
        let wit = self.witness(inp);
        let h = self.round3(inp).h;
        let m = quotient::shorter(wit.bsb22.len(), self.circuit.qcp.len()) as int;
        self.circuit.lin_polys(wit.z, self.part(h, 0), self.part(h, 1), self.part(h, 2))
            + wit.bsb22.take(m)
    }

    /// The scalars of the linearisation.
    #[verifier::opaque]
    pub open spec fn lin_scalars(self, inp: Inputs, e: Openings, qcp: Seq<int>, m: nat) -> Seq<
        int,
    > {
        self.circuit.lin_scalars(self.challenges(inp), self.round3(inp).zeta, e) + qcp.take(
            m as int,
        )
    }

    /// Round 4.
    #[verifier::opaque]
    pub open spec fn round4(self, inp: Inputs) -> Round4 {
        let c = self.circuit;
        let wit = self.witness(inp);
        let zeta = self.round3(inp).zeta;
        let e = Openings {
            l: polynomial::feval(wit.l, zeta),
            r: polynomial::feval(wit.r, zeta),
            o: polynomial::feval(wit.o, zeta),
            s1: polynomial::feval(c.s1, zeta),
            s2: polynomial::feval(c.s2, zeta),
            zw: polynomial::feval(wit.z, fields::fmul(zeta, c.w)),
        };
        let qcp = quotient::values_at(c.qcp, zeta);
        let m = quotient::shorter(wit.bsb22.len(), c.qcp.len());
        Round4 {
            openings: e,
            qcp,
            const_lin: linearization::dot(
                self.lin_scalars(inp, e, qcp, m),
                quotient::values_at(self.lin_polys(inp), zeta),
            ),
        }
    }

    /// The values that a proof claims.
    #[verifier::opaque]
    pub open spec fn claimed(self, inp: Inputs) -> Seq<int> {
        let r4 = self.round4(inp);
        seq![
            r4.const_lin,
            r4.openings.l,
            r4.openings.r,
            r4.openings.o,
            r4.openings.s1,
            r4.openings.s2,
        ] + r4.qcp
    }

    /// The commitment to the linearised polynomial, from the other commitments.
    #[verifier::opaque]
    pub open spec fn lin_commitment(self, inp: Inputs) -> Point {
        let r2 = self.round2(inp);
        let r3 = self.round3(inp);
        let r4 = self.round4(inp);
        let m = quotient::shorter(self.circuit.qcp.len(), inp.commitments.len());
        g1::as_affine(
            g1::point_msm(
                seq![
                    self.vk.ql,
                    self.vk.qr,
                    self.vk.qm,
                    self.vk.qo,
                    self.vk.qk,
                    self.vk.s3,
                    r2.z,
                    r3.h0,
                    r3.h1,
                    r3.h2,
                ] + inp.commitments.take(m as int),
                self.lin_scalars(inp, r4.openings, r4.qcp, m),
            ),
        )
    }

    /// The commitments that are opened at zeta.
    #[verifier::opaque]
    pub open spec fn digests(self, inp: Inputs) -> Seq<Point> {
        let r1 = self.round1(inp);
        seq![self.lin_commitment(inp), r1.l, r1.r, r1.o, self.vk.s1, self.vk.s2] + self.vk.qcp
    }

    /// The transcript of the fold challenge.
    #[verifier::opaque]
    pub open spec fn fold_transcript(self, inp: Inputs) -> TranscriptState {
        let t0 = TranscriptState::start(seq!["gamma"@]).bind(
            bytes::be_bytes(self.round3(inp).zeta, 32),
        );
        bind_scalars(bind_points(t0, self.digests(inp)), self.claimed(inp)).bind(
            bytes::be_bytes(self.round4(inp).openings.zw, 32),
        )
    }

    /// The fold challenge.
    pub open spec fn gamma_fold(self, inp: Inputs) -> int {
        challenge_value(self.fold_transcript(inp).next())
    }

    /// All polynomials of the fold.
    #[verifier::opaque]
    pub open spec fn fold_polys(self, inp: Inputs) -> Seq<Seq<int>> {
        let wit = self.witness(inp);
        let c = self.circuit;
        self.lin_polys(inp) + seq![wit.l, wit.r, wit.o, c.s1, c.s2] + c.qcp
    }

    /// The scalars of the fold: those of the linearisation, then the powers of the
    /// fold challenge.
    #[verifier::opaque]
    pub open spec fn fold_scalars(self, inp: Inputs) -> Seq<int> {
        let r4 = self.round4(inp);
        let m = quotient::shorter(self.witness(inp).bsb22.len(), self.circuit.qcp.len());
        self.lin_scalars(inp, r4.openings, r4.qcp, m) + linearization::field_powers(
            self.gamma_fold(inp),
            6 + self.circuit.qcp.len(),
        ).skip(1)
    }

    /// The combination of the polynomials of the fold.
    pub open spec fn combination(self, inp: Inputs) -> Seq<int> {
        match inp.device.combination {
            Some(p) => p,
            None => linearization::combination(self.fold_polys(inp), self.fold_scalars(inp)),
        }
    }

    /// The folded polynomial, less the fold of the claimed values.
    #[verifier::opaque]
    pub open spec fn folded(self, inp: Inputs) -> Seq<int> {
        let g = linearization::field_powers(
            self.gamma_fold(inp),
            6 + self.circuit.qcp.len(),
        );
        linearization::less_constant(
            self.combination(inp),
            linearization::dot(g, self.claimed(inp)),
        )
    }

    /// The grand product, less its value at omega times zeta.
    #[verifier::opaque]
    pub open spec fn z_less_opening(self, inp: Inputs) -> Seq<int> {
        linearization::less_constant(self.witness(inp).z, self.round4(inp).openings.zw)
    }

    /// The quotients of both openings.
    #[verifier::opaque]
    pub open spec fn opening_quotients(self, inp: Inputs) -> (Seq<int>, Seq<int>) {
        let zeta = self.round3(inp).zeta;
        (
            linearization::divided(self.folded(inp), zeta),
            linearization::divided(self.z_less_opening(inp), fields::fmul(zeta, self.circuit.w)),
        )
    }

    /// The commitments to the quotients of both openings.
    pub open spec fn openings(self, inp: Inputs) -> (Point, Point) {
        let q = self.opening_quotients(inp);
        match inp.device.openings {
            Some(p) => p,
            None => (
                commit::commitment(self.srs_canonical, q.0),
                commit::commitment(self.srs_canonical, q.1),
            ),
        }
    }

    /// Round 5.
    #[verifier::opaque]
    pub open spec fn round5(self, inp: Inputs) -> Round5 {
        let (batch_h, z_shifted_h) = self.openings(inp);
        Round5 { gamma_fold: self.gamma_fold(inp), batch_h, z_shifted_h }
    }

    /// The proof.
    pub open spec fn honest_proof(self, inp: Inputs) -> ProofView {
        let r1 = self.round1(inp);
        let r2 = self.round2(inp);
        let r3 = self.round3(inp);
        let r4 = self.round4(inp);
        let r5 = self.round5(inp);
        ProofView {
            lro: seq![r1.l, r1.r, r1.o],
            h: seq![r3.h0, r3.h1, r3.h2],
            z: r2.z,
            bsb22: inp.commitments,
            batch_h: r5.batch_h,
            claimed: self.claimed(inp),
            z_shifted_h: r5.z_shifted_h,
            z_shifted: r4.openings.zw,
        }
    }

    /// The transcript of the last challenge.
    #[verifier::opaque]
    pub open spec fn u_transcript(self, inp: Inputs) -> TranscriptState {
        let r5 = self.round5(inp);
        let folded_digest = g1::as_affine(
            g1::point_msm(
                self.digests(inp),
                linearization::field_powers(r5.gamma_fold, self.digests(inp).len()),
            ),
        );
        self.round3(inp).transcript.bind(bytes::be_bytes(r5.gamma_fold, 32)).bind(
            crate::encode_point(folded_digest),
        ).bind(crate::encode_point(self.round2(inp).z)).bind(
            crate::encode_point(r5.batch_h),
        ).bind(crate::encode_point(r5.z_shifted_h))
    }
}

} // verus!
