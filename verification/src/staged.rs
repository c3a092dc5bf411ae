//! A proof that stops wherever a device may compute: before the commitments to the wires,
//! the grand product and the commitment to it, the quotient and the commitments to its
//! parts, the combination of the polynomials that are opened together, and the commitments
//! to the quotients of the openings. Whatever the device gives back, the proof is the one
//! that the rounds give with it; where the device is right, it is the one that the prover
//! makes alone.
use crate::circuit;
use crate::commit;
use crate::commit_laws;
use crate::fields;
use crate::fields::Fr;
use crate::g1;
use crate::g1::{G1Jacobian, Point};
use crate::grand_product::ProveError;
use crate::linearization;
use crate::plonk_proof::PlonkProof;
use crate::polynomial;
use crate::prover;
use crate::prover::{DeviceResults, OpeningRound, PlonkProver, ProofInputs, WitnessPolys};
use crate::proving;
use crate::proving::{FoldStart, ProofChallenges, ProofPoints};
use crate::rounds;
use crate::rounds::{DeviceValues, Inputs, Key};
use crate::transcript::Transcript;
use crate::{BN254Fr, BN254G1Affine};
use vstd::prelude::*;

verus! {

impl Inputs {
    /// The same inputs with commitments to the wires from a device.
    pub open spec fn with_wires(self, p: (Point, Point, Point)) -> Inputs {
        self.with_device(DeviceValues { wires: Some(p), ..self.device })
    }

    /// The same inputs with a grand product and the commitment to it from a device.
    pub open spec fn with_product(self, rows: Seq<int>, z: Point) -> Inputs {
        self.with_device(DeviceValues { product: Some(rows), z: Some(z), ..self.device })
    }

    /// The same inputs with a quotient from a device.
    pub open spec fn with_quotient(self, h: Seq<int>) -> Inputs {
        self.with_device(DeviceValues { quotient: Some(h), ..self.device })
    }

    /// The same inputs with commitments to the parts of the quotient from a device.
    pub open spec fn with_parts(self, p: (Point, Point, Point)) -> Inputs {
        self.with_device(DeviceValues { parts: Some(p), ..self.device })
    }

    /// The same inputs with a combination from a device.
    pub open spec fn with_combination(self, c: Seq<int>) -> Inputs {
        self.with_device(DeviceValues { combination: Some(c), ..self.device })
    }

    /// The same inputs with commitments to the quotients of the openings from a device.
    pub open spec fn with_openings(self, p: (Point, Point)) -> Inputs {
        self.with_device(DeviceValues { openings: Some(p), ..self.device })
    }
}

/// A proof after round 1: the grand product comes next.
pub struct WiredProof {
    pub inp: ProofInputs,
    pub l: BN254G1Affine,
    pub r: BN254G1Affine,
    pub o: BN254G1Affine,
    pub gamma: Fr,
    pub beta: Fr,
    pub transcript: Transcript,
}

impl WiredProof {
    /// Nothing after round 1 comes from a device yet.
    pub open spec fn clear(d: DeviceResults) -> bool {
        d.product is None && d.z is None && StartedProof::clear(d)
    }

    /// Everything is as round 1 gives it.
    pub open spec fn is(self, key: Key) -> bool {
        let r1 = key.round1(self.inp@);
        &&& self.inp.fits(key)
        &&& Self::clear(self.inp.device)
        &&& prover::can_prove(key, self.inp.blinding is Some)
        &&& self.l.wf() && self.r.wf() && self.o.wf()
        &&& self.l@ == r1.l
        &&& self.r@ == r1.r
        &&& self.o@ == r1.o
        &&& self.gamma.wf() && self.beta.wf()
        &&& self.gamma@ == r1.gamma
        &&& self.beta@ == r1.beta
        &&& self.transcript.wf()
        &&& self.transcript@ == r1.transcript
        &&& r1.transcript.pending == rounds::challenge_names().skip(2)
    }
}

/// A proof after round 2: the quotient comes next.
pub struct StartedProof {
    pub inp: ProofInputs,
    pub l: BN254G1Affine,
    pub r: BN254G1Affine,
    pub o: BN254G1Affine,
    pub z: BN254G1Affine,
    pub gamma: Fr,
    pub beta: Fr,
    pub alpha: Fr,
    /// The rows of the grand product.
    pub z_rows: Vec<Fr>,
    pub wit: WitnessPolys,
    pub transcript: Transcript,
}

impl StartedProof {
    /// Nothing after round 2 comes from a device yet.
    pub open spec fn clear(d: DeviceResults) -> bool {
        d.quotient is None && d.parts is None && OpenedProof::clear(d)
    }

    /// Everything is as the first two rounds give it.
    pub open spec fn is(self, key: Key) -> bool {
        let inp = self.inp@;
        let r1 = key.round1(inp);
        let r2 = key.round2(inp);
        &&& self.inp.fits(key)
        &&& Self::clear(self.inp.device)
        &&& prover::can_prove(key, self.inp.blinding is Some)
        &&& self.l.wf() && self.r.wf() && self.o.wf() && self.z.wf()
        &&& self.l@ == r1.l
        &&& self.r@ == r1.r
        &&& self.o@ == r1.o
        &&& self.z@ == r2.z
        &&& self.gamma.wf() && self.beta.wf() && self.alpha.wf()
        &&& self.gamma@ == r1.gamma
        &&& self.beta@ == r1.beta
        &&& self.alpha@ == r2.alpha
        &&& fields::all_wf(self.z_rows@)
        &&& self.z_rows@.len() == key.circuit.n()
        &&& fields::vals(self.z_rows@) == key.product(inp)
        &&& self.wit.fits(key.circuit.n(), self.inp.blinding is Some)
        &&& self.wit@ == key.witness(inp)
        &&& self.transcript.wf()
        &&& self.transcript@ == r2.transcript
        &&& r2.transcript.pending == rounds::challenge_names().skip(3)
    }
}

/// A proof after round 4, with the fold challenge: the combination of the polynomials that
/// are opened together comes next.
pub struct OpenedProof {
    pub inp: ProofInputs,
    pub wit: WitnessPolys,
    pub points: ProofPoints,
    pub ch: ProofChallenges,
    pub r4: OpeningRound,
    pub start: FoldStart,
}

impl OpenedProof {
    /// Nothing after round 4 comes from a device yet.
    pub open spec fn clear(d: DeviceResults) -> bool {
        d.combination is None && d.openings is None
    }

    /// Everything is as the rounds give it with the quotient that was taken.
    pub open spec fn is(self, key: Key) -> bool {
        let inp = self.inp@;
        &&& self.inp.fits(key)
        &&& self.inp.device.quotient is Some
        &&& Self::clear(self.inp.device)
        &&& prover::can_prove(key, self.inp.blinding is Some)
        &&& self.wit.fits(key.circuit.n(), self.inp.blinding is Some)
        &&& self.wit@ == key.witness(inp)
        &&& self.points.is(key, inp)
        &&& self.ch.is(key, inp)
        &&& self.r4.is(key, inp)
        &&& self.start.is(key, inp)
    }
}

/// A proof with the quotients of both openings: the commitments to them come next.
pub struct DividedProof {
    pub inp: ProofInputs,
    pub points: ProofPoints,
    pub r4: OpeningRound,
    pub start: FoldStart,
    pub quotients: (Vec<Fr>, Vec<Fr>),
}

impl DividedProof {
    /// Everything is as the rounds give it with the combination that was taken.
    pub open spec fn is(self, key: Key) -> bool {
        let inp = self.inp@;
        &&& self.inp.fits(key)
        &&& self.inp.device.openings is None
        &&& prover::can_prove(key, self.inp.blinding is Some)
        &&& self.points.is(key, inp)
        &&& self.r4.is(key, inp)
        &&& self.start.is(key, inp)
        &&& fields::all_wf(self.quotients.0@)
        &&& fields::all_wf(self.quotients.1@)
        &&& (fields::vals(self.quotients.0@), fields::vals(self.quotients.1@))
            == key.opening_quotients(inp)
        &&& self.quotients.0@.len() <= key.srs_canonical.len()
        &&& self.quotients.1@.len() <= key.srs_canonical.len()
    }
}

/// What a device gave.
fn held(v: &Option<Vec<Fr>>) -> (r: &[Fr])
    requires
        v is Some,
    ensures
        r@ == v->0@,
{
    v.as_ref().unwrap().as_slice()
}

// ---------------------------------------------------------------------------
// What does not depend on a device
// ---------------------------------------------------------------------------

/// The inputs are the same but for what a device gives.
pub open spec fn same_inputs(a: Inputs, b: Inputs) -> bool {
    &&& a.l == b.l
    &&& a.r == b.r
    &&& a.o == b.o
    &&& a.pi == b.pi
    &&& a.commitments == b.commitments
    &&& a.bsb22 == b.bsb22
    &&& a.blinding == b.blinding
}

/// Round 1 and the permutation depend on the commitments to the wires alone.
proof fn lemma_before_product(key: Key, a: Inputs, b: Inputs)
    requires
        same_inputs(a, b),
        key.wires(a) == key.wires(b),
    ensures
        key.round1(a) == key.round1(b),
        key.permutation(a) == key.permutation(b),
        key.pi_rows(a) == key.pi_rows(b),
{
    assert(key.round1(a) == key.round1(b)) by {
        reveal(Key::round1);
    }
    assert(key.permutation(a) == key.permutation(b)) by {
        reveal(Key::permutation);
    }
}

/// The rounds before the quotient depend on these commitments and the grand product alone.
proof fn lemma_before_quotient(key: Key, a: Inputs, b: Inputs)
    requires
        same_inputs(a, b),
        key.wires(a) == key.wires(b),
        key.product(a) == key.product(b),
        key.product_commitment(a) == key.product_commitment(b),
    ensures
        key.round1(a) == key.round1(b),
        key.permutation(a) == key.permutation(b),
        key.pi_rows(a) == key.pi_rows(b),
        key.round2(a) == key.round2(b),
        key.witness(a) == key.witness(b),
        key.challenges(a) == key.challenges(b),
{
    lemma_before_product(key, a, b);
    assert(key.round2(a) == key.round2(b)) by {
        reveal(Key::round2);
    }
    assert(key.witness(a) == key.witness(b)) by {
        reveal(Key::witness);
        assert(key.witness(a).bsb22 =~= key.witness(b).bsb22);
    }
}

/// The parts of the quotient and the commitments to them are the same.
pub open spec fn same_parts(key: Key, a: Inputs, b: Inputs) -> bool {
    &&& key.part(key.quotient(a), 0) == key.part(key.quotient(b), 0)
    &&& key.part(key.quotient(a), 1) == key.part(key.quotient(b), 1)
    &&& key.part(key.quotient(a), 2) == key.part(key.quotient(b), 2)
    &&& key.parts(a) == key.parts(b)
}

/// The rounds up to the combination depend on the parts of the quotient beyond that.
proof fn lemma_before_combination(key: Key, a: Inputs, b: Inputs)
    requires
        same_inputs(a, b),
        key.wires(a) == key.wires(b),
        key.product(a) == key.product(b),
        key.product_commitment(a) == key.product_commitment(b),
        same_parts(key, a, b),
    ensures
        ({
            let (ra, rb) = (key.round3(a), key.round3(b));
            &&& ra.h == key.quotient(a)
            &&& rb.h == key.quotient(b)
            &&& ra.h0 == rb.h0
            &&& ra.h1 == rb.h1
            &&& ra.h2 == rb.h2
            &&& ra.zeta == rb.zeta
            &&& ra.transcript == rb.transcript
        }),
        key.round4(a) == key.round4(b),
        key.claimed(a) == key.claimed(b),
        key.digests(a) == key.digests(b),
        key.gamma_fold(a) == key.gamma_fold(b),
        key.fold_polys(a) == key.fold_polys(b),
        key.fold_scalars(a) == key.fold_scalars(b),
        key.z_less_opening(a) == key.z_less_opening(b),
{
    lemma_before_quotient(key, a, b);
    assert({
        let (ra, rb) = (key.round3(a), key.round3(b));
        &&& ra.h == key.quotient(a)
        &&& rb.h == key.quotient(b)
        &&& ra.h0 == rb.h0
        &&& ra.h1 == rb.h1
        &&& ra.h2 == rb.h2
        &&& ra.zeta == rb.zeta
        &&& ra.transcript == rb.transcript
    }) by {
        reveal(Key::round3);
    }
    assert(key.lin_polys(a) == key.lin_polys(b)) by {
        reveal(Key::lin_polys);
    }
    assert forall|e: linearization::Openings, q: Seq<int>, m: nat|
        #[trigger] key.lin_scalars(a, e, q, m) == key.lin_scalars(b, e, q, m) by {
        reveal(Key::lin_scalars);
    }
    assert(key.round4(a) == key.round4(b)) by {
        reveal(Key::round4);
    }
    assert(key.claimed(a) == key.claimed(b)) by {
        reveal(Key::claimed);
    }
    assert(key.lin_commitment(a) == key.lin_commitment(b)) by {
        reveal(Key::lin_commitment);
    }
    assert(key.digests(a) == key.digests(b)) by {
        reveal(Key::digests);
    }
    assert(key.gamma_fold(a) == key.gamma_fold(b)) by {
        reveal(Key::fold_transcript);
    }
    assert(key.fold_polys(a) == key.fold_polys(b)) by {
        reveal(Key::fold_polys);
    }
    assert(key.fold_scalars(a) == key.fold_scalars(b)) by {
        reveal(Key::fold_scalars);
    }
    assert(key.z_less_opening(a) == key.z_less_opening(b)) by {
        reveal(Key::z_less_opening);
    }
}

/// The quotients of the openings depend on the combination beyond that.
proof fn lemma_before_openings(key: Key, a: Inputs, b: Inputs)
    requires
        same_inputs(a, b),
        key.wires(a) == key.wires(b),
        key.product(a) == key.product(b),
        key.product_commitment(a) == key.product_commitment(b),
        same_parts(key, a, b),
        key.combination(a) == key.combination(b),
    ensures
        key.opening_quotients(a) == key.opening_quotients(b),
{
    lemma_before_combination(key, a, b);
    assert(key.folded(a) == key.folded(b)) by {
        reveal(Key::folded);
    }
    reveal(Key::opening_quotients);
}

/// What a device gave is what the prover would have computed, of the quotient the three
/// parts that a proof is made from.
pub open spec fn device_is_right(key: Key, inp: Inputs) -> bool {
    let d = inp.device;
    let len = 3 * (key.circuit.n() + 2) as int;
    let h = key.circuit.quotient(key.witness(inp), key.challenges(inp));
    let q = key.opening_quotients(inp);
    &&& d.wires matches Some(p) ==> p == (
        key.wire_commitment(inp.l, inp.bp_l()),
        key.wire_commitment(inp.r, inp.bp_r()),
        key.wire_commitment(inp.o, inp.bp_o()),
    )
    &&& d.product matches Some(z) ==> z == key.permutation(inp).products()
    &&& d.z matches Some(p) ==> p == rounds::maybe_blinded(
        key.srs_canonical,
        inp.bp_z(),
        key.circuit.n() as int,
        commit::commitment(key.srs_lagrange, key.product(inp)),
    )
    &&& d.quotient matches Some(g) ==> g.len() >= len && g.take(len) == h.take(len)
    &&& d.parts matches Some(p) ==> p == (
        commit::commitment(key.srs_canonical, key.part(key.quotient(inp), 0)),
        commit::commitment(key.srs_canonical, key.part(key.quotient(inp), 1)),
        commit::commitment(key.srs_canonical, key.part(key.quotient(inp), 2)),
    )
    &&& d.combination matches Some(p) ==> p == linearization::combination(
        key.fold_polys(inp),
        key.fold_scalars(inp),
    )
    &&& d.openings matches Some(p) ==> p == (
        commit::commitment(key.srs_canonical, q.0),
        commit::commitment(key.srs_canonical, q.1),
    )
}

/// A proof with a device that is right is the proof that the prover makes alone.
pub proof fn law_device_proof(key: Key, inp: Inputs)
    requires
        key.circuit.n() >= 6,
        device_is_right(key, inp),
    ensures
        key.honest_proof(inp) == key.honest_proof(inp.without_device()),
        key.round3(inp).zeta == key.round3(inp.without_device()).zeta,
{
    let alone = inp.without_device();
    let n = key.circuit.n();
    let len = 3 * (n + 2) as int;
    let (d, h) = (key.quotient(inp), key.quotient(alone));
    lemma_before_product(key, inp, alone);
    assert(key.product(inp) == key.product(alone));
    lemma_before_quotient(key, inp, alone);
    assert(h.len() == 4 * n);
    assert(len <= h.len());
    assert(d.len() >= len && d.take(len) =~= h.take(len));
    let s = (n + 2) as int;
    assert(0 * s == 0 && 1 * s == s && 2 * s == s + s && 3 * s == s + s + s);
    assert forall|k: int| 0 <= k < 3 implies #[trigger] key.part(d, k) == key.part(h, k) by {
        assert(0 <= k * s && (k + 1) * s == k * s + s && (k + 1) * s <= 3 * s) by (nonlinear_arith)
            requires
                0 <= k < 3,
                s >= 0,
        ;
        assert forall|i: int| k * s <= i < (k + 1) * s implies d[i] == h[i] by {
            assert(d.take(len)[i] == h.take(len)[i]);
        }
        assert(key.part(d, k) =~= key.part(h, k));
    }
    assert(key.parts(inp) == key.parts(alone));
    lemma_before_combination(key, inp, alone);
    lemma_before_openings(key, inp, alone);
    assert(key.round5(inp) == key.round5(alone)) by {
        reveal(Key::round5);
    }
}

// ---------------------------------------------------------------------------
// Commitments from a device
// ---------------------------------------------------------------------------

/// The commitment that a sum of points from a device gives: with the contributions of the
/// hot values, which the device has left out, and the blinding.
pub open spec fn completed(
    key: Key,
    start: Point,
    rows: Seq<Fr>,
    hot: Seq<Fr>,
    bp: Option<Seq<int>>,
) -> Point {
    rounds::maybe_blinded(
        key.srs_canonical,
        bp,
        key.circuit.n() as int,
        g1::as_affine(
            commit::with_hot(start, key.srs_lagrange.take(rows.len() as int), rows, hot),
        ),
    )
}

/// A device that sums the points of the rows without the hot values gives the commitment to
/// a wire, whatever sample the hot values were found in, if the points are on the curve.
pub proof fn law_device_wire(
    key: Key,
    rows: Seq<Fr>,
    divisor: int,
    limit: int,
    bp: Option<Seq<int>>,
)
    requires
        0 < rows.len() <= key.srs_lagrange.len(),
        fields::all_wf(rows),
        divisor > 0,
        commit_laws::all_valid(key.srs_lagrange),
    ensures
        ({
            let hot = commit::hot_values(rows, divisor, limit);
            let points = key.srs_lagrange.take(rows.len() as int);
            completed(key, g1::point_msm(points, commit::zeroed(rows, hot)), rows, hot, bp)
                == key.wire_commitment(fields::vals(rows), bp)
        }),
{
    reveal(Key::wire_commitment);
    fields::lemma_elements(rows);
    commit_laws::law_commit_lagrange_depad(key.srs_lagrange, rows, divisor, limit);
    commit_laws::law_commit_lagrange_depad(key.srs_lagrange, rows, 10, 1000);
}

/// A device that sums the points of all rows gives the commitment to a grand product.
pub proof fn law_device_product(key: Key, rows: Seq<Fr>, bp: Option<Seq<int>>)
    requires
        rows.len() <= key.srs_lagrange.len(),
    ensures
        completed(
            key,
            g1::point_msm(key.srs_lagrange.take(rows.len() as int), fields::vals(rows)),
            rows,
            seq![],
            bp,
        ) == rounds::maybe_blinded(
            key.srs_canonical,
            bp,
            key.circuit.n() as int,
            commit::commitment(key.srs_lagrange, fields::vals(rows)),
        ),
{
    commit::lemma_nothing_hot(key.srs_lagrange, rows);
    assert(commit::zeroed(rows, seq![]) =~= fields::vals(rows));
}

/// The first two rounds are the same where a device gives the same for them.
proof fn lemma_same_start(key: Key, a: Inputs, b: Inputs)
    requires
        same_inputs(a, b),
        a.device.wires == b.device.wires,
        a.device.product == b.device.product,
        a.device.z == b.device.z,
    ensures
        key.wires(a) == key.wires(b),
        key.product(a) == key.product(b),
        key.product_commitment(a) == key.product_commitment(b),
        key.round1(a) == key.round1(b),
        key.permutation(a) == key.permutation(b),
        key.round2(a) == key.round2(b),
        key.witness(a) == key.witness(b),
        key.challenges(a) == key.challenges(b),
{
    lemma_before_product(key, a, b);
    lemma_before_quotient(key, a, b);
}

/// The first four rounds and the fold challenge are the same where a device gives the same
/// for them.
proof fn lemma_same_opening(key: Key, a: Inputs, b: Inputs)
    requires
        same_inputs(a, b),
        a.device.wires == b.device.wires,
        a.device.product == b.device.product,
        a.device.z == b.device.z,
        a.device.quotient == b.device.quotient,
        a.device.parts == b.device.parts,
    ensures
        key.wires(a) == key.wires(b),
        key.product(a) == key.product(b),
        key.product_commitment(a) == key.product_commitment(b),
        same_parts(key, a, b),
        key.round1(a) == key.round1(b),
        key.round2(a) == key.round2(b),
        key.round3(a) == key.round3(b),
        key.round4(a) == key.round4(b),
        key.witness(a) == key.witness(b),
        key.claimed(a) == key.claimed(b),
        key.digests(a) == key.digests(b),
        key.gamma_fold(a) == key.gamma_fold(b),
        key.fold_polys(a) == key.fold_polys(b),
        key.fold_scalars(a) == key.fold_scalars(b),
{
    lemma_same_start(key, a, b);
    lemma_before_combination(key, a, b);
    reveal(Key::round3);
}

// ---------------------------------------------------------------------------
// The stages
// ---------------------------------------------------------------------------

impl PlonkProver {
    /// Complete a sum of points that a device has computed for rows without hot values.
    pub fn complete_commitment(
        &self,
        start: G1Jacobian,
        rows: &[Fr],
        hot: &[Fr],
        bp: Option<&[Fr]>,
    ) -> (res: BN254G1Affine)
        requires
            self.wf(),
            prover::can_prove(self.key(), bp is Some),
            start.wf(),
            rows@.len() == self.key().circuit.n(),
            bp matches Some(b) ==> b@.len() <= 3 && fields::all_wf(b@),
        ensures
            res.wf(),
            res@ == completed(
                self.key(),
                start@,
                rows@,
                hot@,
                match bp {
                    Some(b) => Some(fields::vals(b@)),
                    None => None,
                },
            ),
    {
        proof {
            assert(self.cached.lagrange_points().len() == self.cached.srs_lagrange@.len());
        }
        let sum = commit::add_hot_values(start, self.cached.srs_lagrange.as_slice(), rows, hot);
        self.blind_commitment(sum.to_affine(), bp).to_bn254()
    }

    /// Round 1 with commitments to the wires from a device.
    pub fn begin_with_wires(&self, inp: ProofInputs, wires: [BN254G1Affine; 3]) -> (res: WiredProof)
        requires
            self.wf(),
            inp.fits(self.key()),
            inp.device == prover::no_results(),
            prover::can_prove(self.key(), inp.blinding is Some),
            circuit::bn_points_wf(wires@),
        ensures
            res.is(self.key()),
            res.inp@ == inp@.with_wires(prover::three_points(wires)),
            res.l@ == wires[0]@,
            res.r@ == wires[1]@,
            res.o@ == wires[2]@,
    {
        let ghost before = inp@;
        let mut inp = inp;
        inp.device.wires = Some(wires);
        proof {
            assert(inp@ == before.with_wires(prover::three_points(wires)));
            assert(wires@[0].wf() && wires@[1].wf() && wires@[2].wf());
        }
        let r1 = self.derive_wire_challenges(&inp, wires[0], wires[1], wires[2]);
        proof {
            reveal(Key::round1);
        }
        WiredProof {
            inp,
            l: r1.l,
            r: r1.r,
            o: r1.o,
            gamma: r1.gamma,
            beta: r1.beta,
            transcript: r1.transcript,
        }
    }

    /// Round 2 with a grand product and the commitment to it from a device. The product is
    /// taken as it is: whether the copies hold is not looked at.
    pub fn continue_with_product(&self, s: WiredProof, rows: Vec<Fr>, z: BN254G1Affine) -> (res:
        StartedProof)
        requires
            self.wf(),
            s.is(self.key()),
            fields::all_wf(rows@),
            rows@.len() == self.key().circuit.n(),
            z.wf(),
        ensures
            res.is(self.key()),
            res.inp@ == s.inp@.with_product(fields::vals(rows@), z@),
    {
        let ghost before = s.inp@;
        let copy = vstd::slice::slice_to_vec(rows.as_slice());
        let ghost rv = fields::vals(rows@);
        let mut inp = s.inp;
        inp.device.product = Some(rows);
        inp.device.z = Some(z);
        proof {
            assert(inp@ == before.with_product(rv, z@));
            assert(fields::vals(copy@) =~= rv);
            lemma_before_product(self.key(), before, inp@);
        }
        let r2 = self.derive_alpha(&inp, s.transcript, copy, z);
        let wit = self.witness_polys(&inp, r2.z_rows.as_slice());
        StartedProof {
            inp,
            l: s.l,
            r: s.r,
            o: s.o,
            z: r2.z,
            gamma: s.gamma,
            beta: s.beta,
            alpha: r2.alpha,
            z_rows: r2.z_rows,
            wit,
            transcript: r2.transcript,
        }
    }

    /// Rounds 1 and 2 without a device, unless a row has a zero denominator under the
    /// challenges of round 1.
    pub fn begin(
        &self,
        l: &[BN254Fr],
        r: &[BN254Fr],
        o: &[BN254Fr],
        public_inputs: &[BN254Fr],
        bsb22_commitments: &[BN254G1Affine],
        bsb22_polys: &[Vec<BN254Fr>],
        seed: Option<[u8; 32]>,
    ) -> (res: Option<Result<StartedProof, ProveError>>)
        requires
            self.wf(),
            prover::inputs_fit(
                self.key(),
                l@,
                r@,
                o@,
                public_inputs@,
                bsb22_commitments@,
                bsb22_polys@,
            ),
            prover::can_prove(self.key(), seed is Some),
        ensures
            ({
                let inp = prover::given_inputs(
                    self.key(),
                    l@,
                    r@,
                    o@,
                    public_inputs@,
                    bsb22_commitments@,
                    bsb22_polys@,
                    seed,
                );
                match res {
                    None => !self.key().permutation(inp).invertible(),
                    Some(Ok(s)) => {
                        &&& self.key().permutation(inp).invertible()
                        &&& self.key().permutation(inp).satisfied()
                        &&& s.inp@ == inp
                        &&& s.is(self.key())
                    },
                    Some(Err(ProveError::GrandProduct)) => {
                        &&& self.key().permutation(inp).invertible()
                        &&& !self.key().permutation(inp).satisfied()
                    },
                }
            }),
    {
        let inp = self.read_inputs(
            l,
            r,
            o,
            public_inputs,
            bsb22_commitments,
            bsb22_polys,
            seed,
        );
        let r1 = self.round1(&inp);
        if !self.check_denominators(&inp, &r1) {
            return None;
        }
        let (l, r, o) = (r1.l, r1.r, r1.o);
        let (gamma, beta) = (r1.gamma, r1.beta);
        let r2 = match self.round2(&inp, r1) {
            Ok(r2) => r2,
            Err(e) => {
                return Some(Err(e));
            },
        };
        let wit = self.witness_polys(&inp, r2.z_rows.as_slice());
        Some(
            Ok(
                StartedProof {
                    inp,
                    l,
                    r,
                    o,
                    z: r2.z,
                    gamma,
                    beta,
                    alpha: r2.alpha,
                    z_rows: r2.z_rows,
                    wit,
                    transcript: r2.transcript,
                },
            ),
        )
    }

    /// The quotient of a proof, computed without a device.
    pub fn quotient_on_host(&self, s: &StartedProof) -> (h: Vec<Fr>)
        requires
            self.wf(),
            s.is(self.key()),
        ensures
            fields::all_wf(h@),
            h@.len() == self.key().circuit.big_n(),
            fields::vals(h@) == self.key().quotient(s.inp@),
    {
        self.quotient_of(&s.inp, &s.wit, &s.gamma, &s.beta, &s.alpha)
    }

    /// Rounds 3 and 4 and the fold challenge with a quotient. The commitments to its parts
    /// are made here.
    pub fn continue_with_quotient(&self, s: StartedProof, h: Vec<Fr>) -> (res: OpenedProof)
        requires
            self.wf(),
            s.is(self.key()),
            fields::all_wf(h@),
            h@.len() >= 3 * (self.key().circuit.n() + 2),
        ensures
            res.is(self.key()),
            res.inp@ == s.inp@.with_quotient(fields::vals(h@)),
    {
        let ghost before = s.inp@;
        let ghost hv = fields::vals(h@);
        let mut s = s;
        s.inp.device.quotient = Some(h);
        proof {
            assert(s.inp@ == before.with_quotient(hv));
            lemma_same_start(self.key(), before, s.inp@);
        }
        let parts = self.commit_parts(&s.inp, held(&s.inp.device.quotient));
        self.open(s, parts)
    }

    /// The same with commitments to the parts of the quotient from a device.
    pub fn continue_with_parts(&self, s: StartedProof, h: Vec<Fr>, parts: [BN254G1Affine; 3]) -> (res:
        OpenedProof)
        requires
            self.wf(),
            s.is(self.key()),
            fields::all_wf(h@),
            h@.len() >= 3 * (self.key().circuit.n() + 2),
            circuit::bn_points_wf(parts@),
        ensures
            res.is(self.key()),
            res.inp@ == s.inp@.with_quotient(fields::vals(h@)).with_parts(
                prover::three_points(parts),
            ),
            res.points.h0@ == parts[0]@,
            res.points.h1@ == parts[1]@,
            res.points.h2@ == parts[2]@,
    {
        let ghost before = s.inp@;
        let ghost hv = fields::vals(h@);
        let mut s = s;
        s.inp.device.quotient = Some(h);
        s.inp.device.parts = Some(parts);
        proof {
            assert(s.inp@ == before.with_quotient(hv).with_parts(prover::three_points(parts)));
            lemma_same_start(self.key(), before, s.inp@);
            reveal(Key::round3);
        }
        self.open(s, parts)
    }

    /// Rounds 3 and 4 and the fold challenge with a quotient and the commitments to its
    /// parts.
    fn open(&self, s: StartedProof, parts: [BN254G1Affine; 3]) -> (res: OpenedProof)
        requires
            self.wf(),
            s.inp.device.quotient is Some,
            OpenedProof::clear(s.inp.device),
            s.inp.fits(self.key()),
            prover::can_prove(self.key(), s.inp.blinding is Some),
            s.l.wf(),
            s.r.wf(),
            s.o.wf(),
            s.z.wf(),
            s.l@ == self.key().round1(s.inp@).l,
            s.r@ == self.key().round1(s.inp@).r,
            s.o@ == self.key().round1(s.inp@).o,
            s.z@ == self.key().round2(s.inp@).z,
            s.gamma.wf(),
            s.beta.wf(),
            s.alpha.wf(),
            s.gamma@ == self.key().round1(s.inp@).gamma,
            s.beta@ == self.key().round1(s.inp@).beta,
            s.alpha@ == self.key().round2(s.inp@).alpha,
            s.wit.fits(self.key().circuit.n(), s.inp.blinding is Some),
            s.wit@ == self.key().witness(s.inp@),
            s.transcript.wf(),
            s.transcript@ == self.key().round2(s.inp@).transcript,
            s.transcript@.pending == rounds::challenge_names().skip(3),
            circuit::bn_points_wf(parts@),
            prover::three_points(parts) == self.key().parts(s.inp@),
        ensures
            res.is(self.key()),
            res.inp == s.inp,
    {
        let p = self.derive_zeta(&s.inp, parts, s.transcript);
        let points = ProofPoints { l: s.l, r: s.r, o: s.o, z: s.z, h0: p.h0, h1: p.h1, h2: p.h2 };
        let ch = ProofChallenges { gamma: s.gamma, beta: s.beta, alpha: s.alpha, zeta: p.zeta };
        assert(self.key().round3(s.inp@).h == fields::vals(s.inp.device.quotient->0@)) by {
            reveal(Key::round3);
        }
        let r4 = self.round4(&s.inp, &s.wit, held(&s.inp.device.quotient), &ch);
        let start = self.start_fold(&s.inp, &ch, &points, &r4);
        OpenedProof { inp: s.inp, wit: s.wit, points, ch, r4, start }
    }

    /// The polynomials that are opened together, and the scalars that they are combined
    /// with.
    pub fn terms_to_combine<'a>(&'a self, s: &'a OpenedProof) -> (res: (Vec<&'a [Fr]>, Vec<Fr>))
        requires
            self.wf(),
            s.is(self.key()),
        ensures
            res.0@.len() == res.1@.len(),
            proving::slices_wf(res.0@),
            fields::all_wf(res.1@),
            polynomial::slice_vals(res.0@) == self.key().fold_polys(s.inp@),
            fields::vals(res.1@) == self.key().fold_scalars(s.inp@),
    {
        assert(self.key().round3(s.inp@).h == fields::vals(s.inp.device.quotient->0@)) by {
            reveal(Key::round3);
        }
        let powers = circuit::power_table(&s.start.gamma_fold, s.start.claimed.len());
        assert(fields::vals(powers@).len() == s.start.claimed@.len());
        self.fold_terms(
            &s.inp,
            &s.wit,
            held(&s.inp.device.quotient),
            &s.ch,
            &s.r4,
            powers.as_slice(),
        )
    }

    /// The combination, computed without a device.
    pub fn combination_on_host(&self, s: &OpenedProof) -> (p: Vec<Fr>)
        requires
            self.wf(),
            s.is(self.key()),
        ensures
            fields::all_wf(p@),
            fields::vals(p@) == self.key().combination(s.inp@),
            1 <= p@.len() <= self.key().circuit.n() + prover::srs_excess(s.inp.blinding is Some),
    {
        assert(self.key().round3(s.inp@).h == fields::vals(s.inp.device.quotient->0@)) by {
            reveal(Key::round3);
        }
        self.combine_terms(
            &s.inp,
            &s.wit,
            held(&s.inp.device.quotient),
            &s.ch,
            &s.r4,
            &s.start,
        )
    }

    /// The quotients of both openings with a combination.
    pub fn divide_with_combination(&self, s: OpenedProof, combination: Vec<Fr>) -> (res:
        DividedProof)
        requires
            self.wf(),
            s.is(self.key()),
            fields::all_wf(combination@),
            1 <= combination@.len() <= self.key().circuit.n() + prover::srs_excess(
                s.inp.blinding is Some,
            ),
        ensures
            res.is(self.key()),
            res.inp@ == s.inp@.with_combination(fields::vals(combination@)),
    {
        let ghost before = s.inp@;
        let ghost pv = fields::vals(combination@);
        let copy = vstd::slice::slice_to_vec(combination.as_slice());
        let mut inp = s.inp;
        inp.device.combination = Some(combination);
        proof {
            assert(inp@ == before.with_combination(pv));
            assert(fields::vals(copy@) =~= pv);
            lemma_same_opening(self.key(), before, inp@);
        }
        let quotients = self.divide_openings(&inp, &s.wit, &s.ch, &s.r4, &s.start, copy);
        DividedProof { inp, points: s.points, r4: s.r4, start: s.start, quotients }
    }

    /// The proof. The commitments to the quotients of the openings are made here.
    pub fn finish_on_host(&self, s: DividedProof) -> (res: PlonkProof)
        requires
            self.wf(),
            s.is(self.key()),
        ensures
            proving::is_proof(self.key(), s.inp@, res),
    {
        let openings = self.commit_openings(&s.inp, &s.quotients);
        let r5 = self.end_fold(&s.inp, s.start, openings);
        self.assemble(s.inp, &s.points, &s.r4, &r5)
    }

    /// The proof with commitments to the quotients of the openings from a device.
    pub fn finish_with_openings(&self, s: DividedProof, openings: [BN254G1Affine; 2]) -> (res:
        PlonkProof)
        requires
            self.wf(),
            s.is(self.key()),
            circuit::bn_points_wf(openings@),
        ensures
            proving::is_proof(
                self.key(),
                s.inp@.with_openings((openings[0]@, openings[1]@)),
                res,
            ),
            res.batched_proof.h@ == openings[0]@,
            res.z_shifted_opening.h@ == openings[1]@,
    {
        let ghost before = s.inp@;
        let mut inp = s.inp;
        inp.device.openings = Some(openings);
        proof {
            assert(inp@ == before.with_openings((openings[0]@, openings[1]@)));
            lemma_same_opening(self.key(), before, inp@);
            lemma_before_openings(self.key(), before, inp@);
            reveal(Key::round5);
        }
        let r5 = self.end_fold(&inp, s.start, openings);
        self.assemble(inp, &s.points, &s.r4, &r5)
    }
}

} // verus!
