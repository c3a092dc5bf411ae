//! The verifier: what it computes from a verifying key, the public inputs and a proof,
//! and that it accepts what the prover makes.
use crate::acceptance;
use crate::bytes;
use crate::circuit::Circuit;
use crate::completeness;
use crate::copy_constraints;
use crate::fields;
use crate::g1;
use crate::g1::Point;
use crate::linearization;
use crate::linearization::Openings;
use crate::openings;
use crate::polynomial;
use crate::quotient;
use crate::quotient::Challenges;
use crate::rounds;
use crate::rounds::{Inputs, Key, ProofView, VkPoints};
use crate::staged;
use crate::transcript::TranscriptState;
use vstd::prelude::*;

verus! {

/// What a verifier knows of a circuit: its domain, its commitments and the rows of its
/// public inputs.
pub struct VerifyingKey {
    /// The logarithm of the size of the domain.
    pub bits: nat,
    /// The generator of the domain.
    pub w: int,
    /// The shift of the coset.
    pub shift: int,
    pub points: VkPoints,
    pub nb_pub: nat,
    pub indexes: Seq<usize>,
}

/// The challenges up to the openings.
pub struct Derived {
    pub challenges: Challenges,
    pub zeta: int,
}

/// The values at zeta, and that of the grand product at omega times zeta, as a proof
/// claims them.
pub open spec fn claimed_openings(p: ProofView) -> Openings {
    Openings {
        l: p.claimed[1],
        r: p.claimed[2],
        o: p.claimed[3],
        s1: p.claimed[4],
        s2: p.claimed[5],
        zw: p.z_shifted,
    }
}

impl VerifyingKey {
    /// What the prover's key holds for a verifier.
    pub open spec fn of(key: Key) -> Self {
        VerifyingKey {
            bits: key.circuit.bits,
            w: key.circuit.w,
            shift: key.circuit.shift,
            points: key.vk,
            nb_pub: key.nb_pub,
            indexes: key.indexes,
        }
    }

    /// A circuit with the domain alone.
    pub open spec fn frame(self) -> Circuit {
        Circuit {
            bits: self.bits,
            w: self.w,
            w4: 0,
            shift: self.shift,
            ql: seq![],
            qr: seq![],
            qm: seq![],
            qo: seq![],
            qk: seq![],
            s1: seq![],
            s2: seq![],
            s3: seq![],
            qcp: seq![],
        }
    }

    /// The transcript that gamma comes from.
    #[verifier::opaque]
    pub open spec fn wire_transcript(self, pi: Seq<int>, p: ProofView) -> TranscriptState {
        let t = rounds::bind_points(
            TranscriptState::start(rounds::challenge_names()),
            self.points.in_order(),
        );
        rounds::bind_scalars(t, pi).bind(crate::encode_point(p.lro[0])).bind(
            crate::encode_point(p.lro[1]),
        ).bind(crate::encode_point(p.lro[2]))
    }

    /// The transcript that alpha comes from.
    #[verifier::opaque]
    pub open spec fn product_transcript(self, pi: Seq<int>, p: ProofView) -> TranscriptState {
        let t = self.wire_transcript(pi, p).advance().advance();
        rounds::bind_points(t, p.bsb22).bind(crate::encode_point(p.z))
    }

    /// The transcript that zeta comes from.
    #[verifier::opaque]
    pub open spec fn quotient_transcript(self, pi: Seq<int>, p: ProofView) -> TranscriptState {
        self.product_transcript(pi, p).advance().bind(crate::encode_point(p.h[0])).bind(
            crate::encode_point(p.h[1]),
        ).bind(crate::encode_point(p.h[2]))
    }

    /// The challenges, from the transcript of the key, the public inputs and the
    /// commitments of the proof.
    #[verifier::opaque]
    pub open spec fn derived(self, pi: Seq<int>, p: ProofView) -> Derived {
        let t = self.wire_transcript(pi, p);
        Derived {
            challenges: Challenges {
                alpha: rounds::challenge_value(self.product_transcript(pi, p).next()),
                beta: rounds::challenge_value(t.advance().next()),
                gamma: rounds::challenge_value(t.next()),
            },
            zeta: rounds::challenge_value(self.quotient_transcript(pi, p).next()),
        }
    }

    /// The value of the public input polynomial at zeta.
    #[verifier::opaque]
    pub open spec fn pi_value(self, pi: Seq<int>, p: ProofView) -> int {
        let c = self.frame();
        linearization::lagrange_sum(
            c,
            Seq::new(
                c.n(),
                |i: int| quotient::public_value(pi, self.nb_pub, p.bsb22, self.indexes, i),
            ),
            self.derived(pi, p).zeta,
            c.n(),
        )
    }

    /// The commitment to the linearised polynomial.
    #[verifier::opaque]
    pub open spec fn lin_commitment(self, pi: Seq<int>, p: ProofView) -> Point {
        let d = self.derived(pi, p);
        let m = quotient::shorter(self.points.qcp.len(), p.bsb22.len()) as int;
        g1::as_affine(
            g1::point_msm(
                seq![
                    self.points.ql,
                    self.points.qr,
                    self.points.qm,
                    self.points.qo,
                    self.points.qk,
                    self.points.s3,
                    p.z,
                    p.h[0],
                    p.h[1],
                    p.h[2],
                ] + p.bsb22.take(m),
                self.frame().lin_scalars(d.challenges, d.zeta, claimed_openings(p))
                    + p.claimed.skip(6).take(m),
            ),
        )
    }

    /// The commitments that are opened at zeta.
    pub open spec fn digests(self, pi: Seq<int>, p: ProofView) -> Seq<Point> {
        seq![
            self.lin_commitment(pi, p),
            p.lro[0],
            p.lro[1],
            p.lro[2],
            self.points.s1,
            self.points.s2,
        ] + self.points.qcp
    }

    /// The fold challenge.
    pub open spec fn gamma_fold(self, pi: Seq<int>, p: ProofView) -> int {
        let t0 = TranscriptState::start(seq!["gamma"@]).bind(
            bytes::be_bytes(self.derived(pi, p).zeta, 32),
        );
        rounds::challenge_value(
            rounds::bind_scalars(
                rounds::bind_points(t0, self.digests(pi, p)),
                p.claimed,
            ).bind(bytes::be_bytes(p.z_shifted, 32)).next(),
        )
    }

    /// The proof is accepted. With the secret `tau` of the reference string the two
    /// openings are checked without a pairing.
    pub open spec fn accepts(self, pi: Seq<int>, p: ProofView, tau: int, g: Point) -> bool {
        let d = self.derived(pi, p);
        let powers = linearization::field_powers(self.gamma_fold(pi, p), p.claimed.len());
        &&& p.lro.len() == 3
        &&& p.h.len() == 3
        &&& p.claimed.len() == 6 + self.points.qcp.len()
        &&& p.claimed[0] == linearization::verifier_value(
            self.frame(),
            d.challenges,
            d.zeta,
            self.pi_value(pi, p),
            claimed_openings(p),
        )
        &&& acceptance::opens(
            g1::point_msm(self.digests(pi, p), powers),
            linearization::dot(powers, p.claimed),
            d.zeta,
            p.batch_h,
            tau,
            g,
        )
        &&& acceptance::opens(
            p.z,
            p.z_shifted,
            fields::fmul(d.zeta, self.w),
            p.z_shifted_h,
            tau,
            g,
        )
    }
}

/// The value of the public input polynomial depends on the domain alone.
proof fn lemma_lagrange_sum_frame(c: Circuit, d: Circuit, evals: Seq<int>, x: int, n: nat)
    requires
        c.bits == d.bits,
        c.w == d.w,
    ensures
        linearization::lagrange_sum(c, evals, x, n) == linearization::lagrange_sum(d, evals, x, n),
    decreases n,
{
    if n > 0 {
        lemma_lagrange_sum_frame(c, d, evals, x, (n - 1) as nat);
        assert(linearization::lagrange_term(c, evals[n - 1], x, n - 1)
            == linearization::lagrange_term(d, evals[n - 1], x, n - 1));
    }
}

/// Prover and verifier derive the same challenges.
pub proof fn law_challenges_agree(key: Key, inp: Inputs)
    ensures
        VerifyingKey::of(key).derived(inp.pi, key.honest_proof(inp)) == (Derived {
            challenges: key.challenges(inp),
            zeta: key.round3(inp).zeta,
        }),
{
    let vk = VerifyingKey::of(key);
    let p = key.honest_proof(inp);
    let (r1, r2, r3) = (key.round1(inp), key.round2(inp), key.round3(inp));
    let t1 = vk.wire_transcript(inp.pi, p);
    let t2 = vk.product_transcript(inp.pi, p);
    let t3 = vk.quotient_transcript(inp.pi, p);
    assert(r1.gamma == rounds::challenge_value(t1.next()) && r1.beta == rounds::challenge_value(
        t1.advance().next(),
    ) && r1.transcript == t1.advance().advance()) by {
        reveal(VerifyingKey::wire_transcript);
        reveal(Key::round1);
    }
    assert(r2.alpha == rounds::challenge_value(t2.next()) && r2.transcript == t2.advance()) by {
        reveal(VerifyingKey::product_transcript);
        reveal(Key::round2);
    }
    assert(r3.zeta == rounds::challenge_value(t3.next())) by {
        reveal(VerifyingKey::quotient_transcript);
        reveal(Key::round3);
    }
    reveal(VerifyingKey::derived);
}

/// The values that a proof claims are the openings, and the rest of them the values of
/// the BSB22 selectors.
proof fn lemma_claimed(key: Key, inp: Inputs)
    ensures
        claimed_openings(key.honest_proof(inp)) == key.round4(inp).openings,
        key.claimed(inp).skip(6) == key.round4(inp).qcp,
        key.claimed(inp).len() == 6 + key.circuit.qcp.len(),
{
    reveal(Key::claimed);
    assert(key.round4(inp).qcp.len() == key.circuit.qcp.len()) by {
        reveal(Key::round4);
    }
    assert(key.claimed(inp).skip(6) =~= key.round4(inp).qcp);
}

/// Prover and verifier fold the same commitments by the same challenge.
pub proof fn law_folds_agree(key: Key, inp: Inputs)
    requires
        key.vk.qcp.len() == key.circuit.qcp.len(),
    ensures
        ({
            let vk = VerifyingKey::of(key);
            let p = key.honest_proof(inp);
            &&& vk.digests(inp.pi, p) == key.digests(inp)
            &&& vk.gamma_fold(inp.pi, p) == key.gamma_fold(inp)
        }),
{
    let vk = VerifyingKey::of(key);
    let p = key.honest_proof(inp);
    law_challenges_agree(key, inp);
    lemma_claimed(key, inp);
    assert(vk.lin_commitment(inp.pi, p) == key.lin_commitment(inp)) by {
        reveal(VerifyingKey::lin_commitment);
        reveal(Key::lin_commitment);
        reveal(Key::lin_scalars);
    }
    assert(vk.digests(inp.pi, p) == key.digests(inp)) by {
        reveal(Key::digests);
    }
    reveal(Key::fold_transcript);
}

/// The proof of a witness is accepted by a verifier that sees the verifying key, the
/// public inputs and the proof: where the gates and the copy constraints hold and the
/// reference string belongs to a secret, every check passes, whatever the blinding is.
/// It takes that no denominator of the grand product is zero and that zeta is no root of
/// unity of the domain.
pub proof fn law_verifier_accepts(key: Key, inp: Inputs, tau: int, g: Point)
    requires
        key.circuit.wf(),
        key.circuit.n() >= 6,
        key.circuit.shift != 0,
        key.circuit.w == fields::fpow(key.circuit.w4, 4),
        acceptance::set_up(key, tau, g),
        acceptance::given(key, inp, tau, g),
        completeness::gates_hold(key, inp),
        key.permutation(inp).copies_hold(),
        key.permutation(inp).invertible(),
        key.circuit.zh(key.round3(inp).zeta) != 0,
    ensures
        VerifyingKey::of(key).accepts(inp.pi, key.honest_proof(inp), tau, g),
{
    let vk = VerifyingKey::of(key);
    let p = key.honest_proof(inp);
    let c = key.circuit;
    copy_constraints::law_witness_is_accepted(key, inp, tau, g);
    law_challenges_agree(key, inp);
    lemma_claimed(key, inp);
    law_folds_agree(key, inp);
    assert(vk.pi_value(inp.pi, p) == linearization::lagrange_sum(
        c,
        key.pi_rows(inp),
        key.round3(inp).zeta,
        c.n(),
    )) by {
        reveal(VerifyingKey::pi_value);
        assert(Seq::new(
            c.n(),
            |i: int| quotient::public_value(inp.pi, vk.nb_pub, p.bsb22, vk.indexes, i),
        ) =~= key.pi_rows(inp));
        lemma_lagrange_sum_frame(
            c,
            vk.frame(),
            key.pi_rows(inp),
            key.round3(inp).zeta,
            c.n(),
        );
    }
}

/// The proof of a witness is accepted also where a device has computed the quotient or the
/// combination of what is opened, if the device is right.
pub proof fn law_device_proof_is_accepted(key: Key, inp: Inputs, tau: int, g: Point)
    requires
        key.circuit.wf(),
        key.circuit.n() >= 6,
        key.circuit.shift != 0,
        key.circuit.w == fields::fpow(key.circuit.w4, 4),
        acceptance::set_up(key, tau, g),
        acceptance::given(key, inp.without_device(), tau, g),
        completeness::gates_hold(key, inp.without_device()),
        key.permutation(inp.without_device()).copies_hold(),
        key.permutation(inp.without_device()).invertible(),
        key.circuit.zh(key.round3(inp.without_device()).zeta) != 0,
        staged::device_is_right(key, inp),
    ensures
        VerifyingKey::of(key).accepts(inp.pi, key.honest_proof(inp), tau, g),
{
    staged::law_device_proof(key, inp);
    law_verifier_accepts(key, inp.without_device(), tau, g);
}

/// The value of the public input polynomial that a verifier computes from the rows one by
/// one is the value at zeta of the polynomial through those rows, which the prover uses.
pub proof fn law_public_value_at_zeta(key: Key, inp: Inputs)
    requires
        key.circuit.wf(),
        key.circuit.n() >= 3,
        completeness::well_sized(key, inp),
        key.circuit.zh(key.round3(inp).zeta) != 0,
    ensures
        VerifyingKey::of(key).pi_value(inp.pi, key.honest_proof(inp)) == polynomial::feval(
            key.witness(inp).pi,
            key.round3(inp).zeta,
        ),
{
    let vk = VerifyingKey::of(key);
    let p = key.honest_proof(inp);
    let c = key.circuit;
    let zeta = key.round3(inp).zeta;
    law_challenges_agree(key, inp);
    reveal(VerifyingKey::pi_value);
    assert(Seq::new(
        c.n(),
        |i: int| quotient::public_value(inp.pi, vk.nb_pub, p.bsb22, vk.indexes, i),
    ) =~= key.pi_rows(inp));
    lemma_lagrange_sum_frame(c, vk.frame(), key.pi_rows(inp), zeta, c.n());
    assert(0 <= zeta < fields::fr_modulus()) by {
        reveal(Key::round3);
        fields::lemma_fr_modulus();
        let r3 = key.round3(inp);
        let t = key.round2(inp).transcript.bind(crate::encode_point(r3.h0)).bind(
            crate::encode_point(r3.h1),
        ).bind(crate::encode_point(r3.h2));
        vstd::arithmetic::div_mod::lemma_mod_bound(
            bytes::be_value(t.next()),
            fields::fr_modulus(),
        );
    }
    openings::law_lagrange_interpolation(c, key.pi_rows(inp), zeta);
    reveal(Key::witness);
}

} // verus!
