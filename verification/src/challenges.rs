//! What each challenge of a proof depends on, byte by byte.

use crate::bytes;
use crate::fields;
use crate::g1;
use crate::g1::Point;
use crate::linearization;
use crate::rounds;
use crate::rounds::{Inputs, Key, ProofView, VkPoints};
use crate::sha256;
use crate::text;
use crate::transcript;
use crate::transcript::TranscriptState;
use crate::verifying;
use crate::verifying::VerifyingKey;
use vstd::prelude::*;

verus! {

/// From `at` on stand the 64 bytes of each point, in order.
pub open spec fn points_at(x: Seq<u8>, at: int, points: Seq<Point>) -> bool {
    &&& 0 <= at
    &&& at + 64 * points.len() <= x.len()
    &&& forall|i: int|
        0 <= i < points.len() ==> x.subrange(at + 64 * i, at + 64 * i + 64)
            == crate::encode_point(#[trigger] points[i])
}

/// From `at` on stand the 32 big-endian bytes of each scalar, in order.
pub open spec fn scalars_at(x: Seq<u8>, at: int, scalars: Seq<int>) -> bool {
    &&& 0 <= at
    &&& at + 32 * scalars.len() <= x.len()
    &&& forall|i: int|
        0 <= i < scalars.len() ==> x.subrange(at + 32 * i, at + 32 * i + 32) == bytes::be_bytes(
            #[trigger] scalars[i],
            32,
        )
}

/// The bytes behind gamma: its name, the commitments of the verifying key, the public
/// inputs, and the commitments to the three wires.
pub open spec fn is_gamma_input(
    x: Seq<u8>,
    vk: VkPoints,
    pi: Seq<int>,
    l: Point,
    r: Point,
    o: Point,
) -> bool {
    let at = 517 + 64 * vk.qcp.len() as int;
    let end = at + 32 * pi.len();
    &&& x.len() == end + 192
    &&& x.subrange(0, 5) == text::utf8("gamma"@)
    &&& x.subrange(5, 69) == crate::encode_point(vk.s1)
    &&& x.subrange(69, 133) == crate::encode_point(vk.s2)
    &&& x.subrange(133, 197) == crate::encode_point(vk.s3)
    &&& x.subrange(197, 261) == crate::encode_point(vk.ql)
    &&& x.subrange(261, 325) == crate::encode_point(vk.qr)
    &&& x.subrange(325, 389) == crate::encode_point(vk.qm)
    &&& x.subrange(389, 453) == crate::encode_point(vk.qo)
    &&& x.subrange(453, 517) == crate::encode_point(vk.qk)
    &&& points_at(x, 517, vk.qcp)
    &&& scalars_at(x, at, pi)
    &&& x.subrange(end, end + 64) == crate::encode_point(l)
    &&& x.subrange(end + 64, end + 128) == crate::encode_point(r)
    &&& x.subrange(end + 128, end + 192) == crate::encode_point(o)
}

/// The bytes behind beta: its name and the digest that gamma comes from.
pub open spec fn is_beta_input(x: Seq<u8>, previous: Seq<u8>) -> bool {
    &&& x.len() == 4 + previous.len()
    &&& x.subrange(0, 4) == text::utf8("beta"@)
    &&& x.skip(4) == previous
}

/// The bytes behind alpha: its name, the digest that beta comes from, the BSB22
/// commitments and the commitment to the grand product.
pub open spec fn is_alpha_input(
    x: Seq<u8>,
    previous: Seq<u8>,
    commitments: Seq<Point>,
    z: Point,
) -> bool {
    let at = 5 + previous.len() as int;
    let end = at + 64 * commitments.len();
    &&& x.len() == end + 64
    &&& x.subrange(0, 5) == text::utf8("alpha"@)
    &&& x.subrange(5, at) == previous
    &&& points_at(x, at, commitments)
    &&& x.subrange(end, end + 64) == crate::encode_point(z)
}

/// The bytes behind zeta: its name, the digest that alpha comes from, and the commitments
/// to the three parts of the quotient.
pub open spec fn is_zeta_input(
    x: Seq<u8>,
    previous: Seq<u8>,
    h0: Point,
    h1: Point,
    h2: Point,
) -> bool {
    let at = 4 + previous.len() as int;
    &&& x.len() == at + 192
    &&& x.subrange(0, 4) == text::utf8("zeta"@)
    &&& x.subrange(4, at) == previous
    &&& x.subrange(at, at + 64) == crate::encode_point(h0)
    &&& x.subrange(at + 64, at + 128) == crate::encode_point(h1)
    &&& x.subrange(at + 128, at + 192) == crate::encode_point(h2)
}

/// The bytes behind the fold challenge: the name gamma, zeta, the commitments that are
/// opened, the values that are claimed, and the value of the grand product one row
/// further.
pub open spec fn is_fold_input(
    x: Seq<u8>,
    zeta: int,
    digests: Seq<Point>,
    claimed: Seq<int>,
    zw: int,
) -> bool {
    let at = 37 + 64 * digests.len() as int;
    let end = at + 32 * claimed.len();
    &&& x.len() == end + 32
    &&& x.subrange(0, 5) == text::utf8("gamma"@)
    &&& x.subrange(5, 37) == bytes::be_bytes(zeta, 32)
    &&& points_at(x, 37, digests)
    &&& scalars_at(x, at, claimed)
    &&& x.subrange(end, end + 32) == bytes::be_bytes(zw, 32)
}

proof fn lemma_encode_len(p: Point)
    ensures
        crate::encode_point(p).len() == 64,
{
    match p {
        Point::Infinity => {
            bytes::lemma_be_bytes_len(0, 32);
        },
        Point::At { x, y } => {
            bytes::lemma_be_bytes_len(x, 32);
            bytes::lemma_be_bytes_len(y, 32);
        },
    }
}

/// Binding points appends the bytes of each.
proof fn lemma_bind_points(t: TranscriptState, s: Seq<Point>)
    ensures
        ({
            let u = rounds::bind_points(t, s);
            &&& u.pending == t.pending
            &&& u.previous == t.previous
            &&& u.bound.len() == t.bound.len() + 64 * s.len()
            &&& u.bound.take(t.bound.len() as int) == t.bound
            &&& points_at(u.bound, t.bound.len() as int, s)
        }),
    decreases s.len(),
{
    let n = t.bound.len() as int;
    if s.len() > 0 {
        let rest = s.drop_last();
        lemma_bind_points(t, rest);
        lemma_encode_len(s.last());
        let v = rounds::bind_points(t, rest);
        let u = rounds::bind_points(t, s);
        assert(u.bound.take(n) =~= v.bound.take(n));
        assert forall|i: int| 0 <= i < s.len() implies u.bound.subrange(n + 64 * i, n + 64 * i + 64)
            == crate::encode_point(#[trigger] s[i]) by {
            if i < rest.len() {
                assert(rest[i] == s[i]);
                assert(u.bound.subrange(n + 64 * i, n + 64 * i + 64) =~= v.bound.subrange(
                    n + 64 * i,
                    n + 64 * i + 64,
                ));
            } else {
                assert(u.bound.subrange(n + 64 * i, n + 64 * i + 64) =~= crate::encode_point(s[i]));
            }
        }
    } else {
        assert(t.bound.take(n) =~= t.bound);
    }
}

/// Binding scalars appends the bytes of each.
proof fn lemma_bind_scalars(t: TranscriptState, s: Seq<int>)
    ensures
        ({
            let u = rounds::bind_scalars(t, s);
            &&& u.pending == t.pending
            &&& u.previous == t.previous
            &&& u.bound.len() == t.bound.len() + 32 * s.len()
            &&& u.bound.take(t.bound.len() as int) == t.bound
            &&& scalars_at(u.bound, t.bound.len() as int, s)
        }),
    decreases s.len(),
{
    let n = t.bound.len() as int;
    if s.len() > 0 {
        let rest = s.drop_last();
        lemma_bind_scalars(t, rest);
        bytes::lemma_be_bytes_len(s.last(), 32);
        let v = rounds::bind_scalars(t, rest);
        let u = rounds::bind_scalars(t, s);
        assert(u.bound.take(n) =~= v.bound.take(n));
        assert forall|i: int| 0 <= i < s.len() implies u.bound.subrange(n + 32 * i, n + 32 * i + 32)
            == bytes::be_bytes(#[trigger] s[i], 32) by {
            if i < rest.len() {
                assert(rest[i] == s[i]);
                assert(u.bound.subrange(n + 32 * i, n + 32 * i + 32) =~= v.bound.subrange(
                    n + 32 * i,
                    n + 32 * i + 32,
                ));
            } else {
                assert(u.bound.subrange(n + 32 * i, n + 32 * i + 32) =~= bytes::be_bytes(s[i], 32));
            }
        }
    } else {
        assert(t.bound.take(n) =~= t.bound);
    }
}

/// Points stand in a longer byte string where they stand in a part of it.
proof fn lemma_points_move(x: Seq<u8>, part: Seq<u8>, from: int, at: int, points: Seq<Point>)
    requires
        0 <= from,
        from + part.len() <= x.len(),
        x.subrange(from, from + part.len()) == part,
        points_at(part, at, points),
    ensures
        points_at(x, from + at, points),
{
    assert forall|i: int| 0 <= i < points.len() implies x.subrange(
        from + at + 64 * i,
        from + at + 64 * i + 64,
    ) == crate::encode_point(#[trigger] points[i]) by {
        assert(x.subrange(from + at + 64 * i, from + at + 64 * i + 64) =~= part.subrange(
            at + 64 * i,
            at + 64 * i + 64,
        ));
    }
}

/// Scalars stand in a longer byte string where they stand in a part of it.
proof fn lemma_scalars_move(x: Seq<u8>, part: Seq<u8>, from: int, at: int, scalars: Seq<int>)
    requires
        0 <= from,
        from + part.len() <= x.len(),
        x.subrange(from, from + part.len()) == part,
        scalars_at(part, at, scalars),
    ensures
        scalars_at(x, from + at, scalars),
{
    assert forall|i: int| 0 <= i < scalars.len() implies x.subrange(
        from + at + 32 * i,
        from + at + 32 * i + 32,
    ) == bytes::be_bytes(#[trigger] scalars[i], 32) by {
        assert(x.subrange(from + at + 32 * i, from + at + 32 * i + 32) =~= part.subrange(
            at + 32 * i,
            at + 32 * i + 32,
        ));
    }
}

/// The bytes that are bound to gamma stand behind its name.
proof fn lemma_gamma_input(
    x: Seq<u8>,
    t: TranscriptState,
    vk: VkPoints,
    pi: Seq<int>,
    l: Point,
    r: Point,
    o: Point,
)
    requires
        t == rounds::bind_scalars(
            rounds::bind_points(
                TranscriptState::start(rounds::challenge_names()),
                vk.in_order(),
            ),
            pi,
        ).bind(crate::encode_point(l)).bind(crate::encode_point(r)).bind(crate::encode_point(o)),
        transcript::is_challenge_input(x, "gamma"@, t.previous, t.bound),
    ensures
        is_gamma_input(x, vk, pi, l, r, o),
{
    reveal_strlit("gamma");
    vstd::utf8::is_ascii_chars_encode_utf8("gamma"@);
    let t0 = TranscriptState::start(rounds::challenge_names());
    let points = vk.in_order();
    let t1 = rounds::bind_points(t0, points);
    let t2 = rounds::bind_scalars(t1, pi);
    lemma_bind_points(t0, points);
    lemma_bind_scalars(t1, pi);
    lemma_encode_len(l);
    lemma_encode_len(r);
    lemma_encode_len(o);
    let b = t.bound;
    let n1 = t1.bound.len() as int;
    let n2 = t2.bound.len() as int;
    assert(t.previous.len() == 0);
    assert(x.subrange(5, (5 + b.len()) as int) =~= b);
    assert(b.subrange(0, n1) =~= t1.bound) by {
        assert(b.subrange(0, n1) =~= t2.bound.take(n1));
    }
    assert(b.subrange(0, n2) =~= t2.bound);
    assert(x.subrange(5, 5 + n1) =~= t1.bound) by {
        assert(x.subrange(5, 5 + n1) =~= b.subrange(0, n1));
    }
    assert(x.subrange(5, 5 + n2) =~= t2.bound) by {
        assert(x.subrange(5, 5 + n2) =~= b.subrange(0, n2));
    }
    lemma_points_move(x, t1.bound, 5, 0, points);
    lemma_scalars_move(x, t2.bound, 5, n1, pi);
    assert(n1 == 64 * (8 + vk.qcp.len()));
    assert(points[0] == vk.s1 && points[1] == vk.s2 && points[2] == vk.s3 && points[3] == vk.ql);
    assert(points[4] == vk.qr && points[5] == vk.qm && points[6] == vk.qo && points[7] == vk.qk);
    assert forall|j: int| 0 <= j < vk.qcp.len() implies x.subrange(517 + 64 * j, 517 + 64 * j + 64)
        == crate::encode_point(#[trigger] vk.qcp[j]) by {
        assert(points[8 + j] == vk.qcp[j]);
        assert(5 + 64 * (8 + j) == 517 + 64 * j);
    }
    let end = 5 + n2;
    assert(x.subrange(end, end + 64) =~= b.subrange(n2, n2 + 64));
    assert(x.subrange(end + 64, end + 128) =~= b.subrange(n2 + 64, n2 + 128));
    assert(x.subrange(end + 128, end + 192) =~= b.subrange(n2 + 128, n2 + 192));
    assert(b.subrange(n2, n2 + 64) =~= crate::encode_point(l));
    assert(b.subrange(n2 + 64, n2 + 128) =~= crate::encode_point(r));
    assert(b.subrange(n2 + 128, n2 + 192) =~= crate::encode_point(o));
}

proof fn lemma_beta_input(x: Seq<u8>, previous: Seq<u8>)
    requires
        transcript::is_challenge_input(x, "beta"@, previous, seq![]),
    ensures
        is_beta_input(x, previous),
{
    reveal_strlit("beta");
    vstd::utf8::is_ascii_chars_encode_utf8("beta"@);
    assert(x.skip(4) =~= x.subrange(4, (4 + previous.len()) as int));
}

/// The bytes that are bound to alpha stand behind its name and the digest before.
proof fn lemma_alpha_input(x: Seq<u8>, t: TranscriptState, commitments: Seq<Point>, z: Point)
    requires
        t.bound.len() == 0,
        transcript::is_challenge_input(
            x,
            "alpha"@,
            t.previous,
            rounds::bind_points(t, commitments).bind(crate::encode_point(z)).bound,
        ),
    ensures
        is_alpha_input(x, t.previous, commitments, z),
{
    reveal_strlit("alpha");
    vstd::utf8::is_ascii_chars_encode_utf8("alpha"@);
    lemma_bind_points(t, commitments);
    lemma_encode_len(z);
    let b = rounds::bind_points(t, commitments).bound;
    let c = b + crate::encode_point(z);
    let at = 5 + t.previous.len() as int;
    assert(x.subrange(at, at + b.len()) =~= b) by {
        assert(x.subrange(at, x.len() as int) =~= c);
        assert(x.subrange(at, at + b.len()) =~= c.subrange(0, b.len() as int));
        assert(c.subrange(0, b.len() as int) =~= b);
    }
    lemma_points_move(x, b, at, 0, commitments);
    let end = at + b.len();
    assert(x.subrange(end, end + 64) =~= crate::encode_point(z)) by {
        assert(x.subrange(at, x.len() as int) =~= c);
        assert(x.subrange(end, end + 64) =~= c.subrange(b.len() as int, (b.len() + 64) as int));
        assert(c.subrange(b.len() as int, (b.len() + 64) as int) =~= crate::encode_point(z));
    }
}

proof fn lemma_zeta_input(x: Seq<u8>, previous: Seq<u8>, h0: Point, h1: Point, h2: Point)
    requires
        transcript::is_challenge_input(
            x,
            "zeta"@,
            previous,
            crate::encode_point(h0) + crate::encode_point(h1) + crate::encode_point(h2),
        ),
    ensures
        is_zeta_input(x, previous, h0, h1, h2),
{
    reveal_strlit("zeta");
    vstd::utf8::is_ascii_chars_encode_utf8("zeta"@);
    lemma_encode_len(h0);
    lemma_encode_len(h1);
    lemma_encode_len(h2);
    let b = crate::encode_point(h0) + crate::encode_point(h1) + crate::encode_point(h2);
    let at = 4 + previous.len() as int;
    assert(x.subrange(at, x.len() as int) == b);
    assert(x.subrange(at, at + 64) =~= b.subrange(0, 64));
    assert(x.subrange(at + 64, at + 128) =~= b.subrange(64, 128));
    assert(x.subrange(at + 128, at + 192) =~= b.subrange(128, 192));
    assert(b.subrange(0, 64) =~= crate::encode_point(h0));
    assert(b.subrange(64, 128) =~= crate::encode_point(h1));
    assert(b.subrange(128, 192) =~= crate::encode_point(h2));
}

/// Gamma and beta come from the bytes of a first round: the verifying key, the public inputs
/// and the commitments to the wires.
pub proof fn law_first_challenges(
    t: TranscriptState,
    vk: VkPoints,
    pi: Seq<int>,
    l: Point,
    r: Point,
    o: Point,
) -> (xs: (Seq<u8>, Seq<u8>))
    requires
        t == rounds::bind_scalars(
            rounds::bind_points(
                TranscriptState::start(rounds::challenge_names()),
                vk.in_order(),
            ),
            pi,
        ).bind(crate::encode_point(l)).bind(crate::encode_point(r)).bind(crate::encode_point(o)),
    ensures
        is_gamma_input(xs.0, vk, pi, l, r, o),
        is_beta_input(xs.1, sha256::sha256(xs.0)),
        t.next() == sha256::sha256(xs.0),
        t.advance().next() == sha256::sha256(xs.1),
{
    let start = TranscriptState::start(rounds::challenge_names());
    lemma_bind_points(start, vk.in_order());
    lemma_bind_scalars(rounds::bind_points(start, vk.in_order()), pi);
    let x = transcript::law_challenge_input(t);
    lemma_gamma_input(x, t, vk, pi, l, r, o);
    let u = t.advance();
    assert(u.pending[0] == "beta"@);
    let y = transcript::law_challenge_input(u);
    lemma_beta_input(y, u.previous);
    (x, y)
}

/// What a verifier hashes for gamma, beta, alpha and zeta, in this order. Each challenge is
/// a digest, read as a big-endian number, modulo the order of the field: gamma is bound to
/// the verifying key, the public inputs and the wires, alpha to the BSB22 commitments and
/// the grand product, zeta to the quotient, and each but the first to the digest before.
pub proof fn law_verifier_challenges(vk: VerifyingKey, pi: Seq<int>, p: ProofView) -> (xs: (
    Seq<u8>,
    Seq<u8>,
    Seq<u8>,
    Seq<u8>,
))
    ensures
        is_gamma_input(xs.0, vk.points, pi, p.lro[0], p.lro[1], p.lro[2]),
        is_beta_input(xs.1, sha256::sha256(xs.0)),
        is_alpha_input(xs.2, sha256::sha256(xs.1), p.bsb22, p.z),
        is_zeta_input(xs.3, sha256::sha256(xs.2), p.h[0], p.h[1], p.h[2]),
        ({
            let d = vk.derived(pi, p);
            let r = fields::fr_modulus();
            &&& d.challenges.gamma == bytes::be_value(sha256::sha256(xs.0)) % r
            &&& d.challenges.beta == bytes::be_value(sha256::sha256(xs.1)) % r
            &&& d.challenges.alpha == bytes::be_value(sha256::sha256(xs.2)) % r
            &&& d.zeta == bytes::be_value(sha256::sha256(xs.3)) % r
        }),
{
    reveal(VerifyingKey::derived);
    let t1 = vk.wire_transcript(pi, p);
    let t0 = rounds::bind_points(
        TranscriptState::start(rounds::challenge_names()),
        vk.points.in_order(),
    );
    lemma_bind_points(TranscriptState::start(rounds::challenge_names()), vk.points.in_order());
    lemma_bind_scalars(t0, pi);
    assert(t1.pending == rounds::challenge_names() && t1.previous == Seq::<u8>::empty() && t1
        == rounds::bind_scalars(t0, pi).bind(crate::encode_point(p.lro[0])).bind(
        crate::encode_point(p.lro[1]),
    ).bind(crate::encode_point(p.lro[2]))) by {
        reveal(VerifyingKey::wire_transcript);
    }
    let x1 = transcript::law_challenge_input(t1);
    lemma_gamma_input(x1, t1, vk.points, pi, p.lro[0], p.lro[1], p.lro[2]);
    let u1 = t1.advance();
    assert(u1.pending[0] == "beta"@);
    let x2 = transcript::law_challenge_input(u1);
    lemma_beta_input(x2, u1.previous);
    let u2 = u1.advance();
    assert(u2.pending =~= seq!["alpha"@, "zeta"@, "u"@]);
    let t2 = vk.product_transcript(pi, p);
    lemma_bind_points(u2, p.bsb22);
    assert(t2 == rounds::bind_points(u2, p.bsb22).bind(crate::encode_point(p.z))) by {
        reveal(VerifyingKey::product_transcript);
    }
    let x3 = transcript::law_challenge_input(t2);
    lemma_alpha_input(x3, u2, p.bsb22, p.z);
    let u3 = t2.advance();
    assert(u3.pending =~= seq!["zeta"@, "u"@]);
    let t3 = vk.quotient_transcript(pi, p);
    assert(t3 == u3.bind(crate::encode_point(p.h[0])).bind(crate::encode_point(p.h[1])).bind(
        crate::encode_point(p.h[2]),
    )) by {
        reveal(VerifyingKey::quotient_transcript);
    }
    assert(t3.bound =~= crate::encode_point(p.h[0]) + crate::encode_point(p.h[1])
        + crate::encode_point(p.h[2]));
    let x4 = transcript::law_challenge_input(t3);
    lemma_zeta_input(x4, t3.previous, p.h[0], p.h[1], p.h[2]);
    (x1, x2, x3, x4)
}

/// What the prover hashes for its challenges: the verifying key, the public inputs and
/// the commitments of the proof, each before the challenge that depends on it.
pub proof fn law_prover_challenges(key: Key, inp: Inputs) -> (xs: (
    Seq<u8>,
    Seq<u8>,
    Seq<u8>,
    Seq<u8>,
))
    ensures
        ({
            let p = key.honest_proof(inp);
            let r = fields::fr_modulus();
            &&& is_gamma_input(xs.0, key.vk, inp.pi, p.lro[0], p.lro[1], p.lro[2])
            &&& is_beta_input(xs.1, sha256::sha256(xs.0))
            &&& is_alpha_input(xs.2, sha256::sha256(xs.1), inp.commitments, p.z)
            &&& is_zeta_input(xs.3, sha256::sha256(xs.2), p.h[0], p.h[1], p.h[2])
            &&& key.round1(inp).gamma == bytes::be_value(sha256::sha256(xs.0)) % r
            &&& key.round1(inp).beta == bytes::be_value(sha256::sha256(xs.1)) % r
            &&& key.round2(inp).alpha == bytes::be_value(sha256::sha256(xs.2)) % r
            &&& key.round3(inp).zeta == bytes::be_value(sha256::sha256(xs.3)) % r
        }),
{
    verifying::law_challenges_agree(key, inp);
    law_verifier_challenges(VerifyingKey::of(key), inp.pi, key.honest_proof(inp))
}

proof fn lemma_fold_input(
    x: Seq<u8>,
    zeta: int,
    digests: Seq<Point>,
    claimed: Seq<int>,
    zw: int,
)
    requires
        transcript::is_challenge_input(
            x,
            "gamma"@,
            seq![],
            rounds::bind_scalars(
                rounds::bind_points(
                    TranscriptState::start(seq!["gamma"@]).bind(bytes::be_bytes(zeta, 32)),
                    digests,
                ),
                claimed,
            ).bind(bytes::be_bytes(zw, 32)).bound,
        ),
    ensures
        is_fold_input(x, zeta, digests, claimed, zw),
{
    reveal_strlit("gamma");
    vstd::utf8::is_ascii_chars_encode_utf8("gamma"@);
    let t0 = TranscriptState::start(seq!["gamma"@]).bind(bytes::be_bytes(zeta, 32));
    let t1 = rounds::bind_points(t0, digests);
    let t2 = rounds::bind_scalars(t1, claimed);
    lemma_bind_points(t0, digests);
    lemma_bind_scalars(t1, claimed);
    bytes::lemma_be_bytes_len(zeta, 32);
    bytes::lemma_be_bytes_len(zw, 32);
    assert(t0.bound =~= bytes::be_bytes(zeta, 32));
    let b = t2.bound + bytes::be_bytes(zw, 32);
    let n1 = t1.bound.len() as int;
    let n2 = t2.bound.len() as int;
    assert(x.subrange(5, x.len() as int) == b);
    assert(x.subrange(5, 5 + n2) =~= t2.bound) by {
        assert(x.subrange(5, 5 + n2) =~= b.subrange(0, n2));
        assert(b.subrange(0, n2) =~= t2.bound);
    }
    assert(x.subrange(5, 5 + n1) =~= t1.bound) by {
        assert(x.subrange(5, 5 + n1) =~= t2.bound.take(n1));
    }
    assert(x.subrange(5, 37) =~= t0.bound) by {
        assert(x.subrange(5, 37) =~= t1.bound.take(32));
    }
    lemma_points_move(x, t1.bound, 5, 32, digests);
    lemma_scalars_move(x, t2.bound, 5, n1, claimed);
    let end = 5 + n2;
    assert(x.subrange(end, end + 32) =~= b.subrange(n2, n2 + 32));
    assert(b.subrange(n2, n2 + 32) =~= bytes::be_bytes(zw, 32));
}

/// What a verifier hashes for the fold challenge: zeta, every commitment that is opened
/// there, every value that is claimed, and the value of the grand product one row further.
pub proof fn law_verifier_fold(vk: VerifyingKey, pi: Seq<int>, p: ProofView) -> (x: Seq<u8>)
    ensures
        is_fold_input(
            x,
            vk.derived(pi, p).zeta,
            seq![
                vk.lin_commitment(pi, p),
                p.lro[0],
                p.lro[1],
                p.lro[2],
                vk.points.s1,
                vk.points.s2,
            ] + vk.points.qcp,
            p.claimed,
            p.z_shifted,
        ),
        vk.gamma_fold(pi, p) == bytes::be_value(sha256::sha256(x)) % fields::fr_modulus(),
{
    let zeta = vk.derived(pi, p).zeta;
    let digests = vk.digests(pi, p);
    let t0 = TranscriptState::start(seq!["gamma"@]).bind(bytes::be_bytes(zeta, 32));
    let t1 = rounds::bind_points(t0, digests);
    let t = rounds::bind_scalars(t1, p.claimed).bind(bytes::be_bytes(p.z_shifted, 32));
    lemma_bind_points(t0, digests);
    lemma_bind_scalars(t1, p.claimed);
    let x = transcript::law_challenge_input(t);
    lemma_fold_input(x, zeta, digests, p.claimed, p.z_shifted);
    x
}

/// What the prover hashes for the fold challenge.
pub proof fn law_prover_fold(key: Key, inp: Inputs) -> (x: Seq<u8>)
    requires
        key.vk.qcp.len() == key.circuit.qcp.len(),
    ensures
        ({
            let p = key.honest_proof(inp);
            &&& is_fold_input(
                x,
                key.round3(inp).zeta,
                seq![
                    key.lin_commitment(inp),
                    p.lro[0],
                    p.lro[1],
                    p.lro[2],
                    key.vk.s1,
                    key.vk.s2,
                ] + key.vk.qcp,
                p.claimed,
                p.z_shifted,
            )
            &&& key.gamma_fold(inp) == bytes::be_value(sha256::sha256(x)) % fields::fr_modulus()
        }),
{
    let vk = VerifyingKey::of(key);
    let p = key.honest_proof(inp);
    verifying::law_challenges_agree(key, inp);
    verifying::law_folds_agree(key, inp);
    let x = law_verifier_fold(vk, inp.pi, p);
    assert(key.digests(inp)[0] == key.lin_commitment(inp)) by {
        reveal(Key::digests);
    }
    assert(vk.digests(inp.pi, p)[0] == vk.lin_commitment(inp.pi, p));
    x
}

/// Gamma hashes other bytes wherever a commitment of the verifying key, a public input or
/// the commitment to a wire differs.
pub proof fn law_gamma_binds(
    x: Seq<u8>,
    vk: VkPoints,
    pi: Seq<int>,
    wires: (Point, Point, Point),
    other_vk: VkPoints,
    other_pi: Seq<int>,
    other_wires: (Point, Point, Point),
)
    requires
        is_gamma_input(x, vk, pi, wires.0, wires.1, wires.2),
        is_gamma_input(x, other_vk, other_pi, other_wires.0, other_wires.1, other_wires.2),
        vk.qcp.len() == other_vk.qcp.len(),
        forall|i: int| 0 <= i < pi.len() ==> 0 <= #[trigger] pi[i] < fields::fr_modulus(),
        forall|i: int|
            0 <= i < other_pi.len() ==> 0 <= #[trigger] other_pi[i] < fields::fr_modulus(),
        forall|i: int| 0 <= i < 8 + vk.qcp.len() ==> g1::in_range(#[trigger] vk.in_order()[i]),
        forall|i: int|
            0 <= i < 8 + vk.qcp.len() ==> g1::in_range(#[trigger] other_vk.in_order()[i]),
        g1::in_range(wires.0),
        g1::in_range(wires.1),
        g1::in_range(wires.2),
        g1::in_range(other_wires.0),
        g1::in_range(other_wires.1),
        g1::in_range(other_wires.2),
    ensures
        pi == other_pi,
        g1::as_affine(wires.0) == g1::as_affine(other_wires.0),
        g1::as_affine(wires.1) == g1::as_affine(other_wires.1),
        g1::as_affine(wires.2) == g1::as_affine(other_wires.2),
        forall|i: int|
            0 <= i < 8 + vk.qcp.len() ==> g1::as_affine(#[trigger] vk.in_order()[i])
                == g1::as_affine(other_vk.in_order()[i]),
{
    fields::lemma_fr_modulus();
    bytes::lemma_pow_256();
    assert(pi.len() == other_pi.len());
    assert forall|i: int| 0 <= i < pi.len() implies pi[i] == other_pi[i] by {
        bytes::lemma_be_value_of_bytes(pi[i], 32);
        bytes::lemma_be_value_of_bytes(other_pi[i], 32);
    }
    assert(pi =~= other_pi);
    crate::law_point_bytes_differ(wires.0, other_wires.0);
    crate::law_point_bytes_differ(wires.1, other_wires.1);
    crate::law_point_bytes_differ(wires.2, other_wires.2);
    assert forall|i: int| 0 <= i < 8 + vk.qcp.len() implies g1::as_affine(
        #[trigger] vk.in_order()[i],
    ) == g1::as_affine(other_vk.in_order()[i]) by {
        let a = vk.in_order();
        let b = other_vk.in_order();
        if i >= 8 {
            assert(a[i] == vk.qcp[i - 8]);
            assert(b[i] == other_vk.qcp[i - 8]);
        } else {
            assert(a[0] == vk.s1 && a[1] == vk.s2 && a[2] == vk.s3 && a[3] == vk.ql);
            assert(a[4] == vk.qr && a[5] == vk.qm && a[6] == vk.qo && a[7] == vk.qk);
            assert(b[0] == other_vk.s1 && b[1] == other_vk.s2 && b[2] == other_vk.s3);
            assert(b[3] == other_vk.ql && b[4] == other_vk.qr && b[5] == other_vk.qm);
            assert(b[6] == other_vk.qo && b[7] == other_vk.qk);
        }
        assert(crate::encode_point(a[i]) == crate::encode_point(b[i]));
        crate::law_point_bytes_differ(a[i], b[i]);
    }
}

/// The bytes behind the last challenge: its name, the digest that zeta comes from, the
/// fold challenge, the fold of the commitments, the commitment to the grand product, and
/// the commitments of both openings.
pub open spec fn is_u_input(
    x: Seq<u8>,
    previous: Seq<u8>,
    fold: int,
    folded: Point,
    z: Point,
    batch_h: Point,
    z_shifted_h: Point,
) -> bool {
    let at = 1 + previous.len() as int;
    &&& x.len() == at + 288
    &&& x.subrange(0, 1) == text::utf8("u"@)
    &&& x.subrange(1, at) == previous
    &&& x.subrange(at, at + 32) == bytes::be_bytes(fold, 32)
    &&& x.subrange(at + 32, at + 96) == crate::encode_point(folded)
    &&& x.subrange(at + 96, at + 160) == crate::encode_point(z)
    &&& x.subrange(at + 160, at + 224) == crate::encode_point(batch_h)
    &&& x.subrange(at + 224, at + 288) == crate::encode_point(z_shifted_h)
}

proof fn lemma_u_input(
    x: Seq<u8>,
    previous: Seq<u8>,
    fold: int,
    folded: Point,
    z: Point,
    batch_h: Point,
    z_shifted_h: Point,
)
    requires
        transcript::is_challenge_input(
            x,
            "u"@,
            previous,
            bytes::be_bytes(fold, 32) + crate::encode_point(folded) + crate::encode_point(z)
                + crate::encode_point(batch_h) + crate::encode_point(z_shifted_h),
        ),
    ensures
        is_u_input(x, previous, fold, folded, z, batch_h, z_shifted_h),
{
    reveal_strlit("u");
    vstd::utf8::is_ascii_chars_encode_utf8("u"@);
    bytes::lemma_be_bytes_len(fold, 32);
    lemma_encode_len(folded);
    lemma_encode_len(z);
    lemma_encode_len(batch_h);
    lemma_encode_len(z_shifted_h);
    let b = bytes::be_bytes(fold, 32) + crate::encode_point(folded) + crate::encode_point(z)
        + crate::encode_point(batch_h) + crate::encode_point(z_shifted_h);
    let at = 1 + previous.len() as int;
    assert(x.subrange(at, x.len() as int) == b);
    assert(x.subrange(at, at + 32) =~= b.subrange(0, 32));
    assert(x.subrange(at + 32, at + 96) =~= b.subrange(32, 96));
    assert(x.subrange(at + 96, at + 160) =~= b.subrange(96, 160));
    assert(x.subrange(at + 160, at + 224) =~= b.subrange(160, 224));
    assert(x.subrange(at + 224, at + 288) =~= b.subrange(224, 288));
    assert(b.subrange(0, 32) =~= bytes::be_bytes(fold, 32));
    assert(b.subrange(32, 96) =~= crate::encode_point(folded));
    assert(b.subrange(96, 160) =~= crate::encode_point(z));
    assert(b.subrange(160, 224) =~= crate::encode_point(batch_h));
    assert(b.subrange(224, 288) =~= crate::encode_point(z_shifted_h));
}

/// What the prover hashes for the last challenge, behind the digest that zeta comes from.
pub proof fn law_last_challenge(key: Key, inp: Inputs) -> (xs: (Seq<u8>, Seq<u8>))
    ensures
        ({
            let p = key.honest_proof(inp);
            let digests = key.digests(inp);
            let powers = linearization::field_powers(key.gamma_fold(inp), digests.len());
            &&& key.round3(inp).zeta == bytes::be_value(sha256::sha256(xs.0))
                % fields::fr_modulus()
            &&& is_u_input(
                xs.1,
                sha256::sha256(xs.0),
                key.gamma_fold(inp),
                g1::as_affine(g1::point_msm(digests, powers)),
                p.z,
                p.batch_h,
                p.z_shifted_h,
            )
            &&& key.u_transcript(inp).next() == sha256::sha256(xs.1)
        }),
{
    reveal(Key::u_transcript);
    reveal(Key::round5);
    let r1 = key.round1(inp);
    let r2 = key.round2(inp);
    let r3 = key.round3(inp);
    let names = rounds::challenge_names();
    assert(r1.transcript.pending =~= names.skip(2) && r1.transcript.bound.len() == 0) by {
        reveal(Key::round1);
        let t0 = rounds::bind_points(TranscriptState::start(names), key.vk.in_order());
        lemma_bind_points(TranscriptState::start(names), key.vk.in_order());
        lemma_bind_scalars(t0, inp.pi);
    }
    assert(r2.transcript.pending =~= names.skip(3) && r2.transcript.bound.len() == 0) by {
        reveal(Key::round2);
        lemma_bind_points(r1.transcript, inp.commitments);
    }
    let t = r2.transcript.bind(crate::encode_point(r3.h0)).bind(crate::encode_point(r3.h1)).bind(
        crate::encode_point(r3.h2),
    );
    assert(r3.transcript == t.advance() && r3.zeta == rounds::challenge_value(t.next())) by {
        reveal(Key::round3);
    }
    let x = transcript::law_challenge_input(t);
    let u = key.u_transcript(inp);
    assert(t.advance().pending =~= seq!["u"@]);
    assert(u.pending[0] == "u"@);
    let y = transcript::law_challenge_input(u);
    let digests = key.digests(inp);
    let powers = linearization::field_powers(key.gamma_fold(inp), digests.len());
    let folded = g1::as_affine(g1::point_msm(digests, powers));
    let r5 = key.round5(inp);
    assert(u.bound =~= bytes::be_bytes(r5.gamma_fold, 32) + crate::encode_point(folded)
        + crate::encode_point(r2.z) + crate::encode_point(r5.batch_h) + crate::encode_point(
        r5.z_shifted_h,
    ));
    lemma_u_input(y, u.previous, r5.gamma_fold, folded, r2.z, r5.batch_h, r5.z_shifted_h);
    (x, y)
}

/// Two points have the same bytes in a transcript.
pub open spec fn same_point(a: Point, b: Point) -> bool {
    g1::as_affine(a) == g1::as_affine(b)
}

/// All points that a verifier binds have coordinates in the base field.
pub open spec fn proof_in_range(p: ProofView) -> bool {
    &&& g1::in_range(p.lro[0]) && g1::in_range(p.lro[1]) && g1::in_range(p.lro[2])
    &&& g1::in_range(p.z)
    &&& g1::in_range(p.h[0]) && g1::in_range(p.h[1]) && g1::in_range(p.h[2])
    &&& forall|j: int| 0 <= j < p.bsb22.len() ==> g1::in_range(#[trigger] p.bsb22[j])
}

/// The challenges of two proofs come from the same bytes only where all that came before
/// them is the same: for gamma the public inputs and the commitments to the wires, for
/// alpha the digest of beta, the BSB22 commitments and the commitment to the grand product,
/// for zeta the digest of alpha and the commitments to the parts of the quotient.
pub proof fn law_challenges_bind(
    vk: VerifyingKey,
    pi: Seq<int>,
    p: ProofView,
    other_pi: Seq<int>,
    q: ProofView,
) -> (xs: ((Seq<u8>, Seq<u8>, Seq<u8>, Seq<u8>), (Seq<u8>, Seq<u8>, Seq<u8>, Seq<u8>)))
    requires
        forall|i: int| 0 <= i < pi.len() ==> 0 <= #[trigger] pi[i] < fields::fr_modulus(),
        forall|i: int|
            0 <= i < other_pi.len() ==> 0 <= #[trigger] other_pi[i] < fields::fr_modulus(),
        proof_in_range(p),
        proof_in_range(q),
        p.bsb22.len() == q.bsb22.len(),
    ensures
        ({
            let r = fields::fr_modulus();
            let (x, y) = xs;
            let d = vk.derived(pi, p);
            let e = vk.derived(other_pi, q);
            &&& d.challenges.gamma == bytes::be_value(sha256::sha256(x.0)) % r
            &&& e.challenges.gamma == bytes::be_value(sha256::sha256(y.0)) % r
            &&& d.challenges.beta == bytes::be_value(sha256::sha256(x.1)) % r
            &&& e.challenges.beta == bytes::be_value(sha256::sha256(y.1)) % r
            &&& d.challenges.alpha == bytes::be_value(sha256::sha256(x.2)) % r
            &&& e.challenges.alpha == bytes::be_value(sha256::sha256(y.2)) % r
            &&& d.zeta == bytes::be_value(sha256::sha256(x.3)) % r
            &&& e.zeta == bytes::be_value(sha256::sha256(y.3)) % r
            &&& x.0 == y.0 ==> pi == other_pi && same_point(p.lro[0], q.lro[0]) && same_point(
                p.lro[1],
                q.lro[1],
            ) && same_point(p.lro[2], q.lro[2])
            &&& x.1 == y.1 ==> sha256::sha256(x.0) == sha256::sha256(y.0)
            &&& x.2 == y.2 && sha256::sha256(x.1).len() == sha256::sha256(y.1).len() ==> {
                &&& sha256::sha256(x.1) == sha256::sha256(y.1)
                &&& same_point(p.z, q.z)
                &&& forall|j: int|
                    0 <= j < p.bsb22.len() ==> same_point(#[trigger] p.bsb22[j], q.bsb22[j])
            }
            &&& x.3 == y.3 && sha256::sha256(x.2).len() == sha256::sha256(y.2).len() ==> {
                &&& sha256::sha256(x.2) == sha256::sha256(y.2)
                &&& same_point(p.h[0], q.h[0])
                &&& same_point(p.h[1], q.h[1])
                &&& same_point(p.h[2], q.h[2])
            }
        }),
{
    let x = law_verifier_challenges(vk, pi, p);
    let y = law_verifier_challenges(vk, other_pi, q);
    if x.0 == y.0 {
        fields::lemma_fr_modulus();
        bytes::lemma_pow_256();
        assert(pi.len() == other_pi.len());
        assert forall|i: int| 0 <= i < pi.len() implies pi[i] == other_pi[i] by {
            bytes::lemma_be_value_of_bytes(pi[i], 32);
            bytes::lemma_be_value_of_bytes(other_pi[i], 32);
        }
        assert(pi =~= other_pi);
        crate::law_point_bytes_differ(p.lro[0], q.lro[0]);
        crate::law_point_bytes_differ(p.lro[1], q.lro[1]);
        crate::law_point_bytes_differ(p.lro[2], q.lro[2]);
    }
    if x.2 == y.2 && sha256::sha256(x.1).len() == sha256::sha256(y.1).len() {
        lemma_alpha_binds(x.2, sha256::sha256(x.1), p, sha256::sha256(y.1), q);
    }
    if x.3 == y.3 && sha256::sha256(x.2).len() == sha256::sha256(y.2).len() {
        crate::law_point_bytes_differ(p.h[0], q.h[0]);
        crate::law_point_bytes_differ(p.h[1], q.h[1]);
        crate::law_point_bytes_differ(p.h[2], q.h[2]);
    }
    (x, y)
}

proof fn lemma_alpha_binds(x: Seq<u8>, a: Seq<u8>, p: ProofView, b: Seq<u8>, q: ProofView)
    requires
        is_alpha_input(x, a, p.bsb22, p.z),
        is_alpha_input(x, b, q.bsb22, q.z),
        a.len() == b.len(),
        p.bsb22.len() == q.bsb22.len(),
        proof_in_range(p),
        proof_in_range(q),
    ensures
        a == b,
        same_point(p.z, q.z),
        forall|j: int| 0 <= j < p.bsb22.len() ==> same_point(#[trigger] p.bsb22[j], q.bsb22[j]),
{
    crate::law_point_bytes_differ(p.z, q.z);
    assert forall|j: int| 0 <= j < p.bsb22.len() implies same_point(
        #[trigger] p.bsb22[j],
        q.bsb22[j],
    ) by {
        assert(g1::in_range(q.bsb22[j]));
        crate::law_point_bytes_differ(p.bsb22[j], q.bsb22[j]);
    }
}

/// The fold challenges of two proofs come from the same bytes only where zeta, every
/// claimed value and the value of the grand product one row further are the same.
pub proof fn law_fold_binds(
    vk: VerifyingKey,
    pi: Seq<int>,
    p: ProofView,
    other_pi: Seq<int>,
    q: ProofView,
) -> (xs: (Seq<u8>, Seq<u8>))
    requires
        p.claimed.len() == q.claimed.len(),
        forall|i: int|
            0 <= i < p.claimed.len() ==> 0 <= #[trigger] p.claimed[i] < fields::fr_modulus(),
        forall|i: int|
            0 <= i < q.claimed.len() ==> 0 <= #[trigger] q.claimed[i] < fields::fr_modulus(),
        0 <= p.z_shifted < fields::fr_modulus(),
        0 <= q.z_shifted < fields::fr_modulus(),
        g1::in_range(p.lro[0]),
        g1::in_range(p.lro[1]),
        g1::in_range(p.lro[2]),
        g1::in_range(q.lro[0]),
        g1::in_range(q.lro[1]),
        g1::in_range(q.lro[2]),
    ensures
        vk.gamma_fold(pi, p) == bytes::be_value(sha256::sha256(xs.0)) % fields::fr_modulus(),
        vk.gamma_fold(other_pi, q) == bytes::be_value(sha256::sha256(xs.1)) % fields::fr_modulus(),
        xs.0 == xs.1 ==> {
            &&& vk.derived(pi, p).zeta == vk.derived(other_pi, q).zeta
            &&& p.claimed == q.claimed
            &&& p.z_shifted == q.z_shifted
            &&& same_point(p.lro[0], q.lro[0])
            &&& same_point(p.lro[1], q.lro[1])
            &&& same_point(p.lro[2], q.lro[2])
        },
{
    let x = law_verifier_fold(vk, pi, p);
    let y = law_verifier_fold(vk, other_pi, q);
    if x == y {
        fields::lemma_fr_modulus();
        law_verifier_challenges(vk, pi, p);
        law_verifier_challenges(vk, other_pi, q);
        bytes::lemma_pow_256();
        let a = seq![
            vk.lin_commitment(pi, p),
            p.lro[0],
            p.lro[1],
            p.lro[2],
            vk.points.s1,
            vk.points.s2,
        ] + vk.points.qcp;
        let b = seq![
            vk.lin_commitment(other_pi, q),
            q.lro[0],
            q.lro[1],
            q.lro[2],
            vk.points.s1,
            vk.points.s2,
        ] + vk.points.qcp;
        assert(a.len() == b.len());
        assert(a[1] == p.lro[0] && a[2] == p.lro[1] && a[3] == p.lro[2]);
        assert(b[1] == q.lro[0] && b[2] == q.lro[1] && b[3] == q.lro[2]);
        crate::law_point_bytes_differ(p.lro[0], q.lro[0]);
        crate::law_point_bytes_differ(p.lro[1], q.lro[1]);
        crate::law_point_bytes_differ(p.lro[2], q.lro[2]);
        let zp = vk.derived(pi, p).zeta;
        let zq = vk.derived(other_pi, q).zeta;
        bytes::lemma_be_value_of_bytes(zp, 32);
        bytes::lemma_be_value_of_bytes(zq, 32);
        bytes::lemma_be_value_of_bytes(p.z_shifted, 32);
        bytes::lemma_be_value_of_bytes(q.z_shifted, 32);
        assert forall|i: int| 0 <= i < p.claimed.len() implies p.claimed[i] == q.claimed[i] by {
            bytes::lemma_be_value_of_bytes(p.claimed[i], 32);
            bytes::lemma_be_value_of_bytes(q.claimed[i], 32);
        }
        assert(p.claimed =~= q.claimed);
    }
    (x, y)
}

} // verus!
