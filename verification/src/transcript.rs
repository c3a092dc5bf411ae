//! The Fiat-Shamir transcript.
//!
//! A challenge is the SHA-256 digest of its name, the challenge before it and the
//! bytes that were bound to it:
//!
//! `SHA256(name || previous challenge || binding 0 || binding 1 || ...)`
//!
//! Points are bound as 64 bytes (big-endian x, then big-endian y), scalars as 32
//! bytes (big-endian, canonical).

use crate::bytes;
use crate::sha256;
use crate::text;
use vstd::prelude::*;

verus! {

/// What a transcript holds.
#[verifier::ext_equal]
pub struct TranscriptState {
    /// The names of the challenges that are still to come, in order.
    pub pending: Seq<Seq<char>>,
    /// The challenge that was computed last; empty before the first.
    pub previous: Seq<u8>,
    /// The bytes that were bound to the challenge that comes next.
    pub bound: Seq<u8>,
}

/// The digest that a challenge is.
pub open spec fn challenge(name: Seq<char>, previous: Seq<u8>, bound: Seq<u8>) -> Seq<u8> {
    sha256::sha256(text::utf8(name) + previous + bound)
}

/// The bytes behind a challenge: its name, the challenge before it where there is one,
/// and all that was bound to it.
pub open spec fn is_challenge_input(
    x: Seq<u8>,
    name: Seq<char>,
    previous: Seq<u8>,
    bound: Seq<u8>,
) -> bool {
    let n = text::utf8(name).len();
    let m = n + previous.len();
    &&& x.len() == m + bound.len()
    &&& x.subrange(0, n as int) == text::utf8(name)
    &&& x.subrange(n as int, m as int) == previous
    &&& x.subrange(m as int, x.len() as int) == bound
}

impl TranscriptState {
    /// A transcript with nothing bound yet.
    pub open spec fn start(names: Seq<Seq<char>>) -> Self {
        TranscriptState { pending: names, previous: seq![], bound: seq![] }
    }

    /// The transcript after more bytes were bound.
    pub open spec fn bind(self, data: Seq<u8>) -> Self {
        TranscriptState {
            pending: self.pending,
            previous: self.previous,
            bound: self.bound + data,
        }
    }

    /// The challenge that comes next.
    pub open spec fn next(self) -> Seq<u8> {
        challenge(self.pending[0], self.previous, self.bound)
    }

    /// The transcript after the next challenge was computed.
    pub open spec fn advance(self) -> Self {
        TranscriptState {
            pending: self.pending.drop_first(),
            previous: self.next(),
            bound: seq![],
        }
    }
}

/// A Fiat-Shamir transcript.
pub struct Transcript {
    challenge_ids: Vec<String>,
    position: usize,
    bindings: Vec<u8>,
    previous_challenge: Option<[u8; 32]>,
}

impl View for Transcript {
    type V = TranscriptState;

    closed spec fn view(&self) -> TranscriptState {
        TranscriptState {
            pending: self.names().skip(self.position as int),
            previous: match self.previous_challenge {
                Some(c) => c@,
                None => seq![],
            },
            bound: self.bindings@,
        }
    }
}

impl Transcript {
    spec fn names(&self) -> Seq<Seq<char>> {
        self.challenge_ids@.map_values(|s: String| s@)
    }

    /// The challenges that were computed are among those that were named.
    pub closed spec fn wf(self) -> bool {
        self.position <= self.challenge_ids@.len()
    }

    /// A transcript for the named challenges, in order.
    pub fn new(challenge_ids: Vec<String>) -> (r: Self)
        ensures
            r.wf(),
            r@ == TranscriptState::start(challenge_ids@.map_values(|s: String| s@)),
    {
        let r = Transcript {
            challenge_ids,
            position: 0,
            bindings: Vec::new(),
            previous_challenge: None,
        };
        proof {
            assert(r.names().skip(0) =~= challenge_ids@.map_values(|s: String| s@));
        }
        r
    }

    /// Bind bytes to the challenge that comes next, which has to be the named one.
    pub fn bind(&mut self, challenge_id: &str, data: &[u8])
        requires
            old(self).wf(),
            old(self)@.pending.len() > 0,
            challenge_id@ == old(self)@.pending[0],
        ensures
            final(self).wf(),
            final(self)@ == old(self)@.bind(data@),
            final(self)@.bound == old(self)@.bound + data@,
            final(self)@.previous == old(self)@.previous,
            final(self)@.pending == old(self)@.pending,
    {
        bytes::append(&mut self.bindings, data);
    }

    /// Compute the next challenge, which has to be the named one, and move on to
    /// the challenge after it.
    pub fn compute_challenge(&mut self, challenge_id: &str) -> (r: [u8; 32])
        requires
            old(self).wf(),
            old(self)@.pending.len() > 0,
            challenge_id@ == old(self)@.pending[0],
        ensures
            r@ == old(self)@.next(),
            final(self).wf(),
            final(self)@ == old(self)@.advance(),
            exists|x: Seq<u8>|
                #[trigger] is_challenge_input(
                    x,
                    challenge_id@,
                    old(self)@.previous,
                    old(self)@.bound,
                ) && r@ == sha256::sha256(x),
            final(self)@.previous == r@,
            final(self)@.bound.len() == 0,
            final(self)@.pending == old(self)@.pending.skip(1),
    {
        let mut input: Vec<u8> = Vec::new();
        bytes::append(&mut input, challenge_id.as_bytes());
        if let Some(previous) = &self.previous_challenge {
            bytes::append(&mut input, previous.as_slice());
        }
        bytes::append(&mut input, self.bindings.as_slice());
        proof {
            assert(input@ =~= text::utf8(challenge_id@) + self@.previous
                + self@.bound);
            let x = law_challenge_input(self@);
            assert(is_challenge_input(x, challenge_id@, self@.previous, self@.bound));
            assert(self@.pending.drop_first() =~= self@.pending.skip(1));
        }
        let result = sha256::sha256_digest(input.as_slice());
        proof {
            assert(self.names().skip(self.position + 1) =~= self.names().skip(
                self.position as int,
            ).drop_first());
            assert(self.position < self.challenge_ids.len());
        }
        self.previous_challenge = Some(result);
        self.bindings = Vec::new();
        self.position = self.position + 1;
        result
    }
}

/// A point as 64 big-endian bytes, from the little-endian bytes of its
/// coordinates.
pub fn g1_to_transcript_bytes(x_le: &[u8; 32], y_le: &[u8; 32]) -> (r: [u8; 64])
    ensures
        r@ == x_le@.reverse() + y_le@.reverse(),
{
    let mut r: [u8; 64] = [0u8; 64];
    for i in 0..32usize
        invariant
            forall|j: int| 0 <= j < i ==> #[trigger] r[j] == x_le[31 - j],
            forall|j: int| 32 <= j < 32 + i ==> #[trigger] r[j] == y_le[63 - j],
    {
        r[i] = x_le[31 - i];
        r[32 + i] = y_le[31 - i];
    }
    assert(r@ =~= x_le@.reverse() + y_le@.reverse());
    r
}

/// A scalar as 32 big-endian bytes, from its little-endian canonical bytes.
pub fn fr_to_transcript_bytes(fr_le_canonical: &[u8; 32]) -> (r: [u8; 32])
    ensures
        r@ == fr_le_canonical@.reverse(),
{
    bytes::reverse_32(fr_le_canonical)
}

/// A challenge does not depend on how the bytes that are bound to it are split
/// over calls of `bind`.
pub proof fn law_bindings_concatenate(t: TranscriptState, a: Seq<u8>, b: Seq<u8>)
    ensures
        t.bind(a).bind(b) == t.bind(a + b),
{
    assert(t.bound + a + b =~= t.bound + (a + b));
}

/// A challenge is the digest of a byte string that holds its name, the challenge before
/// it and all that was bound to it, in this order.
pub proof fn law_challenge_input(t: TranscriptState) -> (x: Seq<u8>)
    requires
        t.pending.len() > 0,
    ensures
        is_challenge_input(x, t.pending[0], t.previous, t.bound),
        x == text::utf8(t.pending[0]) + (t.previous + t.bound),
        t.next() == sha256::sha256(x),
{
    let name = text::utf8(t.pending[0]);
    let x = name + t.previous + t.bound;
    let m = name.len() + t.previous.len();
    assert(x.subrange(0, name.len() as int) =~= name);
    assert(x.subrange(name.len() as int, m as int) =~= t.previous);
    assert(x.subrange(m as int, x.len() as int) =~= t.bound);
    assert(x =~= name + (t.previous + t.bound));
    x
}

/// The name, the challenge before and what was bound leave no choice of the bytes that
/// are hashed.
pub proof fn law_challenge_input_unique(
    x: Seq<u8>,
    y: Seq<u8>,
    name: Seq<char>,
    previous: Seq<u8>,
    bound: Seq<u8>,
)
    requires
        is_challenge_input(x, name, previous, bound),
        is_challenge_input(y, name, previous, bound),
    ensures
        x == y,
{
    let n = text::utf8(name).len() as int;
    let m = n + previous.len();
    assert forall|i: int| 0 <= i < x.len() implies x[i] == y[i] by {
        if i < n {
            assert(x.subrange(0, n)[i] == y.subrange(0, n)[i]);
        } else if i < m {
            assert(x.subrange(n, m)[i - n] == y.subrange(n, m)[i - n]);
        } else {
            assert(x.subrange(m, x.len() as int)[i - m] == y.subrange(m, y.len() as int)[i - m]);
        }
    }
    assert(x =~= y);
}

/// Challenges of one name, behind challenges of one length, are digests of the same bytes
/// only where the challenges before them and all that was bound agree.
pub proof fn law_challenge_inputs_differ(t: TranscriptState, u: TranscriptState) -> (xs: (
    Seq<u8>,
    Seq<u8>,
))
    requires
        t.pending.len() > 0,
        u.pending.len() > 0,
        t.pending[0] == u.pending[0],
        t.previous.len() == u.previous.len(),
    ensures
        t.next() == sha256::sha256(xs.0),
        u.next() == sha256::sha256(xs.1),
        xs.0 == xs.1 <==> t.previous == u.previous && t.bound == u.bound,
{
    let x = law_challenge_input(t);
    let y = law_challenge_input(u);
    if t.previous == u.previous && t.bound == u.bound {
        law_challenge_input_unique(x, y, t.pending[0], t.previous, t.bound);
    }
    (x, y)
}

/// A challenge is bound to the one before it, and nothing that was bound to that one is
/// bound to it again.
pub proof fn law_challenges_chain(t: TranscriptState) -> (x: Seq<u8>)
    requires
        t.pending.len() > 1,
    ensures
        is_challenge_input(x, t.pending[1], t.next(), seq![]),
        t.advance().next() == sha256::sha256(x),
{
    law_challenge_input(t.advance())
}

} // verus!
