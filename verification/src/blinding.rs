//! The blinding of the wire polynomials and of the grand product.
//!
//! Eleven scalars are derived from a seed of 32 bytes by SHA-256 in counter mode:
//! two each for L, R and O, three for Z, and two that are held back for the parts
//! of the quotient. A polynomial `P` is blinded by adding `bp(X) (X^n - 1)`, which
//! leaves its values at the n-th roots of unity as they are.

use crate::bytes;
use crate::fields;
use crate::fields::Fr;
use crate::hash_to_field;
use crate::modular;
use crate::polynomial;
use crate::sha256;
use crate::sums;
use crate::text;
use crate::text::HexError;
use rand::RngCore;
use vstd::arithmetic::div_mod::*;
use vstd::arithmetic::mul::*;
use vstd::arithmetic::power::*;
use vstd::prelude::*;

verus! {

/// The blinding scalars of one proof.
#[derive(Clone, Copy, Debug)]
pub struct BlindingScalars {
    /// The coefficients for L.
    pub bp_l: [Fr; 2],
    /// The coefficients for R.
    pub bp_r: [Fr; 2],
    /// The coefficients for O.
    pub bp_o: [Fr; 2],
    /// The coefficients for Z.
    pub bp_z: [Fr; 3],
    /// Randomisers for the parts of the quotient; not in use.
    pub q_shard: [Fr; 2],
}

impl BlindingScalars {
    /// All scalars are reduced.
    pub open spec fn wf(self) -> bool {
        fields::all_wf(self.bp_l@) && fields::all_wf(self.bp_r@) && fields::all_wf(self.bp_o@)
            && fields::all_wf(self.bp_z@) && fields::all_wf(self.q_shard@)
    }

    /// The scalars in the order in which they are derived.
    pub open spec fn scalars(self) -> Seq<int> {
        fields::vals(self.bp_l@ + self.bp_r@ + self.bp_o@ + self.bp_z@ + self.q_shard@)
    }
}

/// The blinding polynomials of one proof by their coefficients.
pub struct BlindingPolys {
    pub l: Seq<int>,
    pub r: Seq<int>,
    pub o: Seq<int>,
    pub z: Seq<int>,
}

impl View for BlindingScalars {
    type V = BlindingPolys;

    open spec fn view(&self) -> BlindingPolys {
        BlindingPolys {
            l: fields::vals(self.bp_l@),
            r: fields::vals(self.bp_r@),
            o: fields::vals(self.bp_o@),
            z: fields::vals(self.bp_z@),
        }
    }
}

/// All-zero blinding scalars, which leave a proof as it is without blinding.
pub fn zero_blindings() -> (r: BlindingScalars)
    ensures
        r.wf(),
        r.scalars() == Seq::new(11, |i: int| 0int),
        fields::vals(r.bp_l@) == seq![0int, 0],
        fields::vals(r.bp_r@) == seq![0int, 0],
        fields::vals(r.bp_o@) == seq![0int, 0],
        fields::vals(r.bp_z@) == seq![0int, 0, 0],
        fields::vals(r.q_shard@) == seq![0int, 0],
{
    let z = Fr::zero();
    let r = BlindingScalars {
        bp_l: [z, z],
        bp_r: [z, z],
        bp_o: [z, z],
        bp_z: [z, z, z],
        q_shard: [z, z],
    };
    assert(r.scalars() =~= Seq::new(11, |i: int| 0int));
    r
}

/// The name that keeps the derivation apart from other uses of a seed.
pub open spec fn blinding_dst() -> Seq<u8> {
    text::utf8("SP1-PLONK-BLINDING-V1"@)
}

/// One block of the expansion of a seed.
pub open spec fn blinding_block(seed: Seq<u8>, index: int, block: int) -> Seq<u8> {
    sha256::sha256(
        blinding_dst() + seed + bytes::le_bytes(index, 4) + bytes::le_bytes(block, 4),
    )
}

/// The bytes that are hashed for one block: the name, the whole seed, and the number of
/// the scalar and of the block as four little-endian bytes each.
pub open spec fn is_block_input(x: Seq<u8>, seed: Seq<u8>, index: int, block: int) -> bool {
    &&& x.len() == 61
    &&& x.subrange(0, 21) == text::utf8("SP1-PLONK-BLINDING-V1"@)
    &&& x.subrange(21, 53) == seed
    &&& bytes::le_value(x.subrange(53, 57)) == index
    &&& bytes::le_value(x.subrange(57, 61)) == block
}

/// A blinding scalar: the first 48 bytes of two blocks, reduced.
pub open spec fn blinding_scalar(seed: Seq<u8>, index: int) -> int {
    bytes::be_value((blinding_block(seed, index, 0) + blinding_block(seed, index, 1)).take(48))
        % fields::fr_modulus()
}

/// The blinding polynomials that a seed gives.
pub open spec fn derived_polys(seed: Seq<u8>) -> BlindingPolys {
    BlindingPolys {
        l: seq![blinding_scalar(seed, 0), blinding_scalar(seed, 1)],
        r: seq![blinding_scalar(seed, 2), blinding_scalar(seed, 3)],
        o: seq![blinding_scalar(seed, 4), blinding_scalar(seed, 5)],
        z: seq![blinding_scalar(seed, 6), blinding_scalar(seed, 7), blinding_scalar(seed, 8)],
    }
}

fn le_4(x: u8) -> (r: [u8; 4])
    ensures
        r@ == bytes::le_bytes(x as int, 4),
{
    let r: [u8; 4] = [x, 0, 0, 0];
    proof {
        reveal_with_fuel(bytes::be_bytes, 5);
        assert(r@ =~= bytes::le_bytes(x as int, 4));
    }
    r
}

fn derive_block(seed: &[u8; 32], index: u8, block: u8) -> (r: [u8; 32])
    ensures
        r@ == blinding_block(seed@, index as int, block as int),
        exists|x: Seq<u8>|
            #[trigger] is_block_input(x, seed@, index as int, block as int) && r@
                == sha256::sha256(x),
{
    let mut input: Vec<u8> = Vec::new();
    bytes::append(&mut input, "SP1-PLONK-BLINDING-V1".as_bytes());
    bytes::append(&mut input, seed.as_slice());
    let i = le_4(index);
    let b = le_4(block);
    bytes::append(&mut input, i.as_slice());
    bytes::append(&mut input, b.as_slice());
    assert(input@ =~= blinding_dst() + seed@ + bytes::le_bytes(index as int, 4)
        + bytes::le_bytes(block as int, 4));
    proof {
        let x = law_block_input(seed@, index as int, block as int);
        assert(is_block_input(x, seed@, index as int, block as int));
    }
    sha256::sha256_digest(input.as_slice())
}

fn derive_scalar(seed: &[u8; 32], index: u8) -> (r: Fr)
    ensures
        r.wf(),
        r@ == blinding_scalar(seed@, index as int),
        exists|x: Seq<u8>, y: Seq<u8>|
            #![trigger sha256::sha256(x), sha256::sha256(y)]
            {
                &&& is_block_input(x, seed@, index as int, 0)
                &&& is_block_input(y, seed@, index as int, 1)
                &&& sha256::sha256(x).len() == 32
                &&& sha256::sha256(y).len() == 32
                &&& r@ == (bytes::be_value(sha256::sha256(x)) * pow(256, 16) + bytes::be_value(
                    sha256::sha256(y).take(16),
                )) % fields::fr_modulus()
            },
{
    let first = derive_block(seed, index, 0);
    let second = derive_block(seed, index, 1);
    let mut wide: Vec<u8> = Vec::new();
    bytes::append(&mut wide, first.as_slice());
    bytes::append(&mut wide, second.as_slice());
    assert(wide@ =~= first@ + second@);
    proof {
        let x = choose|x: Seq<u8>|
            #[trigger] is_block_input(x, seed@, index as int, 0) && first@ == sha256::sha256(x);
        let y = choose|y: Seq<u8>|
            #[trigger] is_block_input(y, seed@, index as int, 1) && second@ == sha256::sha256(y);
        assert(wide@.take(48) =~= sha256::sha256(x) + sha256::sha256(y).take(16));
        bytes::lemma_be_value_concat(sha256::sha256(x), sha256::sha256(y).take(16));
    }
    hash_to_field::fr_from_be_bytes_mod_order_wide(wide.as_slice())
}

/// Derive the blinding scalars from a seed.
pub fn derive_blindings(seed: &[u8; 32]) -> (r: BlindingScalars)
    ensures
        r.wf(),
        r.scalars() == Seq::new(11, |i: int| blinding_scalar(seed@, i)),
        r@ == derived_polys(seed@),
        r.bp_l[0]@ == blinding_scalar(seed@, 0),
        r.bp_l[1]@ == blinding_scalar(seed@, 1),
        r.bp_r[0]@ == blinding_scalar(seed@, 2),
        r.bp_r[1]@ == blinding_scalar(seed@, 3),
        r.bp_o[0]@ == blinding_scalar(seed@, 4),
        r.bp_o[1]@ == blinding_scalar(seed@, 5),
        r.bp_z[0]@ == blinding_scalar(seed@, 6),
        r.bp_z[1]@ == blinding_scalar(seed@, 7),
        r.bp_z[2]@ == blinding_scalar(seed@, 8),
        r.q_shard[0]@ == blinding_scalar(seed@, 9),
        r.q_shard[1]@ == blinding_scalar(seed@, 10),
{
    let r = BlindingScalars {
        bp_l: [derive_scalar(seed, 0), derive_scalar(seed, 1)],
        bp_r: [derive_scalar(seed, 2), derive_scalar(seed, 3)],
        bp_o: [derive_scalar(seed, 4), derive_scalar(seed, 5)],
        bp_z: [derive_scalar(seed, 6), derive_scalar(seed, 7), derive_scalar(seed, 8)],
        q_shard: [derive_scalar(seed, 9), derive_scalar(seed, 10)],
    };
    proof {
        assert(r.scalars() =~= Seq::new(11, |i: int| blinding_scalar(seed@, i)));
        let d = derived_polys(seed@);
        assert(r@.l =~= d.l);
        assert(r@.r =~= d.r);
        assert(r@.o =~= d.o);
        assert(r@.z =~= d.z);
    }
    r
}

proof fn lemma_le_4(v: int)
    requires
        0 <= v <= u32::MAX,
    ensures
        bytes::le_bytes(v, 4).len() == 4,
        bytes::le_value(bytes::le_bytes(v, 4)) == v,
{
    assert(pow(256, 4) == 0x1_0000_0000int) by {
        reveal(pow);
        reveal_with_fuel(pow, 5);
    }
    bytes::lemma_be_bytes_len(v, 4);
    bytes::lemma_be_value_of_bytes(v, 4);
}

/// A block is the digest of a byte string that holds the name, the whole seed, and both
/// numbers.
pub proof fn law_block_input(seed: Seq<u8>, index: int, block: int) -> (x: Seq<u8>)
    requires
        seed.len() == 32,
        0 <= index <= u32::MAX,
        0 <= block <= u32::MAX,
    ensures
        is_block_input(x, seed, index, block),
        x.len() == 61,
        x.subrange(0, 21) == text::utf8("SP1-PLONK-BLINDING-V1"@),
        x.subrange(21, 53) == seed,
        bytes::le_value(x.subrange(53, 57)) == index,
        bytes::le_value(x.subrange(57, 61)) == block,
        blinding_block(seed, index, block) == sha256::sha256(x),
{
    reveal_strlit("SP1-PLONK-BLINDING-V1");
    vstd::utf8::is_ascii_chars_encode_utf8("SP1-PLONK-BLINDING-V1"@);
    lemma_le_4(index);
    lemma_le_4(block);
    let dst = blinding_dst();
    let x = dst + seed + bytes::le_bytes(index, 4) + bytes::le_bytes(block, 4);
    assert(dst.len() == 21);
    assert(x.subrange(0, 21) =~= dst);
    assert(x.subrange(21, 53) =~= seed);
    assert(x.subrange(53, 57) =~= bytes::le_bytes(index, 4));
    assert(x.subrange(57, 61) =~= bytes::le_bytes(block, 4));
    x
}

/// Two blocks are digests of the same bytes only where the seeds agree in every byte and
/// the scalar and the block are the same: what is hashed determines all three.
pub proof fn law_block_inputs_differ(
    seed: Seq<u8>,
    index: int,
    block: int,
    other_seed: Seq<u8>,
    other_index: int,
    other_block: int,
) -> (xs: (Seq<u8>, Seq<u8>))
    requires
        seed.len() == 32,
        other_seed.len() == 32,
        0 <= index <= u32::MAX,
        0 <= block <= u32::MAX,
        0 <= other_index <= u32::MAX,
        0 <= other_block <= u32::MAX,
    ensures
        blinding_block(seed, index, block) == sha256::sha256(xs.0),
        blinding_block(other_seed, other_index, other_block) == sha256::sha256(xs.1),
        xs.0 == xs.1 <==> seed == other_seed && index == other_index && block == other_block,
{
    let x = law_block_input(seed, index, block);
    let y = law_block_input(other_seed, other_index, other_block);
    if seed == other_seed && index == other_index && block == other_block {
        law_block_input_unique(x, y, seed, index, block);
    }
    (x, y)
}

/// The seed and both numbers leave no choice of the bytes that are hashed.
pub proof fn law_block_input_unique(
    x: Seq<u8>,
    y: Seq<u8>,
    seed: Seq<u8>,
    index: int,
    block: int,
)
    requires
        is_block_input(x, seed, index, block),
        is_block_input(y, seed, index, block),
    ensures
        x == y,
{
    lemma_le_unique(x.subrange(53, 57), y.subrange(53, 57));
    lemma_le_unique(x.subrange(57, 61), y.subrange(57, 61));
    assert forall|i: int| 0 <= i < 61 implies x[i] == y[i] by {
        if i < 21 {
            assert(x.subrange(0, 21)[i] == y.subrange(0, 21)[i]);
        } else if i < 53 {
            assert(x.subrange(21, 53)[i - 21] == y.subrange(21, 53)[i - 21]);
        } else if i < 57 {
            assert(x.subrange(53, 57)[i - 53] == y.subrange(53, 57)[i - 53]);
        } else {
            assert(x.subrange(57, 61)[i - 57] == y.subrange(57, 61)[i - 57]);
        }
    }
    assert(x =~= y);
}

proof fn lemma_le_unique(a: Seq<u8>, b: Seq<u8>)
    requires
        a.len() == b.len(),
        bytes::le_value(a) == bytes::le_value(b),
    ensures
        a == b,
{
    bytes::lemma_be_bytes_of_value(a.reverse());
    bytes::lemma_be_bytes_of_value(b.reverse());
    assert(a.reverse().reverse() =~= a);
    assert(b.reverse().reverse() =~= b);
}

/// A scalar is made from the digests of its blocks zero and one: all of the first, then
/// the first half of the second, as one big-endian number, reduced.
pub proof fn law_scalar_blocks(seed: Seq<u8>, index: int, x: Seq<u8>, y: Seq<u8>)
    requires
        seed.len() == 32,
        0 <= index <= u32::MAX,
        is_block_input(x, seed, index, 0),
        is_block_input(y, seed, index, 1),
        sha256::sha256(x).len() == 32,
        sha256::sha256(y).len() == 32,
    ensures
        blinding_scalar(seed, index) == (bytes::be_value(sha256::sha256(x)) * pow(256, 16)
            + bytes::be_value(sha256::sha256(y).take(16))) % fields::fr_modulus(),
{
    let a = law_block_input(seed, index, 0);
    let b = law_block_input(seed, index, 1);
    law_block_input_unique(a, x, seed, index, 0);
    law_block_input_unique(b, y, seed, index, 1);
    let first = sha256::sha256(x);
    let second = sha256::sha256(y);
    assert((first + second).take(48) =~= first + second.take(16));
    bytes::lemma_be_value_concat(first, second.take(16));
}

/// `rand::rngs::OsRng`, which asks the operating system for 32 random bytes.
/// Nothing is claimed of them. It panics where the operating system has none to
/// give.
#[verifier::external_body]
pub fn fresh_seed() -> (r: [u8; 32]) {
    let mut s = [0u8; 32];
    rand::rngs::OsRng.fill_bytes(&mut s);
    s
}

/// Why a text is no seed.
#[derive(Clone, Copy, Debug, PartialEq, Eq, Structural)]
pub enum SeedError {
    /// The text is not hexadecimal.
    Hex(HexError),
    /// The text stands for another number of bytes than 32.
    Length(usize),
}

/// A text without the white space around it.
pub open spec fn trimmed_bytes(s: Seq<char>) -> Seq<u8> {
    text::utf8(text::trimmed_end(text::trimmed_start(s)))
}

/// What a text gives as a seed: the bytes that it stands for in hexadecimal, white space
/// around it left out, or why it is none.
pub open spec fn seed_result(s: Seq<char>, r: Result<[u8; 32], SeedError>) -> bool {
    let t = trimmed_bytes(s);
    match r {
        Ok(seed) => {
            &&& t.len() == 64
            &&& text::hex_digits(t, 64)
            &&& seed@ == text::hex_bytes(t)
        },
        Err(SeedError::Length(n)) => {
            &&& t.len() == 2 * n
            &&& text::hex_digits(t, 2 * n)
            &&& n != 32
        },
        Err(SeedError::Hex(HexError::OddLength)) => t.len() % 2 == 1,
        Err(SeedError::Hex(HexError::InvalidHexCharacter { c, index })) => {
            &&& t.len() % 2 == 0
            &&& index < t.len()
            &&& text::hex_digits(t, index as int)
            &&& text::hex_digit(t[index as int]) is None
            &&& c as u32 == t[index as int] as u32
        },
        Err(SeedError::Hex(HexError::InvalidStringLength)) => false,
    }
}

/// The seed that a text stands for: the hexadecimal form of 32 bytes, perhaps
/// with white space around it.
pub fn parse_seed(hex_str: &str) -> (r: Result<[u8; 32], SeedError>)
    ensures
        seed_result(hex_str@, r),
        r matches Ok(seed) ==> {
            let t = text::utf8(text::trimmed_end(text::trimmed_start(hex_str@)));
            &&& t.len() == 64
            &&& forall|i: int|
                0 <= i < 32 ==> {
                    &&& text::hex_digit(t[2 * i]) is Some
                    &&& text::hex_digit(t[2 * i + 1]) is Some
                    &&& #[trigger] seed[i] == 16 * text::hex_digit(t[2 * i])->0 + text::hex_digit(
                        t[2 * i + 1],
                    )->0
                }
        },
        r matches Err(SeedError::Length(n)) ==> {
            let t = text::utf8(text::trimmed_end(text::trimmed_start(hex_str@)));
            t.len() == 2 * n && n != 32
        },
        r matches Err(SeedError::Hex(HexError::InvalidHexCharacter { c, index })) ==> {
            let t = text::utf8(text::trimmed_end(text::trimmed_start(hex_str@)));
            &&& t.len() % 2 == 0
            &&& index < t.len()
            &&& text::hex_digit(t[index as int]) is None
            &&& forall|i: int| 0 <= i < index ==> text::hex_digit(#[trigger] t[i]) is Some
            &&& c as u32 == t[index as int] as u32
        },
        ({
            let t = text::utf8(text::trimmed_end(text::trimmed_start(hex_str@)));
            t.len() % 2 == 1 <==> r == Err::<[u8; 32], SeedError>(
                SeedError::Hex(HexError::OddLength),
            )
        }),
        ({
            let t = text::utf8(text::trimmed_end(text::trimmed_start(hex_str@)));
            r is Ok <==> t.len() == 64 && forall|i: int|
                0 <= i < 64 ==> text::hex_digit(#[trigger] t[i]) is Some
        }),
{
    let trimmed = text::trim(hex_str);
    match text::hex_decode(trimmed) {
        Ok(bytes) => {
            if bytes.len() != 32 {
                return Err(SeedError::Length(bytes.len()));
            }
            let mut seed: [u8; 32] = [0u8; 32];
            for i in 0..32usize
                invariant
                    bytes@.len() == 32,
                    forall|j: int| 0 <= j < i ==> seed[j] == bytes@[j],
            {
                seed[i] = bytes[i];
            }
            assert(seed@ =~= bytes@);
            Ok(seed)
        },
        Err(e) => Err(SeedError::Hex(e)),
    }
}

/// The seed of a proof: what the setting says, or a fresh one where there is no
/// setting.
pub fn seed_from_env_or_fresh(setting: Option<&str>) -> (r: Result<[u8; 32], SeedError>)
    ensures
        setting is None ==> r is Ok,
        setting matches Some(s) ==> seed_result(s@, r),
{
    match setting {
        Some(s) => parse_seed(s),
        None => Ok(fresh_seed()),
    }
}

/// Whether the setting turns blinding on: it is `1`.
pub fn blinding_enabled(setting: Option<&str>) -> (r: bool)
    ensures
        r == (setting matches Some(s) && s@ == "1"@),
{
    text::is_text(setting, "1")
}

/// The coefficients of `P(X) + bp(X) (X^n - 1)`, where `P` has `n` coefficients.
pub open spec fn spliced(p: Seq<int>, bp: Seq<int>) -> Seq<int> {
    Seq::new(
        p.len() + bp.len(),
        |i: int|
            if i < p.len() {
                if i < bp.len() {
                    fields::fsub(p[i], bp[i])
                } else {
                    p[i]
                }
            } else {
                bp[i - p.len()]
            },
    )
}

/// Add `bp(X) (X^n - 1)` to a polynomial of `n` coefficients in place.
pub fn splice_blinding(p: &mut Vec<Fr>, bp: &[Fr])
    requires
        old(p)@.len() >= bp@.len(),
        fields::all_wf(old(p)@),
        fields::all_wf(bp@),
    ensures
        fields::all_wf(final(p)@),
        fields::vals(final(p)@) == spliced(fields::vals(old(p)@), fields::vals(bp@)),
{
    let ghost start = p@;
    let n = bp.len();
    for i in 0..n
        invariant
            n == bp@.len(),
            n <= start.len(),
            p@.len() == start.len(),
            fields::all_wf(start),
            fields::all_wf(bp@),
            forall|j: int|
                0 <= j < p@.len() ==> (#[trigger] p@[j]).wf() && (if j < i {
                    p@[j]@ == fields::fsub(start[j]@, bp@[j]@)
                } else {
                    p@[j] == start[j]
                }),
    {
        let x = p[i].sub(&bp[i]);
        p.set(i, x);
    }
    let ghost lowered = p@;
    for i in 0..n
        invariant
            n == bp@.len(),
            fields::all_wf(bp@),
            fields::all_wf(lowered),
            lowered.len() == start.len(),
            p@ == lowered + bp@.take(i as int),
    {
        p.push(bp[i]);
        assert(p@ =~= lowered + bp@.take(i + 1));
    }
    proof {
        assert(bp@.take(n as int) =~= bp@);
        assert(fields::vals(p@) =~= spliced(fields::vals(start), fields::vals(bp@)));
    }
}

/// The terms of `bp` at an offset.
proof fn lemma_shifted_terms(f: spec_fn(int) -> int, n: nat, m: nat)
    ensures
        sums::sum(f, n + m) == sums::sum(f, n) + sums::sum(|i: int| f(n + i), m),
    decreases m,
{
    let g = |i: int| f(n + i);
    if m > 0 {
        lemma_shifted_terms(f, n, (m - 1) as nat);
        assert(sums::sum(f, n + m) == sums::sum(f, (n + m - 1) as nat) + f(n + m - 1));
        assert(sums::sum(g, m) == sums::sum(g, (m - 1) as nat) + g(m - 1));
    }
}

/// At every point, blinding adds `bp(x) (x^n - 1)`.
pub proof fn law_blinding_adds_vanishing(p: Seq<int>, bp: Seq<int>, x: int)
    requires
        p.len() >= bp.len(),
    ensures
        polynomial::feval(spliced(p, bp), x) == (polynomial::peval(p, x) + polynomial::peval(bp, x)
            * (pow(x, p.len()) - 1)) % fields::fr_modulus(),
{
    fields::lemma_fr_modulus();
    let m = fields::fr_modulus();
    let n = p.len();
    let k = bp.len();
    let s = spliced(p, bp);
    let f = |i: int| polynomial::coeff(s, i) * pow(x, i as nat);
    polynomial::lemma_peval_sum(s, x, n + k);
    lemma_shifted_terms(f, n, k);
    let high = |i: int| f(n + i);
    // The terms from n on are x^n bp(x).
    let b = |i: int| polynomial::coeff(bp, i) * pow(x, i as nat);
    let xb = |i: int| pow(x, n) * b(i);
    assert forall|i: int| 0 <= i < k implies #[trigger] high(i) == xb(i) by {
        lemma_pow_adds(x, n, i as nat);
        let c = bp[i];
        let u = pow(x, n);
        let v = pow(x, i as nat);
        assert(c * (u * v) == u * (c * v)) by (nonlinear_arith);
        assert(s[n + i] == c);
    }
    sums::lemma_sum_eq(high, xb, k);
    sums::lemma_sum_scale(b, pow(x, n), k);
    polynomial::lemma_peval_sum(bp, x, k);
    // The terms below n are p(x) - bp(x).
    let a = |i: int| polynomial::coeff(p, i) * pow(x, i as nat);
    let nb = |i: int| (-1) * b(i);
    let ab = |i: int| a(i) + nb(i);
    assert forall|i: int| 0 <= i < n implies #[trigger] f(i) % m == ab(i) % m by {
        let v = pow(x, i as nat);
        if i < k {
            assert(s[i] == fields::fsub(p[i], bp[i]));
            modular::lemma_mod_idem(p[i] - bp[i], m);
            modular::lemma_mul_cong(s[i], v, p[i] - bp[i], v, m);
            let (c, d) = (p[i], bp[i]);
            assert((c - d) * v == c * v + (-1) * (d * v)) by (nonlinear_arith);
        } else {
            assert(s[i] == p[i]);
            assert((-1) * (0 * v) == 0) by (nonlinear_arith);
        }
    }
    sums::lemma_sum_cong(f, ab, n, m);
    sums::lemma_sum_add(a, nb, n);
    sums::lemma_sum_scale(b, -1, n);
    polynomial::lemma_peval_sum(p, x, n);
    polynomial::lemma_peval_sum(bp, x, n);
    let px = polynomial::peval(p, x);
    let bx = polynomial::peval(bp, x);
    modular::lemma_add_cong(
        sums::sum(f, n),
        pow(x, n) * bx,
        px - bx,
        pow(x, n) * bx,
        m,
    );
    let u = pow(x, n);
    assert(px - bx + u * bx == px + bx * (u - 1)) by (nonlinear_arith);
}

/// Blinding leaves the values at the n-th roots of unity as they are.
pub proof fn law_blinding_vanishes_on_domain(p: Seq<int>, bp: Seq<int>, x: int)
    requires
        p.len() >= bp.len(),
        fields::fpow(x, p.len()) == 1,
    ensures
        polynomial::feval(spliced(p, bp), x) == polynomial::feval(p, x),
{
    fields::lemma_fr_modulus();
    let m = fields::fr_modulus();
    law_blinding_adds_vanishing(p, bp, x);
    let u = pow(x, p.len());
    let bx = polynomial::peval(bp, x);
    lemma_small_mod(1, m as nat);
    lemma_small_mod(0, m as nat);
    modular::lemma_sub_cong(u, 1, 1, 1, m);
    modular::lemma_mul_cong(bx, u - 1, bx, 0, m);
    assert(bx * 0 == 0);
    modular::lemma_add_cong(
        polynomial::peval(p, x),
        bx * (u - 1),
        polynomial::peval(p, x),
        0,
        m,
    );
}

/// Blinding by zeros changes no value anywhere.
pub proof fn law_zero_blinding(p: Seq<int>, k: nat, x: int)
    requires
        p.len() >= k,
    ensures
        polynomial::feval(spliced(p, Seq::new(k, |i: int| 0int)), x) == polynomial::feval(p, x),
{
    let bp = Seq::new(k, |i: int| 0int);
    law_blinding_adds_vanishing(p, bp, x);
    let b = |i: int| polynomial::coeff(bp, i) * pow(x, i as nat);
    polynomial::lemma_peval_sum(bp, x, k);
    assert forall|i: int| 0 <= i < k implies #[trigger] b(i) == 0 by {
        assert(0 * pow(x, i as nat) == 0);
    }
    sums::lemma_sum_zero(b, k);
    assert(0 * (pow(x, p.len()) - 1) == 0);
}

} // verus!
