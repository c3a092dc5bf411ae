//! Hashing of commitments to the scalar field.
//!
//! `expand_message_xmd` of RFC 9380 with SHA-256 gives 48 bytes, which are reduced
//! modulo the field order.

use crate::bytes;
use crate::fields;
use crate::fields::Fr;
use crate::limbs;
use crate::modular;
use crate::sha256;
use crate::text;
use vstd::arithmetic::div_mod::*;
use vstd::prelude::*;

verus! {

/// The name that keeps hashes of commitments apart from other hashes.
pub open spec fn bsb22_dst() -> Seq<u8> {
    text::utf8("BSB22-Plonk"@)
}

/// The name that ends every hash input: its bytes, then its length.
pub open spec fn xmd_suffix(dst: Seq<u8>) -> Seq<u8> {
    dst + seq![dst.len() as u8]
}

/// The digest of the message that every block is made from.
pub open spec fn xmd_seed(msg: Seq<u8>, dst: Seq<u8>, len: nat) -> Seq<u8> {
    sha256::sha256(
        Seq::new(64, |i: int| 0u8) + msg + seq![(len / 256) as u8, (len % 256) as u8, 0u8]
            + xmd_suffix(dst),
    )
}

/// The bytewise exclusive or of two digests.
pub open spec fn xor_bytes(a: Seq<u8>, b: Seq<u8>) -> Seq<u8> {
    Seq::new(32, |i: int| a[i] ^ b[i])
}

/// The block with a number from one up.
pub open spec fn xmd_block(seed: Seq<u8>, dst: Seq<u8>, i: nat) -> Seq<u8>
    decreases i,
{
    if i <= 1 {
        sha256::sha256(seed + seq![1u8] + xmd_suffix(dst))
    } else {
        sha256::sha256(
            xor_bytes(seed, xmd_block(seed, dst, (i - 1) as nat)) + seq![i as u8] + xmd_suffix(dst),
        )
    }
}

/// The first blocks, one after the other.
pub open spec fn xmd_blocks(seed: Seq<u8>, dst: Seq<u8>, n: nat) -> Seq<u8>
    decreases n,
{
    if n == 0 {
        seq![]
    } else {
        xmd_blocks(seed, dst, (n - 1) as nat) + xmd_block(seed, dst, n)
    }
}

/// `expand_message_xmd`: the first `len` bytes of the blocks.
pub open spec fn xmd(msg: Seq<u8>, dst: Seq<u8>, len: nat) -> Seq<u8> {
    xmd_blocks(xmd_seed(msg, dst, len), dst, (len + 31) / 32).take(len as int)
}

/// The bytes behind the digest that every block is made from: 64 zeros, the whole
/// message, the length that is asked for as two big-endian bytes, a zero, the name and
/// the length of the name.
pub open spec fn is_seed_input(x: Seq<u8>, msg: Seq<u8>, dst: Seq<u8>, len: int) -> bool {
    let m: int = 64 + msg.len() as int;
    &&& x.len() == m + 3 + dst.len() + 1
    &&& forall|i: int| 0 <= i < 64 ==> #[trigger] x[i] == 0
    &&& x.subrange(64, m) == msg
    &&& bytes::be_value(x.subrange(m, m + 2)) == len
    &&& x[m + 2] == 0
    &&& x.subrange(m + 3, m + 3 + dst.len()) == dst
    &&& x.last() == dst.len()
}

/// The bytes behind a block: 32 bytes that it starts from, its number, the name and the
/// length of the name.
pub open spec fn is_block_input(x: Seq<u8>, start: Seq<u8>, number: int, dst: Seq<u8>) -> bool {
    &&& x.len() == 34 + dst.len()
    &&& x.subrange(0, 32) == start
    &&& x[32] == number
    &&& x.subrange(33, (33 + dst.len()) as int) == dst
    &&& x.last() == dst.len()
}

/// The `k`-th of these digests is that of block `k`: the first block starts from the
/// digest of the message, each later one from the exclusive or of that digest with the
/// block before.
pub open spec fn is_block_of(d: Seq<Seq<u8>>, k: int, dst: Seq<u8>) -> bool {
    exists|x: Seq<u8>, start: Seq<u8>|
        {
            &&& #[trigger] is_block_input(x, start, k, dst)
            &&& d[k] == sha256::sha256(x)
            &&& forall|i: int|
                0 <= i < 32 ==> #[trigger] start[i] == (if k == 1 {
                    d[0][i]
                } else {
                    d[0][i] ^ d[k - 1][i]
                })
        }
}

/// The digests behind an expansion: that of the message, and behind it those of the
/// blocks.
pub open spec fn are_digests(d: Seq<Seq<u8>>, msg: Seq<u8>, dst: Seq<u8>, len: int) -> bool {
    &&& d.len() == 1 + (len + 31) / 32
    &&& forall|k: int| 0 <= k < d.len() ==> (#[trigger] d[k]).len() == 32
    &&& exists|x: Seq<u8>| #[trigger] is_seed_input(x, msg, dst, len) && d[0] == sha256::sha256(x)
    &&& forall|k: int| 1 <= k < d.len() ==> #[trigger] is_block_of(d, k, dst)
}

/// The bytes of a message under a name: the blocks, one after the other, cut off.
pub open spec fn is_expansion(b: Seq<u8>, msg: Seq<u8>, dst: Seq<u8>, len: int) -> bool {
    &&& b.len() == len
    &&& exists|d: Seq<Seq<u8>>|
        {
            &&& #[trigger] are_digests(d, msg, dst, len)
            &&& forall|i: int| 0 <= i < len ==> #[trigger] b[i] == d[1 + i / 32][i % 32]
        }
}

fn xor_32(a: &[u8; 32], b: &[u8; 32]) -> (r: [u8; 32])
    ensures
        r@ == xor_bytes(a@, b@),
{
    let mut r: [u8; 32] = [0u8; 32];
    for i in 0..32usize
        invariant
            forall|j: int| 0 <= j < i ==> r[j] == a[j] ^ b[j],
    {
        r[i] = a[i] ^ b[i];
    }
    assert(r@ =~= xor_bytes(a@, b@));
    r
}

fn hash_block(start: &[u8; 32], i: u8, dst: &[u8]) -> (r: [u8; 32])
    requires
        dst.len() <= 255,
    ensures
        r@ == sha256::sha256(start@ + seq![i] + xmd_suffix(dst@)),
        exists|x: Seq<u8>|
            #[trigger] is_block_input(x, start@, i as int, dst@) && r@ == sha256::sha256(x),
{
    let mut input: Vec<u8> = Vec::new();
    bytes::append(&mut input, start.as_slice());
    input.push(i);
    bytes::append(&mut input, dst);
    input.push(dst.len() as u8);
    assert(input@ =~= start@ + seq![i] + xmd_suffix(dst@));
    proof {
        assert(input@.subrange(0, 32) =~= start@);
        assert(input@.subrange(33, (33 + dst@.len()) as int) =~= dst@);
        assert(is_block_input(input@, start@, i as int, dst@));
    }
    sha256::sha256_digest(input.as_slice())
}

/// `expand_message_xmd` with SHA-256: `len` bytes from a message under a name.
pub fn expand_msg_xmd(msg: &[u8], dst: &[u8], len: usize) -> (r: Vec<u8>)
    requires
        len <= 255 * 32,
        dst.len() <= 255,
    ensures
        r@ == xmd(msg@, dst@, len as nat),
        r@.len() == len,
        is_expansion(r@, msg@, dst@, len as int),
{
    let ell: usize = (len + 31) / 32;
    let mut input: Vec<u8> = vec![0u8; 64];
    bytes::append(&mut input, msg);
    input.push((len / 256) as u8);
    input.push((len % 256) as u8);
    input.push(0u8);
    bytes::append(&mut input, dst);
    input.push(dst.len() as u8);
    assert(input@ =~= Seq::new(64, |i: int| 0u8) + msg@ + seq![
        (len as nat / 256) as u8,
        (len as nat % 256) as u8,
        0u8,
    ] + xmd_suffix(dst@));
    proof {
        let m: int = 64 + msg@.len() as int;
        assert(input@.subrange(64, m) =~= msg@);
        assert(input@.subrange(m + 3, m + 3 + dst@.len()) =~= dst@);
        lemma_be_value_2(input@.subrange(m, m + 2));
        assert(is_seed_input(input@, msg@, dst@, len as int));
    }
    let b0 = sha256::sha256_digest(input.as_slice());
    let mut previous = hash_block(&b0, 1u8, dst);
    let mut res: Vec<u8> = Vec::new();
    let ghost mut d: Seq<Seq<u8>> = seq![b0@];
    for k in 0..ell
        invariant
            d.len() == 1 + k,
            d[0] == b0@,
            k > 0 ==> d[k as int] == previous@,
            forall|j: int| 0 <= j < d.len() ==> (#[trigger] d[j]).len() == 32,
            forall|j: int| 1 <= j < d.len() ==> #[trigger] is_block_of(d, j, dst@),
            forall|i: int| 0 <= i < 32 * k ==> #[trigger] res@[i] == d[1 + i / 32][i % 32],
            k == 0 ==> exists|x: Seq<u8>|
                #[trigger] is_block_input(x, b0@, 1, dst@) && previous@ == sha256::sha256(x),
            ell <= 255,
            dst.len() <= 255,
            res@ == xmd_blocks(b0@, dst@, k as nat),
            res@.len() == 32 * k,
            previous@ == xmd_block(b0@, dst@, if k == 0 { 1 } else { k as nat }),
    {
        if k > 0 {
            let mixed = xor_32(&b0, &previous);
            previous = hash_block(&mixed, (k + 1) as u8, dst);
        }
        proof {
            let e = d.push(previous@);
            assert(is_block_of(e, k + 1, dst@)) by {
                if k == 0 {
                    let x = choose|x: Seq<u8>|
                        #[trigger] is_block_input(x, b0@, 1, dst@) && previous@ == sha256::sha256(
                            x,
                        );
                    assert(is_block_input(x, b0@, k + 1, dst@));
                }
            }
            assert forall|j: int| 1 <= j < e.len() implies #[trigger] is_block_of(e, j, dst@) by {
                if j < d.len() {
                    lemma_block_kept(d, previous@, j, dst@);
                }
            }
            d = e;
        }
        let ghost before = res@;
        bytes::append(&mut res, previous.as_slice());
        assert forall|i: int| 0 <= i < 32 * (k + 1) implies #[trigger] res@[i] == d[1 + i / 32][i
            % 32] by {
            if i < 32 * k {
                assert(before[i] == res@[i]);
            } else {
                assert(i / 32 == k && i % 32 == i - 32 * k);
            }
        }
    }
    res.truncate(len);
    proof {
        assert(are_digests(d, msg@, dst@, len as int));
    }
    res
}

/// The residue of the number that 48 big-endian bytes stand for.
pub fn fr_from_be_bytes_mod_order_wide(bytes: &[u8]) -> (r: Fr)
    requires
        bytes.len() >= 48,
    ensures
        r.wf(),
        r@ == bytes::be_value(bytes@.take(48)) % fields::fr_modulus(),
{
    let mut low_bytes: [u8; 32] = [0u8; 32];
    for i in 0..32usize
        invariant
            bytes.len() >= 48,
            forall|j: int| 0 <= j < i ==> low_bytes[j] == bytes[16 + j],
    {
        low_bytes[i] = bytes[16 + i];
    }
    let low = Fr::from_be_bytes_mod_order(&low_bytes);
    let mut high_bytes: [u8; 32] = [0u8; 32];
    for i in 0..16usize
        invariant
            bytes.len() >= 48,
            forall|j: int| 0 <= j < 16 ==> high_bytes[j] == 0,
            forall|j: int| 0 <= j < i ==> high_bytes[16 + j] == bytes[j],
    {
        high_bytes[16 + i] = bytes[i];
    }
    let high = Fr::from_be_bytes_mod_order(&high_bytes);
    let two_256 = Fr(fields::FR_R2);
    proof {
        lemma_two_256();
    }
    let shifted = high.mul(&two_256);
    let r = shifted.add(&low);
    proof {
        let p = fields::fr_modulus();
        let h = bytes::be_value(bytes@.subrange(0, 16));
        let l = bytes::be_value(low_bytes@);
        let w = limbs::mont_r();
        assert(low_bytes@ =~= bytes@.subrange(16, 48));
        let zeros = Seq::new(16, |i: int| 0u8);
        assert forall|j: int| 0 <= j < 32 implies #[trigger] high_bytes[j] == (zeros
            + bytes@.subrange(0, 16))[j] by {
            if j >= 16 {
                assert(high_bytes[16 + (j - 16)] == bytes[j - 16]);
            }
        }
        assert(high_bytes@ =~= zeros + bytes@.subrange(0, 16));
        bytes::lemma_be_value_concat(zeros, bytes@.subrange(0, 16));
        lemma_be_value_zeros(16);
        assert(bytes@.take(48) =~= bytes@.subrange(0, 16) + bytes@.subrange(16, 48));
        bytes::lemma_be_value_concat(bytes@.subrange(0, 16), bytes@.subrange(16, 48));
        bytes::lemma_pow_256();
        fields::lemma_fr_modulus();
        modular::lemma_mod_idem(h, p);
        modular::lemma_mod_idem(w, p);
        modular::lemma_mod_idem(l, p);
        modular::lemma_mul_cong(h % p, w % p, h, w, p);
        modular::lemma_mod_idem((h % p) * (w % p), p);
        modular::lemma_add_cong(shifted@, low@, h * w, l, p);
    }
    r
}

proof fn lemma_be_value_2(s: Seq<u8>)
    requires
        s.len() == 2,
    ensures
        bytes::be_value(s) == 256 * s[0] + s[1],
{
    reveal_with_fuel(bytes::be_value, 3);
    assert(s.drop_last().drop_last().len() == 0);
}

proof fn lemma_block_kept(d: Seq<Seq<u8>>, last: Seq<u8>, k: int, dst: Seq<u8>)
    requires
        1 <= k < d.len(),
        is_block_of(d, k, dst),
    ensures
        is_block_of(d.push(last), k, dst),
{
    let e = d.push(last);
    let (x, start) = choose|x: Seq<u8>, start: Seq<u8>|
        {
            &&& #[trigger] is_block_input(x, start, k, dst)
            &&& d[k] == sha256::sha256(x)
            &&& forall|i: int|
                0 <= i < 32 ==> #[trigger] start[i] == (if k == 1 {
                    d[0][i]
                } else {
                    d[0][i] ^ d[k - 1][i]
                })
        };
    assert(e[k] == d[k] && e[0] == d[0] && e[k - 1] == d[k - 1]);
    assert(is_block_input(x, start, k, dst));
}

/// The digest that every block is made from is that of a byte string which holds the
/// whole message, the length, and the name.
pub proof fn law_seed_input(msg: Seq<u8>, dst: Seq<u8>, len: nat) -> (x: Seq<u8>)
    requires
        len <= 0xffff,
        dst.len() <= 255,
    ensures
        is_seed_input(x, msg, dst, len as int),
        x.len() == 64 + msg.len() + 3 + dst.len() + 1,
        forall|i: int| 0 <= i < 64 ==> #[trigger] x[i] == 0,
        x.skip(64).take(msg.len() as int) == msg,
        bytes::be_value(x.skip(64 + msg.len() as int).take(2)) == len,
        x[66 + msg.len() as int] == 0,
        x.skip(67 + msg.len() as int).take(dst.len() as int) == dst,
        x.last() == dst.len(),
        xmd_seed(msg, dst, len) == sha256::sha256(x),
{
    let x = Seq::new(64, |i: int| 0u8) + msg + seq![(len / 256) as u8, (len % 256) as u8, 0u8]
        + xmd_suffix(dst);
    let m: int = 64 + msg.len() as int;
    assert(x.subrange(64, m) =~= msg);
    assert(x.subrange(m + 3, m + 3 + dst.len()) =~= dst);
    lemma_be_value_2(x.subrange(m, m + 2));
    assert(x.skip(64).take(msg.len() as int) =~= msg);
    assert(x.skip(m).take(2) =~= x.subrange(m, m + 2));
    assert(x.skip(m + 3).take(dst.len() as int) =~= dst);
    x
}

/// Two messages are hashed as the same bytes only where they are the same message, under
/// the same name and for the same length: no byte of the message is left out.
pub proof fn law_seed_inputs_differ(
    msg: Seq<u8>,
    other: Seq<u8>,
    dst: Seq<u8>,
    len: nat,
) -> (xs: (Seq<u8>, Seq<u8>))
    requires
        len <= 0xffff,
        dst.len() <= 255,
    ensures
        xmd_seed(msg, dst, len) == sha256::sha256(xs.0),
        xmd_seed(other, dst, len) == sha256::sha256(xs.1),
        xs.0 == xs.1 <==> msg == other,
{
    let x = law_seed_input(msg, dst, len);
    let y = law_seed_input(other, dst, len);
    if msg == other {
        law_seed_input_unique(x, y, msg, dst, len as int);
    }
    (x, y)
}

/// The message, the name and the length leave no choice of the bytes that are hashed.
pub proof fn law_seed_input_unique(x: Seq<u8>, y: Seq<u8>, msg: Seq<u8>, dst: Seq<u8>, len: int)
    requires
        is_seed_input(x, msg, dst, len),
        is_seed_input(y, msg, dst, len),
    ensures
        x == y,
{
    let m: int = 64 + msg.len() as int;
    let xl = x.subrange(m, m + 2);
    let yl = y.subrange(m, m + 2);
    bytes::lemma_be_bytes_of_value(xl);
    bytes::lemma_be_bytes_of_value(yl);
    assert forall|i: int| 0 <= i < x.len() implies x[i] == y[i] by {
        if i < 64 {
        } else if i < m {
            assert(x.subrange(64, m)[i - 64] == y.subrange(64, m)[i - 64]);
        } else if i < m + 2 {
            assert(xl[i - m] == yl[i - m]);
        } else if i == m + 2 {
        } else if i < m + 3 + dst.len() {
            assert(x.subrange(m + 3, m + 3 + dst.len())[i - m - 3] == y.subrange(
                m + 3,
                m + 3 + dst.len(),
            )[i - m - 3]);
        } else {
            assert(x.last() == y.last());
        }
    }
    assert(x =~= y);
}

/// What is hashed for a block: 32 bytes, the number of the block, the whole name and its
/// length. The 32 bytes are the digest of the message for the first block, and its exclusive
/// or with the block before for each later one.
pub proof fn law_block_input(seed: Seq<u8>, dst: Seq<u8>, i: nat) -> (x: Seq<u8>)
    requires
        seed.len() == 32,
        1 <= i <= 255,
        dst.len() <= 255,
    ensures
        xmd_block(seed, dst, i) == sha256::sha256(x),
        x.len() == 34 + dst.len(),
        i == 1 ==> x.take(32) == seed,
        i > 1 ==> forall|j: int|
            0 <= j < 32 ==> #[trigger] x[j] == seed[j] ^ xmd_block(seed, dst, (i - 1) as nat)[j],
        x[32] == i,
        x.skip(33).take(dst.len() as int) == dst,
        x.last() == dst.len(),
{
    let start = if i == 1 {
        seed
    } else {
        xor_bytes(seed, xmd_block(seed, dst, (i - 1) as nat))
    };
    let x = start + seq![i as u8] + xmd_suffix(dst);
    assert(start.len() == 32);
    assert(x.take(32) =~= start);
    assert(x.skip(33).take(dst.len() as int) =~= dst);
    x
}

/// The expansion to 48 bytes is the first block and what fits of the second.
pub proof fn law_expansion_blocks(msg: Seq<u8>, dst: Seq<u8>)
    ensures
        ({
            let seed = xmd_seed(msg, dst, 48);
            xmd(msg, dst, 48) == (xmd_block(seed, dst, 1) + xmd_block(seed, dst, 2)).take(48)
        }),
{
    let seed = xmd_seed(msg, dst, 48);
    reveal_with_fuel(xmd_blocks, 3);
    assert(xmd_blocks(seed, dst, 2) =~= xmd_block(seed, dst, 1) + xmd_block(seed, dst, 2));
}

/// The constant that is the Montgomery form of two to the 256.
proof fn lemma_two_256()
    ensures
        Fr(fields::FR_R2).wf(),
        Fr(fields::FR_R2)@ == limbs::mont_r() % fields::fr_modulus(),
{
    fields::lemma_fr_modulus();
    let p = fields::fr_modulus();
    let w = limbs::mont_r();
    lemma_mod_bound(w, p);
    modular::lemma_mod_idem(w, p);
    modular::lemma_mul_cong(w % p, w, w, w, p);
    limbs::lemma_mont_decode(limbs::value(fields::FR_R2), w % p, p);
}

proof fn lemma_be_value_zeros(n: nat)
    ensures
        bytes::be_value(Seq::new(n, |i: int| 0u8)) == 0,
    decreases n,
{
    if n > 0 {
        lemma_be_value_zeros((n - 1) as nat);
        assert(Seq::new(n, |i: int| 0u8).drop_last() =~= Seq::new((n - 1) as nat, |i: int| 0u8));
    }
}

/// The field element that the 48 bytes of a message under a name give.
pub open spec fn hashed(msg: Seq<u8>) -> int {
    bytes::be_value(xmd(msg, bsb22_dst(), 48)) % fields::fr_modulus()
}

/// The hash of a message is the residue of the 48 bytes that its expansion under the name
/// of these hashes has, whatever the message.
pub proof fn law_hashed(msg: Seq<u8>)
    ensures
        hashed(msg) == bytes::be_value(xmd(msg, text::utf8("BSB22-Plonk"@), 48))
            % fields::fr_modulus(),
        0 <= hashed(msg) < fields::fr_modulus(),
{
    fields::lemma_fr_modulus();
}

/// Hash a commitment, as 64 big-endian bytes, to a field element.
pub fn hash_to_field_bsb22(commitment_bytes: &[u8]) -> (r: Fr)
    ensures
        r.wf(),
        r@ == hashed(commitment_bytes@),
        r@ == bytes::be_value(xmd(commitment_bytes@, text::utf8("BSB22-Plonk"@), 48))
            % fields::fr_modulus(),
        exists|b: Seq<u8>|
            {
                &&& #[trigger] is_expansion(
                    b,
                    commitment_bytes@,
                    text::utf8("BSB22-Plonk"@),
                    48,
                )
                &&& r@ == bytes::be_value(b) % fields::fr_modulus()
            },
{
    let dst = "BSB22-Plonk".as_bytes();
    proof {
        reveal_strlit("BSB22-Plonk");
        vstd::utf8::is_ascii_chars_encode_utf8("BSB22-Plonk"@);
    }
    let wide = expand_msg_xmd(commitment_bytes, dst, 48);
    assert(wide@.take(48) =~= wide@);
    fr_from_be_bytes_mod_order_wide(wide.as_slice())
}

} // verus!
