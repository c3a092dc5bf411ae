//! Numbers as byte strings.

use crate::limbs;
use vstd::arithmetic::div_mod::*;
use vstd::arithmetic::mul::*;
use vstd::arithmetic::power::*;
use vstd::prelude::*;

verus! {

/// The number that a big-endian byte string stands for.
pub open spec fn be_value(s: Seq<u8>) -> int
    decreases s.len(),
{
    if s.len() == 0 {
        0
    } else {
        be_value(s.drop_last()) * 256 + s.last()
    }
}

/// The number that a little-endian byte string stands for.
pub open spec fn le_value(s: Seq<u8>) -> int {
    be_value(s.reverse())
}

/// The last `n` big-endian bytes of a number.
pub open spec fn be_bytes(v: int, n: nat) -> Seq<u8>
    decreases n,
{
    if n == 0 {
        seq![]
    } else {
        be_bytes(v / 256, (n - 1) as nat).push((v % 256) as u8)
    }
}

/// The first `n` little-endian bytes of a number.
pub open spec fn le_bytes(v: int, n: nat) -> Seq<u8> {
    be_bytes(v, n).reverse()
}

/// `be_bytes` gives as many bytes as it is asked for.
pub proof fn lemma_be_bytes_len(v: int, n: nat)
    ensures
        be_bytes(v, n).len() == n,
        le_bytes(v, n).len() == n,
    decreases n,
{
    if n > 0 {
        lemma_be_bytes_len(v / 256, (n - 1) as nat);
    }
}

/// A byte string stands for a number below a power of 256.
pub proof fn lemma_be_value_bound(s: Seq<u8>)
    ensures
        0 <= be_value(s) < pow(256, s.len()),
    decreases s.len(),
{
    reveal(pow);
    if s.len() > 0 {
        lemma_be_value_bound(s.drop_last());
    }
}

/// Writing a number out and reading it back gives it again: the bytes of the
/// number that a byte string stands for are that byte string.
pub proof fn lemma_be_bytes_of_value(s: Seq<u8>)
    ensures
        be_bytes(be_value(s), s.len()) == s,
    decreases s.len(),
{
    if s.len() > 0 {
        let t = s.drop_last();
        lemma_be_bytes_of_value(t);
        let v = be_value(t) * 256 + s.last();
        assert(v / 256 == be_value(t) && v % 256 == s.last());
        assert(t.push(s.last()) =~= s);
    }
    assert(be_bytes(be_value(s), s.len()) =~= s);
}

/// A number that fits into the bytes is what they stand for.
pub proof fn lemma_be_value_of_bytes(v: int, n: nat)
    requires
        0 <= v < pow(256, n),
    ensures
        be_value(be_bytes(v, n)) == v,
        le_value(le_bytes(v, n)) == v,
    decreases n,
{
    reveal(pow);
    if n > 0 {
        lemma_be_value_of_bytes(v / 256, (n - 1) as nat);
        assert(be_bytes(v, n).drop_last() =~= be_bytes(v / 256, (n - 1) as nat));
        assert(v == 256 * (v / 256) + v % 256);
    }
    assert(be_bytes(v, n).reverse().reverse() =~= be_bytes(v, n));
}

/// The value of a concatenation.
pub proof fn lemma_be_value_concat(a: Seq<u8>, b: Seq<u8>)
    ensures
        be_value(a + b) == be_value(a) * pow(256, b.len()) + be_value(b),
    decreases b.len(),
{
    reveal(pow);
    if b.len() == 0 {
        assert(a + b =~= a);
    } else {
        let c = b.drop_last();
        lemma_be_value_concat(a, c);
        assert((a + b).drop_last() =~= a + c);
        let x = be_value(a);
        let q = pow(256, c.len());
        assert((x * q + be_value(c)) * 256 + b.last() == x * (256 * q) + (be_value(c) * 256
            + b.last())) by (nonlinear_arith);
    }
}

/// The value of four bytes, written out.
pub proof fn lemma_be_value_4(s: Seq<u8>)
    requires
        s.len() == 4,
    ensures
        be_value(s) == 0x1000000int * s[0] + 0x10000int * s[1] + 0x100int * s[2] + s[3],
{
    reveal_with_fuel(be_value, 5);
    let s3 = s.drop_last();
    let s2 = s3.drop_last();
    let s1 = s2.drop_last();
    assert(s1.drop_last().len() == 0);
}

/// The value of eight bytes, written out.
pub proof fn lemma_be_value_8(s: Seq<u8>)
    requires
        s.len() == 8,
    ensures
        be_value(s) == 0x100000000000000int * s[0] + 0x1000000000000int * s[1] + 0x10000000000int
            * s[2] + 0x100000000int * s[3] + 0x1000000int * s[4] + 0x10000int * s[5] + 0x100int
            * s[6] + s[7],
{
    let a = s.subrange(0, 4);
    let b = s.subrange(4, 8);
    assert(s =~= a + b);
    lemma_be_value_concat(a, b);
    lemma_be_value_4(a);
    lemma_be_value_4(b);
    assert(pow(256, 4) == 0x100000000) by {
        reveal(pow);
        reveal_with_fuel(pow, 5);
    }
}

/// Two to the 64 and its powers as powers of 256.
pub proof fn lemma_pow_256()
    ensures
        pow(256, 8) == 0x1_0000000000000000int,
        pow(256, 16) == 0x1_0000000000000000_0000000000000000int,
        pow(256, 24) == 0x1_0000000000000000_0000000000000000_0000000000000000int,
        pow(256, 32) == limbs::mont_r(),
{
    let w = pow(256, 8);
    assert(w == 0x1_0000000000000000int) by {
        reveal(pow);
        reveal_with_fuel(pow, 9);
    }
    lemma_pow_adds(256, 8, 8);
    lemma_pow_adds(256, 8, 16);
    lemma_pow_adds(256, 8, 24);
    assert(w * w == 0x1_0000000000000000_0000000000000000int) by (nonlinear_arith)
        requires
            w == 0x1_0000000000000000int,
    ;
    assert(w * 0x1_0000000000000000_0000000000000000int
        == 0x1_0000000000000000_0000000000000000_0000000000000000int);
}

/// The value of 32 bytes, by limbs.
pub proof fn lemma_be_value_32(s: Seq<u8>)
    requires
        s.len() == 32,
    ensures
        be_value(s) == be_value(s.subrange(24, 32)) + 0x1_0000000000000000int * be_value(
            s.subrange(16, 24),
        ) + 0x1_0000000000000000_0000000000000000int * be_value(s.subrange(8, 16))
            + 0x1_0000000000000000_0000000000000000_0000000000000000int * be_value(
            s.subrange(0, 8),
        ),
{
    lemma_pow_256();
    let a = s.subrange(0, 8);
    let b = s.subrange(8, 16);
    let c = s.subrange(16, 24);
    let d = s.subrange(24, 32);
    assert(s =~= (a + b + c) + d);
    lemma_be_value_concat(a + b + c, d);
    lemma_be_value_concat(a + b, c);
    lemma_be_value_concat(a, b);
    let w = pow(256, 8);
    let (x, y, z, u) = (be_value(a), be_value(b), be_value(c), be_value(d));
    assert(((x * w + y) * w + z) * w + u == u + 0x1_0000000000000000int * z
        + 0x1_0000000000000000_0000000000000000int * y
        + 0x1_0000000000000000_0000000000000000_0000000000000000int * x) by (nonlinear_arith)
        requires
            w == 0x1_0000000000000000int,
    ;
}

/// The eight big-endian bytes of a limb.
pub fn u64_to_be(x: u64) -> (r: [u8; 8])
    ensures
        be_value(r@) == x,
{
    let r: [u8; 8] = [
        (x >> 56) as u8,
        (x >> 48) as u8,
        (x >> 40) as u8,
        (x >> 32) as u8,
        (x >> 24) as u8,
        (x >> 16) as u8,
        (x >> 8) as u8,
        x as u8,
    ];
    proof {
        let (b0, b1, b2, b3, b4, b5, b6, b7) = (r[0], r[1], r[2], r[3], r[4], r[5], r[6], r[7]);
        assert(0x100000000000000int * b0 + 0x1000000000000int * b1 + 0x10000000000int * b2
            + 0x100000000int * b3 + 0x1000000int * b4 + 0x10000int * b5 + 0x100int * b6 + b7 == x)
            by (bit_vector)
            requires
                b0 == (x >> 56) as u8,
                b1 == (x >> 48) as u8,
                b2 == (x >> 40) as u8,
                b3 == (x >> 32) as u8,
                b4 == (x >> 24) as u8,
                b5 == (x >> 16) as u8,
                b6 == (x >> 8) as u8,
                b7 == x as u8,
        ;
        lemma_be_value_8(r@);
    }
    r
}

/// The limb that eight big-endian bytes at an offset stand for.
pub fn u64_from_be(s: &[u8], at: usize) -> (r: u64)
    requires
        at + 8 <= s.len(),
    ensures
        r == be_value(s@.subrange(at as int, at + 8)),
{
    proof {
        lemma_be_value_8(s@.subrange(at as int, at + 8));
    }
    0x100000000000000u64 * (s[at] as u64) + 0x1000000000000u64 * (s[at + 1] as u64)
        + 0x10000000000u64 * (s[at + 2] as u64) + 0x100000000u64 * (s[at + 3] as u64)
        + 0x1000000u64 * (s[at + 4] as u64) + 0x10000u64 * (s[at + 5] as u64) + 0x100u64 * (
    s[at + 6] as u64) + (s[at + 7] as u64)
}

/// The limbs of the number that 32 big-endian bytes at an offset stand for.
pub fn limbs_from_be(s: &[u8], at: usize) -> (r: [u64; 4])
    requires
        at + 32 <= s.len(),
    ensures
        limbs::value(r) == be_value(s@.subrange(at as int, at + 32)),
{
    proof {
        let t = s@.subrange(at as int, at + 32);
        lemma_be_value_32(t);
        assert(t.subrange(0, 8) =~= s@.subrange(at as int, at + 8));
        assert(t.subrange(8, 16) =~= s@.subrange(at + 8, at + 16));
        assert(t.subrange(16, 24) =~= s@.subrange(at + 16, at + 24));
        assert(t.subrange(24, 32) =~= s@.subrange(at + 24, at + 32));
    }
    [
        u64_from_be(s, at + 24),
        u64_from_be(s, at + 16),
        u64_from_be(s, at + 8),
        u64_from_be(s, at),
    ]
}

/// The 32 big-endian bytes of the number that four limbs stand for.
pub fn limbs_to_be(a: &[u64; 4]) -> (r: [u8; 32])
    ensures
        be_value(r@) == limbs::value(*a),
        r@ == be_bytes(limbs::value(*a), 32),
{
    let d = u64_to_be(a[3]);
    let c = u64_to_be(a[2]);
    let b = u64_to_be(a[1]);
    let e = u64_to_be(a[0]);
    let r: [u8; 32] = [
        d[0], d[1], d[2], d[3], d[4], d[5], d[6], d[7],
        c[0], c[1], c[2], c[3], c[4], c[5], c[6], c[7],
        b[0], b[1], b[2], b[3], b[4], b[5], b[6], b[7],
        e[0], e[1], e[2], e[3], e[4], e[5], e[6], e[7],
    ];
    proof {
        assert(r@.subrange(0, 8) =~= d@);
        assert(r@.subrange(8, 16) =~= c@);
        assert(r@.subrange(16, 24) =~= b@);
        assert(r@.subrange(24, 32) =~= e@);
        lemma_be_value_32(r@);
        lemma_be_bytes_of_value(r@);
    }
    r
}

/// The bytes in reverse order.
pub fn reverse_32(a: &[u8; 32]) -> (r: [u8; 32])
    ensures
        r@ == a@.reverse(),
{
    let mut r: [u8; 32] = [0u8; 32];
    for i in 0..32usize
        invariant
            forall|j: int| 0 <= j < i ==> r[j] == a[31 - j],
    {
        r[i] = a[31 - i];
    }
    assert(r@ =~= a@.reverse());
    r
}

/// Append bytes to a vector.
pub fn append(v: &mut Vec<u8>, s: &[u8])
    ensures
        final(v)@ == old(v)@ + s@,
{
    v.extend_from_slice(s);
    assert(v@ =~= old(v)@ + s@);
}

/// The low 32 bits of a length as four big-endian bytes.
pub fn len_to_be(n: usize) -> (r: [u8; 4])
    ensures
        r@ == be_bytes(n as int, 4),
{
    let r: [u8; 4] = [
        (n / 0x1000000 % 256) as u8,
        (n / 0x10000 % 256) as u8,
        (n / 0x100 % 256) as u8,
        (n % 256) as u8,
    ];
    proof {
        reveal_with_fuel(be_bytes, 5);
        let n = n as int;
        assert(n / 256 / 256 == n / 0x10000);
        assert(n / 256 / 256 / 256 == n / 0x1000000);
        assert(r@ =~= be_bytes(n, 4));
    }
    r
}

/// Little-endian bytes behind others stand for as many times the power of 256 that those
/// take; big-endian bytes have it the other way round. One byte stands for itself.
pub proof fn law_byte_order(a: Seq<u8>, b: Seq<u8>, x: u8)
    ensures
        be_value(seq![x]) == x,
        le_value(seq![x]) == x,
        be_value(a + b) == be_value(a) * pow(256, b.len()) + be_value(b),
        le_value(a + b) == le_value(a) + pow(256, a.len()) * le_value(b),
{
    reveal_with_fuel(be_value, 2);
    assert(seq![x].drop_last() =~= seq![]);
    assert(seq![x].reverse() =~= seq![x]);
    lemma_be_value_concat(a, b);
    assert((a + b).reverse() =~= b.reverse() + a.reverse());
    lemma_be_value_concat(b.reverse(), a.reverse());
    lemma_mul_is_commutative(le_value(b), pow(256, a.len()));
}

} // verus!
