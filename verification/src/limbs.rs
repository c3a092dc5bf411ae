//! Four-limb modular arithmetic: comparison, addition, subtraction and
//! Montgomery multiplication on little-endian `u64` limbs.

use crate::modular;
use vstd::arithmetic::div_mod::*;
use vstd::arithmetic::mul::*;
use vstd::arithmetic::power::*;
use vstd::arithmetic::power2::*;
use vstd::prelude::*;

verus! {

/// The Montgomery radix, two to the 256.
pub open spec fn mont_r() -> int {
    0x1_0000000000000000_0000000000000000_0000000000000000_0000000000000000int
}

/// The number that four little-endian limbs stand for.
pub open spec fn value(a: [u64; 4]) -> int {
    a[0] + 0x1_0000000000000000int * a[1] + 0x1_0000000000000000_0000000000000000int * a[2]
        + 0x1_0000000000000000_0000000000000000_0000000000000000int * a[3]
}

/// The limbs of a number below two to the 256.
pub open spec fn limbs_of(v: int) -> [u64; 4] {
    [
        (v % 0x1_0000000000000000int) as u64,
        ((v / 0x1_0000000000000000int) % 0x1_0000000000000000int) as u64,
        ((v / 0x1_0000000000000000_0000000000000000int) % 0x1_0000000000000000int) as u64,
        ((v / 0x1_0000000000000000_0000000000000000_0000000000000000int)
            % 0x1_0000000000000000int) as u64,
    ]
}

/// Limbs are determined by the number they stand for.
pub proof fn lemma_value_injective(a: [u64; 4], b: [u64; 4])
    requires
        value(a) == value(b),
    ensures
        a == b,
{
    lemma_digits_injective(
        a[0] as int,
        a[1] as int,
        a[2] as int,
        a[3] as int,
        b[0] as int,
        b[1] as int,
        b[2] as int,
        b[3] as int,
    );
    lemma_limbs_equal(a, b);
}

/// The lowest digit and the rest are determined by the number they stand for.
proof fn lemma_low_digit(x: int, high_x: int, y: int, high_y: int)
    requires
        0 <= x < 0x1_0000000000000000int,
        0 <= y < 0x1_0000000000000000int,
        x + 0x1_0000000000000000int * high_x == y + 0x1_0000000000000000int * high_y,
    ensures
        x == y,
        high_x == high_y,
{
}

/// Four digits are determined by the number they stand for.
proof fn lemma_digits_injective(
    a0: int,
    a1: int,
    a2: int,
    a3: int,
    b0: int,
    b1: int,
    b2: int,
    b3: int,
)
    requires
        0 <= a0 < 0x1_0000000000000000int,
        0 <= a1 < 0x1_0000000000000000int,
        0 <= a2 < 0x1_0000000000000000int,
        0 <= b0 < 0x1_0000000000000000int,
        0 <= b1 < 0x1_0000000000000000int,
        0 <= b2 < 0x1_0000000000000000int,
        a0 + 0x1_0000000000000000int * a1 + 0x1_0000000000000000_0000000000000000int * a2
            + 0x1_0000000000000000_0000000000000000_0000000000000000int * a3 == b0
            + 0x1_0000000000000000int * b1 + 0x1_0000000000000000_0000000000000000int * b2
            + 0x1_0000000000000000_0000000000000000_0000000000000000int * b3,
    ensures
        a0 == b0,
        a1 == b1,
        a2 == b2,
        a3 == b3,
{
    let ha2 = a2 + 0x1_0000000000000000int * a3;
    let hb2 = b2 + 0x1_0000000000000000int * b3;
    let ha1 = a1 + 0x1_0000000000000000int * ha2;
    let hb1 = b1 + 0x1_0000000000000000int * hb2;
    lemma_low_digit(a0, ha1, b0, hb1);
    lemma_low_digit(a1, ha2, b1, hb2);
    lemma_low_digit(a2, a3, b2, b3);
}

proof fn lemma_limbs_equal(a: [u64; 4], b: [u64; 4])
    requires
        a[0] == b[0],
        a[1] == b[1],
        a[2] == b[2],
        a[3] == b[3],
    ensures
        a == b,
{
    assert(a@ =~= b@);
}

/// Four limbs stand for a number from zero up to two to the 256.
pub proof fn lemma_value_bound(a: [u64; 4])
    ensures
        0 <= value(a) < mont_r(),
{
}

/// The limbs of a number stand for it.
pub proof fn lemma_limbs_of(v: int)
    requires
        0 <= v < mont_r(),
    ensures
        value(limbs_of(v)) == v,
{
    let a = limbs_of(v);
    assert(a[0] == v % 0x1_0000000000000000int);
    assert(a[1] == (v / 0x1_0000000000000000int) % 0x1_0000000000000000int);
    assert(a[2] == (v / 0x1_0000000000000000_0000000000000000int) % 0x1_0000000000000000int);
    assert(a[3] == (v / 0x1_0000000000000000_0000000000000000_0000000000000000int)
        % 0x1_0000000000000000int);
}

/// Splits a double-width value into its low and high half.
fn split(x: u128) -> (r: (u64, u64))
    ensures
        r.0 + 0x1_0000000000000000int * r.1 == x,
{
    let lo: u64 = x as u64;
    let hi: u64 = (x >> 64) as u64;
    assert(lo + 0x1_0000000000000000int * hi == x) by (bit_vector)
        requires
            lo == x as u64,
            hi == (x >> 64) as u64,
    ;
    (lo, hi)
}

/// Adds two limbs and a carry: the low limb and the carry out.
fn add_carry(a: u64, b: u64, carry: u64) -> (r: (u64, u64))
    requires
        carry <= 1,
    ensures
        r.1 <= 1,
        r.0 + 0x1_0000000000000000int * r.1 == a + b + carry,
{
    split((a as u128) + (b as u128) + (carry as u128))
}

/// Subtracts a limb and a borrow from a limb: the low limb and the borrow out.
fn sub_borrow(a: u64, b: u64, borrow: u64) -> (r: (u64, u64))
    requires
        borrow <= 1,
    ensures
        r.1 <= 1,
        r.0 - 0x1_0000000000000000int * r.1 == a - b - borrow,
{
    let x: u128 = 0x1_0000000000000000u128 + (a as u128) - (b as u128) - (borrow as u128);
    let (lo, hi) = split(x);
    (lo, 1 - hi)
}

/// `c + a * b + carry`, which always fits into two limbs.
fn mul_add_carry(c: u64, a: u64, b: u64, carry: u64) -> (r: (u64, u64))
    ensures
        r.0 + 0x1_0000000000000000int * r.1 == c + a * b + carry,
{
    assert(a * b <= 0xffff_ffff_ffff_ffffint * 0xffff_ffff_ffff_ffffint) by (nonlinear_arith)
        requires
            a <= 0xffff_ffff_ffff_ffff,
            b <= 0xffff_ffff_ffff_ffff,
    ;
    split((a as u128) * (b as u128) + (c as u128) + (carry as u128))
}

/// Whether two limb arrays are equal.
pub fn limbs_equal(a: &[u64; 4], b: &[u64; 4]) -> (r: bool)
    ensures
        r == (*a == *b),
{
    let r = a[0] == b[0] && a[1] == b[1] && a[2] == b[2] && a[3] == b[3];
    proof {
        if r {
            lemma_limbs_equal(*a, *b);
        }
    }
    r
}

/// Whether two arrays of `u32` limbs are equal.
pub fn limbs32_equal(a: &[u32; 8], b: &[u32; 8]) -> (r: bool)
    ensures
        r == (*a == *b),
{
    let r = a[0] == b[0] && a[1] == b[1] && a[2] == b[2] && a[3] == b[3] && a[4] == b[4] && a[5]
        == b[5] && a[6] == b[6] && a[7] == b[7];
    proof {
        if r {
            assert(a@ =~= b@);
            lemma_value32_injective(*a, *b);
        }
    }
    r
}

/// Compares two limb arrays: whether `a >= b`.
pub fn gte(a: &[u64; 4], b: &[u64; 4]) -> (r: bool)
    ensures
        r == (value(*a) >= value(*b)),
{
    if a[3] != b[3] {
        a[3] > b[3]
    } else if a[2] != b[2] {
        a[2] > b[2]
    } else if a[1] != b[1] {
        a[1] > b[1]
    } else {
        a[0] >= b[0]
    }
}

/// Adds without reduction: the low four limbs and the carry.
fn add_limbs(a: &[u64; 4], b: &[u64; 4]) -> (r: ([u64; 4], u64))
    ensures
        r.1 <= 1,
        value(r.0) + mont_r() * r.1 == value(*a) + value(*b),
{
    let (r0, c0) = add_carry(a[0], b[0], 0);
    let (r1, c1) = add_carry(a[1], b[1], c0);
    let (r2, c2) = add_carry(a[2], b[2], c1);
    let (r3, c3) = add_carry(a[3], b[3], c2);
    ([r0, r1, r2, r3], c3)
}

/// Subtracts without reduction: the low four limbs and the borrow.
pub(crate) fn sub_limbs(a: &[u64; 4], b: &[u64; 4]) -> (r: ([u64; 4], u64))
    ensures
        r.1 <= 1,
        value(r.0) - mont_r() * r.1 == value(*a) - value(*b),
{
    let (r0, c0) = sub_borrow(a[0], b[0], 0);
    let (r1, c1) = sub_borrow(a[1], b[1], c0);
    let (r2, c2) = sub_borrow(a[2], b[2], c1);
    let (r3, c3) = sub_borrow(a[3], b[3], c2);
    ([r0, r1, r2, r3], c3)
}

/// Modular addition of two residues below `p`.
pub fn add_mod(a: &[u64; 4], b: &[u64; 4], p: &[u64; 4]) -> (r: [u64; 4])
    requires
        value(*a) < value(*p),
        value(*b) < value(*p),
    ensures
        value(r) == (value(*a) + value(*b)) % value(*p),
        value(r) < value(*p),
{
    let (sum, carry) = add_limbs(a, b);
    proof {
        let s = value(*a) + value(*b);
        lemma_value_bound(sum);
        if s >= value(*p) {
            modular::lemma_mod_shift(s, s - value(*p), 1, value(*p));
            lemma_small_mod((s - value(*p)) as nat, value(*p) as nat);
        } else {
            lemma_small_mod(s as nat, value(*p) as nat);
        }
    }
    if carry != 0 || gte(&sum, p) {
        let (diff, borrow) = sub_limbs(&sum, p);
        proof {
            lemma_value_bound(diff);
        }
        diff
    } else {
        sum
    }
}

/// Modular subtraction of residues, where `a` may equal `p`.
pub fn sub_mod(a: &[u64; 4], b: &[u64; 4], p: &[u64; 4]) -> (r: [u64; 4])
    requires
        value(*a) <= value(*p),
        value(*b) < value(*p),
        value(*a) < value(*p) || value(*b) > 0,
    ensures
        value(r) == (value(*a) - value(*b)) % value(*p),
        value(r) < value(*p),
{
    let (diff, borrow) = sub_limbs(a, b);
    proof {
        let s = value(*a) - value(*b);
        lemma_value_bound(diff);
        if s < 0 {
            modular::lemma_mod_shift(s, s + value(*p), -1, value(*p));
            lemma_small_mod((s + value(*p)) as nat, value(*p) as nat);
        } else {
            lemma_small_mod(s as nat, value(*p) as nat);
        }
    }
    if borrow != 0 {
        let (sum, carry) = add_limbs(&diff, p);
        proof {
            lemma_value_bound(sum);
        }
        sum
    } else {
        diff
    }
}

/// Modular negation of a residue below `p`.
pub fn neg_mod(a: &[u64; 4], p: &[u64; 4]) -> (r: [u64; 4])
    requires
        value(*a) < value(*p),
    ensures
        value(r) == (-value(*a)) % value(*p),
        value(r) < value(*p),
{
    if a[0] == 0 && a[1] == 0 && a[2] == 0 && a[3] == 0 {
        proof {
            lemma_small_mod(0, value(*p) as nat);
        }
        [0, 0, 0, 0]
    } else {
        proof {
            modular::lemma_mod_shift(value(*p) - value(*a), -value(*a), 1, value(*p));
        }
        sub_mod(p, a, p)
    }
}

/// The number that five little-endian limbs stand for.
spec fn value5(t: (u64, u64, u64, u64, u64)) -> int {
    t.0 + 0x1_0000000000000000int * t.1 + 0x1_0000000000000000_0000000000000000int * t.2
        + 0x1_0000000000000000_0000000000000000_0000000000000000int * t.3 + mont_r() * t.4
}

/// `inv` is the negated inverse of the lowest limb of `p` modulo two to the 64.
pub open spec fn is_neg_inverse(inv: u64, p: [u64; 4]) -> bool {
    (inv * p[0] + 1) % 0x1_0000000000000000int == 0
}

proof fn lemma_low_limb_vanishes(t0: u64, m: u64, inv: u64, p0: u64, lo: u64, hi: u64)
    requires
        m == (t0 * inv) % 0x1_0000000000000000int,
        (inv * p0 + 1) % 0x1_0000000000000000int == 0,
        lo + 0x1_0000000000000000int * hi == t0 + m * p0,
    ensures
        lo == 0,
{
    let b = 0x1_0000000000000000int;
    let s = t0 + m * p0;
    lemma_mul_mod_noop_left(t0 * inv, p0 as int, b);
    lemma_add_cong_left(t0 as int, m * p0, (t0 * inv) * p0, b);
    assert(t0 + (t0 * inv) * p0 == t0 * (inv * p0 + 1)) by (nonlinear_arith);
    modular::lemma_mul_cong(t0 as int, inv * p0 + 1, t0 as int, 0, b);
    modular::lemma_mod_shift(s, lo as int, hi as int, b);
    lemma_small_mod(lo as nat, b as nat);
    assert(t0 * 0 == 0);
}

proof fn lemma_add_cong_left(a: int, x: int, y: int, m: int)
    requires
        m > 0,
        x % m == y % m,
    ensures
        (a + x) % m == (a + y) % m,
{
    modular::lemma_add_cong(a, x, a, y, m);
}

/// One round of the multiplication: adds `a * b` to the accumulator, then a
/// multiple of `p` that clears the low limb, and drops that limb.
fn mont_round(
    t: (u64, u64, u64, u64, u64),
    a: &[u64; 4],
    b: u64,
    p: &[u64; 4],
    inv: u64,
) -> (r: (u64, u64, u64, u64, u64))
    requires
        value5(t) + value(*a) * b < 0x1_0000000000000000int * mont_r(),
        is_neg_inverse(inv, *p),
    ensures
        exists|m: u64|
            0x1_0000000000000000int * value5(r) == value5(t) + value(*a) * b + #[trigger] (m
                * value(*p)),
{
    let (t0, c0) = mul_add_carry(t.0, a[0], b, 0);
    let (t1, c1) = mul_add_carry(t.1, a[1], b, c0);
    let (t2, c2) = mul_add_carry(t.2, a[2], b, c1);
    let (t3, c3) = mul_add_carry(t.3, a[3], b, c2);
    proof {
        let (a0, a1, a2, a3) = (a[0] as int, a[1] as int, a[2] as int, a[3] as int);
        assert(value(*a) * b == a0 * b + 0x1_0000000000000000int * (a1 * b)
            + 0x1_0000000000000000_0000000000000000int * (a2 * b)
            + 0x1_0000000000000000_0000000000000000_0000000000000000int * (a3 * b))
            by (nonlinear_arith)
            requires
                value(*a) == a0 + 0x1_0000000000000000int * a1
                    + 0x1_0000000000000000_0000000000000000int * a2
                    + 0x1_0000000000000000_0000000000000000_0000000000000000int * a3,
        ;
        assert(t0 + 0x1_0000000000000000int * t1 + 0x1_0000000000000000_0000000000000000int * t2
            + 0x1_0000000000000000_0000000000000000_0000000000000000int * t3 + mont_r() * (t.4
            + c3) == value5(t) + value(*a) * b);
        assert(t.4 + c3 < 0x1_0000000000000000int);
    }
    let t4: u64 = t.4 + c3;
    let m: u64 = t0.wrapping_mul(inv);
    let (z, d0) = mul_add_carry(t0, m, p[0], 0);
    proof {
        lemma_low_limb_vanishes(t0, m, inv, p[0], z, d0);
    }
    let (r0, d1) = mul_add_carry(t1, m, p[1], d0);
    let (r1, d2) = mul_add_carry(t2, m, p[2], d1);
    let (r2, d3) = mul_add_carry(t3, m, p[3], d2);
    let (r3, r4) = split((t4 as u128) + (d3 as u128));
    proof {
        let (p0, p1, p2, p3) = (p[0] as int, p[1] as int, p[2] as int, p[3] as int);
        assert(m * value(*p) == m * p0 + 0x1_0000000000000000int * (m * p1)
            + 0x1_0000000000000000_0000000000000000int * (m * p2)
            + 0x1_0000000000000000_0000000000000000_0000000000000000int * (m * p3))
            by (nonlinear_arith)
            requires
                value(*p) == p0 + 0x1_0000000000000000int * p1
                    + 0x1_0000000000000000_0000000000000000int * p2
                    + 0x1_0000000000000000_0000000000000000_0000000000000000int * p3,
        ;
        assert(0x1_0000000000000000int * value5((r0, r1, r2, r3, r4)) == value5(t) + value(*a) * b
            + m * value(*p));
    }
    (r0, r1, r2, r3, r4)
}

/// The operands of a Montgomery multiplication: either the first is a residue,
/// or no limb of the second is so large that the accumulator could overflow.
pub open spec fn mont_operands(a: [u64; 4], b: [u64; 4], p: [u64; 4]) -> bool {
    &&& value(p) < mont_r() / 2
    &&& value(b) < value(p)
    &&& value(a) < value(p) || (b[0] < 0xff00000000000000 && b[1] < 0xff00000000000000 && b[2]
        < 0xff00000000000000 && b[3] < 0xff00000000000000)
}

/// The accumulator of a round stays below `a + p`, and the next product fits.
proof fn lemma_round_fits(t: int, scale: int, a: int, low: int, b: u64, quotient: int, p: int)
    requires
        t * scale == a * low + quotient * p,
        0 <= low < scale,
        0 <= quotient < scale,
        0 <= a < mont_r(),
        0 < p < mont_r() / 2,
        a < p || b < 0xff00000000000000,
    ensures
        t + a * b < 0x1_0000000000000000int * mont_r(),
{
    assert(t < a + p || t <= a) by (nonlinear_arith)
        requires
            t * scale == a * low + quotient * p,
            0 <= low < scale,
            0 <= quotient < scale,
            0 <= a,
            0 < p,
    {
        assert(a * low <= a * scale) by (nonlinear_arith)
            requires
                low < scale,
                0 <= a,
        ;
        assert(quotient * p < scale * p) by (nonlinear_arith)
            requires
                quotient < scale,
                0 < p,
        ;
        assert(t * scale < (a + p) * scale) by (nonlinear_arith)
            requires
                t * scale == a * low + quotient * p,
                a * low <= a * scale,
                quotient * p < scale * p,
        ;
    }
    if a < p {
        assert(a * b <= a * 0xffff_ffff_ffff_ffffint) by (nonlinear_arith)
            requires
                0 <= a,
                b <= 0xffff_ffff_ffff_ffff,
        ;
    } else {
        assert(a * b <= a * 0xff00000000000000int) by (nonlinear_arith)
            requires
                0 <= a,
                b < 0xff00000000000000,
        ;
    }
}

/// The value of the accumulator after one more round.
proof fn lemma_round_step(
    t: int,
    r: int,
    scale: int,
    a: int,
    low: int,
    b: u64,
    quotient: int,
    m: u64,
    p: int,
)
    requires
        scale > 0,
        t * scale == a * low + quotient * p,
        0x1_0000000000000000int * r == t + a * b + m * p,
    ensures
        r * (scale * 0x1_0000000000000000int) == a * (low + scale * b) + (quotient + scale * m) * p,
{
    assert(r * (scale * 0x1_0000000000000000int) == (t + a * b + m * p) * scale)
        by (nonlinear_arith)
        requires
            0x1_0000000000000000int * r == t + a * b + m * p,
    ;
    assert((t + a * b + m * p) * scale == a * (low + scale * b) + (quotient + scale * m) * p)
        by (nonlinear_arith)
        requires
            t * scale == a * low + quotient * p,
    ;
}

/// Montgomery multiplication: the residue `r` with `r * 2^256 = a * b` modulo
/// `p`.
#[verifier::rlimit(40)]
pub fn mont_mul(a: &[u64; 4], b: &[u64; 4], p: &[u64; 4], inv: u64) -> (r: [u64; 4])
    requires
        mont_operands(*a, *b, *p),
        is_neg_inverse(inv, *p),
    ensures
        value(r) < value(*p),
        (value(r) * mont_r()) % value(*p) == (value(*a) * value(*b)) % value(*p),
{
    let ghost av = value(*a);
    let ghost bv = value(*b);
    let ghost pv = value(*p);
    let ghost w1 = 0x1_0000000000000000int;
    let ghost w2 = 0x1_0000000000000000_0000000000000000int;
    let ghost w3 = 0x1_0000000000000000_0000000000000000_0000000000000000int;
    proof {
        lemma_value_bound(*a);
        lemma_value_bound(*b);
        assert(av * 0 == 0);
        assert(0 * pv == 0);
        lemma_round_fits(0, 1, av, 0, b[0], 0, pv);
    }
    let t0 = mont_round((0, 0, 0, 0, 0), a, b[0], p, inv);
    let ghost m0 = choose|m: u64|
        w1 * value5(t0) == 0 + av * b[0] + #[trigger] (m * pv);
    proof {
        lemma_round_step(0, value5(t0), 1, av, 0, b[0], 0, m0, pv);
        lemma_round_fits(value5(t0), w1, av, b[0] as int, b[1], m0 as int, pv);
    }
    let t1 = mont_round(t0, a, b[1], p, inv);
    let ghost m1 = choose|m: u64|
        w1 * value5(t1) == value5(t0) + av * b[1] + #[trigger] (m * pv);
    let ghost q1 = m0 + w1 * m1;
    let ghost l1 = b[0] + w1 * b[1];
    proof {
        lemma_round_step(value5(t0), value5(t1), w1, av, b[0] as int, b[1], m0 as int, m1, pv);
        lemma_round_fits(value5(t1), w2, av, l1, b[2], q1, pv);
    }
    let t2 = mont_round(t1, a, b[2], p, inv);
    let ghost m2 = choose|m: u64|
        w1 * value5(t2) == value5(t1) + av * b[2] + #[trigger] (m * pv);
    let ghost q2 = q1 + w2 * m2;
    let ghost l2 = l1 + w2 * b[2];
    proof {
        lemma_round_step(value5(t1), value5(t2), w2, av, l1, b[2], q1, m2, pv);
        lemma_round_fits(value5(t2), w3, av, l2, b[3], q2, pv);
    }
    let t = mont_round(t2, a, b[3], p, inv);
    let ghost m3 = choose|m: u64|
        w1 * value5(t) == value5(t2) + av * b[3] + #[trigger] (m * pv);
    let ghost q = q2 + w3 * m3;
    let ghost tv = value5(t);
    proof {
        lemma_round_step(value5(t2), value5(t), w3, av, l2, b[3], q2, m3, pv);
        assert(tv * mont_r() == av * bv + q * pv);
        assert(tv < 2 * pv) by (nonlinear_arith)
            requires
                tv * mont_r() == av * bv + q * pv,
                0 <= av < mont_r(),
                0 <= bv < pv,
                q < mont_r(),
                mont_r() > 0,
        {
            assert(av * bv <= mont_r() * bv) by (nonlinear_arith)
                requires
                    0 <= av < mont_r(),
                    0 <= bv,
            ;
            assert(q * pv <= mont_r() * pv) by (nonlinear_arith)
                requires
                    q < mont_r(),
                    0 < pv,
            ;
            assert(tv * mont_r() < (2 * pv) * mont_r()) by (nonlinear_arith)
                requires
                    tv * mont_r() == av * bv + q * pv,
                    av * bv <= mont_r() * bv,
                    q * pv <= mont_r() * pv,
                    bv < pv,
                    mont_r() > 0,
            ;
        }
        modular::lemma_mod_shift(tv * mont_r(), av * bv, q, pv);
        let ghost d = tv - pv;
        assert(d * mont_r() == tv * mont_r() + (-mont_r()) * pv) by (nonlinear_arith)
            requires
                d == tv - pv,
        ;
        modular::lemma_mod_shift(d * mont_r(), tv * mont_r(), -mont_r(), pv);
    }
    let result: [u64; 4] = [t.0, t.1, t.2, t.3];
    if t.4 != 0 || gte(&result, p) {
        let (diff, borrow) = sub_limbs(&result, p);
        proof {
            lemma_value_bound(diff);
        }
        diff
    } else {
        result
    }
}

/// `k` inverts the Montgomery radix modulo `p`.
pub open spec fn inverts_radix(k: int, p: int) -> bool {
    0 <= k < p && (mont_r() * k) % p == 1
}

/// The Montgomery radix is invertible modulo `p`.
pub open spec fn radix_invertible(p: int) -> bool {
    p > 1 && exists|k: int| inverts_radix(k, p)
}

/// The inverse of the Montgomery radix modulo `p`.
pub open spec fn radix_inverse(p: int) -> int {
    choose|k: int| inverts_radix(k, p)
}

/// The residue that a number in Montgomery form stands for.
pub open spec fn mont_value(a: int, p: int) -> int {
    (a * radix_inverse(p)) % p
}

/// A product in Montgomery form stands for the product of the residues.
pub proof fn lemma_mont_product(a: int, b: int, c: int, p: int)
    requires
        radix_invertible(p),
        (c * mont_r()) % p == (a * b) % p,
    ensures
        mont_value(c, p) == (mont_value(a, p) * mont_value(b, p)) % p,
{
    let k = radix_inverse(p);
    let r = mont_r();
    // c k = (c r) k k = (a k) (b k)
    modular::lemma_mul_cong(c * r, k * k, a * b, k * k, p);
    assert((c * r) * (k * k) == (c * k) * (r * k)) by (nonlinear_arith);
    lemma_small_mod(1, p as nat);
    modular::lemma_mul_cong(c * k, r * k, c * k, 1, p);
    assert((a * b) * (k * k) == (a * k) * (b * k)) by (nonlinear_arith);
    lemma_mul_mod_noop_general(a * k, b * k, p);
}

/// A number times the radix squared is the number's Montgomery form times the
/// radix.
pub proof fn lemma_mont_encode(v: int, r2: int, c: int, p: int)
    requires
        radix_invertible(p),
        r2 % p == (mont_r() * mont_r()) % p,
        (c * mont_r()) % p == (v * r2) % p,
    ensures
        mont_value(c, p) == v % p,
{
    let k = radix_inverse(p);
    let r = mont_r();
    // c k = (c r) k k = (v r r) k k = v
    modular::lemma_mul_cong(v, r2, v, r * r, p);
    modular::lemma_mul_cong(c * r, k * k, v * (r * r), k * k, p);
    assert((c * r) * (k * k) == (c * k) * (r * k)) by (nonlinear_arith);
    assert((v * (r * r)) * (k * k) == v * ((r * k) * (r * k))) by (nonlinear_arith);
    lemma_small_mod(1, p as nat);
    modular::lemma_mul_cong(c * k, r * k, c * k, 1, p);
    modular::lemma_mul_cong(r * k, r * k, 1, 1, p);
    modular::lemma_mul_cong(v, (r * k) * (r * k), v, 1, p);
}

/// A number whose product with the radix is congruent to `a` is the residue
/// that `a` stands for.
pub proof fn lemma_mont_decode(a: int, c: int, p: int)
    requires
        radix_invertible(p),
        0 <= c < p,
        (c * mont_r()) % p == a % p,
    ensures
        c == mont_value(a, p),
{
    let k = radix_inverse(p);
    let r = mont_r();
    modular::lemma_mul_cong(c * r, k, a, k, p);
    assert((c * r) * k == c * (r * k)) by (nonlinear_arith);
    lemma_small_mod(1, p as nat);
    modular::lemma_mul_cong(c, r * k, c, 1, p);
    lemma_small_mod(c as nat, p as nat);
}

/// The Montgomery form is the residue times the radix.
pub proof fn lemma_mont_form(a: int, p: int)
    requires
        radix_invertible(p),
        0 <= a < p,
    ensures
        a == (mont_value(a, p) * mont_r()) % p,
        0 <= mont_value(a, p) < p,
{
    let k = radix_inverse(p);
    let r = mont_r();
    lemma_mod_bound(a * k, p);
    lemma_mul_mod_noop_left(a * k, r, p);
    assert((a * k) * r == a * (r * k)) by (nonlinear_arith);
    lemma_small_mod(1, p as nat);
    modular::lemma_mul_cong(a, r * k, a, 1, p);
    lemma_small_mod(a as nat, p as nat);
}

/// Sums and differences in Montgomery form stand for those of the residues.
pub proof fn lemma_mont_add(a: int, b: int, p: int)
    requires
        p > 1,
    ensures
        mont_value((a + b) % p, p) == (mont_value(a, p) + mont_value(b, p)) % p,
        mont_value((a - b) % p, p) == (mont_value(a, p) - mont_value(b, p)) % p,
        mont_value((-b) % p, p) == (-mont_value(b, p)) % p,
{
    let k = radix_inverse(p);
    lemma_mul_mod_noop_left(a + b, k, p);
    lemma_mul_mod_noop_left(a - b, k, p);
    lemma_mul_mod_noop_left(-b, k, p);
    lemma_mul_is_distributive_add_other_way(k, a, b);
    lemma_mul_is_distributive_sub_other_way(k, a, b);
    assert((-b) * k == -(b * k)) by (nonlinear_arith);
    modular::lemma_mod_idem(a * k, p);
    modular::lemma_mod_idem(b * k, p);
    modular::lemma_add_cong(mont_value(a, p), mont_value(b, p), a * k, b * k, p);
    modular::lemma_sub_cong(mont_value(a, p), mont_value(b, p), a * k, b * k, p);
    modular::lemma_sub_cong(0, mont_value(b, p), 0, b * k, p);
}

/// A residue is zero exactly where its Montgomery form is.
pub proof fn lemma_mont_zero(a: int, p: int)
    requires
        radix_invertible(p),
        0 <= a < p,
    ensures
        (a == 0) == (mont_value(a, p) == 0),
{
    lemma_mont_form(a, p);
    lemma_small_mod(0, p as nat);
    assert(0 * radix_inverse(p) == 0);
    assert(0 * mont_r() == 0);
}

proof fn lemma_pow_bit(y: int, k: nat, low: nat, bit: nat)
    requires
        bit <= 1,
    ensures
        pow(y, low + bit * pow2(k)) == pow(y, low) * (if bit == 1 {
            pow(y, pow2(k))
        } else {
            1
        }),
        pow(y, pow2(k + 1)) == pow(y, pow2(k)) * pow(y, pow2(k)),
{
    lemma_pow2_unfold(k + 1);
    lemma_pow_adds(y, pow2(k), pow2(k));
    if bit == 1 {
        assert(1 * pow2(k) == pow2(k));
        lemma_pow_adds(y, low, pow2(k));
    } else {
        assert(0 * pow2(k) == 0);
    }
}

/// Multiplies `acc` by the power of `base` that one exponent limb gives, and
/// raises `base` to two to the 64.
fn pow_limb(
    acc: &[u64; 4],
    base: &[u64; 4],
    limb: u64,
    p: &[u64; 4],
    inv: u64,
) -> (r: ([u64; 4], [u64; 4]))
    requires
        value(*acc) < value(*p),
        value(*base) < value(*p),
        value(*p) < mont_r() / 2,
        is_neg_inverse(inv, *p),
        radix_invertible(value(*p)),
    ensures
        value(r.0) < value(*p),
        value(r.1) < value(*p),
        mont_value(value(r.0), value(*p)) == (mont_value(value(*acc), value(*p)) * pow(
            mont_value(value(*base), value(*p)),
            limb as nat,
        )) % value(*p),
        mont_value(value(r.1), value(*p)) == pow(
            mont_value(value(*base), value(*p)),
            pow2(64),
        ) % value(*p),
{
    let ghost pv = value(*p);
    let ghost x = mont_value(value(*acc), pv);
    let ghost y = mont_value(value(*base), pv);
    let mut result = *acc;
    let mut b = *base;
    let mut e: u64 = limb;
    let ghost mut low: nat = 0;
    proof {
        lemma_pow0(y);
        lemma_pow1(y);
        lemma2_to64();
        assert(pow2(0) == 1);
        assert(e * 1 == e);
        lemma_mont_form(value(*acc), pv);
        lemma_mont_form(value(*base), pv);
        lemma_small_mod(x as nat, pv as nat);
        lemma_small_mod(y as nat, pv as nat);
    }
    for k in 0..64u32
        invariant
            pv == value(*p),
            pv < mont_r() / 2,
            is_neg_inverse(inv, *p),
            radix_invertible(pv),
            value(result) < pv,
            value(b) < pv,
            limb == e * pow2(k as nat) + low,
            low < pow2(k as nat),
            mont_value(value(result), pv) == (x * pow(y, low)) % pv,
            mont_value(value(b), pv) == pow(y, pow2(k as nat)) % pv,
    {
        let ghost bit: nat = (e % 2) as nat;
        let ghost low1: nat = low + bit * pow2(k as nat);
        let ghost e0 = e;
        proof {
            assert(e & 1 == e % 2) by (bit_vector);
            assert(e >> 1 == e / 2) by (bit_vector);
            lemma_pow_bit(y, k as nat, low, bit);
            lemma_pow2_unfold((k + 1) as nat);
            let h = e as int / 2;
            let w = pow2(k as nat) as int;
            assert(e * w + low == h * (2 * w) + low1) by (nonlinear_arith)
                requires
                    e == 2 * h + bit,
                    low1 == low + bit * w,
            ;
            assert(low1 < 2 * w) by (nonlinear_arith)
                requires
                    low1 == low + bit * w,
                    low < w,
                    bit <= 1,
            ;
        }
        if e & 1 == 1 {
            let next = mont_mul(&result, &b, p, inv);
            proof {
                lemma_mont_product(value(result), value(b), value(next), pv);
                let yk = pow(y, pow2(k as nat));
                modular::lemma_mod_idem(x * pow(y, low), pv);
                modular::lemma_mod_idem(yk, pv);
                modular::lemma_mul_cong(
                    mont_value(value(result), pv),
                    mont_value(value(b), pv),
                    x * pow(y, low),
                    yk,
                    pv,
                );
                assert((x * pow(y, low)) * yk == x * (pow(y, low) * yk)) by (nonlinear_arith);
            }
            result = next;
        }
        let next_b = mont_mul(&b, &b, p, inv);
        proof {
            lemma_mont_product(value(b), value(b), value(next_b), pv);
            let yk = pow(y, pow2(k as nat));
            modular::lemma_mod_idem(yk, pv);
            modular::lemma_mul_cong(
                mont_value(value(b), pv),
                mont_value(value(b), pv),
                yk,
                yk,
                pv,
            );
            low = low1;
        }
        b = next_b;
        e = e >> 1;
    }
    proof {
        lemma2_to64();
        assert(e == 0) by (nonlinear_arith)
            requires
                limb == e * pow2(64) + low,
                limb < pow2(64),
                low >= 0,
                e >= 0,
        ;
        assert(0 * pow2(64) == 0);
    }
    (result, b)
}

/// Square-and-multiply exponentiation in Montgomery form, where `one` is the
/// Montgomery form of one.
pub fn mont_pow(
    base: &[u64; 4],
    exp: &[u64; 4],
    p: &[u64; 4],
    inv: u64,
    one: &[u64; 4],
) -> (r: [u64; 4])
    requires
        value(*base) < value(*p),
        value(*p) < mont_r() / 2,
        is_neg_inverse(inv, *p),
        radix_invertible(value(*p)),
        value(*one) < value(*p),
        mont_value(value(*one), value(*p)) == 1,
    ensures
        value(r) < value(*p),
        mont_value(value(r), value(*p)) == pow(
            mont_value(value(*base), value(*p)),
            value(*exp) as nat,
        ) % value(*p),
{
    let ghost pv = value(*p);
    let ghost y = mont_value(value(*base), pv);
    let (r0, b0) = pow_limb(one, base, exp[0], p, inv);
    let (r1, b1) = pow_limb(&r0, &b0, exp[1], p, inv);
    let (r2, b2) = pow_limb(&r1, &b1, exp[2], p, inv);
    let (r3, b3) = pow_limb(&r2, &b2, exp[3], p, inv);
    proof {
        lemma2_to64();
        lemma_pow0(y);
        lemma_pow1(y);
        lemma_pow_chain(
            y,
            1,
            exp[0] as nat,
            pow2(64),
            pv,
            1,
            y,
            mont_value(value(r0), pv),
            mont_value(value(b0), pv),
            0,
        );
        lemma_pow_chain(
            y,
            pow2(64),
            exp[1] as nat,
            pow2(64) * pow2(64),
            pv,
            mont_value(value(r0), pv),
            mont_value(value(b0), pv),
            mont_value(value(r1), pv),
            mont_value(value(b1), pv),
            exp[0] as nat,
        );
        let n2: nat = exp[0] as nat + pow2(64) * exp[1] as nat;
        let w2: nat = pow2(64) * pow2(64);
        lemma_pow_chain(
            y,
            w2,
            exp[2] as nat,
            w2 * pow2(64),
            pv,
            mont_value(value(r1), pv),
            mont_value(value(b1), pv),
            mont_value(value(r2), pv),
            mont_value(value(b2), pv),
            n2,
        );
        let n3: nat = n2 + w2 * exp[2] as nat;
        let w3: nat = w2 * pow2(64);
        lemma_pow_chain(
            y,
            w3,
            exp[3] as nat,
            w3 * pow2(64),
            pv,
            mont_value(value(r2), pv),
            mont_value(value(b2), pv),
            mont_value(value(r3), pv),
            mont_value(value(b3), pv),
            n3,
        );
        assert(w2 == 0x1_0000000000000000_0000000000000000int);
        assert(w3 == 0x1_0000000000000000_0000000000000000_0000000000000000int);
    }
    r3
}

/// The exponent reached after one more limb of weight `w`.
proof fn lemma_pow_chain(
    y: int,
    w: nat,
    limb: nat,
    w_next: nat,
    p: int,
    acc: int,
    base: int,
    acc_next: int,
    base_next: int,
    done: nat,
)
    requires
        p > 1,
        w_next == w * pow2(64),
        acc % p == pow(y, done) % p,
        base % p == pow(y, w) % p,
        acc_next == (acc * pow(base, limb)) % p,
        base_next == pow(base, pow2(64)) % p,
    ensures
        acc_next % p == acc_next,
        acc_next == pow(y, done + w * limb) % p,
        base_next % p == pow(y, w_next) % p,
{
    modular::lemma_pow_cong(base, pow(y, w), limb, p);
    lemma_pow_multiplies(y, w, limb);
    modular::lemma_mul_cong(acc, pow(base, limb), pow(y, done), pow(y, w * limb), p);
    lemma_pow_adds(y, done, w * limb);
    modular::lemma_mod_idem(pow(y, done + w * limb), p);
    modular::lemma_pow_cong(base, pow(y, w), pow2(64), p);
    lemma_pow_multiplies(y, w, pow2(64));
    modular::lemma_mod_idem(pow(base, pow2(64)), p);
}

/// Reinterprets eight little-endian `u32` limbs as four `u64` limbs.
pub fn u32_to_u64(limbs: &[u32; 8]) -> (r: [u64; 4])
    ensures
        value(r) == value32(*limbs),
{
    [
        join32(limbs[0], limbs[1]),
        join32(limbs[2], limbs[3]),
        join32(limbs[4], limbs[5]),
        join32(limbs[6], limbs[7]),
    ]
}

/// Reinterprets four little-endian `u64` limbs as eight `u32` limbs.
pub fn u64_to_u32(limbs: &[u64; 4]) -> (r: [u32; 8])
    ensures
        value32(r) == value(*limbs),
{
    let (a0, a1) = split32(limbs[0]);
    let (a2, a3) = split32(limbs[1]);
    let (a4, a5) = split32(limbs[2]);
    let (a6, a7) = split32(limbs[3]);
    [a0, a1, a2, a3, a4, a5, a6, a7]
}

/// The number that eight little-endian `u32` limbs stand for.
pub open spec fn value32(a: [u32; 8]) -> int {
    a[0] + 0x1_00000000int * a[1] + 0x1_0000000000000000int * a[2]
        + 0x1_00000000_0000000000000000int * a[3] + 0x1_0000000000000000_0000000000000000int * a[4]
        + 0x1_00000000_0000000000000000_0000000000000000int * a[5]
        + 0x1_0000000000000000_0000000000000000_0000000000000000int * a[6]
        + 0x1_00000000_0000000000000000_0000000000000000_0000000000000000int * a[7]
}

proof fn lemma_pairs_injective(a: Seq<int>, b: Seq<int>)
    requires
        a.len() == 4,
        b.len() == 4,
        forall|i: int| 0 <= i < 4 ==> 0 <= #[trigger] a[i] < 0x1_0000000000000000,
        forall|i: int| 0 <= i < 4 ==> 0 <= #[trigger] b[i] < 0x1_0000000000000000,
        a[0] + 0x1_0000000000000000int * a[1] + 0x1_0000000000000000_0000000000000000int * a[2]
            + 0x1_0000000000000000_0000000000000000_0000000000000000int * a[3] == b[0]
            + 0x1_0000000000000000int * b[1] + 0x1_0000000000000000_0000000000000000int * b[2]
            + 0x1_0000000000000000_0000000000000000_0000000000000000int * b[3],
    ensures
        a[0] == b[0],
        a[1] == b[1],
        a[2] == b[2],
        a[3] == b[3],
{
    lemma_digits_injective(a[0], a[1], a[2], a[3], b[0], b[1], b[2], b[3]);
}

proof fn lemma_halves_injective(a0: u32, a1: u32, b0: u32, b1: u32)
    requires
        a0 + 0x1_00000000int * a1 == b0 + 0x1_00000000int * b1,
    ensures
        a0 == b0,
        a1 == b1,
{
}

/// Eight limbs are determined by the number they stand for.
pub proof fn lemma_value32_injective(a: [u32; 8], b: [u32; 8])
    requires
        value32(a) == value32(b),
    ensures
        a == b,
{
    let pa = seq![
        a[0] + 0x1_00000000int * a[1],
        a[2] + 0x1_00000000int * a[3],
        a[4] + 0x1_00000000int * a[5],
        a[6] + 0x1_00000000int * a[7],
    ];
    let pb = seq![
        b[0] + 0x1_00000000int * b[1],
        b[2] + 0x1_00000000int * b[3],
        b[4] + 0x1_00000000int * b[5],
        b[6] + 0x1_00000000int * b[7],
    ];
    lemma_pairs_injective(pa, pb);
    lemma_halves_injective(a[0], a[1], b[0], b[1]);
    lemma_halves_injective(a[2], a[3], b[2], b[3]);
    lemma_halves_injective(a[4], a[5], b[4], b[5]);
    lemma_halves_injective(a[6], a[7], b[6], b[7]);
    assert(a@ =~= b@);
}

fn join32(lo: u32, hi: u32) -> (r: u64)
    ensures
        r == lo + 0x1_00000000int * hi,
{
    let r: u64 = (lo as u64) | ((hi as u64) << 32);
    assert(r == lo + 0x1_00000000int * hi) by (bit_vector)
        requires
            r == (lo as u64) | ((hi as u64) << 32),
    ;
    r
}

fn split32(x: u64) -> (r: (u32, u32))
    ensures
        r.0 + 0x1_00000000int * r.1 == x,
{
    let lo: u32 = x as u32;
    let hi: u32 = (x >> 32) as u32;
    assert(lo + 0x1_00000000int * hi == x) by (bit_vector)
        requires
            lo == x as u32,
            hi == (x >> 32) as u32,
    ;
    (lo, hi)
}

} // verus!
