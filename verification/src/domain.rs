//! Multiplicative domains of roots of unity and the transforms on them.

use crate::fields;
use crate::fields::Fr;
use crate::limbs;
use crate::modular;
use crate::polynomial;
use crate::primes;
use crate::sums;
use vstd::arithmetic::div_mod::*;
use vstd::arithmetic::mul::*;
use vstd::arithmetic::power::*;
use vstd::arithmetic::power2::*;
use vstd::prelude::*;

verus! {

// ---------------------------------------------------------------------------
// Bit reversal
// ---------------------------------------------------------------------------

/// The low `bits` bits of `x` in reverse order.
pub open spec fn reversed(x: nat, bits: nat) -> nat
    decreases bits,
{
    if bits == 0 {
        0
    } else {
        reversed(x / 2, (bits - 1) as nat) + (x % 2) * pow2((bits - 1) as nat)
    }
}

/// Reversed bits fit into as many bits.
pub proof fn lemma_reversed_bound(x: nat, bits: nat)
    ensures
        reversed(x, bits) < pow2(bits),
    decreases bits,
{
    if bits == 0 {
        lemma2_to64();
    } else {
        lemma_reversed_bound(x / 2, (bits - 1) as nat);
        lemma_pow2_unfold(bits);
        let w = pow2((bits - 1) as nat);
        assert((x % 2) * w <= w) by (nonlinear_arith)
            requires
                x % 2 <= 1,
        ;
    }
}

/// Reading one bit more doubles what was read and adds the bit.
proof fn lemma_reversed_append(x: nat, bits: nat)
    ensures
        reversed(x, bits + 1) == 2 * reversed(x, bits) + (x / pow2(bits)) % 2,
    decreases bits,
{
    if bits == 0 {
        lemma2_to64();
        assert(reversed(x / 2, 0) == 0);
        assert((x % 2) * 1 == x % 2);
        assert(x / 1 == x);
    } else {
        let k = (bits - 1) as nat;
        lemma_reversed_append(x / 2, k);
        lemma_pow2_unfold(bits);
        lemma_pow2_pos(k);
        lemma_div_denominator(x as int, 2, pow2(k) as int);
        let w = pow2(k);
        let b = x % 2;
        assert(b * (2 * w) == 2 * (b * w)) by (nonlinear_arith);
    }
}

/// Only the low bits matter.
proof fn lemma_reversed_low(x: nat, high: nat, bits: nat)
    ensures
        reversed(x + high * pow2(bits), bits) == reversed(x, bits),
    decreases bits,
{
    if bits > 0 {
        let k = (bits - 1) as nat;
        let w = pow2(k);
        lemma_pow2_unfold(bits);
        assert(high * (2 * w) == 2 * (high * w)) by (nonlinear_arith);
        assert((x + 2 * (high * w)) / 2 == x / 2 + high * w);
        assert((x + 2 * (high * w)) % 2 == x % 2);
        lemma_reversed_low(x / 2, high, k);
    }
}

/// Reversing twice gives the number again.
pub proof fn lemma_reversed_twice(x: nat, bits: nat)
    requires
        x < pow2(bits),
    ensures
        reversed(reversed(x, bits), bits) == x,
    decreases bits,
{
    if bits == 0 {
        lemma2_to64();
    } else {
        let k = (bits - 1) as nat;
        let w = pow2(k);
        lemma_pow2_unfold(bits);
        lemma_pow2_pos(k);
        let y = x / 2;
        let b = x % 2;
        lemma_reversed_twice(y, k);
        lemma_reversed_bound(y, k);
        let ry = reversed(y, k);
        let z = ry + b * w;
        lemma_reversed_append(z, k);
        lemma_reversed_low(ry, b, k);
        assert((ry + b * w) as int / w as int == b) by {
            lemma_fundamental_div_mod_converse(z as int, w as int, b as int, ry as int);
            lemma_mul_is_commutative(b as int, w as int);
        }
    }
}

/// Reverses the low `bits` bits of `x`.
pub fn bit_reverse(x: u32, bits: u32) -> (r: u32)
    requires
        bits <= 32,
    ensures
        r == reversed(x as nat, bits as nat),
{
    let mut result: u32 = 0;
    let mut rest: u32 = x;
    proof {
        lemma2_to64();
    }
    for k in 0..bits
        invariant
            bits <= 32,
            result == reversed(x as nat, k as nat),
            rest == x as nat / pow2(k as nat),
    {
        proof {
            lemma_reversed_append(x as nat, k as nat);
            lemma_reversed_bound(x as nat, k as nat);
            lemma_pow2_pos(k as nat);
            lemma_pow2_unfold((k + 1) as nat);
            lemma_div_denominator(x as int, pow2(k as nat) as int, 2);
            lemma2_to64();
            if k < 31 {
                lemma_pow2_strictly_increases(k as nat, 31);
            }
        }
        result = 2 * result + rest % 2;
        rest = rest / 2;
    }
    result
}

/// Moves every element to the place whose index has the reversed bits.
fn bit_reverse_permutation(a: &mut Vec<Fr>, log_size: u32)
    requires
        log_size <= 28,
        old(a)@.len() == pow2(log_size as nat),
    ensures
        final(a)@.len() == old(a)@.len(),
        forall|i: int|
            0 <= i < final(a)@.len() ==> #[trigger] final(a)@[i] == old(a)@[reversed(
                i as nat,
                log_size as nat,
            ) as int],
{
    let n = a.len();
    let ghost start = a@;
    let ghost bits = log_size as nat;
    proof {
        lemma2_to64();
        if log_size < 28 {
            lemma_pow2_strictly_increases(log_size as nat, 28);
        }
    }
    for i in 0..n
        invariant
            log_size <= 28,
            bits == log_size,
            n == pow2(bits),
            n <= 0x10000000,
            a@.len() == n,
            start.len() == n,
            forall|k: int|
                0 <= k < n ==> #[trigger] a@[k] == (if k < i || reversed(k as nat, bits) < i {
                    start[reversed(k as nat, bits) as int]
                } else {
                    start[k]
                }),
    {
        let j = bit_reverse(i as u32, log_size) as usize;
        proof {
            lemma_reversed_bound(i as nat, bits);
            lemma_reversed_twice(i as nat, bits);
        }
        let ghost before = a@;
        if i < j {
            let x = a[i];
            let y = a[j];
            a.set(i, y);
            a.set(j, x);
        }
        proof {
            assert forall|k: int| 0 <= k < n implies #[trigger] a@[k] == (if k < i + 1 || reversed(
                k as nat,
                bits,
            ) < i + 1 {
                start[reversed(k as nat, bits) as int]
            } else {
                start[k]
            }) by {
                lemma_reversed_bound(k as nat, bits);
                lemma_reversed_twice(k as nat, bits);
                assert(before[k] == (if k < i || reversed(k as nat, bits) < i {
                    start[reversed(k as nat, bits) as int]
                } else {
                    start[k]
                }));
                assert(before[i as int] == (if i < i || reversed(i as nat, bits) < i {
                    start[reversed(i as nat, bits) as int]
                } else {
                    start[i as int]
                }));
                assert(before[j as int] == (if j < i || reversed(j as nat, bits) < i {
                    start[reversed(j as nat, bits) as int]
                } else {
                    start[j as int]
                }));
            }
        }
    }
}

// ---------------------------------------------------------------------------
// The butterfly network
// ---------------------------------------------------------------------------

/// Every `stride`-th coefficient from `off` on, `m` of them.
pub open spec fn strided(c: Seq<int>, off: int, stride: int, m: nat) -> Seq<int> {
    Seq::new(m, |i: int| c[off + stride * i])
}

/// What stands at `idx` after `s` stages: a value of the polynomial made of the
/// coefficients that have met in its block.
spec fn stage_value(c: Seq<int>, w: int, bits: nat, s: nat, idx: int) -> int {
    polynomial::feval(
        strided(
            c,
            reversed((idx / pow2(s) as int) as nat, (bits - s) as nat) as int,
            pow2((bits - s) as nat) as int,
            pow2(s),
        ),
        pow(w, (pow2((bits - s) as nat) * (idx % pow2(s) as int)) as nat),
    )
}

/// `w` is a primitive root of unity of order two to the `bits`: half its order
/// takes it to minus one.
pub open spec fn is_primitive_root(w: int, bits: nat) -> bool {
    if bits == 0 {
        w == 1
    } else {
        fields::fpow(w, pow2((bits - 1) as nat)) == fields::fr_modulus() - 1
    }
}

/// Two places of one block, after the next stage.
proof fn lemma_butterfly(
    c: Seq<int>,
    w: int,
    bits: nat,
    s: nat,
    b: int,
    j: int,
    even: int,
    odd: int,
    x: int,
)
    requires
        s < bits,
        c.len() == pow2(bits),
        is_primitive_root(w, bits),
        0 <= b < pow2((bits - s - 1) as nat),
        0 <= j < pow2(s),
        even == stage_value(c, w, bits, s, (2 * b) * pow2(s) + j),
        odd == stage_value(c, w, bits, s, (2 * b + 1) * pow2(s) + j),
        x == fields::fpow(w, (pow2((bits - s - 1) as nat) * j) as nat),
    ensures
        fields::fadd(even, fields::fmul(x, odd)) == stage_value(
            c,
            w,
            bits,
            s + 1,
            b * pow2(s + 1) + j,
        ),
        fields::fsub(even, fields::fmul(x, odd)) == stage_value(
            c,
            w,
            bits,
            s + 1,
            b * pow2(s + 1) + j + pow2(s),
        ),
{
    fields::lemma_fr_modulus();
    let p = fields::fr_modulus();
    let m = pow2(s) as int;
    let sn = pow2((bits - s - 1) as nat) as int;
    let so = pow2((bits - s) as nat) as int;
    lemma_pow2_pos(s);
    lemma_pow2_pos((bits - s - 1) as nat);
    lemma_pow2_unfold((bits - s) as nat);
    lemma_pow2_unfold(s + 1);
    lemma_pow2_adds((bits - s - 1) as nat, s);
    lemma_pow2_unfold(bits);
    assert(so == 2 * sn);
    assert(pow2(s + 1) == 2 * m);
    let off = reversed(b as nat, (bits - s - 1) as nat) as int;
    lemma_reversed_bound(b as nat, (bits - s - 1) as nat);
    // The two blocks that meet, and the block they form.
    let c_even = strided(c, off, so, m as nat);
    let c_odd = strided(c, off + sn, so, m as nat);
    let c_all = strided(c, off, sn, (2 * m) as nat);
    assert(reversed((2 * b) as nat, (bits - s) as nat) == off) by {
        assert((2 * b) as nat / 2 == b as nat && (2 * b) as nat % 2 == 0);
        assert(0 * sn == 0);
    }
    assert(reversed((2 * b + 1) as nat, (bits - s) as nat) == off + sn) by {
        assert((2 * b + 1) as nat / 2 == b as nat && (2 * b + 1) as nat % 2 == 1);
        assert(1 * sn == sn);
    }
    lemma_fundamental_div_mod_converse((2 * b) * m + j, m, 2 * b, j);
    lemma_fundamental_div_mod_converse((2 * b + 1) * m + j, m, 2 * b + 1, j);
    lemma_fundamental_div_mod_converse(b * (2 * m) + j, 2 * m, b, j);
    lemma_fundamental_div_mod_converse(b * (2 * m) + j + m, 2 * m, b, j + m);
    assert forall|i: int| 0 <= i < c_even.len() implies #[trigger] c_even[i] == c_all[2 * i] by {
        assert(so * i == sn * (2 * i)) by (nonlinear_arith)
            requires
                so == 2 * sn,
        ;
    }
    assert forall|i: int| 0 <= i < c_odd.len() implies #[trigger] c_odd[i] == c_all[2 * i + 1] by {
        assert(sn + so * i == sn * (2 * i + 1)) by (nonlinear_arith)
            requires
                so == 2 * sn,
        ;
    }
    let e = sn * j;
    assert(e >= 0 && so * j == e + e && so * j >= 0) by (nonlinear_arith)
        requires
            e == sn * j,
            so == 2 * sn,
            sn >= 0,
            j >= 0,
    ;
    let y = pow(w, e as nat);
    lemma_pow_adds(w, e as nat, e as nat);
    polynomial::lemma_peval_split(c_all, c_even, c_odd, y);
    let pe = polynomial::peval(c_even, y * y);
    let po = polynomial::peval(c_odd, y * y);
    assert(even == pe % p && odd == po % p);
    modular::lemma_mod_idem(pe, p);
    modular::lemma_mod_idem(po, p);
    modular::lemma_mod_idem(y, p);
    modular::lemma_mul_cong(x, odd, y, po, p);
    modular::lemma_mod_idem(x * odd, p);
    modular::lemma_add_cong(even, fields::fmul(x, odd), pe, y * po, p);
    modular::lemma_sub_cong(even, fields::fmul(x, odd), pe, y * po, p);
    // The second half of the block: half a turn on.
    let half = pow2((bits - 1) as nat);
    assert(sn * m == half);
    let y2 = pow(w, (sn * (j + m)) as nat);
    assert(sn * (j + m) == e + half) by (nonlinear_arith)
        requires
            e == sn * j,
            sn * m == half,
    ;
    lemma_pow_adds(w, e as nat, half);
    modular::lemma_mod_shift(p - 1, -1, 1, p);
    modular::lemma_mod_idem(pow(w, half), p);
    modular::lemma_mul_cong(y, pow(w, half), y, -1, p);
    assert(y * (-1) == -y);
    polynomial::lemma_peval_cong(c_all, c_all, y2, -y, p);
    polynomial::lemma_peval_split(c_all, c_even, c_odd, -y);
    assert((-y) * (-y) == y * y) by (nonlinear_arith);
    assert((-y) * po == -(y * po)) by (nonlinear_arith);
}

/// Before the first stage every place holds one coefficient.
proof fn lemma_first_stage(c: Seq<int>, w: int, bits: nat, idx: int)
    requires
        c.len() == pow2(bits),
        0 <= idx < c.len(),
        0 <= c[reversed(idx as nat, bits) as int] < fields::fr_modulus(),
    ensures
        stage_value(c, w, bits, 0, idx) == c[reversed(idx as nat, bits) as int],
{
    lemma2_to64();
    let off = reversed(idx as nat, bits) as int;
    let stride = pow2(bits) as int;
    assert(idx / 1 == idx && idx % 1 == 0);
    let one = strided(c, off, stride, 1);
    assert(stride * 0 == 0);
    assert(one.len() == 1 && one[0] == c[off]);
    let x = pow(w, (stride * 0) as nat);
    assert(polynomial::peval(one.skip(1), x) == 0);
    assert(polynomial::peval(one, x) == c[off] + x * 0);
    lemma_small_mod(c[off] as nat, fields::fr_modulus() as nat);
}

/// After the last stage every place holds a value of the whole polynomial.
proof fn lemma_last_stage(c: Seq<int>, w: int, bits: nat, idx: int)
    requires
        c.len() == pow2(bits),
        0 <= idx < c.len(),
    ensures
        stage_value(c, w, bits, bits, idx) == polynomial::feval(c, pow(w, idx as nat)),
{
    lemma2_to64();
    lemma_fundamental_div_mod_converse(idx, pow2(bits) as int, 0, idx);
    assert(1 * idx == idx);
    assert(strided(c, 0, 1, pow2(bits)) =~= c);
}

/// The values at the powers of `omega` of the polynomial whose coefficients
/// stand in `a`, in place.
fn transform(a: &mut Vec<Fr>, omega: &Fr, log_size: u32)
    requires
        log_size <= 28,
        old(a)@.len() == pow2(log_size as nat),
        fields::all_wf(old(a)@),
        omega.wf(),
        is_primitive_root(omega@, log_size as nat),
    ensures
        final(a)@.len() == old(a)@.len(),
        fields::all_wf(final(a)@),
        forall|i: int|
            0 <= i < final(a)@.len() ==> (#[trigger] final(a)@[i])@ == polynomial::feval(
                fields::vals(old(a)@),
                pow(omega@, i as nat),
            ),
{
    let n = a.len();
    let ghost c = fields::vals(a@);
    let ghost w = omega@;
    let ghost bits = log_size as nat;
    proof {
        fields::lemma_fr_modulus();
        lemma2_to64();
        if log_size < 28 {
            lemma_pow2_strictly_increases(bits, 28);
        }
    }
    let ghost coeffs = a@;
    bit_reverse_permutation(a, log_size);
    proof {
        assert forall|i: int| 0 <= i < n implies (#[trigger] a@[i]).wf() && a@[i]@ == stage_value(
            c,
            w,
            bits,
            0,
            i,
        ) by {
            lemma_reversed_bound(i as nat, bits);
            coeffs[reversed(i as nat, bits) as int].lemma_of_view();
            lemma_first_stage(c, w, bits, i);
        }
    }
    let mut m: usize = 1;
    for s in 0..log_size
        invariant
            log_size <= 28,
            bits == log_size,
            n == pow2(bits),
            n <= 0x10000000,
            m == pow2(s as nat),
            c.len() == n,
            w == omega@,
            omega.wf(),
            is_primitive_root(w, bits),
            a@.len() == n,
            forall|i: int|
                0 <= i < n ==> (#[trigger] a@[i]).wf() && a@[i]@ == stage_value(
                    c,
                    w,
                    bits,
                    s as nat,
                    i,
                ),
    {
        let ghost sn = pow2((bits - s - 1) as nat);
        proof {
            lemma_pow2_pos(s as nat);
            lemma_pow2_unfold((s + 1) as nat);
            lemma_pow2_adds((bits - s - 1) as nat, (s + 1) as nat);
            lemma_pow2_pos((bits - s - 1) as nat);
            assert(n == sn * (2 * m));
            assert(2 * m <= n) by (nonlinear_arith)
                requires
                    n == sn * (2 * m),
                    sn >= 1,
                    m >= 1,
            ;
            lemma_fundamental_div_mod_converse(n as int, 2 * m, sn as int, 0);
        }
        let step: u64 = (n / (2 * m)) as u64;
        assert(limbs::value([step, 0, 0, 0]) == step);
        let wm = omega.pow(&[step, 0, 0, 0]);
        let ghost old_stage = a@;
        let ghost mut b: int = 0;
        let mut k: usize = 0;
        while k < n
            invariant
                log_size <= 28,
                bits == log_size,
                s < log_size,
                n == pow2(bits),
                n <= 0x10000000,
                m == pow2(s as nat),
                m >= 1,
                2 * m == pow2((s + 1) as nat),
                sn == pow2((bits - s - 1) as nat),
                n == sn * (2 * m),
                c.len() == n,
                is_primitive_root(w, bits),
                wm.wf(),
                wm@ == fields::fpow(w, sn),
                a@.len() == n,
                old_stage.len() == n,
                0 <= b <= sn,
                k == b * (2 * m),
                forall|i: int|
                    0 <= i < n ==> (#[trigger] old_stage[i]).wf() && old_stage[i]@ == stage_value(
                        c,
                        w,
                        bits,
                        s as nat,
                        i,
                    ),
                forall|i: int|
                    0 <= i < n ==> (#[trigger] a@[i]).wf() && (if i < k {
                        a@[i]@ == stage_value(c, w, bits, (s + 1) as nat, i)
                    } else {
                        a@[i] == old_stage[i]
                    }),
            decreases n - k,
        {
            proof {
                assert(b < sn) by (nonlinear_arith)
                    requires
                        b * (2 * m) < sn * (2 * m),
                        m >= 1,
                ;
                assert((b + 1) * (2 * m) == b * (2 * m) + 2 * m) by (nonlinear_arith);
                assert((b + 1) * (2 * m) <= sn * (2 * m)) by (nonlinear_arith)
                    requires
                        b + 1 <= sn,
                        m >= 1,
                ;
                lemma_pow0(w);
                fields::lemma_fr_modulus();
                lemma_small_mod(1, fields::fr_modulus() as nat);
                assert(sn * 0 == 0);
            }
            let mut x = Fr::one();
            for j in 0..m
                invariant
                    log_size <= 28,
                    bits == log_size,
                    s < log_size,
                    n == pow2(bits),
                    n <= 0x10000000,
                    m == pow2(s as nat),
                    m >= 1,
                    2 * m == pow2((s + 1) as nat),
                    sn == pow2((bits - s - 1) as nat),
                    c.len() == n,
                    is_primitive_root(w, bits),
                    wm.wf(),
                    wm@ == fields::fpow(w, sn),
                    x.wf(),
                    x@ == fields::fpow(w, sn * (j as nat)),
                    a@.len() == n,
                    old_stage.len() == n,
                    0 <= b < sn,
                    k == b * (2 * m),
                    k + 2 * m <= n,
                    forall|i: int|
                        0 <= i < n ==> (#[trigger] old_stage[i]).wf() && old_stage[i]@
                            == stage_value(c, w, bits, s as nat, i),
                    forall|i: int|
                        0 <= i < n ==> (#[trigger] a@[i]).wf() && (if i < k + j || (k + m <= i < k
                            + m + j) {
                            a@[i]@ == stage_value(c, w, bits, (s + 1) as nat, i)
                        } else {
                            a@[i] == old_stage[i]
                        }),
            {
                let t = x.mul(&a[k + j + m]);
                let u = a[k + j];
                let sum = u.add(&t);
                let diff = u.sub(&t);
                proof {
                    assert((2 * b) * m == b * (2 * m)) by (nonlinear_arith);
                    assert((2 * b + 1) * m == b * (2 * m) + m) by (nonlinear_arith);
                    lemma_butterfly(
                        c,
                        w,
                        bits,
                        s as nat,
                        b,
                        j as int,
                        old_stage[k + j]@,
                        old_stage[k + j + m]@,
                        x@,
                    );
                }
                a.set(k + j, sum);
                a.set(k + j + m, diff);
                let next = x.mul(&wm);
                proof {
                    fields::lemma_fr_modulus();
                    let p = fields::fr_modulus();
                    lemma_pow_adds(w, sn * (j as nat), sn);
                    assert(sn * (j as nat) + sn == sn * ((j + 1) as nat)) by (nonlinear_arith);
                    modular::lemma_mod_idem(pow(w, sn * (j as nat)), p);
                    modular::lemma_mod_idem(pow(w, sn), p);
                    modular::lemma_mul_cong(
                        x@,
                        wm@,
                        pow(w, sn * (j as nat)),
                        pow(w, sn),
                        p,
                    );
                }
                x = next;
            }
            k = k + 2 * m;
            proof {
                b = b + 1;
            }
        }
        m = 2 * m;
    }
    proof {
        assert forall|i: int| 0 <= i < n implies (#[trigger] a@[i])@ == polynomial::feval(
            c,
            pow(w, i as nat),
        ) by {
            lemma_last_stage(c, w, bits, i);
        }
    }
}


// ---------------------------------------------------------------------------
// Roots of unity
// ---------------------------------------------------------------------------

/// Odd powers of minus one are minus one.
proof fn lemma_minus_one_odd(t: nat)
    ensures
        pow(-1, 2 * t + 1) == -1,
{
    lemma_pow_adds(-1, 2 * t, 1);
    lemma_pow1(-1);
    lemma_pow_multiplies(-1, 2, t);
    lemma_pow_adds(-1, 1, 1);
    lemma1_pow(t);
}

/// The scalar field has roots of unity of orders up to two to the 28 only.
pub proof fn law_two_adicity(w: int, bits: nat)
    requires
        is_primitive_root(w, bits),
    ensures
        bits <= 28,
{
    if bits >= 29 {
        fields::lemma_fr_modulus();
        let p = fields::fr_modulus();
        let half = pow2((bits - 1) as nat);
        let odd = 81540058820840996586704275553141814055101440848469862132140264610111nat;
        assert(p - 1 == 0x10000000 * odd) by {
            reveal(fields::fr_modulus);
        }
        let q = pow2((bits - 29) as nat);
        lemma_pow2_adds(28, (bits - 29) as nat);
        lemma2_to64();
        assert(half == 0x10000000 * q);
        let z = pow(w, half);
        modular::lemma_mod_shift(p - 1, -1, 1, p);
        modular::lemma_mod_idem(z, p);
        // On the one hand z^odd = -1.
        modular::lemma_pow_cong(z, -1, odd, p);
        lemma_minus_one_odd((odd / 2) as nat);
        // On the other hand it is a power of w^(p-1) = 1.
        assert(w % p != 0) by {
            if w % p == 0 {
                lemma_small_mod(0, p as nat);
                modular::lemma_pow_cong(w, 0, half, p);
                lemma_pow2_pos((bits - 1) as nat);
                lemma0_pow(half);
            }
        }
        modular::lemma_fermat(w, p);
        lemma_pow_multiplies(w, half, odd);
        lemma_pow_multiplies(w, (p - 1) as nat, q);
        assert(half * odd == (p - 1) * q) by (nonlinear_arith)
            requires
                half == 0x10000000 * q,
                p - 1 == 0x10000000 * odd,
        ;
        lemma_small_mod(1, p as nat);
        modular::lemma_pow_cong(pow(w, (p - 1) as nat), 1, q, p);
        lemma1_pow(q);
        lemma_small_mod((p - 1) as nat, p as nat);
    }
}

/// The root of unity of order two to the `log_n` that is used: a power of five.
pub open spec fn root_value(log_n: nat) -> int {
    fields::fpow(
        5,
        81540058820840996586704275553141814055101440848469862132140264610111nat * pow2(
            (28 - log_n) as nat,
        ),
    )
}

/// The root of unity of the largest order is five to the power `(r - 1) / 2^28`, and the
/// square of each other one is the root of unity of half its order.
pub proof fn law_root_squares(log_n: nat)
    requires
        log_n < 28,
    ensures
        root_value(28) == fields::fpow(
            5,
            ((fields::fr_modulus() - 1) / (pow2(28) as int)) as nat,
        ),
        fields::fmul(root_value(log_n + 1), root_value(log_n + 1)) == root_value(log_n),
{
    fields::lemma_fr_modulus();
    let p = fields::fr_modulus();
    let odd = 81540058820840996586704275553141814055101440848469862132140264610111nat;
    lemma2_to64();
    assert(pow2(0) == 1 && pow2(28) == 0x10000000);
    assert(p - 1 == 0x10000000 * odd) by {
        reveal(fields::fr_modulus);
    }
    lemma_div_multiples_vanish(odd as int, 0x10000000);
    assert((p - 1) / 0x10000000 == odd);
    let e = pow2((27 - log_n) as nat);
    lemma_pow2_unfold((28 - log_n) as nat);
    let a = pow(5, odd * e);
    modular::lemma_mod_idem(a, p);
    modular::lemma_mul_cong(a % p, a % p, a, a, p);
    lemma_pow_adds(5, odd * e, odd * e);
    assert(odd * e + odd * e == odd * (2 * e)) by (nonlinear_arith);
}

/// The fourth power of the root of unity of four times the order is the root of
/// unity of the order.
pub proof fn law_root_fourth_power(log_n: nat)
    requires
        log_n + 2 <= 28,
    ensures
        fields::fpow(root_value(log_n + 2), 4) == root_value(log_n),
{
    fields::lemma_fr_modulus();
    let p = fields::fr_modulus();
    let odd = 81540058820840996586704275553141814055101440848469862132140264610111nat;
    let e = pow2((26 - log_n) as nat);
    lemma_pow2_adds((26 - log_n) as nat, 2);
    lemma2_to64();
    modular::lemma_mod_idem(pow(5, odd * e), p);
    modular::lemma_pow_cong(root_value(log_n + 2), pow(5, odd * e), 4, p);
    lemma_pow_multiplies(5, odd * e, 4);
    lemma_mul_is_associative(odd as int, e as int, 4);
}

/// The root of unity of order two to the 28: five to the power `(r - 1) / 2^28`.
pub fn root_of_unity_2_28() -> (r: Fr)
    ensures
        r.wf(),
        r@ == fields::fpow(
            5,
            81540058820840996586704275553141814055101440848469862132140264610111nat,
        ),
        is_primitive_root(r@, 28),
{
    let g = Fr::from_u64(5);
    let exp: [u64; 4] = [
        0x9b9709143e1f593f,
        0x181585d2833e8487,
        0x131a029b85045b68,
        0x000000030644e72e,
    ];
    let r = g.pow(&exp);
    proof {
        fields::lemma_fr_modulus();
        let p = fields::fr_modulus();
        let odd = 81540058820840996586704275553141814055101440848469862132140264610111nat;
        assert(limbs::value(exp) == odd);
        lemma2_to64();
        lemma_pow_multiplies(5, odd, 0x8000000);
        primes::lemma_five_is_no_square();
        assert(odd * 0x8000000 == (p - 1) / 2
            && 21888242871839275222246405745257275088548364400416034343698204186575808495616int == p
            - 1) by {
            reveal(fields::fr_modulus);
        }
        assert(p
            == 21888242871839275222246405745257275088548364400416034343698204186575808495617int) by {
            reveal(fields::fr_modulus);
        }
        modular::lemma_mod_idem(pow(5, odd), p);
        modular::lemma_pow_cong(r@, pow(5, odd), 0x8000000, p);
    }
    r
}

/// A root of unity of order two to the `log_n`.
pub fn root_of_unity(log_n: u32) -> (r: Fr)
    requires
        log_n <= 28,
    ensures
        r.wf(),
        r@ == root_value(log_n as nat),
        is_primitive_root(r@, log_n as nat),
{
    let root_28 = root_of_unity_2_28();
    let mut exp: u64 = 1;
    proof {
        lemma2_to64();
    }
    for k in 0..28 - log_n
        invariant
            log_n <= 28,
            exp == pow2(k as nat),
    {
        proof {
            lemma_pow2_unfold((k + 1) as nat);
            lemma2_to64();
            lemma_pow2_strictly_increases(k as nat, 28);
        }
        exp = 2 * exp;
    }
    assert(limbs::value([exp, 0, 0, 0]) == exp);
    let r = root_28.pow(&[exp, 0, 0, 0]);
    proof {
        fields::lemma_fr_modulus();
        let p = fields::fr_modulus();
        let odd = 81540058820840996586704275553141814055101440848469862132140264610111nat;
        let e = pow2((28 - log_n) as nat);
        modular::lemma_mod_idem(pow(5, odd), p);
        modular::lemma_pow_cong(root_28@, pow(5, odd), e, p);
        lemma_pow_multiplies(5, odd, e);
        modular::lemma_mod_idem(pow(root_28@, e), p);
        if log_n == 0 {
            // The full order takes the root to one.
            lemma_pow2_unfold(28);
            let h = pow2(27);
            let z = pow(root_28@, h);
            lemma_pow_adds(root_28@, h, h);
            modular::lemma_mod_shift(p - 1, -1, 1, p);
            modular::lemma_mod_idem(z, p);
            modular::lemma_mul_cong(z, z, -1, -1, p);
            lemma_small_mod(1, p as nat);
        } else {
            let h = pow2((log_n - 1) as nat);
            lemma_pow2_adds((28 - log_n) as nat, (log_n - 1) as nat);
            lemma_pow_multiplies(root_28@, e, h);
            modular::lemma_pow_cong(r@, pow(root_28@, e), h, p);
        }
    }
    r
}

/// The values of a polynomial at the powers of `w`.
pub open spec fn dft(c: Seq<int>, w: int) -> Seq<int> {
    Seq::new(c.len(), |i: int| polynomial::feval(c, pow(w, i as nat)))
}

/// The coefficients of the polynomial with the given values at the powers of
/// `w`.
pub open spec fn idft(e: Seq<int>, w: int) -> Seq<int> {
    Seq::new(
        e.len(),
        |i: int|
            fields::fmul(
                polynomial::feval(e, pow(fields::finv(w), i as nat)),
                fields::finv(e.len() as int),
            ),
    )
}

/// The values of a polynomial at `shift` times the powers of `w`.
pub open spec fn coset_dft(c: Seq<int>, w: int, shift: int) -> Seq<int> {
    Seq::new(c.len(), |i: int| polynomial::feval(c, shift * pow(w, i as nat)))
}

/// The coefficients of the polynomial with the given values at `shift` times
/// the powers of `w`.
pub open spec fn coset_idft(e: Seq<int>, w: int, shift: int) -> Seq<int> {
    Seq::new(
        e.len(),
        |i: int| fields::fmul(idft(e, w)[i], fields::fpow(fields::finv(shift), i as nat)),
    )
}

/// The inverse of a primitive root of unity is one, too.
pub proof fn lemma_inverse_root(w: int, bits: nat)
    requires
        0 < w < fields::fr_modulus(),
        is_primitive_root(w, bits),
    ensures
        is_primitive_root(fields::finv(w), bits),
{
    fields::lemma_fr_modulus();
    let p = fields::fr_modulus();
    let u = fields::finv(w);
    fields::law_fr_inverse(w);
    fields::lemma_frange(w, 0, 0);
    lemma_small_mod(1, p as nat);
    if bits == 0 {
        fields::law_fr_units(u, 0);
    } else {
        let h = pow2((bits - 1) as nat);
        // (w u)^h = 1 and w^h = -1, so u^h = -1.
        lemma_pow_distributes(w, u, h);
        modular::lemma_pow_cong(w * u, 1, h, p);
        lemma1_pow(h);
        let a = pow(w, h);
        let b = pow(u, h);
        modular::lemma_mod_shift(p - 1, -1, 1, p);
        modular::lemma_mod_idem(a, p);
        modular::lemma_mul_cong(a, b, -1, b, p);
        modular::lemma_mul_cong(-1, a * b, -1, 1, p);
        modular::lemma_mul_cong(-1, a * b, -1, (-1) * b, p);
        assert((-1) * ((-1) * b) == b);
        lemma_small_mod((p - 1) as nat, p as nat);
    }
}

/// A domain of roots of unity in the scalar field.
pub struct Domain {
    /// The number of points, a power of two.
    pub size: usize,
    /// The logarithm of the size.
    pub log_size: u32,
    /// The generator.
    pub omega: Fr,
    /// The inverse of the generator.
    pub omega_inv: Fr,
    /// The inverse of the size.
    pub size_inv: Fr,
}

impl Domain {
    /// The fields agree with each other.
    pub open spec fn wf(self) -> bool {
        &&& self.size == pow2(self.log_size as nat)
        &&& self.omega.wf()
        &&& self.omega@ != 0
        &&& self.omega_inv.wf()
        &&& self.omega_inv@ == fields::finv(self.omega@)
        &&& self.size_inv.wf()
        &&& self.size_inv@ == fields::finv(self.size as int)
    }

    /// The generator is a primitive root of unity of the domain's size.
    pub open spec fn primitive(self) -> bool {
        self.wf() && is_primitive_root(self.omega@, self.log_size as nat)
    }

    /// The domain of the given size that `omega` generates.
    pub fn new(size: usize, omega: Fr) -> (r: Self)
        requires
            exists|k: nat| size == #[trigger] pow2(k),
            omega.wf(),
            omega@ != 0,
        ensures
            r.wf(),
            r.size == size,
            r.omega == omega,
    {
        let ghost k0 = choose|k: nat| size == pow2(k);
        let mut log_size: u32 = 0;
        let mut power: usize = 1;
        proof {
            lemma2_to64();
            lemma_pow2_pos(k0);
        }
        while power < size
            invariant
                size == pow2(k0),
                power == pow2(log_size as nat),
                power >= 1,
                log_size <= k0,
                log_size <= 64,
            decreases size - power,
        {
            proof {
                lemma2_to64();
                if log_size == 64 {
                    assert(false);
                }
                if log_size == k0 {
                    assert(false);
                }
                lemma_pow2_unfold((log_size + 1) as nat);
                if log_size + 1 < k0 {
                    lemma_pow2_strictly_increases((log_size + 1) as nat, k0);
                }
            }
            power = 2 * power;
            log_size = log_size + 1;
        }
        proof {
            if log_size < k0 {
                lemma_pow2_strictly_increases(log_size as nat, k0);
            }
            fields::lemma_fr_modulus();
        }
        let omega_inv = omega.inv();
        let size_fr = Fr::from_u64(size as u64);
        let size_inv = size_fr.inv();
        Self { size, log_size, omega, omega_inv, size_inv }
    }

    /// All powers of the generator, from one on.
    pub fn omega_powers(&self) -> (r: Vec<Fr>)
        requires
            self.wf(),
        ensures
            r@.len() == self.size,
            fields::all_wf(r@),
            forall|i: int|
                0 <= i < r@.len() ==> (#[trigger] r@[i])@ == fields::fpow(self.omega@, i as nat),
    {
        polynomial::power_vec(&self.omega, self.size)
    }

    /// The value of the vanishing polynomial `X^N - 1`.
    pub fn vanishing_eval(&self, x: &Fr) -> (r: Fr)
        requires
            self.wf(),
            x.wf(),
        ensures
            r.wf(),
            r@ == fields::fsub(fields::fpow(x@, self.size as nat), 1),
    {
        let mut xn = *x;
        proof {
            lemma2_to64();
            lemma_pow1(x@);
            fields::lemma_fr_modulus();
            x.lemma_of_view();
            lemma_small_mod(x@ as nat, fields::fr_modulus() as nat);
        }
        for k in 0..self.log_size
            invariant
                xn.wf(),
                xn@ == fields::fpow(x@, pow2(k as nat)),
        {
            proof {
                fields::lemma_fr_modulus();
                let p = fields::fr_modulus();
                lemma_pow2_unfold((k + 1) as nat);
                let y = pow(x@, pow2(k as nat));
                lemma_pow_adds(x@, pow2(k as nat), pow2(k as nat));
                modular::lemma_mod_idem(y, p);
                modular::lemma_mul_cong(xn@, xn@, y, y, p);
            }
            xn = xn.square();
        }
        xn.sub(&Fr::one())
    }

    /// From coefficients to values on the domain.
    pub fn fft(&self, coeffs: &[Fr]) -> (r: Vec<Fr>)
        requires
            self.primitive(),
            coeffs@.len() == self.size,
            fields::all_wf(coeffs@),
        ensures
            fields::all_wf(r@),
            fields::vals(r@) == dft(fields::vals(coeffs@), self.omega@),
    {
        self.cpu_fft(coeffs)
    }

    /// From values on the domain to coefficients.
    pub fn ifft(&self, evals: &[Fr]) -> (r: Vec<Fr>)
        requires
            self.primitive(),
            evals@.len() == self.size,
            fields::all_wf(evals@),
        ensures
            fields::all_wf(r@),
            fields::vals(r@) == idft(fields::vals(evals@), self.omega@),
    {
        self.cpu_ifft(evals)
    }

    /// From coefficients to values on the coset `shift * omega^i`.
    pub fn coset_fft(&self, coeffs: &[Fr], shift: &Fr) -> (r: Vec<Fr>)
        requires
            self.primitive(),
            coeffs@.len() == self.size,
            fields::all_wf(coeffs@),
            shift.wf(),
        ensures
            fields::all_wf(r@),
            fields::vals(r@) == coset_dft(fields::vals(coeffs@), self.omega@, shift@),
    {
        self.cpu_coset_fft(coeffs, shift)
    }

    /// From values on the coset `shift * omega^i` to coefficients.
    pub fn coset_ifft(&self, evals: &[Fr], shift: &Fr) -> (r: Vec<Fr>)
        requires
            self.primitive(),
            evals@.len() == self.size,
            fields::all_wf(evals@),
            shift.wf(),
            shift@ != 0,
        ensures
            fields::all_wf(r@),
            fields::vals(r@) == coset_idft(fields::vals(evals@), self.omega@, shift@),
    {
        self.cpu_coset_ifft(evals, shift)
    }

    /// The forward transform: a butterfly network on the bit-reversed input.
    pub fn cpu_fft(&self, coeffs: &[Fr]) -> (r: Vec<Fr>)
        requires
            self.primitive(),
            coeffs@.len() == self.size,
            fields::all_wf(coeffs@),
        ensures
            fields::all_wf(r@),
            fields::vals(r@) == dft(fields::vals(coeffs@), self.omega@),
    {
        let mut a = vstd::slice::slice_to_vec(coeffs);
        proof {
            law_two_adicity(self.omega@, self.log_size as nat);
        }
        transform(&mut a, &self.omega, self.log_size);
        assert(fields::vals(a@) =~= dft(fields::vals(coeffs@), self.omega@));
        a
    }

    /// The inverse transform: the network with the inverse root, scaled by the
    /// inverse of the size.
    pub fn cpu_ifft(&self, evals: &[Fr]) -> (r: Vec<Fr>)
        requires
            self.primitive(),
            evals@.len() == self.size,
            fields::all_wf(evals@),
        ensures
            fields::all_wf(r@),
            fields::vals(r@) == idft(fields::vals(evals@), self.omega@),
    {
        let mut a = vstd::slice::slice_to_vec(evals);
        let ghost v = fields::vals(evals@);
        proof {
            law_two_adicity(self.omega@, self.log_size as nat);
            self.omega.lemma_of_view();
            lemma_inverse_root(self.omega@, self.log_size as nat);
        }
        transform(&mut a, &self.omega_inv, self.log_size);
        let ghost mid = a@;
        let n = a.len();
        for i in 0..n
            invariant
                n == a@.len(),
                a@.len() == mid.len(),
                fields::all_wf(mid),
                self.size_inv.wf(),
                forall|k: int|
                    0 <= k < a@.len() ==> (#[trigger] a@[k]).wf() && (if k < i {
                        a@[k]@ == fields::fmul(mid[k]@, self.size_inv@)
                    } else {
                        a@[k] == mid[k]
                    }),
        {
            let x = a[i].mul(&self.size_inv);
            a.set(i, x);
        }
        assert(fields::vals(a@) =~= idft(v, self.omega@));
        a
    }

    /// The forward transform on a coset: the coefficients are scaled by the
    /// powers of the shift first.
    pub fn cpu_coset_fft(&self, coeffs: &[Fr], shift: &Fr) -> (r: Vec<Fr>)
        requires
            self.primitive(),
            coeffs@.len() == self.size,
            fields::all_wf(coeffs@),
            shift.wf(),
        ensures
            fields::all_wf(r@),
            fields::vals(r@) == coset_dft(fields::vals(coeffs@), self.omega@, shift@),
    {
        let shifted = scale_by_powers(coeffs, shift);
        let r = self.cpu_fft(shifted.as_slice());
        proof {
            fields::lemma_fr_modulus();
            let p = fields::fr_modulus();
            let c = fields::vals(coeffs@);
            let d = fields::vals(shifted@);
            let e = Seq::new(c.len(), |i: int| c[i] * pow(shift@, i as nat));
            assert forall|i: int| 0 <= i < d.len() implies #[trigger] d[i] % p == e[i] % p by {
                assert(shifted@[i]@ == fields::fmul(
                    coeffs@[i]@,
                    fields::fpow(shift@, i as nat),
                ));
                modular::lemma_mod_idem(pow(shift@, i as nat), p);
                modular::lemma_mul_cong(
                    c[i],
                    fields::fpow(shift@, i as nat),
                    c[i],
                    pow(shift@, i as nat),
                    p,
                );
                modular::lemma_mod_idem(c[i] * fields::fpow(shift@, i as nat), p);
            }
            assert forall|i: int| 0 <= i < c.len() implies #[trigger] fields::vals(r@)[i]
                == coset_dft(c, self.omega@, shift@)[i] by {
                let x = pow(self.omega@, i as nat);
                polynomial::lemma_peval_cong(d, e, x, x, p);
                lemma_peval_scaled(c, e, shift@, x);
            }
            assert(fields::vals(r@) =~= coset_dft(c, self.omega@, shift@));
        }
        r
    }

    /// The inverse transform on a coset: the coefficients are scaled back
    /// afterwards.
    pub fn cpu_coset_ifft(&self, evals: &[Fr], shift: &Fr) -> (r: Vec<Fr>)
        requires
            self.primitive(),
            evals@.len() == self.size,
            fields::all_wf(evals@),
            shift.wf(),
            shift@ != 0,
        ensures
            fields::all_wf(r@),
            fields::vals(r@) == coset_idft(fields::vals(evals@), self.omega@, shift@),
    {
        let coeffs = self.cpu_ifft(evals);
        let shift_inv = shift.inv();
        let r = scale_by_powers(coeffs.as_slice(), &shift_inv);
        proof {
            let e = fields::vals(evals@);
            assert(fields::vals(coeffs@).len() == idft(e, self.omega@).len());
            assert forall|i: int| 0 <= i < e.len() implies #[trigger] fields::vals(r@)[i]
                == coset_idft(e, self.omega@, shift@)[i] by {
                assert(r@[i]@ == fields::fmul(
                    coeffs@[i]@,
                    fields::fpow(shift_inv@, i as nat),
                ));
                assert(fields::vals(coeffs@)[i] == idft(e, self.omega@)[i]);
            }
            assert(fields::vals(r@) =~= coset_idft(e, self.omega@, shift@));
        }
        r
    }
}

/// Scaling the coefficients by powers scales the argument.
pub proof fn lemma_peval_scaled(c: Seq<int>, d: Seq<int>, shift: int, x: int)
    requires
        c.len() == d.len(),
        forall|i: int| 0 <= i < c.len() ==> #[trigger] d[i] == c[i] * pow(shift, i as nat),
    ensures
        polynomial::peval(d, x) == polynomial::peval(c, shift * x),
{
    let n = c.len();
    let f = |i: int| polynomial::coeff(d, i) * pow(x, i as nat);
    let g = |i: int| polynomial::coeff(c, i) * pow(shift * x, i as nat);
    polynomial::lemma_peval_sum(d, x, n);
    polynomial::lemma_peval_sum(c, shift * x, n);
    assert forall|i: int| 0 <= i < n implies #[trigger] f(i) == g(i) by {
        assert(d[i] == c[i] * pow(shift, i as nat));
        lemma_pow_distributes(shift, x, i as nat);
        let a = c[i];
        let u = pow(shift, i as nat);
        let v = pow(x, i as nat);
        assert((a * u) * v == a * (u * v)) by (nonlinear_arith);
    }
    sums::lemma_sum_eq(f, g, n);
}

/// Multiplies every element by the power of `x` of its index.
fn scale_by_powers(values: &[Fr], x: &Fr) -> (r: Vec<Fr>)
    requires
        fields::all_wf(values@),
        x.wf(),
    ensures
        r@.len() == values@.len(),
        fields::all_wf(r@),
        forall|i: int|
            0 <= i < r@.len() ==> (#[trigger] r@[i])@ == fields::fmul(
                values@[i]@,
                fields::fpow(x@, i as nat),
            ),
{
    let mut r: Vec<Fr> = Vec::with_capacity(values.len());
    let mut power = Fr::one();
    proof {
        fields::lemma_fr_modulus();
        lemma_pow0(x@);
        lemma_small_mod(1, fields::fr_modulus() as nat);
    }
    for i in 0..values.len()
        invariant
            fields::all_wf(values@),
            x.wf(),
            power.wf(),
            power@ == fields::fpow(x@, i as nat),
            r@.len() == i,
            fields::all_wf(r@),
            forall|k: int|
                0 <= k < i ==> (#[trigger] r@[k])@ == fields::fmul(
                    values@[k]@,
                    fields::fpow(x@, k as nat),
                ),
    {
        r.push(values[i].mul(&power));
        proof {
            polynomial::lemma_fpow_step(x@, i as nat);
        }
        power = power.mul(x);
    }
    r
}

} // verus!
