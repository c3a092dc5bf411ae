//! Finite sums of integers and what they are modulo a number.

use crate::modular;
use vstd::arithmetic::div_mod::*;
use vstd::arithmetic::mul::*;
use vstd::arithmetic::power::*;
use vstd::prelude::*;

verus! {

/// `f(0) + f(1) + ... + f(n - 1)`.
pub open spec fn sum(f: spec_fn(int) -> int, n: nat) -> int
    decreases n,
{
    if n == 0 {
        0
    } else {
        sum(f, (n - 1) as nat) + f(n - 1)
    }
}

/// Sums of pointwise congruent terms are congruent.
pub proof fn lemma_sum_cong(f: spec_fn(int) -> int, g: spec_fn(int) -> int, n: nat, m: int)
    requires
        m > 0,
        forall|i: int| 0 <= i < n ==> #[trigger] f(i) % m == g(i) % m,
    ensures
        sum(f, n) % m == sum(g, n) % m,
    decreases n,
{
    if n > 0 {
        lemma_sum_cong(f, g, (n - 1) as nat, m);
        assert(f(n - 1) % m == g(n - 1) % m);
        modular::lemma_add_cong(sum(f, (n - 1) as nat), f(n - 1), sum(g, (n - 1) as nat), g(n - 1), m);
    }
}

/// Sums of pointwise equal terms are equal.
pub proof fn lemma_sum_eq(f: spec_fn(int) -> int, g: spec_fn(int) -> int, n: nat)
    requires
        forall|i: int| 0 <= i < n ==> #[trigger] f(i) == g(i),
    ensures
        sum(f, n) == sum(g, n),
    decreases n,
{
    if n > 0 {
        lemma_sum_eq(f, g, (n - 1) as nat);
        assert(f(n - 1) == g(n - 1));
    }
}

/// The sum of sums is the sum of the summed terms.
pub proof fn lemma_sum_add(f: spec_fn(int) -> int, g: spec_fn(int) -> int, n: nat)
    ensures
        sum(|i: int| f(i) + g(i), n) == sum(f, n) + sum(g, n),
    decreases n,
{
    if n > 0 {
        lemma_sum_add(f, g, (n - 1) as nat);
    }
}

/// A common factor can be taken out of a sum.
pub proof fn lemma_sum_scale(f: spec_fn(int) -> int, c: int, n: nat)
    ensures
        sum(|i: int| c * f(i), n) == c * sum(f, n),
    decreases n,
{
    if n > 0 {
        lemma_sum_scale(f, c, (n - 1) as nat);
        lemma_mul_is_distributive_add(c, sum(f, (n - 1) as nat), f(n - 1));
    } else {
        assert(c * 0 == 0);
    }
}

/// A sum of zeros is zero.
pub proof fn lemma_sum_zero(f: spec_fn(int) -> int, n: nat)
    requires
        forall|i: int| 0 <= i < n ==> #[trigger] f(i) == 0,
    ensures
        sum(f, n) == 0,
    decreases n,
{
    if n > 0 {
        lemma_sum_zero(f, (n - 1) as nat);
        assert(f(n - 1) == 0);
    }
}

/// A sum in which only the term at `k` matters modulo `m`.
pub proof fn lemma_sum_single(f: spec_fn(int) -> int, k: int, n: nat, m: int)
    requires
        m > 0,
        0 <= k < n,
        forall|i: int| 0 <= i < n && i != k ==> #[trigger] f(i) % m == 0,
    ensures
        sum(f, n) % m == f(k) % m,
    decreases n,
{
    let n1 = (n - 1) as nat;
    lemma_small_mod(0, m as nat);
    if k == n - 1 {
        let z = |i: int| 0int;
        lemma_sum_cong(f, z, n1, m);
        lemma_sum_zero(z, n1);
        modular::lemma_add_cong(sum(f, n1), f(k), 0, f(k), m);
    } else {
        lemma_sum_single(f, k, n1, m);
        assert(f(n - 1) % m == 0);
        modular::lemma_add_cong(sum(f, n1), f(n - 1), f(k), 0, m);
    }
}

/// The order of two summations can be exchanged.
pub proof fn lemma_sum_swap(f: spec_fn(int, int) -> int, n: nat, k: nat)
    ensures
        sum(|i: int| sum(|j: int| f(i, j), k), n) == sum(|j: int| sum(|i: int| f(i, j), n), k),
    decreases n,
{
    if n == 0 {
        lemma_sum_zero(|j: int| sum(|i: int| f(i, j), n), k);
    } else {
        let n1 = (n - 1) as nat;
        lemma_sum_swap(f, n1, k);
        let head = |j: int| sum(|i: int| f(i, j), n1);
        let last = |j: int| f(n - 1, j);
        lemma_sum_add(head, last, k);
        let inner = |i: int| sum(|j: int| f(i, j), k);
        assert(inner(n - 1) == sum(last, k)) by {
            lemma_sum_eq(|j: int| f(n - 1, j), last, k);
        }
        let whole = |j: int| sum(|i: int| f(i, j), n);
        let parts = |j: int| head(j) + last(j);
        assert forall|j: int| 0 <= j < k implies #[trigger] whole(j) == parts(j) by {
            let g = |i: int| f(i, j);
            assert(sum(g, n) == sum(g, n1) + g(n - 1));
        }
        lemma_sum_eq(whole, parts, k);
    }
}

/// A geometric sum whose ratio is not one but whose `n`-th power is one
/// vanishes modulo a prime.
pub proof fn lemma_geometric_vanishes(x: int, n: nat, p: int)
    requires
        modular::is_prime(p),
        pow(x, n) % p == 1,
        x % p != 1,
    ensures
        sum(|i: int| pow(x, i as nat), n) % p == 0,
{
    let f = |i: int| pow(x, i as nat);
    lemma_geometric(x, n);
    let s = sum(f, n);
    lemma_small_mod(1, p as nat);
    lemma_small_mod(0, p as nat);
    modular::lemma_sub_cong(pow(x, n), 1, 1, 1, p);
    modular::lemma_euclid(x - 1, s, p);
    if (x - 1) % p == 0 {
        lemma_mod_equivalence(x, 1, p);
    }
}

/// The closed form of a geometric sum.
proof fn lemma_geometric(x: int, n: nat)
    ensures
        (x - 1) * sum(|i: int| pow(x, i as nat), n) == pow(x, n) - 1,
    decreases n,
{
    let f = |i: int| pow(x, i as nat);
    if n == 0 {
        lemma_pow0(x);
        assert((x - 1) * 0 == 0);
    } else {
        let n1 = (n - 1) as nat;
        lemma_geometric(x, n1);
        let s = sum(f, n1);
        let q = pow(x, n1);
        lemma_pow_adds(x, 1, n1);
        lemma_pow1(x);
        assert(sum(f, n) == s + q);
        assert((x - 1) * (s + q) == (x - 1) * s + x * q - q) by (nonlinear_arith);
    }
}

} // verus!
