//! Modular arithmetic over the integers: congruences, primes, inverses and
//! Fermat's little theorem.

use vstd::arithmetic::div_mod::*;
use vstd::arithmetic::mul::*;
use vstd::arithmetic::power::*;
use vstd::prelude::*;
use vstd::set_lib::*;

verus! {

/// `n` is a prime number: it is above one and no integer strictly between one
/// and `n` divides it.
pub open spec fn is_prime(n: int) -> bool {
    n > 1 && forall|d: int| 1 < d < n ==> #[trigger] (n % d) != 0
}

/// Two integers that differ by a multiple of `m` leave the same remainder.
pub proof fn lemma_mod_shift(a: int, b: int, k: int, m: int)
    requires
        m > 0,
        a == b + k * m,
    ensures
        a % m == b % m,
{
    lemma_mod_multiples_vanish(k, b, m);
    lemma_mul_is_commutative(k, m);
}

/// A number divisible by `m` is `m` times its quotient.
pub proof fn lemma_divides(a: int, m: int)
    requires
        m > 0,
        a % m == 0,
    ensures
        a == m * (a / m),
        a == (a / m) * m,
{
    lemma_fundamental_div_mod(a, m);
    lemma_mul_is_commutative(m, a / m);
}

/// A multiple of `m` leaves no remainder.
pub proof fn lemma_multiple(k: int, m: int)
    requires
        m > 0,
    ensures
        (k * m) % m == 0,
        (m * k) % m == 0,
{
    lemma_mod_multiples_basic(k, m);
    lemma_mul_is_commutative(k, m);
}

/// Reducing the factors first does not change a product modulo `m`.
pub proof fn lemma_mul_cong(a: int, b: int, x: int, y: int, m: int)
    requires
        m > 0,
        a % m == x % m,
        b % m == y % m,
    ensures
        (a * b) % m == (x * y) % m,
{
    lemma_mul_mod_noop_general(a, b, m);
    lemma_mul_mod_noop_general(x, y, m);
}

/// Reducing the summands first does not change a sum modulo `m`.
pub proof fn lemma_add_cong(a: int, b: int, x: int, y: int, m: int)
    requires
        m > 0,
        a % m == x % m,
        b % m == y % m,
    ensures
        (a + b) % m == (x + y) % m,
{
    lemma_add_mod_noop(a, b, m);
    lemma_add_mod_noop(x, y, m);
}

/// Reducing the operands first does not change a difference modulo `m`.
pub proof fn lemma_sub_cong(a: int, b: int, x: int, y: int, m: int)
    requires
        m > 0,
        a % m == x % m,
        b % m == y % m,
    ensures
        (a - b) % m == (x - y) % m,
{
    lemma_sub_mod_noop(a, b, m);
    lemma_sub_mod_noop(x, y, m);
}

/// Reducing twice is reducing once.
pub proof fn lemma_mod_idem(a: int, m: int)
    requires
        m > 0,
    ensures
        (a % m) % m == a % m,
        0 <= a % m < m,
{
    lemma_mod_twice(a, m);
    lemma_mod_bound(a, m);
}

/// Congruent bases have congruent powers.
pub proof fn lemma_pow_cong(a: int, b: int, e: nat, m: int)
    requires
        m > 0,
        a % m == b % m,
    ensures
        pow(a, e) % m == pow(b, e) % m,
{
    lemma_pow_mod_noop(a, e, m);
    lemma_pow_mod_noop(b, e, m);
}

/// Every number that a prime does not divide has an inverse modulo that prime.
pub proof fn lemma_inverse_exists(a: int, p: int) -> (x: int)
    requires
        is_prime(p),
        0 < a < p,
    ensures
        0 <= x < p,
        (a * x) % p == 1,
    decreases a,
{
    if a == 1 {
        assert(1int % p == 1) by {
            lemma_small_mod(1, p as nat);
        }
        1
    } else {
        let k = p / a;
        let rest = p % a;
        lemma_fundamental_div_mod(p, a);
        lemma_mod_bound(p, a);
        let y = lemma_inverse_exists(rest, p);
        let x0 = -(k * y);
        let x = x0 % p;
        lemma_mod_bound(x0, p);
        assert(a * x0 == rest * y + (-y) * p) by (nonlinear_arith)
            requires
                p == a * k + rest,
                x0 == -(k * y),
        ;
        lemma_mod_shift(a * x0, rest * y, -y, p);
        lemma_mul_mod_noop_right(a, x0, p);
        x
    }
}

/// Euclid's lemma: a prime that divides a product divides one of its factors.
pub proof fn lemma_euclid(a: int, b: int, p: int)
    requires
        is_prime(p),
        (a * b) % p == 0,
    ensures
        a % p == 0 || b % p == 0,
{
    let r = a % p;
    lemma_mod_bound(a, p);
    if r != 0 {
        let x = lemma_inverse_exists(r, p);
        lemma_mul_mod_noop_left(a, x, p);
        lemma_small_mod(1, p as nat);
        lemma_small_mod(0, p as nat);
        lemma_mul_cong(a * x, b, 1, b, p);
        lemma_mul_cong(a * b, x, 0, x, p);
        assert((a * x) * b == (a * b) * x) by (nonlinear_arith);
    }
}

/// A prime divides no power of a number that it does not divide.
pub proof fn lemma_pow_nonzero(a: int, e: nat, p: int)
    requires
        is_prime(p),
        a % p != 0,
    ensures
        pow(a, e) % p != 0,
    decreases e,
{
    reveal(pow);
    if e == 0 {
        lemma_small_mod(1, p as nat);
    } else {
        lemma_pow_nonzero(a, (e - 1) as nat, p);
        if pow(a, e) % p == 0 {
            lemma_euclid(a, pow(a, (e - 1) as nat), p);
        }
    }
}

/// A factor that is not divisible by the prime can be cancelled.
pub proof fn lemma_cancel(a: int, b: int, c: int, p: int)
    requires
        is_prime(p),
        c % p != 0,
        (a * c) % p == (b * c) % p,
    ensures
        a % p == b % p,
{
    lemma_mod_equivalence(a * c, b * c, p);
    assert(a * c - b * c == (a - b) * c) by (nonlinear_arith);
    lemma_euclid(a - b, c, p);
    lemma_mod_equivalence(a, b, p);
}

/// The product of all members of a finite set of integers.
pub open spec fn set_product(s: Set<int>) -> int
    decreases s.len(),
    when s.finite()
{
    if s.len() == 0 {
        1
    } else {
        s.choose() * set_product(s.remove(s.choose()))
    }
}

proof fn lemma_set_product_remove(s: Set<int>, x: int)
    requires
        s.finite(),
        s.contains(x),
    ensures
        set_product(s) == x * set_product(s.remove(x)),
    decreases s.len(),
{
    let c = s.choose();
    assert(s.len() != 0) by {
        if s.len() == 0 {
            assert(s =~= Set::empty());
        }
    }
    if c != x {
        lemma_set_product_remove(s.remove(c), x);
        lemma_set_product_remove(s.remove(x), c);
        assert(s.remove(c).remove(x) =~= s.remove(x).remove(c));
        let rest = set_product(s.remove(c).remove(x));
        assert(c * (x * rest) == x * (c * rest)) by (nonlinear_arith);
    }
}

/// The residues `a * x mod p` of the members `x` of `s`.
pub open spec fn scaled(s: Set<int>, a: int, p: int) -> Set<int> {
    s.map(|x: int| (a * x) % p)
}

proof fn lemma_scaled_product(s: Set<int>, a: int, p: int)
    requires
        is_prime(p),
        a % p != 0,
        s.finite(),
        forall|x: int| s.contains(x) ==> 0 < x < p,
    ensures
        scaled(s, a, p).finite(),
        set_product(scaled(s, a, p)) % p == (pow(a, s.len()) * set_product(s)) % p,
    decreases s.len(),
{
    let f = |x: int| (a * x) % p;
    if s.len() == 0 {
        assert(s =~= Set::empty());
        assert(scaled(s, a, p) =~= Set::empty());
        lemma_pow0(a);
    } else {
        let c = s.choose();
        let t = s.remove(c);
        lemma_scaled_product(t, a, p);
        let y = f(c);
        assert(!scaled(t, a, p).contains(y)) by {
            if scaled(t, a, p).contains(y) {
                let d = choose|d: int| t.contains(d) && f(d) == y;
                assert(a * c == c * a && a * d == d * a) by (nonlinear_arith);
                lemma_cancel(c, d, a, p);
                lemma_small_mod(c as nat, p as nat);
                lemma_small_mod(d as nat, p as nat);
            }
        }
        assert(scaled(s, a, p) =~= scaled(t, a, p).insert(y)) by {
            assert forall|z: int| scaled(s, a, p).contains(z) implies scaled(t, a, p).insert(
                y,
            ).contains(z) by {
                let d = choose|d: int| s.contains(d) && f(d) == z;
                if d != c {
                    assert(t.contains(d));
                }
            }
            assert forall|z: int| scaled(t, a, p).insert(y).contains(z) implies scaled(
                s,
                a,
                p,
            ).contains(z) by {
                if z == y {
                    assert(s.contains(c) && f(c) == z);
                } else {
                    let d = choose|d: int| t.contains(d) && f(d) == z;
                    assert(s.contains(d) && f(d) == z);
                }
            }
        }
        lemma_set_product_remove(scaled(s, a, p), y);
        assert(scaled(s, a, p).remove(y) =~= scaled(t, a, p));
        lemma_set_product_remove(s, c);
        let k = (s.len() - 1) as nat;
        lemma_pow_adds(a, 1, k);
        lemma_pow1(a);
        lemma_mul_mod_noop_left(a * c, set_product(scaled(t, a, p)), p);
        lemma_mul_cong(
            a * c,
            set_product(scaled(t, a, p)),
            a * c,
            pow(a, k) * set_product(t),
            p,
        );
        let pk = pow(a, k);
        let pt = set_product(t);
        assert((a * c) * (pk * pt) == (a * pk) * (c * pt)) by (nonlinear_arith);
    }
}

proof fn lemma_set_product_nonzero(s: Set<int>, p: int)
    requires
        is_prime(p),
        s.finite(),
        forall|x: int| s.contains(x) ==> 0 < x < p,
    ensures
        set_product(s) % p != 0,
    decreases s.len(),
{
    if s.len() == 0 {
        lemma_small_mod(1, p as nat);
    } else {
        let c = s.choose();
        lemma_set_product_nonzero(s.remove(c), p);
        lemma_small_mod(c as nat, p as nat);
        if set_product(s) % p == 0 {
            lemma_euclid(c, set_product(s.remove(c)), p);
        }
    }
}

/// Fermat's little theorem: `a^(p-1)` is one modulo a prime `p` that does not
/// divide `a`.
pub proof fn lemma_fermat(a: int, p: int)
    requires
        is_prime(p),
        a % p != 0,
    ensures
        pow(a, (p - 1) as nat) % p == 1,
{
    let s = set_int_range(1, p);
    lemma_int_range(1, p);
    let t = scaled(s, a, p);
    lemma_scaled_product(s, a, p);
    lemma_set_product_nonzero(s, p);
    assert(t.subset_of(s)) by {
        assert forall|z: int| t.contains(z) implies s.contains(z) by {
            let d = choose|d: int| s.contains(d) && (a * d) % p == z;
            lemma_mod_bound(a * d, p);
            if z == 0 {
                lemma_euclid(a, d, p);
                lemma_small_mod(d as nat, p as nat);
            }
        }
    }
    let f = |x: int| (a * x) % p;
    assert(vstd::relations::injective_on(f, s)) by {
        assert forall|c: int, d: int| s.contains(c) && s.contains(d) && #[trigger] f(c)
            == #[trigger] f(d) implies c == d by {
            assert(a * c == c * a && a * d == d * a) by (nonlinear_arith);
            lemma_cancel(c, d, a, p);
            lemma_small_mod(c as nat, p as nat);
            lemma_small_mod(d as nat, p as nat);
        }
    }
    lemma_map_size(s, t, f);
    lemma_subset_equality(t, s);
    let e = (p - 1) as nat;
    let w = set_product(s);
    assert((pow(a, e) * w) % p == (1 * w) % p);
    lemma_cancel(pow(a, e), 1, w, p);
    lemma_small_mod(1, p as nat);
}

/// The smallest divisor of `n` that is at least `d`, where nothing between one
/// and `d` divides `n`: it is prime, and it is `n` itself or at most its root.
proof fn lemma_smallest_factor(n: int, d: int) -> (p: int)
    requires
        2 <= d <= n,
        forall|c: int| 1 < c < d ==> #[trigger] (n % c) != 0,
    ensures
        is_prime(p),
        n % p == 0,
        p == n || p * p <= n,
    decreases n - d,
{
    if n % d == 0 {
        lemma_divides(n, d);
        let k = n / d;
        assert(is_prime(d)) by {
            assert forall|c: int| 1 < c < d implies #[trigger] (d % c) != 0 by {
                if d % c == 0 {
                    lemma_divides(d, c);
                    let j = d / c;
                    assert(n == (j * k) * c) by (nonlinear_arith)
                        requires
                            n == d * k,
                            d == c * j,
                    ;
                    lemma_multiple(j * k, c);
                    assert(n % c == 0);
                }
            }
        }
        if k != 1 {
            assert(k > 1) by (nonlinear_arith)
                requires
                    n == d * k,
                    n >= 2,
                    d >= 2,
                    k != 1,
            ;
            assert(d >= 2 && k < d ==> k < n) by (nonlinear_arith)
                requires
                    n == d * k,
                    k > 1,
                    d >= 2,
            ;
            if k < d {
                lemma_multiple(d, k);
                assert(n % k == 0);
            }
            assert(d * d <= n) by (nonlinear_arith)
                requires
                    n == d * k,
                    k >= d,
                    d >= 2,
            ;
        } else {
            assert(n == d * 1);
        }
        d
    } else {
        if d == n {
            lemma_mod_self_0(n);
        }
        lemma_smallest_factor(n, d + 1)
    }
}

/// A number all of whose prime factors exceed its square root is prime.
pub proof fn lemma_prime_by_factors(n: int)
    requires
        n > 1,
        forall|p: int| is_prime(p) && #[trigger] (n % p) == 0 ==> p * p > n,
    ensures
        is_prime(n),
{
    let p = lemma_smallest_factor(n, 2);
    assert(n % p == 0);
}

/// One step of Pocklington's criterion. Where `n - 1 = h * q` with `q` prime,
/// `a^(n-1)` is one modulo `n` and `a^h - 1` is invertible modulo `n`, every
/// prime factor `p` of `n` has `p - 1` divisible by `q`.
pub proof fn lemma_pocklington(n: int, q: int, h: nat, a: int, w: int, p: int)
    requires
        n > 1,
        is_prime(q),
        n - 1 == h * q,
        pow(a, (n - 1) as nat) % n == 1,
        (w * (pow(a, h) - 1)) % n == 1,
        is_prime(p),
        n % p == 0,
    ensures
        (p - 1) % q == 0,
{
    let big = pow(a, (n - 1) as nat);
    let small = pow(a, h);
    lemma_divides(n, p);
    let k = n / p;
    lemma_small_mod(1, p as nat);
    // Both facts hold modulo p as well.
    assert(big % p == 1) by {
        lemma_fundamental_div_mod(big, n);
        let c = big / n;
        assert(big == 1 + (c * k) * p) by (nonlinear_arith)
            requires
                big == n * c + 1,
                n == p * k,
        ;
        lemma_mod_shift(big, 1, c * k, p);
    }
    let d = w * (small - 1);
    assert(d % p == 1) by {
        lemma_fundamental_div_mod(d, n);
        let c = d / n;
        assert(d == 1 + (c * k) * p) by (nonlinear_arith)
            requires
                d == n * c + 1,
                n == p * k,
        ;
        lemma_mod_shift(d, 1, c * k, p);
    }
    if (p - 1) % q != 0 {
        // Then q has an inverse modulo p - 1, and a^h is one modulo p.
        let m = p - 1;
        lemma_mod_bound(m, q);
        let t = lemma_inverse_exists(m % q, q);
        lemma_mul_mod_noop_left(m, t, q);
        lemma_fundamental_div_mod(m * t, q);
        let u = (m * t) / q;
        assert(m * t == q * u + 1);
        assert(t >= 1) by {
            if t == 0 {
                lemma_small_mod(0, q as nat);
            }
        }
        assert(u >= 0) by (nonlinear_arith)
            requires
                m * t == q * u + 1,
                m >= 1,
                t >= 1,
                q > 1,
        ;
        assert(a % p != 0) by {
            if a % p == 0 {
                lemma_small_mod(0, p as nat);
                lemma_pow_cong(a, 0, (n - 1) as nat, p);
                lemma0_pow((n - 1) as nat);
            }
        }
        lemma_fermat(a, p);
        // a^(h * (m t)) = 1 and a^(h * q * u) = 1, so a^h = 1.
        let e1 = h * ((m * t) as nat);
        let e2 = h * ((q * u) as nat);
        assert(m * t >= 0) by (nonlinear_arith)
            requires
                m >= 1,
                t >= 1,
        ;
        assert(q * u >= 0) by (nonlinear_arith)
            requires
                q > 1,
                u >= 0,
        ;
        assert(e1 == m * (t * h)) by (nonlinear_arith)
            requires
                e1 == h * (m * t),
        ;
        assert(t * h >= 0) by (nonlinear_arith)
            requires
                t >= 1,
                h >= 0,
        ;
        assert(e2 == (n - 1) * u) by (nonlinear_arith)
            requires
                e2 == h * (q * u),
                n - 1 == h * q,
        ;
        assert(e1 == e2 + h) by (nonlinear_arith)
            requires
                e1 == h * (m * t),
                e2 == h * (q * u),
                m * t == q * u + 1,
        ;
        lemma_pow_multiplies(a, m as nat, (t * h) as nat);
        lemma_pow_cong(pow(a, m as nat), 1, (t * h) as nat, p);
        lemma1_pow((t * h) as nat);
        lemma_pow_multiplies(a, (n - 1) as nat, u as nat);
        lemma_pow_cong(big, 1, u as nat, p);
        lemma1_pow(u as nat);
        lemma_pow_adds(a, e2, h);
        lemma_mul_cong(pow(a, e2), small, 1, small, p);
        assert(small % p == 1);
        lemma_sub_cong(small, 1, 1, 1, p);
        lemma_mul_cong(w, small - 1, w, 0, p);
        lemma_small_mod(0, p as nat);
        assert(w * 0 == 0);
    }
}

/// A prime `p` with `p - 1` a multiple of `q` exceeds the root of `n` where
/// `2q + 1` does and `q + 1` does not divide `n`.
proof fn lemma_large_factor(n: int, q: int, s: int, p: int)
    requires
        q > 1,
        s == 2 * q + 1,
        s * s > n,
        n % (q + 1) != 0,
        p > 1,
        n % p == 0,
        (p - 1) % q == 0,
    ensures
        p * p > n,
{
    lemma_divides(p - 1, q);
    let k = (p - 1) / q;
    assert(k >= 1) by (nonlinear_arith)
        requires
            p - 1 == q * k,
            p > 1,
            q > 1,
    ;
    if k == 1 {
        assert(p == q * 1 + 1);
    }
    assert(p >= s) by (nonlinear_arith)
        requires
            p - 1 == q * k,
            k >= 2,
            q > 1,
            s == 2 * q + 1,
    ;
    assert(p * p > n) by (nonlinear_arith)
        requires
            p >= s,
            s > 1,
            s * s > n,
    ;
}

/// Pocklington's criterion with one large prime factor of `n - 1`.
pub proof fn lemma_pocklington_one(n: int, q: int, s: int, h: nat, a: int, w: int)
    requires
        n > 1,
        is_prime(q),
        n - 1 == h * q,
        s == 2 * q + 1,
        s * s > n,
        n % (q + 1) != 0,
        pow(a, (n - 1) as nat) % n == 1,
        (w * (pow(a, h) - 1)) % n == 1,
    ensures
        is_prime(n),
{
    assert forall|p: int| is_prime(p) && #[trigger] (n % p) == 0 implies p * p > n by {
        lemma_pocklington(n, q, h, a, w, p);
        lemma_large_factor(n, q, s, p);
    }
    lemma_prime_by_factors(n);
}

/// Pocklington's criterion with two distinct prime factors of `n - 1`, whose
/// product is `q`.
pub proof fn lemma_pocklington_two(
    n: int,
    q1: int,
    h1: nat,
    w1: int,
    q2: int,
    h2: nat,
    w2: int,
    q: int,
    s: int,
    a: int,
)
    requires
        n > 1,
        is_prime(q1),
        is_prime(q2),
        q1 > q2,
        q == q1 * q2,
        n - 1 == h1 * q1,
        n - 1 == h2 * q2,
        s == 2 * q + 1,
        s * s > n,
        n % (q + 1) != 0,
        pow(a, (n - 1) as nat) % n == 1,
        (w1 * (pow(a, h1) - 1)) % n == 1,
        (w2 * (pow(a, h2) - 1)) % n == 1,
    ensures
        is_prime(n),
{
    assert(q > 1) by (nonlinear_arith)
        requires
            q1 > 1,
            q2 > 1,
            q == q1 * q2,
    ;
    assert forall|p: int| is_prime(p) && #[trigger] (n % p) == 0 implies p * p > n by {
        lemma_pocklington(n, q1, h1, a, w1, p);
        lemma_pocklington(n, q2, h2, a, w2, p);
        lemma_divides(p - 1, q1);
        let j = (p - 1) / q1;
        lemma_euclid(q1, j, q2);
        assert(q1 % q2 != 0);
        lemma_divides(j, q2);
        let k = j / q2;
        assert(p - 1 == k * q) by (nonlinear_arith)
            requires
                p - 1 == q1 * j,
                j == q2 * k,
                q == q1 * q2,
        ;
        lemma_multiple(k, q);
        lemma_large_factor(n, q, s, p);
    }
    lemma_prime_by_factors(n);
}

} // verus!
