//! Copy constraints: where wires that the permutation connects hold equal values, the
//! grand product ends at one.
use crate::acceptance;
use crate::completeness;
use crate::fields;
use crate::g1;
use crate::g1::Point;
use crate::grand_product;
use crate::grand_product::Permutation;
use crate::linearization;
use crate::rounds::{Inputs, Key};
use vstd::arithmetic::div_mod::lemma_small_mod;
use vstd::prelude::*;

verus! {

/// The values of a wire, each with a place.
pub open spec fn placed(v: Seq<int>, t: Seq<int>) -> Seq<(int, int)> {
    Seq::new(v.len(), |i: int| (v[i], t[i]))
}

impl Permutation {
    /// All values, each at its own place: the rows of the left wire on the domain, those
    /// of the other two on its cosets.
    pub open spec fn own_places(self) -> Seq<(int, int)> {
        let n = self.id.len();
        let k2 = fields::fmul(self.k1, self.k1);
        placed(self.l, self.id) + placed(
            self.r,
            Seq::new(n, |i: int| fields::fmul(self.id[i], self.k1)),
        ) + placed(self.o, Seq::new(n, |i: int| fields::fmul(self.id[i], k2)))
    }

    /// All values, each at the place that the permutation gives it.
    pub open spec fn permuted_places(self) -> Seq<(int, int)> {
        placed(self.l, self.s1) + placed(self.r, self.s2) + placed(self.o, self.s3)
    }

    /// The copy constraints hold: moving every value to the place that the permutation
    /// gives it leaves the same values at the same places.
    pub open spec fn copies_hold(self) -> bool {
        self.own_places().to_multiset() == self.permuted_places().to_multiset()
    }

    /// The sequences have the same length.
    pub open spec fn sized(self) -> bool {
        let n = self.l.len();
        &&& self.r.len() == n
        &&& self.o.len() == n
        &&& self.s1.len() == n
        &&& self.s2.len() == n
        &&& self.s3.len() == n
        &&& self.id.len() == n
    }
}

impl Permutation {
    /// The values of the three wires, one wire behind the other.
    pub open spec fn wire_value(self, k: int) -> int {
        let n = self.l.len() as int;
        if k < n {
            self.l[k]
        } else if k < 2 * n {
            self.r[k - n]
        } else {
            self.o[k - 2 * n]
        }
    }

    /// The place of such a value: `x`, `k1 x` or `k1^2 x`, where `x` is the point of its
    /// row.
    pub open spec fn wire_place(self, k: int) -> int {
        let n = self.l.len() as int;
        if k < n {
            self.id[k]
        } else if k < 2 * n {
            (self.id[k - n] * self.k1) % fields::fr_modulus()
        } else {
            (self.id[k - 2 * n] * ((self.k1 * self.k1) % fields::fr_modulus()))
                % fields::fr_modulus()
        }
    }

    /// The place that the permutation gives to such a value.
    pub open spec fn moved_place(self, k: int) -> int {
        let n = self.l.len() as int;
        if k < n {
            self.s1[k]
        } else if k < 2 * n {
            self.s2[k - n]
        } else {
            self.s3[k - 2 * n]
        }
    }
}

/// A sequence and the same elements in another order have the same multiset.
proof fn lemma_reordered<A>(a: Seq<A>, b: Seq<A>, order: Seq<int>)
    requires
        a.len() == b.len(),
        order.len() == a.len(),
        order.no_duplicates(),
        forall|k: int| 0 <= k < order.len() ==> 0 <= #[trigger] order[k] < a.len(),
        forall|k: int| 0 <= k < order.len() ==> b[k] == a[#[trigger] order[k]],
    ensures
        a.to_multiset() == b.to_multiset(),
    decreases a.len(),
{
    a.to_multiset_ensures();
    b.to_multiset_ensures();
    if a.len() == 0 {
        assert(a =~= b);
    } else {
        let last = a.len() - 1;
        let m = order[last];
        let c = a.remove(m);
        let d = b.drop_last();
        let rest = Seq::new(
            last as nat,
            |k: int|
                if order[k] < m {
                    order[k]
                } else {
                    order[k] - 1
                },
        );
        assert forall|k: int| 0 <= k < rest.len() implies 0 <= #[trigger] rest[k] < c.len() && d[k]
            == c[rest[k]] by {
            assert(order[k] != order[last]);
            assert(b[k] == a[order[k]]);
        }
        assert(rest.no_duplicates()) by {
            assert forall|i: int, j: int|
                0 <= i < rest.len() && 0 <= j < rest.len() && i != j implies rest[i] != rest[j] by {
                assert(order[i] != order[j]);
                assert(order[i] != order[last] && order[j] != order[last]);
            }
        }
        lemma_reordered(c, d, rest);
        d.to_multiset_ensures();
        assert(d.push(b.last()) =~= b);
        assert(b.last() == a[m]);
        assert(a.to_multiset().count(a[m]) > 0) by {
            assert(a.contains(a[m]));
        }
        assert(a.to_multiset() =~= c.to_multiset().insert(a[m]));
        assert(b.to_multiset() =~= d.to_multiset().insert(a[m]));
    }
}

/// The copy constraints hold where the permutation moves every value to the place of an
/// equal value, and no two values to the same place.
pub proof fn law_equal_values_copy(p: Permutation, order: Seq<int>)
    requires
        p.sized(),
        order.len() == 3 * p.l.len(),
        order.no_duplicates(),
        forall|k: int| 0 <= k < order.len() ==> 0 <= #[trigger] order[k] < 3 * p.l.len(),
        forall|k: int|
            0 <= k < order.len() ==> p.moved_place(k) == p.wire_place(#[trigger] order[k]),
        forall|k: int|
            0 <= k < order.len() ==> p.wire_value(k) == p.wire_value(#[trigger] order[k]),
    ensures
        p.copies_hold(),
{
    let a = p.own_places();
    let b = p.permuted_places();
    let n = p.l.len() as int;
    assert forall|k: int| 0 <= k < 3 * n implies #[trigger] a[k] == (
        p.wire_value(k),
        p.wire_place(k),
    ) by {}
    assert forall|k: int| 0 <= k < 3 * n implies #[trigger] b[k] == (
        p.wire_value(k),
        p.moved_place(k),
    ) by {}
    assert forall|k: int| 0 <= k < order.len() implies b[k] == a[#[trigger] order[k]] by {
        assert(p.moved_place(k) == p.wire_place(order[k]));
        assert(p.wire_value(k) == p.wire_value(order[k]));
    }
    lemma_reordered(a, b, order);
}

/// The factor of a value at a place.
spec fn factor(a: (int, int), beta: int, gamma: int) -> int {
    grand_product::term(a.0, fields::fmul(beta, a.1), gamma)
}

spec fn factors(s: Seq<(int, int)>, beta: int, gamma: int) -> Seq<int> {
    Seq::new(s.len(), |i: int| factor(s[i], beta, gamma))
}

proof fn lemma_factors_concat(a: Seq<(int, int)>, b: Seq<(int, int)>, beta: int, gamma: int)
    ensures
        factors(a + b, beta, gamma) == factors(a, beta, gamma) + factors(b, beta, gamma),
{
    assert(factors(a + b, beta, gamma) =~= factors(a, beta, gamma) + factors(b, beta, gamma));
}

/// Taking one element out of a product.
proof fn lemma_take_out(s: Seq<(int, int)>, j: int, beta: int, gamma: int)
    requires
        0 <= j < s.len(),
    ensures
        fields::fprod(factors(s, beta, gamma)) == fields::fmul(
            fields::fprod(factors(s.remove(j), beta, gamma)),
            factor(s[j], beta, gamma),
        ),
{
    let a = factors(s.take(j), beta, gamma);
    let b = factors(s.skip(j + 1), beta, gamma);
    let x = factor(s[j], beta, gamma);
    let one = seq![x];
    assert(factors(s, beta, gamma) =~= a + one + b);
    assert(factors(s.remove(j), beta, gamma) =~= a + b);
    fields::lemma_fprod_concat(a + one, b);
    fields::lemma_fprod_concat(a, one);
    fields::lemma_fprod_concat(a, b);
    fields::lemma_frange(fields::fadd(s[j].0, fields::fmul(beta, s[j].1)), gamma, 0);
    assert(fields::fprod(one) == x) by {
        reveal_with_fuel(fields::fprod, 2);
        assert(one.drop_last() =~= Seq::<int>::empty());
        fields::law_fr_units(x, 0);
        fields::law_fr_ring(1, x, 0);
    }
    let (pa, pb) = (fields::fprod(a), fields::fprod(b));
    fields::law_fr_ring(pa, x, pb);
    fields::law_fr_ring(pa, pb, x);
    fields::law_fr_ring(x, pb, 0);
}

/// A product depends only on which factors there are.
proof fn lemma_same_factors(s: Seq<(int, int)>, t: Seq<(int, int)>, beta: int, gamma: int)
    requires
        s.to_multiset() == t.to_multiset(),
    ensures
        fields::fprod(factors(s, beta, gamma)) == fields::fprod(factors(t, beta, gamma)),
    decreases t.len(),
{
    s.to_multiset_ensures();
    t.to_multiset_ensures();
    assert(s.len() == t.len());
    if t.len() == 0 {
        assert(factors(s, beta, gamma) =~= factors(t, beta, gamma));
    } else {
        let k = t.len() - 1;
        let x = t[k];
        assert(t.contains(x));
        assert(t.to_multiset().count(x) > 0);
        assert(s.to_multiset().count(x) > 0);
        assert(s.contains(x));
        let j = choose|j: int| 0 <= j < s.len() && s[j] == x;
        let (u, v) = (s.remove(j), t.remove(k));
        assert(u.to_multiset() =~= v.to_multiset());
        lemma_same_factors(u, v, beta, gamma);
        lemma_take_out(s, j, beta, gamma);
        lemma_take_out(t, k, beta, gamma);
    }
}

/// The product of rows of three factors.
proof fn lemma_rows_product(p: Seq<int>, a: Seq<int>, b: Seq<int>, c: Seq<int>)
    requires
        a.len() == p.len(),
        b.len() == p.len(),
        c.len() == p.len(),
        forall|i: int|
            0 <= i < p.len() ==> #[trigger] p[i] == fields::fmul(fields::fmul(a[i], b[i]), c[i]),
    ensures
        fields::fprod(p) == fields::fprod(a + b + c),
    decreases p.len(),
{
    fields::lemma_fprod_concat(a + b, c);
    fields::lemma_fprod_concat(a, b);
    if p.len() > 0 {
        let (q, d, e, f) = (p.drop_last(), a.drop_last(), b.drop_last(), c.drop_last());
        assert forall|i: int| 0 <= i < q.len() implies #[trigger] q[i] == fields::fmul(
            fields::fmul(d[i], e[i]),
            f[i],
        ) by {
            assert(q[i] == p[i]);
        }
        lemma_rows_product(q, d, e, f);
        fields::lemma_fprod_concat(d + e, f);
        fields::lemma_fprod_concat(d, e);
        let k = p.len() - 1;
        assert(p[k] == fields::fmul(fields::fmul(a[k], b[k]), c[k]));
        lemma_six(
            fields::fprod(d),
            fields::fprod(e),
            fields::fprod(f),
            a[k],
            b[k],
            c[k],
        );
    } else {
        assert(a + b + c =~= p);
    }
}

/// Six factors in another order.
proof fn lemma_six(x: int, y: int, z: int, a: int, b: int, c: int)
    ensures
        fields::fmul(
            fields::fmul(fields::fmul(x, y), z),
            fields::fmul(fields::fmul(a, b), c),
        ) == fields::fmul(
            fields::fmul(fields::fmul(x, a), fields::fmul(y, b)),
            fields::fmul(z, c),
        ),
{
    let (xy, ab) = (fields::fmul(x, y), fields::fmul(a, b));
    // (xy z)(ab c) = (xy ab)(z c)
    lemma_four(xy, z, ab, c);
    // (x y)(a b) = (x a)(y b)
    lemma_four(x, y, a, b);
}

proof fn lemma_four(x: int, y: int, a: int, b: int)
    ensures
        fields::fmul(fields::fmul(x, y), fields::fmul(a, b)) == fields::fmul(
            fields::fmul(x, a),
            fields::fmul(y, b),
        ),
{
    let ab = fields::fmul(a, b);
    let yb = fields::fmul(y, b);
    fields::law_fr_ring(x, y, ab);
    fields::law_fr_ring(y, a, b);
    fields::law_fr_ring(a, y, b);
    fields::law_fr_ring(x, a, yb);
}

/// The quotients of the rows times their denominators are the numerators.
proof fn lemma_ratios_product(r: Seq<int>, d: Seq<int>, m: Seq<int>)
    requires
        r.len() == m.len(),
        d.len() == m.len(),
        forall|i: int| 0 <= i < m.len() ==> fields::fmul(#[trigger] r[i], d[i]) == m[i],
    ensures
        fields::fmul(fields::fprod(r), fields::fprod(d)) == fields::fprod(m),
    decreases m.len(),
{
    fields::lemma_fr_modulus();
    if m.len() > 0 {
        let k = m.len() - 1;
        let (q, e, f) = (r.drop_last(), d.drop_last(), m.drop_last());
        assert forall|i: int| 0 <= i < f.len() implies fields::fmul(#[trigger] q[i], e[i])
            == f[i] by {
            assert(q[i] == r[i]);
        }
        lemma_ratios_product(q, e, f);
        assert(fields::fmul(r[k], d[k]) == m[k]);
        lemma_four(fields::fprod(q), r[k], fields::fprod(e), d[k]);
    } else {
        lemma_small_mod(1, fields::fr_modulus() as nat);
        assert(1 * 1 == 1);
    }
}

/// Where the copy constraints hold, the product over all rows is one: a proof is not
/// refused.
pub proof fn law_copies_satisfy(p: Permutation)
    requires
        p.sized(),
        p.invertible(),
        p.copies_hold(),
    ensures
        p.satisfied(),
{
    fields::lemma_fr_modulus();
    let n = p.l.len();
    let (b, g) = (p.beta, p.gamma);
    let k2 = fields::fmul(p.k1, p.k1);
    let nums = Seq::new(n, |i: int| p.numerator(i));
    let dens = Seq::new(n, |i: int| p.denominator(i));
    let (id2, id3) = (
        Seq::new(n, |i: int| fields::fmul(p.id[i], p.k1)),
        Seq::new(n, |i: int| fields::fmul(p.id[i], k2)),
    );
    // The numerators.
    let (a1, a2, a3) = (placed(p.l, p.id), placed(p.r, id2), placed(p.o, id3));
    assert forall|i: int| 0 <= i < n implies #[trigger] nums[i] == fields::fmul(
        fields::fmul(factors(a1, b, g)[i], factors(a2, b, g)[i]),
        factors(a3, b, g)[i],
    ) by {
        fields::law_fr_ring(b, p.id[i], p.k1);
        fields::law_fr_ring(b, p.id[i], k2);
    }
    lemma_rows_product(nums, factors(a1, b, g), factors(a2, b, g), factors(a3, b, g));
    lemma_factors_concat(a1, a2, b, g);
    lemma_factors_concat(a1 + a2, a3, b, g);
    // The denominators.
    let (c1, c2, c3) = (placed(p.l, p.s1), placed(p.r, p.s2), placed(p.o, p.s3));
    assert forall|i: int| 0 <= i < n implies #[trigger] dens[i] == fields::fmul(
        fields::fmul(factors(c1, b, g)[i], factors(c2, b, g)[i]),
        factors(c3, b, g)[i],
    ) by {
    }
    lemma_rows_product(dens, factors(c1, b, g), factors(c2, b, g), factors(c3, b, g));
    lemma_factors_concat(c1, c2, b, g);
    lemma_factors_concat(c1 + c2, c3, b, g);
    // Both products have the same factors.
    lemma_same_factors(p.own_places(), p.permuted_places(), b, g);
    assert(fields::fprod(nums) == fields::fprod(dens));
    // And the quotients are one.
    let rs = p.ratios();
    assert forall|i: int| 0 <= i < dens.len() implies 0 < #[trigger] dens[i]
        < fields::fr_modulus() by {
        assert(p.denominator(i) != 0);
        fields::lemma_frange(
            fields::fmul(
                grand_product::term(p.l[i], fields::fmul(b, p.s1[i]), g),
                grand_product::term(p.r[i], fields::fmul(b, p.s2[i]), g),
            ),
            grand_product::term(p.o[i], fields::fmul(b, p.s3[i]), g),
            0,
        );
    }
    assert forall|i: int| 0 <= i < nums.len() implies fields::fmul(#[trigger] rs[i], dens[i])
        == nums[i] by {
        let d = dens[i];
        fields::law_fr_inverse(d);
        fields::law_fr_ring(nums[i], fields::finv(d), d);
        fields::lemma_frange(
            fields::fmul(factors(a1, b, g)[i], factors(a2, b, g)[i]),
            factors(a3, b, g)[i],
            0,
        );
        assert(nums[i] == fields::fmul(
            fields::fmul(factors(a1, b, g)[i], factors(a2, b, g)[i]),
            factors(a3, b, g)[i],
        ));
        fields::law_fr_units(nums[i], 0);
    }
    lemma_ratios_product(rs, dens, nums);
    fields::lemma_fprod_nonzero(dens);
    let (x, d) = (fields::fprod(rs), fields::fprod(dens));
    fields::lemma_fprod_range(rs);
    fields::law_fr_inverse(d);
    fields::law_fr_ring(x, d, fields::finv(d));
    fields::law_fr_ring(d, fields::finv(d), 0);
    fields::law_fr_units(x, 0);
}

/// A proof of a witness is accepted: where the gates and the copy constraints hold and
/// the reference string belongs to a secret, the checks of a verifier pass, whatever the
/// blinding is. It takes that no denominator of the grand product is zero and that zeta
/// is no root of unity of the domain.
pub proof fn law_witness_is_accepted(key: Key, inp: Inputs, tau: int, g: Point)
    requires
        key.circuit.wf(),
        key.circuit.n() >= 6,
        key.circuit.shift != 0,
        key.circuit.w == fields::fpow(key.circuit.w4, 4),
        acceptance::set_up(key, tau, g),
        acceptance::given(key, inp, tau, g),
        completeness::gates_hold(key, inp),
        key.permutation(inp).copies_hold(),
        key.permutation(inp).invertible(),
        key.circuit.zh(key.round3(inp).zeta) != 0,
    ensures
        key.permutation(inp).satisfied(),
        ({
            let c = key.circuit;
            let p = key.honest_proof(inp);
            let zeta = key.round3(inp).zeta;
            let powers = linearization::field_powers(key.gamma_fold(inp), p.claimed.len());
            &&& p.claimed[0] == linearization::verifier_value(
                c,
                key.challenges(inp),
                zeta,
                linearization::lagrange_sum(c, key.pi_rows(inp), zeta, c.n()),
                key.round4(inp).openings,
            )
            &&& acceptance::opens(
                g1::point_msm(key.digests(inp), powers),
                linearization::dot(powers, p.claimed),
                zeta,
                p.batch_h,
                tau,
                g,
            )
            &&& acceptance::opens(
                p.z,
                p.z_shifted,
                fields::fmul(zeta, c.w),
                p.z_shifted_h,
                tau,
                g,
            )
        }),
{
    assert(key.permutation(inp).sized()) by {
        reveal(Key::permutation);
    }
    law_copies_satisfy(key.permutation(inp));
    acceptance::law_proof_is_accepted(key, inp, tau, g);
}

} // verus!
