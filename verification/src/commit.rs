//! Commitments to polynomials.

use crate::commit_laws;
use crate::fields;
use crate::fields::Fr;
use crate::g1;
use crate::g1::{G1Affine, G1Jacobian, Point};
use crate::kzg;
use crate::sums;
use crate::tally;
use crate::BN254Fr;
use vstd::arithmetic::div_mod::*;
use vstd::prelude::*;

verus! {

/// The commitment to coefficients, or values, on a reference string.
pub open spec fn commitment(srs: Seq<Point>, c: Seq<int>) -> Point {
    g1::as_affine(g1::point_msm(srs.take(c.len() as int), c))
}

/// Commit to the values of a polynomial on the Lagrange reference string.
pub fn commit_lagrange(srs: &[G1Affine], evals: &[Fr]) -> (r: G1Affine)
    requires
        evals@.len() <= srs@.len(),
        g1::all_points_wf(srs@),
    ensures
        r.wf(),
        r@ == commitment(g1::points_of(srs@), fields::vals(evals@)),
{
    msm_prefix(srs, evals).to_affine()
}

/// The multi-scalar multiplication with the first points of a reference string.
fn msm_prefix(srs: &[G1Affine], scalars: &[Fr]) -> (r: G1Jacobian)
    requires
        scalars@.len() <= srs@.len(),
        g1::all_points_wf(srs@),
    ensures
        r.wf(),
        r@ == g1::point_msm(
            g1::points_of(srs@).take(scalars@.len() as int),
            fields::vals(scalars@),
        ),
{
    let points = vstd::slice::slice_subrange(srs, 0, scalars.len());
    assert(g1::points_of(points@) =~= g1::points_of(srs@).take(scalars@.len() as int));
    g1::msm(points, scalars)
}

/// Commit to the coefficients of a polynomial on the canonical reference string.
pub fn commit_canonical(srs: &[G1Affine], coeffs: &[Fr]) -> (r: G1Affine)
    requires
        coeffs@.len() <= srs@.len(),
        g1::all_points_wf(srs@),
    ensures
        r.wf(),
        r@ == commitment(g1::points_of(srs@), fields::vals(coeffs@)),
{
    if coeffs.len() == 0 {
        return G1Affine::infinity();
    }
    msm_prefix(srs, coeffs).to_affine()
}

/// Commit to coefficients of which few are not zero, term by term.
pub fn commit_sparse(srs: &[G1Affine], coeffs: &[Fr]) -> (r: G1Affine)
    requires
        coeffs@.len() <= srs@.len(),
        g1::all_points_wf(srs@),
        fields::all_wf(coeffs@),
    ensures
        r.wf(),
        r@ == commitment(g1::points_of(srs@), fields::vals(coeffs@)),
{
    let mut acc = G1Jacobian::infinity();
    let ghost ps = g1::points_of(srs@).take(coeffs@.len() as int);
    let ghost cs = fields::vals(coeffs@);
    let n = coeffs.len();
    for i in 0..n
        invariant
            n == coeffs@.len(),
            n <= srs@.len(),
            g1::all_points_wf(srs@),
            fields::all_wf(coeffs@),
            ps == g1::points_of(srs@).take(n as int),
            cs == fields::vals(coeffs@),
            acc.wf(),
            acc@ == g1::point_msm(ps.take(i as int), cs),
    {
        proof {
            assert(ps.take(i + 1).drop_last() =~= ps.take(i as int));
            assert(ps.take(i + 1).last() == srs@[i as int]@);
        }
        if !coeffs[i].is_zero() {
            let canonical = coeffs[i].to_canonical();
            let p = srs[i].to_jacobian().scalar_mul(&canonical);
            acc = acc.add(&p);
        }
    }
    assert(ps.take(n as int) =~= ps);
    acc.to_affine()
}

/// How many coefficients are not zero.
pub open spec fn nonzero_count(c: Seq<int>) -> nat
    decreases c.len(),
{
    if c.len() == 0 {
        0
    } else {
        nonzero_count(c.drop_last()) + if c.last() != 0 {
            1nat
        } else {
            0nat
        }
    }
}

/// Every coefficient that is not zero is counted once.
pub proof fn law_nonzero_count(c: Seq<int>)
    ensures
        nonzero_count(c) == sums::sum(
            |i: int|
                if c[i] == 0 {
                    0int
                } else {
                    1
                },
            c.len(),
        ),
        nonzero_count(c) == 0 <==> forall|i: int| 0 <= i < c.len() ==> #[trigger] c[i] == 0,
    decreases c.len(),
{
    let f = |i: int|
        if c[i] == 0 {
            0int
        } else {
            1
        };
    if c.len() > 0 {
        let d = c.drop_last();
        law_nonzero_count(d);
        let g = |i: int|
            if d[i] == 0 {
                0int
            } else {
                1
            };
        assert forall|i: int| 0 <= i < d.len() implies #[trigger] g(i) == f(i) by {
            assert(d[i] == c[i]);
        }
        sums::lemma_sum_eq(g, f, d.len());
        assert(sums::sum(f, c.len()) == sums::sum(f, d.len()) + f(d.len() as int));
        if nonzero_count(c) == 0 {
            assert forall|i: int| 0 <= i < c.len() implies #[trigger] c[i] == 0 by {
                if i < d.len() {
                    assert(d[i] == 0);
                }
            }
        } else if forall|i: int| 0 <= i < c.len() ==> #[trigger] c[i] == 0 {
            assert(c.last() == c[d.len() as int]);
            assert forall|i: int| 0 <= i < d.len() implies #[trigger] d[i] == 0 by {
                assert(c[i] == 0);
            }
        }
    }
}

/// Count the coefficients that are not zero.
pub fn count_nonzero(coeffs: &[Fr]) -> (r: usize)
    requires
        fields::all_wf(coeffs@),
    ensures
        r == nonzero_count(fields::vals(coeffs@)),
        r <= coeffs@.len(),
{
    let mut r: usize = 0;
    let ghost cs = fields::vals(coeffs@);
    for i in 0..coeffs.len()
        invariant
            fields::all_wf(coeffs@),
            cs == fields::vals(coeffs@),
            r == nonzero_count(cs.take(i as int)),
            r <= i,
    {
        proof {
            assert(cs.take(i + 1).drop_last() =~= cs.take(i as int));
        }
        if !coeffs[i].is_zero() {
            r = r + 1;
        }
    }
    assert(cs.take(coeffs@.len() as int) =~= cs);
    r
}

/// Commit to the last part of the quotient, which is mostly zero: to nothing where
/// it is zero, term by term where it has at most a thousand terms, and in full
/// otherwise.
pub fn commit_mostly_zero(srs: &[G1Affine], coeffs: &[Fr]) -> (r: G1Affine)
    requires
        coeffs@.len() <= srs@.len(),
        g1::all_points_wf(srs@),
        fields::all_wf(coeffs@),
    ensures
        r.wf(),
        r@ == commitment(g1::points_of(srs@), fields::vals(coeffs@)),
{
    let nnz = count_nonzero(coeffs);
    if nnz == 0 {
        proof {
            lemma_commitment_zero(g1::points_of(srs@), fields::vals(coeffs@));
        }
        G1Affine::infinity()
    } else if nnz <= 1000 {
        commit_sparse(srs, coeffs)
    } else {
        commit_canonical(srs, coeffs)
    }
}

/// The commitment to zero is the point at infinity.
pub proof fn lemma_commitment_zero(srs: Seq<Point>, c: Seq<int>)
    requires
        c.len() <= srs.len(),
        nonzero_count(c) == 0,
    ensures
        commitment(srs, c) == Point::Infinity,
{
    assert(c.take(c.len() as int) =~= c);
    lemma_msm_zero(srs.take(c.len() as int), c);
}

proof fn lemma_msm_zero(points: Seq<Point>, c: Seq<int>)
    requires
        points.len() <= c.len(),
        nonzero_count(c.take(points.len() as int)) == 0,
    ensures
        g1::point_msm(points, c) == Point::Infinity,
    decreases points.len(),
{
    if points.len() > 0 {
        let k = points.len() as int;
        assert(c.take(k).drop_last() =~= c.take(k - 1));
        assert(points.drop_last().len() == k - 1);
        lemma_msm_zero(points.drop_last(), c);
        assert(c.take(k).last() == c[k - 1]);
    } else {
        assert(c.take(0).len() == 0);
    }
}

/// A commitment with the blinding `bp(X) (X^n - 1)` added.
pub open spec fn blinded(srs: Seq<Point>, bp: Seq<int>, n: int, c: Point) -> Point {
    if nonzero_count(bp) == 0 {
        c
    } else {
        g1::as_affine(g1::point_add(c, kzg::blinding_commitment(srs, bp, n)))
    }
}

/// Add the blinding `bp(X) (X^n - 1)` to a commitment; blinding by zeros leaves it
/// as it is.
pub fn add_blinding_to_commit(
    srs_canonical: &[G1Affine],
    bp: &[Fr],
    n: usize,
    commit: G1Affine,
) -> (r: G1Affine)
    requires
        n + bp@.len() <= srs_canonical@.len(),
        g1::all_points_wf(srs_canonical@),
        fields::all_wf(bp@),
        commit.wf(),
    ensures
        r.wf(),
        r@ == blinded(
            g1::points_of(srs_canonical@),
            fields::vals(bp@),
            n as int,
            commit@,
        ),
{
    if count_nonzero(bp) == 0 {
        return commit;
    }
    let cb = kzg::commit_blinding_factor(srs_canonical, bp, n);
    commit.to_jacobian().add_affine(&cb).to_affine()
}

// ---------------------------------------------------------------------------
// Values that occur very often
// ---------------------------------------------------------------------------

/// How often a value has to occur to be taken out of a commitment.
pub const DEDUP_THRESHOLD: usize = 8192;

/// The distance between two samples.
pub open spec fn sample_step(n: int, divisor: int) -> int {
    let size = if n / divisor > 1 {
        n / divisor
    } else {
        1
    };
    if n / size > 1 {
        n / size
    } else {
        1
    }
}

/// Every value at a multiple of the step.
pub open spec fn sampled(s: Seq<Fr>, step: int) -> Seq<Fr> {
    Seq::new(((s.len() + step - 1) / step) as nat, |k: int| s[k * step])
}

/// The values that may occur often: those that occur in the sample more than
/// `limit` times, and the last one.
pub open spec fn candidates(s: Seq<Fr>, divisor: int, limit: int) -> Seq<Fr> {
    let sample = sampled(s, sample_step(s.len() as int, divisor));
    let frequent = tally::chosen(
        tally::distinct(sample),
        |v: Fr| tally::occurrences(sample, v) > limit,
    );
    if frequent.contains(s.last()) {
        frequent
    } else {
        frequent.push(s.last())
    }
}

/// The candidates that do occur often and are not zero.
pub open spec fn hot_values(s: Seq<Fr>, divisor: int, limit: int) -> Seq<Fr> {
    tally::chosen(
        candidates(s, divisor, limit),
        |v: Fr| tally::occurrences(s, v) >= DEDUP_THRESHOLD && v@ != 0,
    )
}

fn take_sample(evals: &[Fr], step: usize) -> (r: Vec<Fr>)
    requires
        step > 0,
    ensures
        r@ == sampled(evals@, step as int),
{
    let n = evals.len();
    let mut r: Vec<Fr> = Vec::new();
    let mut i: usize = 0;
    let ghost mut k: int = 0;
    proof {
        assert(0 * step == 0);
    }
    while i < n
        invariant
            n == evals@.len(),
            step > 0,
            0 <= k,
            i == k * step,
            k == 0 || (k - 1) * step < n,
            r@.len() == k,
            forall|j: int| 0 <= j < k ==> #[trigger] r@[j] == evals@[j * step],
        ensures
            i >= n,
            i == k * step,
            k == 0 || (k - 1) * step < n,
            r@.len() == k,
            forall|j: int| 0 <= j < k ==> #[trigger] r@[j] == evals@[j * step],
        decreases n - i,
    {
        r.push(evals[i]);
        proof {
            assert((k + 1) * step == k * step + step) by (nonlinear_arith);
            k = k + 1;
        }
        if n - i <= step {
            proof {
                lemma_sample_len(n as int, step as int, k);
                assert(r@ =~= sampled(evals@, step as int));
            }
            return r;
        }
        i = i + step;
    }
    proof {
        lemma_sample_len(n as int, step as int, k);
        assert(r@ =~= sampled(evals@, step as int));
    }
    r
}

proof fn lemma_sample_len(n: int, step: int, k: int)
    requires
        step > 0,
        0 <= n <= k * step,
        0 <= k,
        k == 0 || (k - 1) * step < n,
    ensures
        k == (n + step - 1) / step,
{
    let m = n + step - 1;
    assert((k - 1) * step == k * step - step) by (nonlinear_arith);
    if k == 0 {
        assert(0 * step == 0);
        lemma_small_div(m as nat, step as nat);
    } else {
        lemma_fundamental_div_mod_converse(m, step, k, m - k * step);
    }
}

proof fn lemma_small_div(m: nat, step: nat)
    requires
        m < step,
    ensures
        m / step == 0,
{
    lemma_basic_div(m as int, step as int);
}

/// Find the values that occur very often, by a sample and then by counting.
pub fn find_hot_values(evals: &[Fr], divisor: usize, limit: usize) -> (r: Vec<Fr>)
    requires
        evals@.len() > 0,
        divisor > 0,
        fields::all_wf(evals@),
    ensures
        r@ == hot_values(evals@, divisor as int, limit as int),
{
    let n = evals.len();
    let size: usize = if n / divisor > 1 {
        n / divisor
    } else {
        1
    };
    let step: usize = if n / size > 1 {
        n / size
    } else {
        1
    };
    let sample = take_sample(evals, step);
    let counted = tally::count_all(sample.as_slice());
    proof {
        counted.lemma_counts_of(sample@);
    }
    let ghost d = tally::distinct(sample@);
    let ghost frequent = |v: Fr| tally::occurrences(sample@, v) > limit;
    let mut cands: Vec<Fr> = Vec::new();
    let m = counted.len();
    for j in 0..m
        invariant
            m == d.len(),
            counted.values() == d,
            d == tally::distinct(sample@),
            counted.counts().len() == d.len(),
            forall|k: int|
                0 <= k < d.len() ==> (#[trigger] counted.counts()[k]) == tally::occurrences(
                    sample@,
                    d[k],
                ),
            frequent == (|v: Fr| tally::occurrences(sample@, v) > limit),
            cands@ == tally::chosen(d.take(j as int), frequent),
    {
        proof {
            assert(d.take(j + 1).drop_last() =~= d.take(j as int));
        }
        if counted.count(j) > limit {
            cands.push(counted.value(j));
        }
    }
    assert(d.take(d.len() as int) =~= d);
    let last = evals[n - 1];
    if !contains_value(cands.as_slice(), &last) {
        cands.push(last);
    }
    let ghost cs = candidates(evals@, divisor as int, limit as int);
    assert(cands@ == cs) by {
        assert(frequent =~= (|v: Fr| tally::occurrences(sample@, v) > limit as int));
    }
    let ghost test = |v: Fr| tally::occurrences(evals@, v) >= DEDUP_THRESHOLD && v@ != 0;
    let mut hot: Vec<Fr> = Vec::new();
    for j in 0..cands.len()
        invariant
            fields::all_wf(evals@),
            cands@ == cs,
            test == (|v: Fr| tally::occurrences(evals@, v) >= DEDUP_THRESHOLD && v@ != 0),
            hot@ == tally::chosen(cs.take(j as int), test),
    {
        proof {
            assert(cs.take(j + 1).drop_last() =~= cs.take(j as int));
            if tally::occurrences(evals@, cs[j as int]) > 0 {
                lemma_occurring_wf(evals@, cs[j as int]);
            }
        }
        if count_value(evals, &cands[j]) >= DEDUP_THRESHOLD && !cands[j].is_zero() {
            hot.push(cands[j]);
        }
    }
    assert(cs.take(cs.len() as int) =~= cs);
    hot
}

proof fn lemma_occurring_wf(s: Seq<Fr>, v: Fr)
    requires
        fields::all_wf(s),
        tally::occurrences(s, v) > 0,
    ensures
        v.wf(),
    decreases s.len(),
{
    if s.len() > 0 {
        if s.last() == v {
            assert(s[s.len() - 1].wf());
        } else {
            assert forall|i: int| 0 <= i < s.drop_last().len() implies (
            #[trigger] s.drop_last()[i]).wf() by {
                assert(s[i].wf());
            }
            lemma_occurring_wf(s.drop_last(), v);
        }
    }
}

fn contains_value(s: &[Fr], v: &Fr) -> (r: bool)
    ensures
        r == s@.contains(*v),
{
    for i in 0..s.len()
        invariant
            forall|j: int| 0 <= j < i ==> s@[j] != v,
    {
        if s[i] == *v {
            assert(s@[i as int] == v);
            return true;
        }
    }
    false
}

fn count_value(s: &[Fr], v: &Fr) -> (r: usize)
    ensures
        r == tally::occurrences(s@, *v),
{
    let mut r: usize = 0;
    for i in 0..s.len()
        invariant
            r == tally::occurrences(s@.take(i as int), *v),
            r <= i,
    {
        proof {
            assert(s@.take(i + 1).drop_last() =~= s@.take(i as int));
        }
        if s[i] == *v {
            r = r + 1;
        }
    }
    assert(s@.take(s@.len() as int) =~= s@);
    r
}

/// The values with those in `hot` replaced by zero.
pub open spec fn zeroed(s: Seq<Fr>, hot: Seq<Fr>) -> Seq<int> {
    Seq::new(
        s.len(),
        |i: int|
            if hot.contains(s[i]) {
                0
            } else {
                s[i]@
            },
    )
}

/// One where a value is `v`, zero elsewhere.
pub open spec fn mask(s: Seq<Fr>, v: Fr) -> Seq<int> {
    Seq::new(
        s.len(),
        |i: int|
            if s[i] == v {
                1
            } else {
                0
            },
    )
}

/// A sum of points to which the contributions of hot values are added: each value
/// times the sum of the points at which it stands.
pub open spec fn with_hot(start: Point, srs: Seq<Point>, s: Seq<Fr>, hot: Seq<Fr>) -> Point
    decreases hot.len(),
{
    if hot.len() == 0 {
        start
    } else {
        let v = hot.last();
        g1::point_add(
            with_hot(start, srs, s, hot.drop_last()),
            g1::point_mul(v@ as nat, g1::point_msm(srs, mask(s, v))),
        )
    }
}

/// The commitment to values of which some occur very often.
pub open spec fn depadded_commitment(srs: Seq<Point>, s: Seq<Fr>, hot: Seq<Fr>) -> Point {
    let points = srs.take(s.len() as int);
    g1::as_affine(with_hot(g1::point_msm(points, zeroed(s, hot)), points, s, hot))
}

/// The values with zeros for the hot ones: what is left for a multi-scalar multiplication.
pub fn zero_out(evals: &[Fr], hot: &[Fr]) -> (r: Vec<Fr>)
    ensures
        r@.len() == evals@.len(),
        fields::all_wf(evals@) ==> fields::all_wf(r@),
        fields::vals(r@) == zeroed(evals@, hot@),
{
    let mut r: Vec<Fr> = Vec::with_capacity(evals.len());
    for i in 0..evals.len()
        invariant
            r@.len() == i,
            fields::all_wf(evals@) ==> fields::all_wf(r@),
            forall|j: int|
                0 <= j < i ==> (#[trigger] r@[j])@ == (if hot@.contains(evals@[j]) {
                    0
                } else {
                    evals@[j]@
                }),
    {
        if contains_value(hot, &evals[i]) {
            r.push(Fr::zero());
        } else {
            r.push(evals[i]);
        }
    }
    assert(fields::vals(r@) =~= zeroed(evals@, hot@));
    r
}

fn mask_of(evals: &[Fr], v: &Fr) -> (r: Vec<Fr>)
    ensures
        r@.len() == evals@.len(),
        fields::vals(r@) == mask(evals@, *v),
{
    let mut r: Vec<Fr> = Vec::with_capacity(evals.len());
    for i in 0..evals.len()
        invariant
            r@.len() == i,
            forall|j: int|
                0 <= j < i ==> (#[trigger] r@[j])@ == (if evals@[j] == v {
                    1int
                } else {
                    0
                }),
    {
        if evals[i] == *v {
            r.push(Fr::one());
        } else {
            r.push(Fr::zero());
        }
    }
    assert(fields::vals(r@) =~= mask(evals@, *v));
    r
}

/// Add the contributions of hot values to a sum of points.
pub fn add_hot_values(start: G1Jacobian, srs: &[G1Affine], evals: &[Fr], hot: &[Fr]) -> (r:
    G1Jacobian)
    requires
        evals@.len() <= srs@.len(),
        g1::all_points_wf(srs@),
        start.wf(),
    ensures
        r.wf(),
        r@ == with_hot(
            start@,
            g1::points_of(srs@).take(evals@.len() as int),
            evals@,
            hot@,
        ),
{
    let mut result = start;
    let ghost points = g1::points_of(srs@).take(evals@.len() as int);
    for j in 0..hot.len()
        invariant
            evals@.len() <= srs@.len(),
            g1::all_points_wf(srs@),
            points == g1::points_of(srs@).take(evals@.len() as int),
            result.wf(),
            result@ == with_hot(start@, points, evals@, hot@.take(j as int)),
    {
        proof {
            assert(hot@.take(j + 1).drop_last() =~= hot@.take(j as int));
        }
        let m = mask_of(evals, &hot[j]);
        let srs_sum = msm_prefix(srs, m.as_slice());
        let canonical = hot[j].to_canonical();
        let contribution = srs_sum.scalar_mul(&canonical);
        result = result.add(&contribution);
    }
    assert(hot@.take(hot@.len() as int) =~= hot@);
    result
}

/// Commit to values of which some occur very often: those are left out of the
/// multi-scalar multiplication and added afterwards.
fn commit_depadded(srs: &[G1Affine], evals: &[Fr], hot: &[Fr]) -> (r: G1Affine)
    requires
        evals@.len() <= srs@.len(),
        g1::all_points_wf(srs@),
    ensures
        r.wf(),
        r@ == depadded_commitment(g1::points_of(srs@), evals@, hot@),
{
    let z = zero_out(evals, hot);
    let start = msm_prefix(srs, z.as_slice());
    add_hot_values(start, srs, evals, hot).to_affine()
}

/// Nothing is left out where no value is hot.
pub proof fn lemma_nothing_hot(srs: Seq<Point>, s: Seq<Fr>)
    requires
        s.len() <= srs.len(),
    ensures
        depadded_commitment(srs, s, seq![]) == commitment(srs, fields::vals(s)),
{
    assert(zeroed(s, seq![]) =~= fields::vals(s));
}

/// Commit to the values of a wire on the Lagrange reference string. Unused rows
/// are padded by values that occur very often; they are found in a sample of a
/// tenth of the rows. With points of the curve this is the commitment to the values.
pub fn commit_lagrange_depad(srs: &[G1Affine], evals: &[Fr]) -> (r: G1Affine)
    requires
        0 < evals@.len() <= srs@.len(),
        g1::all_points_wf(srs@),
        fields::all_wf(evals@),
    ensures
        r.wf(),
        r@ == depadded_commitment(
            g1::points_of(srs@),
            evals@,
            hot_values(evals@, 10, 1000),
        ),
        commit_laws::all_valid(g1::points_of(srs@)) ==> r@ == commitment(
            g1::points_of(srs@),
            fields::vals(evals@),
        ),
{
    proof {
        if commit_laws::all_valid(g1::points_of(srs@)) {
            commit_laws::law_commit_lagrange_depad(g1::points_of(srs@), evals@, 10, 1000);
        }
    }
    let hot = find_hot_values(evals, 10, 1000);
    if hot.len() == 0 {
        proof {
            assert(hot@ =~= seq![]);
            lemma_nothing_hot(g1::points_of(srs@), evals@);
        }
        return commit_lagrange(srs, evals);
    }
    commit_depadded(srs, evals, hot.as_slice())
}

/// The same with a sample of a hundredth of the rows, which serves where the
/// multi-scalar multiplication itself is fast.
pub fn commit_lagrange_depad_persistent(srs: &[G1Affine], evals: &[Fr]) -> (r: G1Affine)
    requires
        0 < evals@.len() <= srs@.len(),
        g1::all_points_wf(srs@),
        fields::all_wf(evals@),
    ensures
        r.wf(),
        r@ == depadded_commitment(
            g1::points_of(srs@),
            evals@,
            hot_values(evals@, 100, 100),
        ),
        commit_laws::all_valid(g1::points_of(srs@)) ==> r@ == commitment(
            g1::points_of(srs@),
            fields::vals(evals@),
        ),
{
    proof {
        if commit_laws::all_valid(g1::points_of(srs@)) {
            commit_laws::law_commit_lagrange_depad(g1::points_of(srs@), evals@, 100, 100);
        }
    }
    let hot = find_hot_values(evals, 100, 100);
    if hot.len() == 0 {
        proof {
            assert(hot@ =~= seq![]);
            lemma_nothing_hot(g1::points_of(srs@), evals@);
        }
        return commit_lagrange(srs, evals);
    }
    commit_depadded(srs, evals, hot.as_slice())
}

// ---------------------------------------------------------------------------
// Polynomials with few distinct values
// ---------------------------------------------------------------------------

/// The sum of the points at which a value stands.
pub open spec fn bucket_sum(srs: Seq<Point>, s: Seq<Fr>, v: Fr) -> Point
    decreases s.len(),
{
    if s.len() == 0 {
        Point::Infinity
    } else if s.last() == v {
        g1::point_add(bucket_sum(srs, s.drop_last(), v), srs[s.len() - 1])
    } else {
        bucket_sum(srs, s.drop_last(), v)
    }
}

/// The distinct values other than zero, in the order in which they first occur.
pub open spec fn bucket_values(s: Seq<Fr>) -> Seq<Fr> {
    tally::chosen(tally::distinct(s), |v: Fr| v@ != 0)
}

/// The commitment to values of which few are distinct: the points of each value
/// are added up, and only the sums are multiplied.
pub open spec fn bucketed_commitment(srs: Seq<Point>, s: Seq<Fr>) -> Point {
    let values = bucket_values(s);
    g1::as_affine(
        g1::point_msm(
            Seq::new(values.len(), |j: int| g1::as_affine(bucket_sum(srs, s, values[j]))),
            fields::vals(values),
        ),
    )
}

/// The points of each distinct value, added up.
fn sum_buckets(srs: &[G1Affine], fr: &[Fr], counted: &tally::Tally) -> (r: Vec<G1Jacobian>)
    requires
        fr@.len() <= srs@.len(),
        g1::all_points_wf(srs@),
        counted.counts_of(fr@),
    ensures
        r@.len() == tally::distinct(fr@).len(),
        forall|j: int|
            0 <= j < r@.len() ==> (#[trigger] r@[j]).wf() && r@[j]@ == bucket_sum(
                g1::points_of(srs@),
                fr@,
                tally::distinct(fr@)[j],
            ),
{
    proof {
        counted.lemma_counts_of(fr@);
        tally::lemma_distinct(fr@);
    }
    let ghost d = tally::distinct(fr@);
    let ghost ps = g1::points_of(srs@);
    let mut sums: Vec<G1Jacobian> = Vec::new();
    let m = counted.len();
    for j in 0..m
        invariant
            sums@.len() == j,
            forall|k: int|
                0 <= k < j ==> (#[trigger] sums@[k]).wf() && sums@[k]@ == Point::Infinity,
    {
        sums.push(G1Jacobian::infinity());
    }
    let n = fr.len();
    for i in 0..n
        invariant
            n == fr@.len(),
            n <= srs@.len(),
            g1::all_points_wf(srs@),
            counted.counts_of(fr@),
            counted.values() == d,
            d == tally::distinct(fr@),
            d.no_duplicates(),
            forall|j: int| 0 <= j < n ==> d.contains(#[trigger] fr@[j]),
            ps == g1::points_of(srs@),
            sums@.len() == d.len(),
            forall|k: int|
                0 <= k < d.len() ==> (#[trigger] sums@[k]).wf() && sums@[k]@ == bucket_sum(
                    ps,
                    fr@.take(i as int),
                    d[k],
                ),
    {
        proof {
            assert(fr@.take(i + 1).drop_last() =~= fr@.take(i as int));
            assert(d.contains(fr@[i as int]));
        }
        match counted.find(&fr[i], Ghost(fr@)) {
            Some(j) => {
                let x = sums[j].add_affine(&srs[i]);
                sums.set(j, x);
            },
            None => {},
        }
    }
    assert(fr@.take(n as int) =~= fr@);
    sums
}

/// Commit to values of which few are distinct.
pub fn commit_bucketed(poly: &[BN254Fr], srs: &[G1Affine]) -> (r: G1Affine)
    requires
        poly@.len() <= srs@.len(),
        g1::all_points_wf(srs@),
    ensures
        r.wf(),
        r@ == bucketed_commitment(
            g1::points_of(srs@),
            fields::elements(fields::residues(poly@)),
        ),
        commit_laws::all_valid(g1::points_of(srs@)) ==> r@ == commitment(
            g1::points_of(srs@),
            fields::residues(poly@),
        ),
{
    let fr = fields::par_from_bn254fr(poly);
    let counted = tally::count_all(fr.as_slice());
    assert(fields::vals(fr@).len() == poly@.len());
    proof {
        if commit_laws::all_valid(g1::points_of(srs@)) {
            commit_laws::law_bucketed_commitment(g1::points_of(srs@), fr@);
        }
    }
    let sums = sum_buckets(srs, fr.as_slice(), &counted);
    proof {
        counted.lemma_counts_of(fr@);
        tally::lemma_distinct(fr@);
    }
    let ghost ps = g1::points_of(srs@);
    let ghost d = tally::distinct(fr@);
    let ghost test = |v: Fr| v@ != 0;
    let mut points: Vec<G1Affine> = Vec::new();
    let mut scalars: Vec<Fr> = Vec::new();
    let m = counted.len();
    for j in 0..m
        invariant
            m == d.len(),
            counted.values() == d,
            d == tally::distinct(fr@),
            fields::all_wf(fr@),
            forall|v: Fr| d.contains(v) ==> #[trigger] fr@.contains(v),
            test == (|v: Fr| v@ != 0),
            sums@.len() == d.len(),
            forall|k: int|
                0 <= k < d.len() ==> (#[trigger] sums@[k]).wf() && sums@[k]@ == bucket_sum(
                    ps,
                    fr@,
                    d[k],
                ),
            g1::all_points_wf(points@),
            points@.len() == scalars@.len(),
            scalars@ == tally::chosen(d.take(j as int), test),
            forall|k: int|
                0 <= k < points@.len() ==> (#[trigger] points@[k])@ == g1::as_affine(
                    bucket_sum(ps, fr@, scalars@[k]),
                ),
    {
        proof {
            assert(d.take(j + 1).drop_last() =~= d.take(j as int));
            assert(d.contains(d[j as int]));
            assert(fr@.contains(d[j as int]));
        }
        let v = counted.value(j);
        if !v.is_zero() {
            points.push(sums[j].to_affine());
            scalars.push(v);
        }
    }
    proof {
        assert(d.take(m as int) =~= d);
        let values = bucket_values(fr@);
        assert(scalars@ == values);
        assert(g1::points_of(points@) =~= Seq::new(
            values.len(),
            |j: int| g1::as_affine(bucket_sum(ps, fr@, values[j])),
        ));
        fields::lemma_elements(fr@);
    }
    g1::msm(points.as_slice(), scalars.as_slice()).to_affine()
}

} // verus!
