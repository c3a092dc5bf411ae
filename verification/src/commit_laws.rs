//! What the group law of the curve says of multi-scalar multiplications and
//! commitments.
use crate::blinding;
use crate::commit;
use crate::fields;
use crate::fields::Fr;
use crate::g1;
use crate::g1::Point;
use crate::group_law;
use crate::kzg;
use crate::tally;
use vstd::arithmetic::mul::lemma_mul_is_distributive_add_other_way;
use vstd::prelude::*;

verus! {

/// A point of the curve with reduced coordinates.
pub open spec fn valid(a: Point) -> bool {
    g1::on_curve(a) && g1::in_range(a)
}

/// Points of the curve.
pub open spec fn all_valid(s: Seq<Point>) -> bool {
    forall|i: int| 0 <= i < s.len() ==> valid(#[trigger] s[i])
}

/// A point added to itself again and again.
pub open spec fn times(k: nat, a: Point) -> Point
    decreases k,
{
    if k == 0 {
        Point::Infinity
    } else {
        g1::point_add(times((k - 1) as nat, a), a)
    }
}

/// Multiples of points of the curve are points of the curve.
proof fn lemma_times_valid(k: nat, a: Point)
    requires
        valid(a),
    ensures
        valid(times(k, a)),
    decreases k,
{
    if k > 0 {
        lemma_times_valid((k - 1) as nat, a);
        group_law::law_sum_on_curve(times((k - 1) as nat, a), a);
    }
}

/// Multiples add up.
proof fn lemma_times_add(j: nat, k: nat, a: Point)
    requires
        valid(a),
    ensures
        times(j + k, a) == g1::point_add(times(j, a), times(k, a)),
    decreases k,
{
    lemma_times_valid(j, a);
    if k > 0 {
        lemma_times_add(j, (k - 1) as nat, a);
        lemma_times_valid((k - 1) as nat, a);
        group_law::law_sum_associates(times(j, a), times((k - 1) as nat, a), a);
    }
}

/// Four points in another order.
proof fn lemma_exchange(a: Point, b: Point, c: Point, d: Point)
    requires
        valid(a),
        valid(b),
        valid(c),
        valid(d),
    ensures
        g1::point_add(g1::point_add(a, b), g1::point_add(c, d)) == g1::point_add(
            g1::point_add(a, c),
            g1::point_add(b, d),
        ),
{
    let cd = g1::point_add(c, d);
    let bd = g1::point_add(b, d);
    group_law::law_sum_on_curve(c, d);
    group_law::law_sum_on_curve(b, d);
    group_law::law_sum_associates(a, b, cd);
    group_law::law_sum_associates(b, c, d);
    group_law::law_sum_commutes(b, c);
    group_law::law_sum_associates(c, b, d);
    group_law::law_sum_associates(a, c, bd);
}

/// A multiple of a sum is the sum of the multiples.
proof fn lemma_times_sum(k: nat, a: Point, b: Point)
    requires
        valid(a),
        valid(b),
    ensures
        times(k, g1::point_add(a, b)) == g1::point_add(times(k, a), times(k, b)),
    decreases k,
{
    if k > 0 {
        let j = (k - 1) as nat;
        lemma_times_sum(j, a, b);
        lemma_times_valid(j, a);
        lemma_times_valid(j, b);
        lemma_exchange(times(j, a), times(j, b), a, b);
    }
}

/// A multiple of a multiple.
proof fn lemma_times_times(j: nat, k: nat, a: Point)
    requires
        valid(a),
    ensures
        times(j, times(k, a)) == times(j * k, a),
    decreases j,
{
    if j > 0 {
        let i = (j - 1) as nat;
        lemma_times_times(i, k, a);
        lemma_times_add(i * k, k, a);
        lemma_mul_is_distributive_add_other_way(k as int, i as int, 1);
        assert(i * k + k == j * k);
    } else {
        assert(0 * k == 0);
    }
}

proof fn lemma_twice(a: Point)
    requires
        valid(a),
    ensures
        g1::point_double(a) == times(2, a),
        valid(g1::point_double(a)),
        times(1, a) == a,
{
    reveal_with_fuel(times, 3);
    group_law::law_sum_on_curve(a, a);
}

/// Doubling and adding adds a multiple.
proof fn lemma_double_and_add(acc: Point, base: Point, k: nat)
    requires
        valid(acc),
        valid(base),
    ensures
        g1::double_and_add(acc, base, k) == g1::point_add(acc, times(k, base)),
    decreases k,
{
    if k > 0 {
        let h = k / 2;
        let bit = k % 2;
        let next = if bit == 1 {
            g1::point_add(acc, base)
        } else {
            acc
        };
        lemma_twice(base);
        group_law::law_sum_on_curve(acc, base);
        lemma_double_and_add(next, g1::point_double(base), h);
        lemma_times_times(h, 2, base);
        lemma_times_valid(h * 2, base);
        if bit == 1 {
            lemma_times_add(1, h * 2, base);
            group_law::law_sum_associates(acc, base, times(h * 2, base));
        }
    }
}

/// A multiple of a point is the point added to itself as often as the scalar says.
pub proof fn law_multiple(k: nat, a: Point)
    requires
        valid(a),
    ensures
        g1::point_mul(k, a) == times(k, a),
        valid(g1::point_mul(k, a)),
{
    lemma_double_and_add(Point::Infinity, a, k);
    lemma_times_valid(k, a);
}

/// Multiples of a point add up, and the multiple of a sum is the sum of the
/// multiples.
pub proof fn law_multiples_add(j: nat, k: nat, a: Point, b: Point)
    requires
        valid(a),
        valid(b),
    ensures
        g1::point_mul(j + k, a) == g1::point_add(g1::point_mul(j, a), g1::point_mul(k, a)),
        g1::point_mul(k, g1::point_add(a, b)) == g1::point_add(
            g1::point_mul(k, a),
            g1::point_mul(k, b),
        ),
        g1::point_mul(j, g1::point_mul(k, a)) == g1::point_mul(j * k, a),
        g1::point_mul(0, a) is Infinity,
        g1::point_mul(1, a) == a,
{
    group_law::law_sum_on_curve(a, b);
    law_multiple(j + k, a);
    law_multiple(j, a);
    law_multiple(k, a);
    law_multiple(k, b);
    law_multiple(k, g1::point_add(a, b));
    law_multiple(j, g1::point_mul(k, a));
    law_multiple(j * k, a);
    law_multiple(1, a);
    lemma_times_add(j, k, a);
    lemma_times_sum(k, a, b);
    lemma_times_times(j, k, a);
    lemma_twice(a);
}

// ---------------------------------------------------------------------------
// Multi-scalar multiplications
// ---------------------------------------------------------------------------

/// A multi-scalar multiplication of points of the curve is a point of the curve.
pub proof fn law_msm_on_curve(points: Seq<Point>, scalars: Seq<int>)
    requires
        all_valid(points),
    ensures
        valid(g1::point_msm(points, scalars)),
    decreases points.len(),
{
    if points.len() > 0 {
        let front = points.drop_last();
        assert(all_valid(front)) by {
            assert forall|i: int| 0 <= i < front.len() implies valid(#[trigger] front[i]) by {
                assert(points[i] == front[i]);
            }
        }
        law_msm_on_curve(front, scalars);
        assert(valid(points[points.len() - 1]));
        let k = scalars[points.len() - 1] as nat;
        law_multiple(k, points.last());
        group_law::law_sum_on_curve(
            g1::point_msm(front, scalars),
            g1::point_mul(k, points.last()),
        );
    }
}

/// Multi-scalar multiplications with the same points add up.
pub proof fn law_msm_adds(points: Seq<Point>, c: Seq<int>, a: Seq<int>, b: Seq<int>)
    requires
        all_valid(points),
        forall|i: int|
            0 <= i < points.len() ==> #[trigger] c[i] == a[i] + b[i] && a[i] >= 0 && b[i] >= 0,
    ensures
        g1::point_msm(points, c) == g1::point_add(
            g1::point_msm(points, a),
            g1::point_msm(points, b),
        ),
    decreases points.len(),
{
    if points.len() > 0 {
        let front = points.drop_last();
        let last = points.last();
        let k = points.len() - 1;
        assert(all_valid(front)) by {
            assert forall|i: int| 0 <= i < front.len() implies valid(#[trigger] front[i]) by {
                assert(points[i] == front[i]);
            }
        }
        law_msm_adds(front, c, a, b);
        law_msm_on_curve(front, a);
        law_msm_on_curve(front, b);
        assert(valid(points[k]));
        assert(c[k] == a[k] + b[k]);
        law_multiples_add(a[k] as nat, b[k] as nat, last, last);
        law_multiple(a[k] as nat, last);
        law_multiple(b[k] as nat, last);
        lemma_exchange(
            g1::point_msm(front, a),
            g1::point_msm(front, b),
            g1::point_mul(a[k] as nat, last),
            g1::point_mul(b[k] as nat, last),
        );
    }
}

/// A common factor of the scalars can be taken out.
pub proof fn law_msm_scales(points: Seq<Point>, c: Seq<int>, a: Seq<int>, k: nat)
    requires
        all_valid(points),
        forall|i: int| 0 <= i < points.len() ==> #[trigger] c[i] == k * a[i] && a[i] >= 0,
    ensures
        g1::point_msm(points, c) == g1::point_mul(k, g1::point_msm(points, a)),
    decreases points.len(),
{
    if points.len() > 0 {
        let front = points.drop_last();
        let last = points.last();
        let n = points.len() - 1;
        assert(all_valid(front)) by {
            assert forall|i: int| 0 <= i < front.len() implies valid(#[trigger] front[i]) by {
                assert(points[i] == front[i]);
            }
        }
        law_msm_scales(front, c, a, k);
        law_msm_on_curve(front, a);
        assert(valid(points[n]));
        assert(c[n] == k * a[n]);
        law_multiple(a[n] as nat, last);
        law_multiples_add(k, k, g1::point_msm(front, a), g1::point_mul(a[n] as nat, last));
        law_multiples_add(k, a[n] as nat, last, last);
    } else {
        law_multiple(k, Point::Infinity);
        lemma_times_infinity(k);
    }
}

proof fn lemma_times_infinity(k: nat)
    ensures
        times(k, Point::Infinity) is Infinity,
    decreases k,
{
    if k > 0 {
        lemma_times_infinity((k - 1) as nat);
    }
}

/// Only the scalars of the points matter.
proof fn lemma_msm_same(points: Seq<Point>, a: Seq<int>, b: Seq<int>)
    requires
        forall|i: int| 0 <= i < points.len() ==> #[trigger] a[i] == b[i],
    ensures
        g1::point_msm(points, a) == g1::point_msm(points, b),
    decreases points.len(),
{
    if points.len() > 0 {
        lemma_msm_same(points.drop_last(), a, b);
        assert(a[points.len() - 1] == b[points.len() - 1]);
    }
}

/// A point of the curve can be written in affine coordinates.
pub proof fn law_as_affine(a: Point)
    requires
        valid(a),
    ensures
        g1::as_affine(a) == a,
{
    if let Point::At { x, y } = a {
        if x == 0 && y == 0 {
            group_law::law_origin_not_on_curve();
        }
    }
}

// ---------------------------------------------------------------------------
// Commitments
// ---------------------------------------------------------------------------

/// The scalars of which those with a value in `h` are there again.
spec fn restored(s: Seq<Fr>, base: Seq<int>, h: Seq<Fr>) -> Seq<int> {
    Seq::new(
        s.len(),
        |i: int|
            if h.contains(s[i]) {
                s[i]@
            } else {
                base[i]
            },
    )
}

/// Restoring one more value adds its multiple of the points at which it stands.
proof fn lemma_restore_one(points: Seq<Point>, s: Seq<Fr>, base: Seq<int>, h: Seq<Fr>, v: Fr)
    requires
        all_valid(points),
        points.len() == s.len() == base.len(),
        !h.contains(v),
        v@ >= 0,
        forall|i: int| 0 <= i < s.len() ==> (#[trigger] s[i])@ >= 0,
        forall|i: int| 0 <= i < s.len() ==> (#[trigger] base[i]) >= 0,
        forall|i: int| 0 <= i < s.len() && s[i] == v ==> (#[trigger] base[i]) == 0,
    ensures
        g1::point_msm(points, restored(s, base, h.push(v))) == g1::point_add(
            g1::point_msm(points, restored(s, base, h)),
            g1::point_mul(v@ as nat, g1::point_msm(points, commit::mask(s, v))),
        ),
{
    let a = restored(s, base, h);
    let c = restored(s, base, h.push(v));
    let m = commit::mask(s, v);
    let b = Seq::new(s.len(), |i: int| (v@ as nat) * m[i]);
    assert forall|i: int| 0 <= i < points.len() implies #[trigger] c[i] == a[i] + b[i] && a[i] >= 0
        && b[i] >= 0 by {
        assert(s[i]@ >= 0);
        assert(base[i] >= 0);
        assert(h.push(v)[h.len() as int] == v);
        if h.contains(s[i]) {
            let k = choose|k: int| 0 <= k < h.len() && h[k] == s[i];
            assert(h.push(v)[k] == s[i]);
        }
        if h.push(v).contains(s[i]) && s[i] != v {
            let k = choose|k: int| 0 <= k < h.push(v).len() && h.push(v)[k] == s[i];
            assert(h[k] == s[i]);
        }
        if s[i] == v {
            assert(base[i] == 0);
            assert((v@ as nat) * 1 == v@);
        } else {
            assert((v@ as nat) * 0 == 0);
        }
    }
    law_msm_adds(points, c, a, b);
    law_msm_scales(points, b, m, v@ as nat);
}

/// Adding the contributions of hot values restores them.
proof fn lemma_with_hot(points: Seq<Point>, s: Seq<Fr>, base: Seq<int>, h: Seq<Fr>)
    requires
        all_valid(points),
        points.len() == s.len() == base.len(),
        h.no_duplicates(),
        forall|i: int| 0 <= i < h.len() ==> (#[trigger] h[i])@ >= 0,
        forall|i: int| 0 <= i < s.len() ==> (#[trigger] s[i])@ >= 0,
        forall|i: int| 0 <= i < s.len() ==> (#[trigger] base[i]) >= 0,
        forall|i: int| 0 <= i < s.len() && h.contains(s[i]) ==> (#[trigger] base[i]) == 0,
    ensures
        commit::with_hot(g1::point_msm(points, base), points, s, h) == g1::point_msm(
            points,
            restored(s, base, h),
        ),
    decreases h.len(),
{
    if h.len() == 0 {
        lemma_msm_same(points, restored(s, base, h), base);
    } else {
        let g = h.drop_last();
        let v = h.last();
        assert(g.push(v) =~= h);
        assert forall|i: int| 0 <= i < s.len() && g.contains(s[i]) implies (#[trigger] base[i])
            == 0 by {
            let k = choose|k: int| 0 <= k < g.len() && g[k] == s[i];
            assert(h[k] == s[i]);
        }
        assert(forall|i: int| 0 <= i < g.len() ==> #[trigger] g[i] == h[i]);
        lemma_with_hot(points, s, base, g);
        if g.contains(v) {
            let k = choose|k: int| 0 <= k < g.len() && g[k] == v;
            assert(h[k] == h[h.len() - 1]);
        }
        assert forall|i: int| 0 <= i < s.len() && s[i] == v implies (#[trigger] base[i]) == 0 by {
            assert(h[h.len() - 1] == s[i]);
        }
        assert(h[h.len() - 1]@ >= 0);
        lemma_restore_one(points, s, base, g, v);
    }
}

/// Leaving values out of a commitment and adding them afterwards gives the
/// commitment, whichever values these are.
pub proof fn law_depadded_commitment(srs: Seq<Point>, s: Seq<Fr>, hot: Seq<Fr>)
    requires
        all_valid(srs),
        s.len() <= srs.len(),
        fields::all_wf(s),
        fields::all_wf(hot),
        hot.no_duplicates(),
    ensures
        commit::depadded_commitment(srs, s, hot) == commit::commitment(srs, fields::vals(s)),
{
    let points = srs.take(s.len() as int);
    let base = commit::zeroed(s, hot);
    assert(all_valid(points)) by {
        assert forall|i: int| 0 <= i < points.len() implies valid(#[trigger] points[i]) by {
            assert(points[i] == srs[i]);
        }
    }
    assert forall|i: int| 0 <= i < s.len() implies (#[trigger] s[i])@ >= 0 by {
        s[i].lemma_of_view();
    }
    assert forall|i: int| 0 <= i < hot.len() implies (#[trigger] hot[i])@ >= 0 by {
        hot[i].lemma_of_view();
    }
    assert forall|i: int| 0 <= i < s.len() implies (#[trigger] base[i]) >= 0 by {
        assert(s[i]@ >= 0);
    }
    lemma_with_hot(points, s, base, hot);
    lemma_msm_same(points, restored(s, base, hot), fields::vals(s));
}

/// Choosing among different values gives different values.
proof fn lemma_chosen(s: Seq<Fr>, test: spec_fn(Fr) -> bool)
    requires
        s.no_duplicates(),
    ensures
        tally::chosen(s, test).no_duplicates(),
        forall|v: Fr| #[trigger] tally::chosen(s, test).contains(v) <==> s.contains(v) && test(v),
    decreases s.len(),
{
    let r = tally::chosen(s, test);
    if s.len() > 0 {
        let t = s.drop_last();
        let f = tally::chosen(t, test);
        lemma_chosen(t, test);
        assert forall|v: Fr| #[trigger] r.contains(v) <==> s.contains(v) && test(v) by {
            if r.contains(v) {
                let k = choose|k: int| 0 <= k < r.len() && r[k] == v;
                if k < f.len() {
                    assert(f[k] == v);
                    assert(f.contains(v));
                    let i = choose|i: int| 0 <= i < t.len() && t[i] == v;
                    assert(s[i] == v);
                } else {
                    assert(s[s.len() - 1] == v);
                }
            }
            if s.contains(v) && test(v) {
                let i = choose|i: int| 0 <= i < s.len() && s[i] == v;
                if i < t.len() {
                    assert(t[i] == v);
                    assert(f.contains(v));
                    let k = choose|k: int| 0 <= k < f.len() && f[k] == v;
                    assert(r[k] == v);
                } else {
                    assert(r[f.len() as int] == v);
                }
            }
        }
        if test(s.last()) {
            if f.contains(s.last()) {
                let i = choose|i: int| 0 <= i < t.len() && t[i] == s.last();
                assert(s[i] == s[s.len() - 1]);
            }
            assert forall|i: int, j: int| 0 <= i < r.len() && 0 <= j < r.len() && i != j implies r[i]
                != r[j] by {
                if i == f.len() {
                    assert(f[j] == r[j]);
                    assert(f.contains(r[j]));
                } else if j == f.len() {
                    assert(f[i] == r[i]);
                    assert(f.contains(r[i]));
                } else {
                    assert(f[i] == r[i] && f[j] == r[j]);
                }
            }
        }
    }
}

/// The values that are taken out of a commitment are different, and occur in it.
pub proof fn law_hot_values(s: Seq<Fr>, divisor: int, limit: int)
    requires
        s.len() > 0,
        divisor > 0,
    ensures
        commit::hot_values(s, divisor, limit).no_duplicates(),
        forall|v: Fr|
            #[trigger] commit::hot_values(s, divisor, limit).contains(v) ==> s.contains(v)
                && tally::occurrences(s, v) >= commit::DEDUP_THRESHOLD && v@ != 0,
{
    let step = commit::sample_step(s.len() as int, divisor);
    let sample = commit::sampled(s, step);
    let often = |v: Fr| tally::occurrences(sample, v) > limit;
    let frequent = tally::chosen(tally::distinct(sample), often);
    let c = commit::candidates(s, divisor, limit);
    tally::lemma_distinct(sample);
    lemma_chosen(tally::distinct(sample), often);
    let hot = |v: Fr| tally::occurrences(s, v) >= commit::DEDUP_THRESHOLD && v@ != 0;
    if !frequent.contains(s.last()) {
        assert forall|i: int, j: int| 0 <= i < c.len() && 0 <= j < c.len() && i != j implies c[i]
            != c[j] by {
            if i == frequent.len() {
                assert(frequent[j] == c[j]);
                assert(frequent.contains(c[j]));
            } else if j == frequent.len() {
                assert(frequent[i] == c[i]);
                assert(frequent.contains(c[i]));
            } else {
                assert(frequent[i] == c[i] && frequent[j] == c[j]);
            }
        }
    }
    lemma_chosen(c, hot);
    assert forall|v: Fr| #[trigger] commit::hot_values(s, divisor, limit).contains(v) implies
        s.contains(v) && tally::occurrences(s, v) >= commit::DEDUP_THRESHOLD && v@ != 0 by {
        lemma_occurs(s, v);
    }
}

/// A value that is not zero and occurs often is taken out of a commitment if it is the last
/// one, which a padding repeats, or if it occurs often enough in the sample.
pub proof fn law_padding_is_hot(s: Seq<Fr>, divisor: int, limit: int, v: Fr)
    requires
        s.len() > 0,
        divisor > 0,
        v@ != 0,
        tally::occurrences(s, v) >= 8192,
        v == s.last() || (limit >= 0 && tally::occurrences(
            commit::sampled(s, commit::sample_step(s.len() as int, divisor)),
            v,
        ) > limit),
    ensures
        commit::hot_values(s, divisor, limit).contains(v),
{
    let step = commit::sample_step(s.len() as int, divisor);
    let sample = commit::sampled(s, step);
    let often = |v: Fr| tally::occurrences(sample, v) > limit;
    let frequent = tally::chosen(tally::distinct(sample), often);
    let c = commit::candidates(s, divisor, limit);
    tally::lemma_distinct(sample);
    lemma_chosen(tally::distinct(sample), often);
    let hot = |v: Fr| tally::occurrences(s, v) >= commit::DEDUP_THRESHOLD && v@ != 0;
    if !frequent.contains(s.last()) {
        assert forall|i: int, j: int| 0 <= i < c.len() && 0 <= j < c.len() && i != j implies c[i]
            != c[j] by {
            if i == frequent.len() {
                assert(frequent[j] == c[j]);
                assert(frequent.contains(c[j]));
            } else if j == frequent.len() {
                assert(frequent[i] == c[i]);
                assert(frequent.contains(c[i]));
            } else {
                assert(frequent[i] == c[i] && frequent[j] == c[j]);
            }
        }
        assert(c[frequent.len() as int] == s.last());
    }
    if v == s.last() {
        assert(c.contains(v));
    } else {
        lemma_occurs(sample, v);
        assert(tally::distinct(sample).contains(v));
        assert(often(v));
        assert(frequent.contains(v));
        let k = choose|k: int| 0 <= k < frequent.len() && frequent[k] == v;
        assert(c[k] == v);
    }
    lemma_chosen(c, hot);
    assert(hot(v));
}

proof fn lemma_occurs(s: Seq<Fr>, v: Fr)
    ensures
        tally::occurrences(s, v) > 0 ==> s.contains(v),
    decreases s.len(),
{
    if s.len() > 0 {
        let t = s.drop_last();
        lemma_occurs(t, v);
        if t.contains(v) {
            let i = choose|i: int| 0 <= i < t.len() && t[i] == v;
            assert(s[i] == v);
        } else if s.last() == v {
            assert(s[s.len() - 1] == v);
        }
    }
}

/// A commitment from which the values that occur very often are left out is the
/// same as one from which nothing is left out.
pub proof fn law_commit_lagrange_depad(srs: Seq<Point>, s: Seq<Fr>, divisor: int, limit: int)
    requires
        all_valid(srs),
        0 < s.len() <= srs.len(),
        fields::all_wf(s),
        divisor > 0,
    ensures
        commit::depadded_commitment(srs, s, commit::hot_values(s, divisor, limit))
            == commit::commitment(srs, fields::vals(s)),
{
    let hot = commit::hot_values(s, divisor, limit);
    law_hot_values(s, divisor, limit);
    assert forall|i: int| 0 <= i < hot.len() implies (#[trigger] hot[i]).wf() by {
        assert(hot.contains(hot[i]));
        let k = choose|k: int| 0 <= k < s.len() && s[k] == hot[i];
        assert(s[k].wf());
    }
    law_depadded_commitment(srs, s, hot);
}

/// The sum of the points of a value is their multi-scalar multiplication with ones.
proof fn lemma_bucket_sum(srs: Seq<Point>, s: Seq<Fr>, v: Fr)
    requires
        all_valid(srs),
        s.len() <= srs.len(),
    ensures
        commit::bucket_sum(srs, s, v) == g1::point_msm(
            srs.take(s.len() as int),
            commit::mask(s, v),
        ),
    decreases s.len(),
{
    let points = srs.take(s.len() as int);
    if s.len() > 0 {
        let t = s.drop_last();
        lemma_bucket_sum(srs, t, v);
        assert(points.drop_last() =~= srs.take(t.len() as int));
        lemma_msm_same(points.drop_last(), commit::mask(s, v), commit::mask(t, v));
        let last = srs[s.len() - 1];
        assert(valid(last));
        law_multiples_add(0, 1, last, last);
        assert(points.last() == last);
        assert(all_valid(srs.take(t.len() as int))) by {
            assert forall|i: int| 0 <= i < t.len() implies valid(
                #[trigger] srs.take(t.len() as int)[i],
            ) by {
                assert(srs[i] == srs.take(t.len() as int)[i]);
            }
        }
    }
}

/// Adding up buckets restores their values.
proof fn lemma_buckets(srs: Seq<Point>, s: Seq<Fr>, values: Seq<Fr>)
    requires
        all_valid(srs),
        s.len() <= srs.len(),
        fields::all_wf(s),
        fields::all_wf(values),
        values.no_duplicates(),
    ensures
        g1::point_msm(
            Seq::new(
                values.len(),
                |j: int| g1::as_affine(commit::bucket_sum(srs, s, values[j])),
            ),
            fields::vals(values),
        ) == g1::point_msm(
            srs.take(s.len() as int),
            restored(s, Seq::new(s.len(), |i: int| 0int), values),
        ),
    decreases values.len(),
{
    let points = srs.take(s.len() as int);
    let zeros = Seq::new(s.len(), |i: int| 0int);
    let sums = Seq::new(
        values.len(),
        |j: int| g1::as_affine(commit::bucket_sum(srs, s, values[j])),
    );
    assert(all_valid(points)) by {
        assert forall|i: int| 0 <= i < points.len() implies valid(#[trigger] points[i]) by {
            assert(points[i] == srs[i]);
        }
    }
    assert forall|i: int| 0 <= i < s.len() implies (#[trigger] s[i])@ >= 0 by {
        s[i].lemma_of_view();
    }
    if values.len() == 0 {
        let r = restored(s, zeros, values);
        lemma_msm_same(points, r, zeros);
        law_msm_scales(points, zeros, zeros, 0);
        law_msm_on_curve(points, zeros);
        law_multiple(0, g1::point_msm(points, zeros));
    } else {
        let g = values.drop_last();
        let v = values.last();
        assert forall|i: int| 0 <= i < g.len() implies (#[trigger] g[i]).wf() by {
            assert(values[i] == g[i]);
        }
        assert(g.no_duplicates()) by {
            assert(forall|i: int| 0 <= i < g.len() ==> #[trigger] g[i] == values[i]);
        }
        lemma_buckets(srs, s, g);
        assert(sums.drop_last() =~= Seq::new(
            g.len(),
            |j: int| g1::as_affine(commit::bucket_sum(srs, s, g[j])),
        ));
        lemma_msm_same(sums.drop_last(), fields::vals(values), fields::vals(g));
        lemma_bucket_sum(srs, s, v);
        law_msm_on_curve(points, commit::mask(s, v));
        law_as_affine(commit::bucket_sum(srs, s, v));
        if g.contains(v) {
            let k = choose|k: int| 0 <= k < g.len() && g[k] == v;
            assert(values[k] == values[values.len() - 1]);
        }
        assert(values[values.len() - 1].wf());
        v.lemma_of_view();
        lemma_restore_one(points, s, zeros, g, v);
        assert(g.push(v) =~= values);
        assert(sums.last() == commit::bucket_sum(srs, s, v));
        assert(fields::vals(values)[values.len() - 1] == v@);
    }
}

/// Adding up the points of each value first, and multiplying only the sums, gives
/// the commitment.
pub proof fn law_bucketed_commitment(srs: Seq<Point>, s: Seq<Fr>)
    requires
        all_valid(srs),
        s.len() <= srs.len(),
        fields::all_wf(s),
    ensures
        commit::bucketed_commitment(srs, s) == commit::commitment(srs, fields::vals(s)),
{
    let values = commit::bucket_values(s);
    let test = |v: Fr| v@ != 0;
    tally::lemma_distinct(s);
    lemma_chosen(tally::distinct(s), test);
    assert forall|i: int| 0 <= i < values.len() implies (#[trigger] values[i]).wf() by {
        assert(values.contains(values[i]));
        assert(s.contains(values[i]));
        let k = choose|k: int| 0 <= k < s.len() && s[k] == values[i];
        assert(s[k].wf());
    }
    lemma_buckets(srs, s, values);
    let zeros = Seq::new(s.len(), |i: int| 0int);
    let r = restored(s, zeros, values);
    assert forall|i: int| 0 <= i < s.len() implies #[trigger] r[i] == fields::vals(s)[i] by {
        assert(tally::distinct(s).contains(s[i]));
        assert(values.contains(s[i]) <==> s[i]@ != 0);
    }
    lemma_msm_same(srs.take(s.len() as int), r, fields::vals(s));
}

// ---------------------------------------------------------------------------
// Scalars modulo the order of the group
// ---------------------------------------------------------------------------

/// The point lies in the group whose order is the modulus of the scalars.
pub open spec fn in_group(a: Point) -> bool {
    valid(a) && g1::point_mul(fields::fr_modulus() as nat, a) is Infinity
}

/// Points of the group.
pub open spec fn all_in_group(s: Seq<Point>) -> bool {
    forall|i: int| 0 <= i < s.len() ==> in_group(#[trigger] s[i])
}

/// Scalars can be reduced.
pub proof fn law_scalar_reduces(k: nat, a: Point)
    requires
        in_group(a),
    ensures
        g1::point_mul(k, a) == g1::point_mul((k % fields::fr_modulus() as nat) as nat, a),
{
    fields::lemma_fr_modulus();
    let r = fields::fr_modulus() as nat;
    let (d, m) = (k / r, k % r);
    vstd::arithmetic::div_mod::lemma_fundamental_div_mod(k as int, r as int);
    assert(k == d * r + m) by (nonlinear_arith)
        requires
            k == r * d + m,
    ;
    law_multiples_add(d * r, m, a, a);
    law_multiples_add(d, r, a, a);
    law_multiple(d, Point::Infinity);
    lemma_times_infinity(d);
}

/// Multi-scalar multiplications whose scalars agree modulo the order agree.
pub proof fn law_msm_reduces(points: Seq<Point>, a: Seq<int>, b: Seq<int>)
    requires
        all_in_group(points),
        forall|i: int|
            0 <= i < points.len() ==> #[trigger] a[i] % fields::fr_modulus() == b[i]
                % fields::fr_modulus() && a[i] >= 0 && b[i] >= 0,
    ensures
        g1::point_msm(points, a) == g1::point_msm(points, b),
    decreases points.len(),
{
    if points.len() > 0 {
        let front = points.drop_last();
        let k = points.len() - 1;
        assert(all_in_group(front)) by {
            assert forall|i: int| 0 <= i < front.len() implies in_group(#[trigger] front[i]) by {
                assert(points[i] == front[i]);
            }
        }
        law_msm_reduces(front, a, b);
        fields::lemma_fr_modulus();
        assert(in_group(points[k]));
        assert(a[k] % fields::fr_modulus() == b[k] % fields::fr_modulus());
        law_scalar_reduces(a[k] as nat, points[k]);
        law_scalar_reduces(b[k] as nat, points[k]);
    }
}

/// Commitments are linear: the commitment to a sum of polynomials is the sum of the
/// commitments.
pub proof fn law_commitment_adds(srs: Seq<Point>, a: Seq<int>, b: Seq<int>)
    requires
        all_in_group(srs),
        a.len() == b.len() <= srs.len(),
        forall|i: int| 0 <= i < a.len() ==> 0 <= #[trigger] a[i],
        forall|i: int| 0 <= i < b.len() ==> 0 <= #[trigger] b[i],
    ensures
        commit::commitment(srs, Seq::new(a.len(), |i: int| fields::fadd(a[i], b[i])))
            == g1::point_add(commit::commitment(srs, a), commit::commitment(srs, b)),
{
    fields::lemma_fr_modulus();
    let r = fields::fr_modulus();
    let points = srs.take(a.len() as int);
    lemma_take_in_group(srs, a.len() as int);
    let c = Seq::new(a.len(), |i: int| fields::fadd(a[i], b[i]));
    let d = Seq::new(a.len(), |i: int| a[i] + b[i]);
    assert forall|i: int| 0 <= i < points.len() implies #[trigger] d[i] == a[i] + b[i] && a[i] >= 0
        && b[i] >= 0 by {
    }
    assert forall|i: int| 0 <= i < points.len() implies #[trigger] c[i] % r == d[i] % r && c[i] >= 0
        && d[i] >= 0 by {
        assert(a[i] >= 0 && b[i] >= 0);
        vstd::arithmetic::div_mod::lemma_mod_twice(a[i] + b[i], r);
        vstd::arithmetic::div_mod::lemma_mod_bound(a[i] + b[i], r);
    }
    law_msm_reduces(points, c, d);
    law_msm_adds(points, d, a, b);
    law_msm_on_curve(points, a);
    law_msm_on_curve(points, b);
    law_msm_on_curve(points, c);
    law_as_affine(g1::point_msm(points, a));
    law_as_affine(g1::point_msm(points, b));
    law_as_affine(g1::point_msm(points, c));
}

/// The commitment to a multiple of a polynomial is the multiple of the commitment.
pub proof fn law_commitment_scales(srs: Seq<Point>, a: Seq<int>, k: int)
    requires
        all_in_group(srs),
        a.len() <= srs.len(),
        0 <= k,
        forall|i: int| 0 <= i < a.len() ==> 0 <= #[trigger] a[i],
    ensures
        commit::commitment(srs, Seq::new(a.len(), |i: int| fields::fmul(k, a[i])))
            == g1::point_mul(k as nat, commit::commitment(srs, a)),
{
    fields::lemma_fr_modulus();
    let r = fields::fr_modulus();
    let points = srs.take(a.len() as int);
    lemma_take_in_group(srs, a.len() as int);
    let c = Seq::new(a.len(), |i: int| fields::fmul(k, a[i]));
    let d = Seq::new(a.len(), |i: int| (k as nat) * a[i]);
    assert forall|i: int| 0 <= i < points.len() implies #[trigger] c[i] % r == d[i] % r && c[i] >= 0
        && d[i] >= 0 by {
        assert(a[i] >= 0);
        assert(k * a[i] >= 0) by (nonlinear_arith)
            requires
                k >= 0,
                a[i] >= 0,
        ;
        vstd::arithmetic::div_mod::lemma_mod_twice(k * a[i], r);
        vstd::arithmetic::div_mod::lemma_mod_bound(k * a[i], r);
    }
    law_msm_reduces(points, c, d);
    law_msm_scales(points, d, a, k as nat);
    law_msm_on_curve(points, a);
    law_msm_on_curve(points, c);
    law_as_affine(g1::point_msm(points, a));
    law_as_affine(g1::point_msm(points, c));
}

proof fn lemma_take_in_group(srs: Seq<Point>, n: int)
    requires
        all_in_group(srs),
        0 <= n <= srs.len(),
    ensures
        all_in_group(srs.take(n)),
        all_valid(srs.take(n)),
        all_in_group(srs.skip(n)),
        all_valid(srs.skip(n)),
{
    assert forall|i: int| 0 <= i < n implies in_group(#[trigger] srs.take(n)[i]) by {
        assert(srs.take(n)[i] == srs[i]);
    }
    assert forall|i: int| 0 <= i < srs.len() - n implies in_group(#[trigger] srs.skip(n)[i]) by {
        assert(srs.skip(n)[i] == srs[n + i]);
    }
}

/// A multi-scalar multiplication in two parts.
proof fn lemma_msm_concat(p: Seq<Point>, q: Seq<Point>, a: Seq<int>, b: Seq<int>)
    requires
        all_valid(p),
        all_valid(q),
        p.len() == a.len(),
        q.len() == b.len(),
    ensures
        g1::point_msm(p + q, a + b) == g1::point_add(g1::point_msm(p, a), g1::point_msm(q, b)),
    decreases q.len(),
{
    let all = p + q;
    let c = a + b;
    if q.len() == 0 {
        assert(all =~= p);
        lemma_msm_same(p, c, a);
    } else {
        let front = q.drop_last();
        let last = q.last();
        let k = b[q.len() - 1] as nat;
        assert(all.drop_last() =~= p + front);
        assert(all_valid(front)) by {
            assert forall|i: int| 0 <= i < front.len() implies valid(#[trigger] front[i]) by {
                assert(q[i] == front[i]);
            }
        }
        lemma_msm_concat(p, front, a, b.drop_last());
        lemma_msm_same(p + front, c, a + b.drop_last());
        lemma_msm_same(front, b, b.drop_last());
        assert(valid(q[q.len() - 1]));
        law_multiple(k, last);
        law_msm_on_curve(p, a);
        law_msm_on_curve(front, b);
        group_law::law_sum_associates(
            g1::point_msm(p, a),
            g1::point_msm(front, b),
            g1::point_mul(k, last),
        );
        assert(c[all.len() - 1] == b[q.len() - 1]);
    }
}

/// A multi-scalar multiplication with zeros.
proof fn lemma_msm_zeros(p: Seq<Point>, a: Seq<int>)
    requires
        all_valid(p),
        forall|i: int| 0 <= i < p.len() ==> #[trigger] a[i] == 0,
    ensures
        g1::point_msm(p, a) is Infinity,
    decreases p.len(),
{
    if p.len() > 0 {
        let front = p.drop_last();
        assert(all_valid(front)) by {
            assert forall|i: int| 0 <= i < front.len() implies valid(#[trigger] front[i]) by {
                assert(p[i] == front[i]);
            }
        }
        lemma_msm_zeros(front, a);
        assert(a[p.len() - 1] == 0);
        assert(valid(p[p.len() - 1]));
        law_multiple(0, p.last());
    }
}

/// Coefficients of which none counts are zeros.
proof fn lemma_no_nonzero(c: Seq<int>)
    requires
        commit::nonzero_count(c) == 0,
    ensures
        forall|i: int| 0 <= i < c.len() ==> #[trigger] c[i] == 0,
    decreases c.len(),
{
    if c.len() > 0 {
        lemma_no_nonzero(c.drop_last());
        assert forall|i: int| 0 <= i < c.len() implies #[trigger] c[i] == 0 by {
            if i < c.len() - 1 {
                assert(c.drop_last()[i] == c[i]);
            }
        }
    }
}

/// A commitment with the blinding added is the commitment to the blinded
/// polynomial.
pub proof fn law_blinded_commitment(srs: Seq<Point>, c: Seq<int>, bp: Seq<int>)
    requires
        all_in_group(srs),
        c.len() + bp.len() <= srs.len(),
        bp.len() <= c.len(),
        forall|i: int| 0 <= i < c.len() ==> 0 <= #[trigger] c[i] < fields::fr_modulus(),
        forall|i: int| 0 <= i < bp.len() ==> 0 <= #[trigger] bp[i] < fields::fr_modulus(),
    ensures
        commit::blinded(srs, bp, c.len() as int, commit::commitment(srs, c))
            == commit::commitment(srs, blinding::spliced(c, bp)),
{
    fields::lemma_fr_modulus();
    let r = fields::fr_modulus();
    let (n, m) = (c.len() as int, bp.len() as int);
    let all = srs.take(n + m);
    let low = srs.take(n);
    let high = srs.subrange(n, n + m);
    let s = blinding::spliced(c, bp);
    let d = s.take(n);
    lemma_take_in_group(srs, n + m);
    lemma_take_in_group(srs, n);
    lemma_take_in_group(srs, m);
    assert(all_valid(high)) by {
        assert forall|i: int| 0 <= i < high.len() implies valid(#[trigger] high[i]) by {
            assert(in_group(srs[n + i]));
        }
    }
    // The two parts of the blinded polynomial.
    assert(all =~= low + high);
    assert(s =~= d + bp);
    lemma_msm_concat(low, high, d, bp);
    // The lower part and the blinding make up the polynomial.
    let e = Seq::new(c.len(), |i: int| if i < m { bp[i] } else { 0 });
    let f = Seq::new(c.len(), |i: int| d[i] + e[i]);
    assert forall|i: int| 0 <= i < n implies #[trigger] f[i] % r == c[i] % r && f[i] >= 0 && c[i]
        >= 0 && d[i] >= 0 && e[i] >= 0 by {
        assert(0 <= c[i] < r);
        if i < m {
            assert(0 <= bp[i] < r);
            assert(d[i] == fields::fsub(c[i], bp[i]));
            vstd::arithmetic::div_mod::lemma_mod_bound(c[i] - bp[i], r);
            crate::modular::lemma_mod_idem(c[i] - bp[i], r);
            crate::modular::lemma_add_cong(d[i], bp[i], c[i] - bp[i], bp[i], r);
        } else {
            assert(d[i] == c[i]);
        }
    }
    assert forall|i: int| 0 <= i < low.len() implies #[trigger] f[i] == d[i] + e[i] && d[i] >= 0
        && e[i] >= 0 by {
        assert(f[i] % r == c[i] % r);
    }
    law_msm_reduces(low, f, c);
    law_msm_adds(low, f, d, e);
    // The blinding on the first points.
    let head = srs.take(m);
    let rest = srs.subrange(m, n);
    assert(low =~= head + rest);
    let zeros = Seq::new((n - m) as nat, |i: int| 0int);
    assert(e =~= bp + zeros);
    assert(all_valid(rest)) by {
        assert forall|i: int| 0 <= i < rest.len() implies valid(#[trigger] rest[i]) by {
            assert(in_group(srs[m + i]));
        }
    }
    lemma_msm_concat(head, rest, bp, zeros);
    lemma_msm_zeros(rest, zeros);
    let (x, lo, hi) = (
        g1::point_msm(low, d),
        g1::point_msm(head, bp),
        g1::point_msm(high, bp),
    );
    let total = g1::point_msm(low, c);
    law_msm_on_curve(low, d);
    law_msm_on_curve(head, bp);
    law_msm_on_curve(high, bp);
    law_msm_on_curve(low, c);
    law_msm_on_curve(all, s);
    assert(g1::point_msm(low, e) == lo);
    assert(total == g1::point_add(x, lo));
    group_law::law_sum_commutes(x, lo);
    group_law::law_sum_cancels(lo, x);
    group_law::law_inverse(lo);
    let nlo = g1::point_neg(lo);
    assert(g1::point_add(total, nlo) == x);
    group_law::law_sum_on_curve(hi, nlo);
    group_law::law_sum_commutes(hi, nlo);
    group_law::law_sum_associates(total, nlo, hi);
    law_as_affine(total);
    law_as_affine(g1::point_add(hi, nlo));
    law_as_affine(g1::point_msm(all, s));
    assert(kzg::blinding_commitment(srs, bp, n) == g1::point_add(hi, nlo));
    if commit::nonzero_count(bp) == 0 {
        lemma_no_nonzero(bp);
        lemma_msm_zeros(head, bp);
        lemma_msm_zeros(high, bp);
    }
}

} // verus!
