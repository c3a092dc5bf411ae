//! The points of the curve are a commutative group under the sum by chords and
//! tangents.
//!
//! Three points on a line add up to zero. Associativity rests on the conics
//! `X^2 + a X + b + e Y` that pass through the three summands: both ways of adding
//! give such a conic, there is only one, and it determines the sum.
use crate::fields;
use crate::g1;
use crate::g1::Point;
use crate::modular;
use vstd::arithmetic::div_mod::lemma_small_mod;
use vstd::prelude::*;

verus! {

// ---------------------------------------------------------------------------
// Expressions that are zero in the base field
// ---------------------------------------------------------------------------

/// The expression is zero in the base field.
#[verifier::opaque]
spec fn vanishes(e: int) -> bool {
    e % fields::fq_modulus() == 0
}

proof fn lemma_vanishes_zero()
    ensures
        vanishes(0),
{
    reveal(vanishes);
    fields::lemma_fq_modulus();
    lemma_small_mod(0, fields::fq_modulus() as nat);
}

/// A combination of expressions that vanish vanishes.
proof fn lemma_comb(c1: int, h1: int, c2: int, h2: int)
    requires
        vanishes(h1),
        vanishes(h2),
    ensures
        vanishes(c1 * h1 + c2 * h2),
        vanishes(c1 * h1),
        vanishes(h1 + h2),
        vanishes(h1 - h2),
{
    reveal(vanishes);
    fields::lemma_fq_modulus();
    let q = fields::fq_modulus();
    lemma_small_mod(0, q as nat);
    modular::lemma_mul_cong(c1, h1, c1, 0, q);
    modular::lemma_mul_cong(c2, h2, c2, 0, q);
    modular::lemma_add_cong(c1 * h1, c2 * h2, 0, 0, q);
    modular::lemma_add_cong(h1, h2, 0, 0, q);
    modular::lemma_sub_cong(h1, h2, 0, 0, q);
    assert(c1 * 0 == 0);
    assert(c2 * 0 == 0);
}

/// A combination of four.
proof fn lemma_comb4(
    c1: int,
    h1: int,
    c2: int,
    h2: int,
    c3: int,
    h3: int,
    c4: int,
    h4: int,
)
    requires
        vanishes(h1),
        vanishes(h2),
        vanishes(h3),
        vanishes(h4),
    ensures
        vanishes(c1 * h1 + c2 * h2 + c3 * h3 + c4 * h4),
{
    lemma_comb(c1, h1, c2, h2);
    lemma_comb(c3, h3, c4, h4);
    lemma_comb(1, c1 * h1 + c2 * h2, 1, c3 * h3 + c4 * h4);
    assert(1 * (c1 * h1 + c2 * h2) == c1 * h1 + c2 * h2);
    assert(c1 * h1 + c2 * h2 + (c3 * h3 + c4 * h4) == c1 * h1 + c2 * h2 + c3 * h3 + c4 * h4);
}

/// A factor of a product that vanishes, where the other one does not.
proof fn lemma_cancel(a: int, b: int)
    requires
        vanishes(a * b),
        !vanishes(a),
    ensures
        vanishes(b),
{
    reveal(vanishes);
    fields::lemma_fq_modulus();
    modular::lemma_euclid(a, b, fields::fq_modulus());
}

/// Field elements whose difference vanishes are equal.
proof fn lemma_equal(a: int, b: int)
    requires
        vanishes(a - b),
        0 <= a < fields::fq_modulus(),
        0 <= b < fields::fq_modulus(),
    ensures
        a == b,
{
    reveal(vanishes);
    fields::lemma_fq_modulus();
    modular::lemma_divides(a - b, fields::fq_modulus());
    let q = fields::fq_modulus();
    let k = (a - b) / q;
    assert(a - b == q * k);
    assert(k == 0) by (nonlinear_arith)
        requires
            -q < q * k < q,
            q > 0,
    ;
    assert(q * 0 == 0);
}

/// Field elements that are different have a difference that does not vanish.
proof fn lemma_different(a: int, b: int)
    requires
        a != b,
        0 <= a < fields::fq_modulus(),
        0 <= b < fields::fq_modulus(),
    ensures
        !vanishes(a - b),
        !vanishes(b - a),
{
    if vanishes(a - b) {
        lemma_equal(a, b);
    }
    if vanishes(b - a) {
        lemma_equal(b, a);
    }
}

/// Small numbers other than zero do not vanish.
proof fn lemma_small(a: int)
    requires
        0 < a < 0x1_0000_0000,
    ensures
        !vanishes(a),
{
    reveal(vanishes);
    fields::lemma_fq_modulus();
    lemma_small_mod(a as nat, fields::fq_modulus() as nat);
}

/// The operations of the base field up to what vanishes.
proof fn lemma_operations(a: int, b: int)
    ensures
        vanishes(fields::qadd(a, b) - (a + b)),
        vanishes(fields::qsub(a, b) - (a - b)),
        vanishes(fields::qmul(a, b) - a * b),
        vanishes(fields::qneg(a) + a),
{
    reveal(vanishes);
    fields::lemma_fq_modulus();
    let q = fields::fq_modulus();
    lemma_small_mod(0, q as nat);
    lemma_residue(a + b);
    lemma_residue(a - b);
    lemma_residue(a * b);
    lemma_residue(-a);
    assert(fields::qneg(a) - (-a) == fields::qneg(a) + a);
}

proof fn lemma_residue(e: int)
    ensures
        vanishes(e % fields::fq_modulus() - e),
{
    reveal(vanishes);
    fields::lemma_fq_modulus();
    let q = fields::fq_modulus();
    modular::lemma_mod_idem(e, q);
    modular::lemma_sub_cong(e % q, e, e, e, q);
    lemma_small_mod(0, q as nat);
}

/// The quotient times the divisor is the dividend.
proof fn lemma_quotient(a: int, b: int)
    requires
        0 < b < fields::fq_modulus(),
    ensures
        vanishes(fields::qmul(a, fields::qinv(b)) * b - a),
{
    g1::lemma_quotient(a, b);
    reveal(vanishes);
    fields::lemma_fq_modulus();
    let q = fields::fq_modulus();
    let l = fields::qmul(a, fields::qinv(b)) * b;
    modular::lemma_sub_cong(l, a, a, a, q);
    lemma_small_mod(0, q as nat);
}

// ---------------------------------------------------------------------------
// Lines
// ---------------------------------------------------------------------------

/// Coordinates.
struct Xy {
    x: int,
    y: int,
}

/// Zero where a point lies on the curve.
spec fn curve(a: Xy) -> int {
    a.y * a.y - a.x * a.x * a.x - 3
}

/// Zero where a point lies on the line `Y = l X + n`.
spec fn line(l: int, n: int, a: Xy) -> int {
    a.y - l * a.x - n
}

/// Zero where a line meets the curve above both abscissas, twice where they are
/// equal.
spec fn both(l: int, n: int, x1: int, x2: int) -> int {
    x1 * x1 + x1 * x2 + x2 * x2 - l * l * (x1 + x2) - 2 * (l * n)
}

/// The line meets the curve in three points.
spec fn meets(l: int, n: int, a: Xy, b: Xy, c: Xy) -> bool {
    &&& vanishes(curve(a))
    &&& vanishes(curve(b))
    &&& vanishes(curve(c))
    &&& vanishes(line(l, n, a))
    &&& vanishes(line(l, n, b))
    &&& vanishes(line(l, n, c))
    &&& vanishes(a.x + b.x + c.x - l * l)
    &&& vanishes(both(l, n, a.x, b.x))
}

/// The cubic that the line cuts out of the curve.
spec fn cubic(l: int, n: int, x: int) -> int {
    x * x * x + 3 - (l * x + n) * (l * x + n)
}

proof fn lemma_cubic(l: int, n: int, a: Xy)
    requires
        vanishes(line(l, n, a)),
    ensures
        vanishes(curve(a)) <==> vanishes(cubic(l, n, a.x)),
{
    let (x, y) = (a.x, a.y);
    let h = line(l, n, a);
    let c = cubic(l, n, x);
    let k = curve(a);
    assert(c == (-1) * k + (y + l * x + n) * h) by (nonlinear_arith)
        requires
            c == x * x * x + 3 - (l * x + n) * (l * x + n),
            k == y * y - x * x * x - 3,
            h == y - l * x - n,
    ;
    if vanishes(k) {
        lemma_comb(-1, k, y + l * x + n, h);
    }
    if vanishes(c) {
        lemma_comb(-1, c, y + l * x + n, h);
        assert(k == (-1) * c + (y + l * x + n) * h);
    }
}

/// The difference of two values of the cubic.
proof fn lemma_cubic_difference(l: int, n: int, x1: int, x2: int)
    ensures
        cubic(l, n, x1) - cubic(l, n, x2) == (x1 - x2) * both(l, n, x1, x2),
{
    let a = x1 * x1 * x1 - x2 * x2 * x2;
    let b = (l * x1 + n) * (l * x1 + n) - (l * x2 + n) * (l * x2 + n);
    assert(a == (x1 - x2) * (x1 * x1 + x1 * x2 + x2 * x2)) by (nonlinear_arith)
        requires
            a == x1 * x1 * x1 - x2 * x2 * x2,
    ;
    let (p, r) = (l * x1 + n, l * x2 + n);
    assert(p * p - r * r == (p - r) * (p + r)) by (nonlinear_arith);
    assert(p - r == l * (x1 - x2)) by (nonlinear_arith)
        requires
            p == l * x1 + n,
            r == l * x2 + n,
    ;
    assert(l * (p + r) == l * l * (x1 + x2) + 2 * (l * n)) by (nonlinear_arith)
        requires
            p == l * x1 + n,
            r == l * x2 + n,
    ;
    assert((l * (x1 - x2)) * (p + r) == (x1 - x2) * (l * (p + r))) by (nonlinear_arith);
    assert(b == (x1 - x2) * (l * l * (x1 + x2) + 2 * (l * n)));
    let s = x1 * x1 + x1 * x2 + x2 * x2;
    let t = l * l * (x1 + x2) + 2 * (l * n);
    assert((x1 - x2) * s - (x1 - x2) * t == (x1 - x2) * (s - t)) by (nonlinear_arith);
}

/// Two abscissas below a third one.
proof fn lemma_both_difference(l: int, n: int, x1: int, x2: int, x3: int)
    ensures
        both(l, n, x1, x2) - both(l, n, x1, x3) == (x2 - x3) * (x1 + x2 + x3 - l * l),
{
    let m = l * l;
    assert(x1 * x1 + x1 * x2 + x2 * x2 - m * (x1 + x2) - (x1 * x1 + x1 * x3 + x3 * x3 - m * (x1
        + x3)) == (x2 - x3) * (x1 + x2 + x3 - m)) by (nonlinear_arith);
}

/// The order of the three points does not matter.
proof fn lemma_meets_order(l: int, n: int, a: Xy, b: Xy, c: Xy)
    requires
        meets(l, n, a, b, c),
    ensures
        meets(l, n, b, a, c),
        meets(l, n, a, c, b),
        meets(l, n, c, b, a),
        meets(l, n, b, c, a),
        meets(l, n, c, a, b),
{
    lemma_swap(l, n, a, b, c);
    lemma_last(l, n, a, b, c);
    lemma_last(l, n, b, a, c);
    lemma_swap(l, n, b, c, a);
    lemma_swap(l, n, a, c, b);
}

proof fn lemma_swap(l: int, n: int, a: Xy, b: Xy, c: Xy)
    requires
        meets(l, n, a, b, c),
    ensures
        meets(l, n, b, a, c),
{
    assert(both(l, n, a.x, b.x) == both(l, n, b.x, a.x)) by {
        assert(a.x * b.x == b.x * a.x) by (nonlinear_arith);
    }
}

proof fn lemma_last(l: int, n: int, a: Xy, b: Xy, c: Xy)
    requires
        meets(l, n, a, b, c),
    ensures
        meets(l, n, a, c, b),
{
    lemma_both_difference(l, n, a.x, b.x, c.x);
    let s = a.x + b.x + c.x - l * l;
    lemma_comb(1, both(l, n, a.x, b.x), -(b.x - c.x), s);
    assert(both(l, n, a.x, c.x) == 1 * both(l, n, a.x, b.x) + (-(b.x - c.x)) * s)
        by (nonlinear_arith)
        requires
            both(l, n, a.x, b.x) - both(l, n, a.x, c.x) == (b.x - c.x) * s,
    ;
    assert(a.x + c.x + b.x - l * l == s);
}

/// The coordinates of a point.
spec fn xy(a: Point) -> Xy {
    match a {
        Point::At { x, y } => Xy { x, y },
        Point::Infinity => Xy { x: 0, y: 0 },
    }
}

/// An affine point of the curve.
spec fn proper(a: Point) -> bool {
    a is At && g1::in_range(a) && g1::on_curve(a)
}

/// A point lies on the curve where the equation holds.
proof fn lemma_on_curve(a: Point)
    requires
        a is At,
        g1::in_range(a),
    ensures
        g1::on_curve(a) <==> vanishes(curve(xy(a))),
{
    let Xy { x, y } = xy(a);
    let l = fields::qmul(y, y);
    let x2 = fields::qmul(x, x);
    let x3 = fields::qmul(x2, x);
    let r = fields::qadd(x3, 3);
    lemma_operations(y, y);
    lemma_operations(x, x);
    lemma_operations(x2, x);
    lemma_operations(x3, 3);
    fields::lemma_qrange(y, y, 0);
    fields::lemma_qrange(x3, 3, 0);
    let (h1, h2, h3, h4) = (l - y * y, x2 - x * x, x3 - x2 * x, r - (x3 + 3));
    assert((x2 - x * x) * x == x2 * x - x * x * x) by (nonlinear_arith);
    assert(l - r == curve(xy(a)) + h1 - x * h2 - h3 - h4) by (nonlinear_arith)
        requires
            curve(xy(a)) == y * y - x * x * x - 3,
            h1 == l - y * y,
            h2 == x2 - x * x,
            h3 == x3 - x2 * x,
            h4 == r - (x3 + 3),
            (x2 - x * x) * x == x2 * x - x * x * x,
    ;
    lemma_comb4(1, h1, -x, h2, -1, h3, -1, h4);
    let d = 1 * h1 + (-x) * h2 + (-1) * h3 + (-1) * h4;
    assert((-x) * h2 == -(x * h2)) by (nonlinear_arith);
    if vanishes(curve(xy(a))) {
        lemma_comb(1, curve(xy(a)), 1, d);
        lemma_equal(l, r);
    }
    if l == r {
        lemma_vanishes_zero();
        lemma_comb(1, 0, 1, d);
        assert(curve(xy(a)) == 0 - d);
    }
}

/// The line through two points of the curve, or the tangent, and its third point.
proof fn lemma_line(a: Point, b: Point) -> (r: (int, int))
    requires
        proper(a),
        proper(b),
        b != g1::point_neg(a),
    ensures
        proper(g1::point_add(a, b)),
        proper(g1::point_neg(g1::point_add(a, b))),
        meets(r.0, r.1, xy(a), xy(b), xy(g1::point_neg(g1::point_add(a, b)))),
{
    let Xy { x: x1, y: y1 } = xy(a);
    let Xy { x: x2, y: y2 } = xy(b);
    lemma_on_curve(a);
    lemma_on_curve(b);
    let l = if x1 != x2 {
        g1::chord_slope(x1, y1, x2, y2)
    } else {
        g1::tangent_slope(x1, y1)
    };
    let n = y1 - l * x1;
    assert(line(l, n, xy(a)) == 0);
    lemma_vanishes_zero();
    lemma_cubic(l, n, xy(a));
    if x1 != x2 {
        lemma_chord(xy(a), xy(b));
        lemma_cubic(l, n, xy(b));
        lemma_cubic_difference(l, n, x1, x2);
        lemma_comb(1, cubic(l, n, x1), -1, cubic(l, n, x2));
        lemma_different(x1, x2);
        lemma_cancel(x1 - x2, both(l, n, x1, x2));
    } else {
        lemma_same_abscissa(a, b);
        lemma_tangent(xy(a));
        assert(line(l, n, xy(b)) == 0);
    }
    assert(g1::point_add(a, b) == g1::third_point(l, x1, y1, x2));
    lemma_third(l, n, xy(a), xy(b));
    (l, n)
}

/// The slope of the chord.
proof fn lemma_chord(a: Xy, b: Xy)
    requires
        0 <= a.x < fields::fq_modulus(),
        0 <= b.x < fields::fq_modulus(),
        a.x != b.x,
    ensures
        ({
            let l = g1::chord_slope(a.x, a.y, b.x, b.y);
            vanishes(line(l, a.y - l * a.x, b))
        }),
{
    let l = g1::chord_slope(a.x, a.y, b.x, b.y);
    let d = fields::qsub(b.x, a.x);
    let e = fields::qsub(b.y, a.y);
    lemma_operations(b.x, a.x);
    lemma_operations(b.y, a.y);
    fields::lemma_qrange(b.x, a.x, 0);
    lemma_different(b.x, a.x);
    let (h1, h2) = (d - (b.x - a.x), e - (b.y - a.y));
    if d == 0 {
        lemma_vanishes_zero();
        lemma_comb(1, 0, -1, h1);
        assert(0 - h1 == b.x - a.x);
    }
    lemma_quotient(e, d);
    let h3 = l * d - e;
    let h = line(l, a.y - l * a.x, b);
    assert(h == (-1) * h3 + l * h1 + (-1) * h2 + 0 * h2) by (nonlinear_arith)
        requires
            h == b.y - l * b.x - (a.y - l * a.x),
            h1 == d - (b.x - a.x),
            h2 == e - (b.y - a.y),
            h3 == l * d - e,
    ;
    lemma_comb4(-1, h3, l, h1, -1, h2, 0, h2);
}

/// Two points above one abscissa are equal or opposite.
proof fn lemma_same_abscissa(a: Point, b: Point)
    requires
        proper(a),
        proper(b),
        xy(a).x == xy(b).x,
    ensures
        b == a || b == g1::point_neg(a),
        b != g1::point_neg(a) ==> xy(a).y != 0,
{
    lemma_on_curve(a);
    lemma_on_curve(b);
    let Xy { x, y: y1 } = xy(a);
    let y2 = xy(b).y;
    lemma_comb(1, curve(xy(b)), -1, curve(xy(a)));
    assert((y2 - y1) * (y2 + y1) == 1 * curve(xy(b)) + (-1) * curve(xy(a)))
        by (nonlinear_arith)
        requires
            curve(xy(a)) == y1 * y1 - x * x * x - 3,
            curve(xy(b)) == y2 * y2 - x * x * x - 3,
    ;
    lemma_operations(y1, y1);
    fields::lemma_qrange(y1, y1, 0);
    if !vanishes(y2 - y1) {
        lemma_cancel(y2 - y1, y2 + y1);
        lemma_comb(1, y2 + y1, -1, fields::qneg(y1) + y1);
        assert(1 * (y2 + y1) + (-1) * (fields::qneg(y1) + y1) == y2 - fields::qneg(y1));
        lemma_equal(y2, fields::qneg(y1));
    } else {
        lemma_equal(y2, y1);
        if y1 == 0 {
            lemma_equal(fields::qneg(y1), 0);
        }
    }
}

/// The slope of the tangent.
proof fn lemma_tangent(a: Xy)
    requires
        0 < a.y < fields::fq_modulus(),
    ensures
        ({
            let l = g1::tangent_slope(a.x, a.y);
            vanishes(both(l, a.y - l * a.x, a.x, a.x))
        }),
{
    let (x, y) = (a.x, a.y);
    let l = g1::tangent_slope(x, y);
    let x2 = fields::qmul(x, x);
    let e = fields::qmul(3, x2);
    let d = fields::qmul(2, y);
    lemma_operations(x, x);
    lemma_operations(3, x2);
    lemma_operations(2, y);
    fields::lemma_qrange(2, y, 0);
    let (h1, h2, h3) = (x2 - x * x, e - 3 * x2, d - 2 * y);
    if d == 0 {
        lemma_vanishes_zero();
        lemma_comb(1, 0, -1, h3);
        assert(0 - h3 == 2 * y);
        lemma_small(2);
        lemma_cancel(2, y);
        lemma_different(y, 0);
    }
    lemma_quotient(e, d);
    let h4 = l * d - e;
    let n = y - l * x;
    let k = both(l, n, x, x);
    assert(l * n == l * y - l * (l * x)) by (nonlinear_arith)
        requires
            n == y - l * x,
    ;
    assert(l * l * (x + x) == 2 * (l * (l * x))) by (nonlinear_arith);
    assert(k == 3 * (x * x) - 2 * (l * y));
    assert(k == (-3) * h1 + (-1) * h2 + l * h3 + (-1) * h4) by (nonlinear_arith)
        requires
            k == 3 * (x * x) - 2 * (l * y),
            h1 == x2 - x * x,
            h2 == e - 3 * x2,
            h3 == d - 2 * y,
            h4 == l * d - e,
    ;
    lemma_comb4(-3, h1, -1, h2, l, h3, -1, h4);
}

/// The third point of a line that meets the curve above two abscissas.
proof fn lemma_third(l: int, n: int, a: Xy, b: Xy)
    requires
        vanishes(curve(a)),
        vanishes(curve(b)),
        vanishes(line(l, n, b)),
        vanishes(both(l, n, a.x, b.x)),
        n == a.y - l * a.x,
    ensures
        proper(g1::third_point(l, a.x, a.y, b.x)),
        proper(g1::point_neg(g1::third_point(l, a.x, a.y, b.x))),
        meets(l, n, a, b, xy(g1::point_neg(g1::third_point(l, a.x, a.y, b.x)))),
{
    let s = g1::third_point(l, a.x, a.y, b.x);
    let c = xy(g1::point_neg(s));
    let m = fields::qmul(l, l);
    let d = fields::qsub(m, a.x);
    let x3 = fields::qsub(d, b.x);
    let t = fields::qsub(a.x, x3);
    let u = fields::qmul(l, t);
    let y3 = fields::qsub(u, a.y);
    lemma_operations(l, l);
    lemma_operations(m, a.x);
    lemma_operations(d, b.x);
    lemma_operations(a.x, x3);
    lemma_operations(l, t);
    lemma_operations(u, a.y);
    lemma_operations(y3, y3);
    fields::lemma_qrange(d, b.x, 0);
    fields::lemma_qrange(u, a.y, 0);
    fields::lemma_qrange(y3, y3, 0);
    lemma_vanishes_zero();
    assert(c == (Xy { x: x3, y: fields::qneg(y3) }));
    assert(s == (Point::At { x: x3, y: y3 }));
    // The abscissas add up.
    let (h1, h2, h3) = (m - l * l, d - (m - a.x), x3 - (d - b.x));
    lemma_comb4(1, h1, 1, h2, 1, h3, 0, 0);
    assert(a.x + b.x + c.x - l * l == 1 * h1 + 1 * h2 + 1 * h3 + 0 * 0);
    // The third point lies on the line.
    let (v1, v2, v3, v4) = (
        t - (a.x - x3),
        u - l * t,
        y3 - (u - a.y),
        fields::qneg(y3) + y3,
    );
    let h = line(l, n, c);
    assert(h == (-l) * v1 + (-1) * v2 + (-1) * v3 + 1 * v4) by (nonlinear_arith)
        requires
            h == fields::qneg(y3) - l * x3 - n,
            n == a.y - l * a.x,
            v1 == t - (a.x - x3),
            v2 == u - l * t,
            v3 == y3 - (u - a.y),
            v4 == fields::qneg(y3) + y3,
    ;
    lemma_comb4(-l, v1, -1, v2, -1, v3, 1, v4);
    // And on the curve.
    assert(line(l, n, a) == 0);
    lemma_cubic(l, n, a);
    lemma_both_difference(l, n, a.x, b.x, x3);
    let w = a.x + b.x + x3 - l * l;
    lemma_comb(1, both(l, n, a.x, b.x), -(b.x - x3), w);
    assert(both(l, n, a.x, x3) == 1 * both(l, n, a.x, b.x) + (-(b.x - x3)) * w)
        by (nonlinear_arith)
        requires
            both(l, n, a.x, b.x) - both(l, n, a.x, x3) == (b.x - x3) * w,
    ;
    lemma_cubic_difference(l, n, a.x, x3);
    lemma_comb(1, cubic(l, n, a.x), -(a.x - x3), both(l, n, a.x, x3));
    assert(cubic(l, n, x3) == 1 * cubic(l, n, a.x) + (-(a.x - x3)) * both(l, n, a.x, x3))
        by (nonlinear_arith)
        requires
            cubic(l, n, a.x) - cubic(l, n, x3) == (a.x - x3) * both(l, n, a.x, x3),
    ;
    lemma_cubic(l, n, c);
    lemma_on_curve(g1::point_neg(s));
    lemma_neg_proper(g1::point_neg(s));
    lemma_neg_twice(s);
}

/// The negative of a point of the curve is one too.
proof fn lemma_neg_proper(a: Point)
    requires
        proper(a),
    ensures
        proper(g1::point_neg(a)),
        vanishes(xy(g1::point_neg(a)).y + xy(a).y),
{
    let Xy { x, y } = xy(a);
    let z = fields::qneg(y);
    lemma_operations(y, y);
    fields::lemma_qrange(y, y, 0);
    lemma_on_curve(a);
    lemma_on_curve(g1::point_neg(a));
    let h = z + y;
    let c = xy(g1::point_neg(a));
    lemma_comb(1, curve(xy(a)), z - y, h);
    assert(curve(c) == 1 * curve(xy(a)) + (z - y) * h) by (nonlinear_arith)
        requires
            curve(xy(a)) == y * y - x * x * x - 3,
            curve(c) == z * z - x * x * x - 3,
            h == z + y,
    ;
}

/// The negative of the negative.
proof fn lemma_neg_twice(a: Point)
    requires
        g1::in_range(a),
    ensures
        g1::point_neg(g1::point_neg(a)) == a,
        g1::in_range(g1::point_neg(a)),
{
    if let Point::At { x, y } = a {
        let z = fields::qneg(y);
        lemma_operations(y, y);
        lemma_operations(z, z);
        fields::lemma_qrange(y, y, 0);
        fields::lemma_qrange(z, z, 0);
        lemma_comb(1, fields::qneg(z) + z, -1, z + y);
        assert(1 * (fields::qneg(z) + z) + (-1) * (z + y) == fields::qneg(z) - y);
        lemma_equal(fields::qneg(z), y);
    }
}

/// Where a line meets the curve twice above one abscissa, it is the tangent.
proof fn lemma_double(l: int, n: int, a: Xy)
    requires
        vanishes(line(l, n, a)),
        vanishes(both(l, n, a.x, a.x)),
    ensures
        vanishes(3 * (a.x * a.x) - 2 * (l * a.y)),
{
    let (x, y) = (a.x, a.y);
    let h = line(l, n, a);
    let k = both(l, n, x, x);
    assert(l * l * (x + x) == 2 * (l * (l * x))) by (nonlinear_arith);
    assert(l * h == l * y - l * (l * x) - l * n) by (nonlinear_arith)
        requires
            h == y - l * x - n,
    ;
    lemma_comb(1, k, -2 * l, h);
    assert((-2 * l) * h == -2 * (l * h)) by (nonlinear_arith);
    assert(3 * (x * x) - 2 * (l * y) == 1 * k + (-2 * l) * h);
}

/// No point of the curve with the ordinate zero has the abscissa zero.
proof fn lemma_smooth(a: Xy)
    requires
        vanishes(curve(a)),
        vanishes(a.y),
    ensures
        !vanishes(3 * (a.x * a.x)),
{
    let (x, y) = (a.x, a.y);
    lemma_small(3);
    if vanishes(3 * (x * x)) {
        lemma_cancel(3, x * x);
        lemma_comb4(y, y, -x, x * x, -1, curve(a), 0, y);
        assert((-x) * (x * x) == -(x * x * x)) by (nonlinear_arith);
        assert(3 == y * y + (-x) * (x * x) + (-1) * curve(a) + 0 * y);
    }
}

/// Two points on a line above one abscissa are equal.
proof fn lemma_on_line_equal(l: int, n: int, a: Xy, b: Xy)
    requires
        vanishes(line(l, n, a)),
        vanishes(line(l, n, b)),
        vanishes(a.x - b.x),
    ensures
        vanishes(a.y - b.y),
{
    lemma_comb4(1, line(l, n, a), -1, line(l, n, b), l, a.x - b.x, 0, a.x - b.x);
    assert(l * (a.x - b.x) == l * a.x - l * b.x) by (nonlinear_arith);
}

/// Points on a line are not opposite.
proof fn lemma_not_opposite(l: int, n: int, a: Point, b: Point, c: Point)
    requires
        proper(a),
        proper(b),
        meets(l, n, xy(a), xy(b), xy(c)),
    ensures
        b != g1::point_neg(a),
{
    if b == g1::point_neg(a) {
        lemma_vanishes_zero();
        lemma_on_line_equal(l, n, xy(a), xy(b));
        lemma_equal(xy(a).y, xy(b).y);
        lemma_double(l, n, xy(a));
        let Xy { x, y } = xy(a);
        lemma_neg_proper(a);
        assert(y + y == 2 * y);
        lemma_small(2);
        lemma_cancel(2, y);
        lemma_comb(1, 3 * (x * x) - 2 * (l * y), 2 * l, y);
        assert((2 * l) * y == 2 * (l * y)) by (nonlinear_arith);
        lemma_smooth(xy(a));
    }
}

/// Two lines through the same two points are the same.
proof fn lemma_same_line(l: int, n: int, k: int, m: int, a: Point, b: Point)
    requires
        proper(a),
        proper(b),
        b != g1::point_neg(a),
        vanishes(line(l, n, xy(a))),
        vanishes(line(l, n, xy(b))),
        vanishes(line(k, m, xy(a))),
        vanishes(line(k, m, xy(b))),
        vanishes(both(l, n, xy(a).x, xy(b).x)),
        vanishes(both(k, m, xy(a).x, xy(b).x)),
    ensures
        vanishes(l - k),
        vanishes(n - m),
{
    let Xy { x: x1, y: y1 } = xy(a);
    let Xy { x: x2, y: y2 } = xy(b);
    let (p1, p2) = (line(l, n, xy(a)), line(l, n, xy(b)));
    let (r1, r2) = (line(k, m, xy(a)), line(k, m, xy(b)));
    if x1 != x2 {
        lemma_different(x1, x2);
        lemma_comb4(-1, p1, 1, p2, 1, r1, -1, r2);
        assert((x1 - x2) * (l - k) == (-1) * p1 + 1 * p2 + 1 * r1 + (-1) * r2)
            by (nonlinear_arith)
            requires
                p1 == y1 - l * x1 - n,
                p2 == y2 - l * x2 - n,
                r1 == y1 - k * x1 - m,
                r2 == y2 - k * x2 - m,
        ;
        lemma_cancel(x1 - x2, l - k);
    } else {
        lemma_same_abscissa(a, b);
        lemma_double(l, n, xy(a));
        lemma_double(k, m, xy(a));
        let (d1, d2) = (3 * (x1 * x1) - 2 * (l * y1), 3 * (x1 * x1) - 2 * (k * y1));
        lemma_comb(-1, d1, 1, d2);
        assert(2 * (y1 * (l - k)) == (-1) * d1 + 1 * d2) by (nonlinear_arith)
            requires
                d1 == 3 * (x1 * x1) - 2 * (l * y1),
                d2 == 3 * (x1 * x1) - 2 * (k * y1),
        ;
        lemma_small(2);
        lemma_cancel(2, y1 * (l - k));
        lemma_different(y1, 0);
        lemma_cancel(y1, l - k);
    }
    lemma_comb4(-1, p1, 1, r1, -x1, l - k, 0, r1);
    assert(n - m == (-1) * p1 + 1 * r1 + (-x1) * (l - k) + 0 * r1) by (nonlinear_arith)
        requires
            p1 == y1 - l * x1 - n,
            r1 == y1 - k * x1 - m,
    ;
}

/// Three points on a line add up to zero.
proof fn lemma_sum_on_line(l: int, n: int, a: Point, b: Point, c: Point)
    requires
        proper(a),
        proper(b),
        proper(c),
        meets(l, n, xy(a), xy(b), xy(c)),
    ensures
        g1::point_add(a, b) == g1::point_neg(c),
{
    lemma_not_opposite(l, n, a, b, c);
    let (k, m) = lemma_line(a, b);
    let s = g1::point_add(a, b);
    let d = g1::point_neg(s);
    lemma_same_line(l, n, k, m, a, b);
    let (u, v) = (
        xy(a).x + xy(b).x + xy(c).x - l * l,
        xy(a).x + xy(b).x + xy(d).x - k * k,
    );
    lemma_comb4(1, u, -1, v, l + k, l - k, 0, u);
    assert((l + k) * (l - k) == l * l - k * k) by (nonlinear_arith);
    assert(xy(c).x - xy(d).x == 1 * u + (-1) * v + (l + k) * (l - k) + 0 * u);
    lemma_equal(xy(c).x, xy(d).x);
    let x = xy(c).x;
    let (p, r) = (line(l, n, xy(c)), line(k, m, xy(d)));
    lemma_comb4(1, p, -1, r, x, l - k, 1, n - m);
    assert(xy(c).y - xy(d).y == 1 * p + (-1) * r + x * (l - k) + 1 * (n - m))
        by (nonlinear_arith)
        requires
            p == xy(c).y - l * x - n,
            r == xy(d).y - k * x - m,
    ;
    lemma_equal(xy(c).y, xy(d).y);
    assert(c == d);
    lemma_neg_twice(s);
}

/// The reflected line.
proof fn lemma_meets_neg(l: int, n: int, a: Point, b: Point, c: Point)
    requires
        proper(a),
        proper(b),
        proper(c),
        meets(l, n, xy(a), xy(b), xy(c)),
    ensures
        meets(
            -l,
            -n,
            xy(g1::point_neg(a)),
            xy(g1::point_neg(b)),
            xy(g1::point_neg(c)),
        ),
{
    lemma_line_neg(l, n, a);
    lemma_line_neg(l, n, b);
    lemma_line_neg(l, n, c);
    assert((-l) * (-l) == l * l) by (nonlinear_arith);
    assert((-l) * (-n) == l * n) by (nonlinear_arith);
}

proof fn lemma_line_neg(l: int, n: int, a: Point)
    requires
        proper(a),
        vanishes(line(l, n, xy(a))),
    ensures
        vanishes(line(-l, -n, xy(g1::point_neg(a)))),
        vanishes(curve(xy(g1::point_neg(a)))),
        xy(g1::point_neg(a)).x == xy(a).x,
{
    lemma_neg_proper(a);
    lemma_on_curve(g1::point_neg(a));
    let b = xy(g1::point_neg(a));
    lemma_comb(1, b.y + xy(a).y, -1, line(l, n, xy(a)));
    assert((-l) * b.x == -(l * b.x)) by (nonlinear_arith);
    assert(line(-l, -n, b) == 1 * (b.y + xy(a).y) + (-1) * line(l, n, xy(a)));
}

// ---------------------------------------------------------------------------
// Laws that need one line
// ---------------------------------------------------------------------------

/// The sum of two points of the curve is a point of the curve.
pub proof fn law_sum_on_curve(a: Point, b: Point)
    requires
        g1::on_curve(a),
        g1::in_range(a),
        g1::on_curve(b),
        g1::in_range(b),
    ensures
        g1::on_curve(g1::point_add(a, b)),
        g1::in_range(g1::point_add(a, b)),
{
    if a is At && b is At {
        if b == g1::point_neg(a) {
            law_inverse(a);
        } else {
            let _ = lemma_line(a, b);
        }
    }
}

/// No point of the curve has two zeros as coordinates, which therefore can stand for
/// the point at infinity.
pub proof fn law_origin_not_on_curve()
    ensures
        !g1::on_curve(Point::At { x: 0, y: 0 }),
{
    let o = Point::At { x: 0, y: 0 };
    fields::lemma_fq_modulus();
    lemma_on_curve(o);
    lemma_small(3);
    if vanishes(curve(xy(o))) {
        lemma_comb(-1, curve(xy(o)), 0, curve(xy(o)));
        assert(curve(xy(o)) == -3);
    }
}

/// A point plus its negative is the point at infinity, and the negative lies on the
/// curve too.
pub proof fn law_inverse(a: Point)
    requires
        g1::on_curve(a),
        g1::in_range(a),
    ensures
        g1::point_add(a, g1::point_neg(a)) is Infinity,
        g1::on_curve(g1::point_neg(a)),
        g1::in_range(g1::point_neg(a)),
        g1::point_neg(g1::point_neg(a)) == a,
{
    lemma_neg_twice(a);
    if let Point::At { x, y } = a {
        lemma_neg_proper(a);
        if y == fields::qneg(y) && y != 0 {
            assert(y + y == 2 * y);
            lemma_small(2);
            lemma_cancel(2, y);
            lemma_different(y, 0);
        }
    }
}

/// The order of two summands does not matter.
pub proof fn law_sum_commutes(a: Point, b: Point)
    requires
        g1::on_curve(a),
        g1::in_range(a),
        g1::on_curve(b),
        g1::in_range(b),
    ensures
        g1::point_add(a, b) == g1::point_add(b, a),
{
    law_inverse(a);
    law_inverse(b);
    if a is At && b is At && b != g1::point_neg(a) {
        let (l, n) = lemma_line(a, b);
        let s = g1::point_add(a, b);
        lemma_meets_order(l, n, xy(a), xy(b), xy(g1::point_neg(s)));
        lemma_sum_on_line(l, n, b, a, g1::point_neg(s));
        lemma_neg_twice(s);
    }
}

/// Adding a point and then its negative changes nothing.
pub proof fn law_sum_cancels(a: Point, b: Point)
    requires
        g1::on_curve(a),
        g1::in_range(a),
        g1::on_curve(b),
        g1::in_range(b),
    ensures
        g1::point_add(g1::point_add(a, b), g1::point_neg(a)) == b,
        g1::point_add(g1::point_neg(a), g1::point_add(a, b)) == b,
{
    law_inverse(a);
    law_inverse(b);
    law_sum_on_curve(a, b);
    let s = g1::point_add(a, b);
    if a is At && b is At && b != g1::point_neg(a) {
        let (l, n) = lemma_line(a, b);
        let c = g1::point_neg(s);
        lemma_meets_neg(l, n, a, b, c);
        lemma_neg_twice(s);
        lemma_neg_twice(b);
        lemma_neg_proper(a);
        lemma_neg_proper(b);
        let (na, nb) = (g1::point_neg(a), g1::point_neg(b));
        lemma_meets_order(-l, -n, xy(na), xy(nb), xy(s));
        lemma_sum_on_line(-l, -n, s, na, nb);
    }
    law_sum_commutes(s, g1::point_neg(a));
    law_sum_commutes(a, g1::point_neg(a));
}

/// The negative of a sum is the sum of the negatives.
pub proof fn law_sum_of_negatives(a: Point, b: Point)
    requires
        g1::on_curve(a),
        g1::in_range(a),
        g1::on_curve(b),
        g1::in_range(b),
    ensures
        g1::point_add(g1::point_neg(a), g1::point_neg(b)) == g1::point_neg(g1::point_add(a, b)),
{
    law_inverse(a);
    law_inverse(b);
    if a is At && b is At {
        if b == g1::point_neg(a) {
            law_sum_commutes(a, b);
        } else {
            let (l, n) = lemma_line(a, b);
            let s = g1::point_add(a, b);
            let c = g1::point_neg(s);
            lemma_neg_proper(a);
            lemma_neg_proper(b);
            lemma_meets_neg(l, n, a, b, c);
            lemma_neg_twice(s);
            lemma_sum_on_line(-l, -n, g1::point_neg(a), g1::point_neg(b), s);
        }
    }
}

// ---------------------------------------------------------------------------
// Conics
// ---------------------------------------------------------------------------

/// The conic `X^2 + a X + b + e Y`.
struct Conic {
    a: int,
    b: int,
    e: int,
}

/// The value of a conic.
spec fn conic_at(c: Conic, z: Xy) -> int {
    z.x * z.x + c.a * z.x + c.b + c.e * z.y
}

/// The conic that is the product of a line through the negative of `s` and a line
/// through `s`, divided by the vertical line between them.
spec fn conic_of(l1: int, l2: int, s: Xy) -> Conic {
    Conic {
        a: s.x + l1 * l2,
        b: s.x * s.x + (l1 - l2) * s.y - l1 * l2 * s.x,
        e: -(l1 + l2),
    }
}

/// The first line, of slope `l1` through the negative of `s`.
spec fn line_below(l1: int, s: Xy, z: Xy) -> int {
    z.y + s.y - l1 * (z.x - s.x)
}

/// The second line, of slope `l2` through `s`.
spec fn line_above(l2: int, s: Xy, z: Xy) -> int {
    z.y - s.y - l2 * (z.x - s.x)
}

/// The value of a conic of two lines.
proof fn lemma_conic_of(l1: int, l2: int, s: Xy, z: Xy)
    ensures
        conic_at(conic_of(l1, l2, s), z) == (z.x * z.x + s.x * z.x + s.x * s.x) + l1 * l2 * (z.x
            - s.x) - (l1 * (z.y - s.y) + l2 * (z.y + s.y)),
{
    let m = l1 * l2;
    assert((s.x + m) * z.x == s.x * z.x + m * z.x) by (nonlinear_arith);
    assert(m * (z.x - s.x) == m * z.x - m * s.x) by (nonlinear_arith);
    assert((l1 - l2) * s.y == l1 * s.y - l2 * s.y) by (nonlinear_arith);
    assert((-(l1 + l2)) * z.y == -(l1 * z.y) - l2 * z.y) by (nonlinear_arith);
    assert(l1 * (z.y - s.y) == l1 * z.y - l1 * s.y) by (nonlinear_arith);
    assert(l2 * (z.y + s.y) == l2 * z.y + l2 * s.y) by (nonlinear_arith);
}

/// The conic times the vertical line is the product of the lines, on the curve.
proof fn lemma_conic_product(l1: int, l2: int, s: Xy, z: Xy)
    ensures
        (z.x - s.x) * conic_at(conic_of(l1, l2, s), z) == line_below(l1, s, z) * line_above(
            l2,
            s,
            z,
        ) - curve(z) + curve(s),
{
    lemma_conic_of(l1, l2, s, z);
    let t = z.x - s.x;
    let (p, r) = (z.y + s.y, z.y - s.y);
    let w = z.x * z.x + s.x * z.x + s.x * s.x;
    let g = l1 * r + l2 * p;
    let m = l1 * l2;
    let (f1, f2) = (l1 * t, l2 * t);
    assert((p - f1) * (r - f2) == p * r - p * f2 - f1 * r + f1 * f2) by (nonlinear_arith);
    assert(p * (l2 * t) == t * (l2 * p)) by (nonlinear_arith);
    assert((l1 * t) * r == t * (l1 * r)) by (nonlinear_arith);
    assert((l1 * t) * (l2 * t) == l1 * l2 * t * t) by (nonlinear_arith);
    assert(t * (l1 * r + l2 * p) == t * (l1 * r) + t * (l2 * p)) by (nonlinear_arith);
    assert(t * (w + m * t - g) == t * w + m * t * t - t * g) by (nonlinear_arith);
    assert(t * w == z.x * z.x * z.x - s.x * s.x * s.x) by (nonlinear_arith)
        requires
            t == z.x - s.x,
            w == z.x * z.x + s.x * z.x + s.x * s.x,
    ;
    assert(p * r == z.y * z.y - s.y * s.y) by (nonlinear_arith)
        requires
            p == z.y + s.y,
            r == z.y - s.y,
    ;
}

/// A conic passes through a point of its first line.
proof fn lemma_conic_below(l1: int, n1: int, l2: int, s: Xy, z: Xy)
    requires
        vanishes(curve(s)),
        vanishes(curve(z)),
        vanishes(line(l1, n1, z)),
        vanishes(line_below(l1, s, z)),
        vanishes(both(l1, n1, z.x, s.x)),
        0 <= z.x < fields::fq_modulus(),
        0 <= s.x < fields::fq_modulus(),
    ensures
        vanishes(conic_at(conic_of(l1, l2, s), z)),
{
    let c = conic_at(conic_of(l1, l2, s), z);
    let (u, v) = (line_below(l1, s, z), line_above(l2, s, z));
    if z.x != s.x {
        lemma_conic_product(l1, l2, s, z);
        lemma_comb4(v, u, -1, curve(z), 1, curve(s), 0, u);
        assert(u * v == v * u) by (nonlinear_arith);
        lemma_different(z.x, s.x);
        lemma_cancel(z.x - s.x, c);
    } else {
        lemma_conic_of(l1, l2, s, z);
        lemma_double(l1, n1, z);
        let d = 3 * (z.x * z.x) - 2 * (l1 * z.y);
        let g = z.y + s.y;
        assert(l1 * (z.x - s.x) == 0) by (nonlinear_arith)
            requires
                z.x == s.x,
        ;
        assert(g == u);
        lemma_comb(1, d, l1 - l2, g);
        assert(l1 * l2 * (z.x - s.x) == 0) by (nonlinear_arith)
            requires
                z.x == s.x,
        ;
        assert((l1 - l2) * g == l1 * g - l2 * g) by (nonlinear_arith);
        assert(l1 * (z.y - s.y) == 2 * (l1 * z.y) - l1 * g) by (nonlinear_arith)
            requires
                g == z.y + s.y,
        ;
        assert(c == 1 * d + (l1 - l2) * g);
    }
}

/// A conic passes through a point of its second line.
proof fn lemma_conic_above(l1: int, l2: int, n2: int, s: Xy, z: Xy)
    requires
        vanishes(curve(s)),
        vanishes(curve(z)),
        vanishes(line(l2, n2, z)),
        vanishes(line_above(l2, s, z)),
        vanishes(both(l2, n2, z.x, s.x)),
        0 <= z.x < fields::fq_modulus(),
        0 <= s.x < fields::fq_modulus(),
    ensures
        vanishes(conic_at(conic_of(l1, l2, s), z)),
{
    let c = conic_at(conic_of(l1, l2, s), z);
    let (u, v) = (line_below(l1, s, z), line_above(l2, s, z));
    if z.x != s.x {
        lemma_conic_product(l1, l2, s, z);
        lemma_comb4(u, v, -1, curve(z), 1, curve(s), 0, v);
        lemma_different(z.x, s.x);
        lemma_cancel(z.x - s.x, c);
    } else {
        lemma_conic_of(l1, l2, s, z);
        lemma_double(l2, n2, z);
        let d = 3 * (z.x * z.x) - 2 * (l2 * z.y);
        let g = z.y - s.y;
        assert(l2 * (z.x - s.x) == 0) by (nonlinear_arith)
            requires
                z.x == s.x,
        ;
        assert(g == v);
        lemma_comb(1, d, l2 - l1, g);
        assert(l1 * l2 * (z.x - s.x) == 0) by (nonlinear_arith)
            requires
                z.x == s.x,
        ;
        assert((l2 - l1) * g == l2 * g - l1 * g) by (nonlinear_arith);
        assert(l2 * (z.y + s.y) == 2 * (l2 * z.y) - l2 * g) by (nonlinear_arith)
            requires
                g == z.y - s.y,
        ;
        assert(c == 1 * d + (l2 - l1) * g);
    }
}

/// Zero where a conic that passes through a point touches the curve there.
spec fn touches(c: Conic, z: Xy) -> int {
    2 * (z.y * (2 * z.x + c.a)) + 3 * (z.x * z.x) * c.e
}

/// The derivative of the product of the lines.
proof fn lemma_touches(l1: int, l2: int, s: Xy, z: Xy)
    ensures
        ({
            let c = conic_of(l1, l2, s);
            let (u, v) = (line_below(l1, s, z), line_above(l2, s, z));
            let d = 3 * (z.x * z.x);
            (z.x - s.x) * touches(c, z) + 2 * (z.y * conic_at(c, z)) == (d - 2 * (l1 * z.y)) * v
                + (d - 2 * (l2 * z.y)) * u
        }),
{
    let c = conic_of(l1, l2, s);
    lemma_conic_of(l1, l2, s, z);
    let (x, y) = (z.x, z.y);
    let t = x - s.x;
    let (p, r) = (y + s.y, y - s.y);
    let m = l1 * l2;
    let g = l1 * r + l2 * p;
    let (u, v) = (line_below(l1, s, z), line_above(l2, s, z));
    let d = 3 * (x * x);
    let k = conic_at(c, z);
    // What stands behind the ordinate.
    let b = t * (2 * x + c.a) + k;
    assert(t * (2 * x + s.x) + (x * x + s.x * x + s.x * s.x) == d) by (nonlinear_arith)
        requires
            t == x - s.x,
            d == 3 * (x * x),
    ;
    assert(t * (2 * x + (s.x + m)) == t * (2 * x + s.x) + m * t) by (nonlinear_arith);
    assert(b == d + 2 * (m * t) - g);
    // The left side.
    let m2 = 2 * x + c.a;
    let (f3, f4) = (y * m2, d * c.e);
    assert(t * (2 * f3 + f4) == 2 * (t * f3) + t * f4) by (nonlinear_arith);
    assert(t * (y * m2) == y * (t * m2)) by (nonlinear_arith);
    assert(t * (d * c.e) == d * (t * c.e)) by (nonlinear_arith);
    let f5 = t * m2;
    assert(y * (f5 + k) == y * f5 + y * k) by (nonlinear_arith);
    // The right side.
    assert(u == p - l1 * t && v == r - l2 * t);
    let (f1, f2) = (l1 * y, l2 * y);
    assert((d - 2 * f1) * v + (d - 2 * f2) * u == d * (u + v) - 2 * (f1 * v + f2 * u))
        by (nonlinear_arith);
    assert((l1 * y) * v == y * (l1 * v)) by (nonlinear_arith);
    assert((l2 * y) * u == y * (l2 * u)) by (nonlinear_arith);
    assert(y * (l1 * v + l2 * u) == y * (l1 * v) + y * (l2 * u)) by (nonlinear_arith);
    assert(l1 * v + l2 * u == g - 2 * (m * t)) by (nonlinear_arith)
        requires
            u == p - l1 * t,
            v == r - l2 * t,
            g == l1 * r + l2 * p,
            m == l1 * l2,
    ;
    assert(t * c.e == -(l1 * t) - l2 * t) by (nonlinear_arith)
        requires
            c.e == -(l1 + l2),
    ;
    assert(u + v == 2 * y + t * c.e);
    let w = g - 2 * (m * t);
    assert(2 * (y * (d - w)) + d * (t * c.e) == d * (2 * y + t * c.e) - 2 * (y * w))
        by (nonlinear_arith);
}

/// A conic whose first line is the tangent at a point touches the curve there.
proof fn lemma_touches_below(l1: int, n1: int, l2: int, s: Xy, z: Xy)
    requires
        vanishes(line(l1, n1, z)),
        vanishes(line_below(l1, s, z)),
        vanishes(both(l1, n1, z.x, z.x)),
        vanishes(z.x + z.x + s.x - l1 * l1),
        vanishes(conic_at(conic_of(l1, l2, s), z)),
        0 <= z.x < fields::fq_modulus(),
        0 <= s.x < fields::fq_modulus(),
    ensures
        vanishes(touches(conic_of(l1, l2, s), z)),
{
    let c = conic_of(l1, l2, s);
    let (x, y) = (z.x, z.y);
    let (u, v) = (line_below(l1, s, z), line_above(l2, s, z));
    let d = 3 * (x * x);
    lemma_double(l1, n1, z);
    let h = d - 2 * (l1 * y);
    if x != s.x {
        lemma_touches(l1, l2, s, z);
        lemma_comb4(v, h, d - 2 * (l2 * y), u, -2 * y, conic_at(c, z), 0, u);
        assert(h * v == v * h) by (nonlinear_arith);
        assert((-2 * y) * conic_at(c, z) == -(2 * (y * conic_at(c, z)))) by (nonlinear_arith);
        lemma_different(x, s.x);
        lemma_cancel(x - s.x, touches(c, z));
    } else {
        let g = x + x + s.x - l1 * l1;
        lemma_comb(2 * y, g, -(l1 + l2), h);
        assert(touches(c, z) == (2 * y) * g + (-(l1 + l2)) * h) by (nonlinear_arith)
            requires
                touches(c, z) == 2 * (y * (2 * x + (x + l1 * l2))) + d * (-(l1 + l2)),
                g == x + x + x - l1 * l1,
                h == d - 2 * (l1 * y),
        ;
    }
}

/// A conic both of whose lines pass through a point touches the curve there.
proof fn lemma_touches_both(l1: int, l2: int, s: Xy, z: Xy)
    requires
        vanishes(line_below(l1, s, z)),
        vanishes(line_above(l2, s, z)),
        vanishes(conic_at(conic_of(l1, l2, s), z)),
        !vanishes(z.x - s.x),
    ensures
        vanishes(touches(conic_of(l1, l2, s), z)),
{
    let c = conic_of(l1, l2, s);
    let (x, y) = (z.x, z.y);
    let (u, v) = (line_below(l1, s, z), line_above(l2, s, z));
    let d = 3 * (x * x);
    lemma_touches(l1, l2, s, z);
    lemma_comb4(
        d - 2 * (l1 * y),
        v,
        d - 2 * (l2 * y),
        u,
        -2 * y,
        conic_at(c, z),
        0,
        u,
    );
    assert((-2 * y) * conic_at(c, z) == -(2 * (y * conic_at(c, z)))) by (nonlinear_arith);
    lemma_cancel(x - s.x, touches(c, z));
}

/// The lines of two steps of a sum: the first through `p`, `q` and the negative of
/// their sum `s`, the second through `s`, `r` and the negative of `u`.
spec fn two_steps(
    l1: int,
    n1: int,
    l2: int,
    n2: int,
    p: Point,
    q: Point,
    s: Point,
    r: Point,
    u: Point,
) -> bool {
    &&& proper(p)
    &&& proper(q)
    &&& proper(s)
    &&& proper(r)
    &&& proper(u)
    &&& proper(g1::point_neg(s))
    &&& proper(g1::point_neg(u))
    &&& meets(l1, n1, xy(p), xy(q), xy(g1::point_neg(s)))
    &&& meets(l2, n2, xy(s), xy(r), xy(g1::point_neg(u)))
}

/// A point on the first line.
proof fn lemma_below(l1: int, n1: int, s: Point, z: Xy)
    requires
        proper(s),
        vanishes(line(l1, n1, xy(g1::point_neg(s)))),
        vanishes(line(l1, n1, z)),
    ensures
        vanishes(line_below(l1, xy(s), z)),
{
    let c = xy(g1::point_neg(s));
    let x = xy(s).x;
    lemma_neg_proper(s);
    lemma_comb4(1, line(l1, n1, z), -1, line(l1, n1, c), 1, c.y + xy(s).y, 0, c.y + xy(s).y);
    assert(l1 * (z.x - x) == l1 * z.x - l1 * x) by (nonlinear_arith);
}

/// A point on the second line.
proof fn lemma_above(l2: int, n2: int, s: Xy, z: Xy)
    requires
        vanishes(line(l2, n2, s)),
        vanishes(line(l2, n2, z)),
    ensures
        vanishes(line_above(l2, s, z)),
{
    lemma_comb(1, line(l2, n2, z), -1, line(l2, n2, s));
    assert(l2 * (z.x - s.x) == l2 * z.x - l2 * s.x) by (nonlinear_arith);
}

/// The conic of two steps passes through the summands and the negative of the sum.
proof fn lemma_conic_passes(
    l1: int,
    n1: int,
    l2: int,
    n2: int,
    p: Point,
    q: Point,
    s: Point,
    r: Point,
    u: Point,
)
    requires
        two_steps(l1, n1, l2, n2, p, q, s, r, u),
    ensures
        ({
            let c = conic_of(l1, l2, xy(s));
            &&& vanishes(conic_at(c, xy(p)))
            &&& vanishes(conic_at(c, xy(q)))
            &&& vanishes(conic_at(c, xy(r)))
            &&& vanishes(conic_at(c, xy(g1::point_neg(u))))
        }),
{
    let (ns, nu) = (g1::point_neg(s), g1::point_neg(u));
    lemma_on_curve(s);
    lemma_meets_order(l1, n1, xy(p), xy(q), xy(ns));
    lemma_meets_order(l2, n2, xy(s), xy(r), xy(nu));
    assert(xy(ns).x == xy(s).x);
    lemma_below(l1, n1, s, xy(p));
    lemma_below(l1, n1, s, xy(q));
    lemma_above(l2, n2, xy(s), xy(r));
    lemma_above(l2, n2, xy(s), xy(nu));
    lemma_conic_below(l1, n1, l2, xy(s), xy(p));
    lemma_conic_below(l1, n1, l2, xy(s), xy(q));
    lemma_conic_above(l1, l2, n2, xy(s), xy(r));
    lemma_conic_above(l1, l2, n2, xy(s), xy(nu));
}

/// The abscissas of the summands and of the sum add up to what the conic says.
proof fn lemma_conic_sum(
    l1: int,
    n1: int,
    l2: int,
    n2: int,
    p: Point,
    q: Point,
    s: Point,
    r: Point,
    u: Point,
)
    requires
        two_steps(l1, n1, l2, n2, p, q, s, r, u),
    ensures
        ({
            let c = conic_of(l1, l2, xy(s));
            vanishes(xy(p).x + xy(q).x + xy(r).x + xy(u).x - (c.e * c.e - 2 * c.a))
        }),
{
    let c = conic_of(l1, l2, xy(s));
    let (ns, nu) = (g1::point_neg(s), g1::point_neg(u));
    let g = xy(p).x + xy(q).x + xy(ns).x - l1 * l1;
    let h = xy(s).x + xy(r).x + xy(nu).x - l2 * l2;
    lemma_comb(1, g, 1, h);
    assert((-(l1 + l2)) * (-(l1 + l2)) == l1 * l1 + 2 * (l1 * l2) + l2 * l2) by (nonlinear_arith);
    assert(c.e * c.e - 2 * c.a == l1 * l1 + l2 * l2 - 2 * xy(s).x);
}

/// A point on the line of two others is the third one.
proof fn lemma_third_on_line(l: int, n: int, p: Point, q: Point, c: Point, r: Point)
    requires
        proper(p),
        proper(q),
        proper(c),
        proper(r),
        meets(l, n, xy(p), xy(q), xy(c)),
        vanishes(line(l, n, xy(r))),
        r != p,
        r != q,
    ensures
        r == c,
{
    let (x1, x2, x3) = (xy(p).x, xy(q).x, xy(r).x);
    lemma_vanishes_zero();
    lemma_on_curve(r);
    if x3 == x1 {
        lemma_on_line_equal(l, n, xy(r), xy(p));
        lemma_equal(xy(r).y, xy(p).y);
    }
    if x3 == x2 {
        lemma_on_line_equal(l, n, xy(r), xy(q));
        lemma_equal(xy(r).y, xy(q).y);
    }
    lemma_cubic(l, n, xy(p));
    lemma_cubic(l, n, xy(r));
    lemma_cubic_difference(l, n, x1, x3);
    lemma_comb(1, cubic(l, n, x1), -1, cubic(l, n, x3));
    lemma_different(x1, x3);
    lemma_cancel(x1 - x3, both(l, n, x1, x3));
    lemma_both_difference(l, n, x1, x2, x3);
    lemma_comb(1, both(l, n, x1, x2), -1, both(l, n, x1, x3));
    lemma_different(x2, x3);
    lemma_cancel(x2 - x3, x1 + x2 + x3 - l * l);
    let g = x1 + x2 + xy(c).x - l * l;
    lemma_comb(1, x1 + x2 + x3 - l * l, -1, g);
    lemma_equal(x3, xy(c).x);
    lemma_on_line_equal(l, n, xy(r), xy(c));
    lemma_equal(xy(r).y, xy(c).y);
}

/// The difference of two conics through the same two points of a line is a multiple
/// of the line.
proof fn lemma_conic_difference(l: int, n: int, c: Conic, d: Conic, p: Point, q: Point)
    requires
        proper(p),
        proper(q),
        q != g1::point_neg(p),
        vanishes(line(l, n, xy(p))),
        vanishes(line(l, n, xy(q))),
        vanishes(both(l, n, xy(p).x, xy(q).x)),
        vanishes(conic_at(c, xy(p))),
        vanishes(conic_at(c, xy(q))),
        vanishes(conic_at(d, xy(p))),
        vanishes(conic_at(d, xy(q))),
        p == q ==> vanishes(touches(c, xy(p))) && vanishes(touches(d, xy(p))),
    ensures
        vanishes((c.a - d.a) + l * (c.e - d.e)),
        vanishes((c.b - d.b) + n * (c.e - d.e)),
{
    let Xy { x: x1, y: y1 } = xy(p);
    let Xy { x: x2, y: y2 } = xy(q);
    let (a, b, e) = (c.a - d.a, c.b - d.b, c.e - d.e);
    let k = a + l * e;
    let (f1, f2) = (
        conic_at(c, xy(p)) - conic_at(d, xy(p)),
        conic_at(c, xy(q)) - conic_at(d, xy(q)),
    );
    let (v1, v2) = (line(l, n, xy(p)), line(l, n, xy(q)));
    lemma_comb(1, conic_at(c, xy(p)), -1, conic_at(d, xy(p)));
    lemma_comb(1, conic_at(c, xy(q)), -1, conic_at(d, xy(q)));
    lemma_difference_at(c, d, xy(p));
    lemma_difference_at(c, d, xy(q));
    assert(f1 == a * x1 + b + e * y1);
    assert(f2 == a * x2 + b + e * y2);
    if x1 != x2 {
        lemma_comb4(1, f1, -1, f2, -e, v1, e, v2);
        let (k1, k2) = (l * x1, l * x2);
        assert((-e) * (y1 - k1 - n) == -(e * y1) + e * k1 + e * n) by (nonlinear_arith);
        assert(e * (y2 - k2 - n) == e * y2 - e * k2 - e * n) by (nonlinear_arith);
        let m = l * e;
        assert((x1 - x2) * (a + m) == a * x1 - a * x2 + x1 * m - x2 * m) by (nonlinear_arith);
        assert(x1 * (l * e) == e * (l * x1)) by (nonlinear_arith);
        assert(x2 * (l * e) == e * (l * x2)) by (nonlinear_arith);
        assert((x1 - x2) * k == 1 * f1 + (-1) * f2 + (-e) * v1 + e * v2);
        lemma_different(x1, x2);
        lemma_cancel(x1 - x2, k);
    } else {
        lemma_same_abscissa(p, q);
        lemma_double(l, n, xy(p));
        let h = 3 * (x1 * x1) - 2 * (l * y1);
        let t = touches(c, xy(p)) - touches(d, xy(p));
        lemma_comb(1, touches(c, xy(p)), -1, touches(d, xy(p)));
        lemma_comb(1, t, -e, h);
        assert(t == 2 * (y1 * a) + 3 * (x1 * x1) * e) by {
            assert(2 * (y1 * (2 * x1 + c.a)) - 2 * (y1 * (2 * x1 + d.a)) == 2 * (y1 * (c.a - d.a)))
                by (nonlinear_arith);
            assert(3 * (x1 * x1) * c.e - 3 * (x1 * x1) * d.e == 3 * (x1 * x1) * (c.e - d.e))
                by (nonlinear_arith);
        }
        assert(2 * (y1 * k) == 1 * t + (-e) * h) by (nonlinear_arith)
            requires
                k == a + l * e,
                t == 2 * (y1 * a) + 3 * (x1 * x1) * e,
                h == 3 * (x1 * x1) - 2 * (l * y1),
        ;
        lemma_small(2);
        lemma_cancel(2, y1 * k);
        lemma_different(y1, 0);
        lemma_cancel(y1, k);
    }
    lemma_comb4(1, f1, -x1, k, -e, v1, 0, f1);
    assert(b + n * e == 1 * f1 + (-x1) * k + (-e) * v1 + 0 * f1) by (nonlinear_arith)
        requires
            k == a + l * e,
            f1 == a * x1 + b + e * y1,
            v1 == y1 - l * x1 - n,
    ;
}

proof fn lemma_difference_at(c: Conic, d: Conic, z: Xy)
    ensures
        conic_at(c, z) - conic_at(d, z) == (c.a - d.a) * z.x + (c.b - d.b) + (c.e - d.e) * z.y,
{
    assert((c.a - d.a) * z.x == c.a * z.x - d.a * z.x) by (nonlinear_arith);
    assert((c.e - d.e) * z.y == c.e * z.y - d.e * z.y) by (nonlinear_arith);
}

/// A conic through three points, of which the first two may be one at which it
/// touches, has an ordinate in it.
proof fn lemma_conic_ordinate(c: Conic, p: Point, q: Point, r: Point)
    requires
        proper(p),
        proper(q),
        proper(r),
        q != g1::point_neg(p),
        xy(r).x != xy(p).x,
        xy(r).x != xy(q).x,
        vanishes(conic_at(c, xy(p))),
        vanishes(conic_at(c, xy(q))),
        vanishes(conic_at(c, xy(r))),
        p == q ==> vanishes(touches(c, xy(p))),
    ensures
        !vanishes(c.e),
{
    if vanishes(c.e) {
        let Xy { x: x1, y: y1 } = xy(p);
        let Xy { x: x2, y: y2 } = xy(q);
        let Xy { x: x3, y: y3 } = xy(r);
        let a = c.a;
        lemma_conic_pair(c, xy(p), xy(r));
        lemma_different(x1, x3);
        lemma_cancel(x1 - x3, x1 + x3 + a);
        if x1 != x2 {
            lemma_conic_pair(c, xy(p), xy(q));
            lemma_different(x1, x2);
            lemma_cancel(x1 - x2, x1 + x2 + a);
        } else {
            lemma_same_abscissa(p, q);
            let t = touches(c, xy(p));
            lemma_comb(1, t, -(3 * (x1 * x1)), c.e);
            assert(2 * (y1 * (x1 + x1 + a)) == 1 * t + (-(3 * (x1 * x1))) * c.e)
                by (nonlinear_arith)
                requires
                    t == 2 * (y1 * (2 * x1 + a)) + 3 * (x1 * x1) * c.e,
            ;
            lemma_small(2);
            lemma_cancel(2, y1 * (x1 + x1 + a));
            lemma_different(y1, 0);
            lemma_cancel(y1, x1 + x1 + a);
        }
        lemma_comb(1, x1 + x2 + a, -1, x1 + x3 + a);
        assert((x1 + x2 + a) - (x1 + x3 + a) == x2 - x3);
        lemma_equal(x2, x3);
    }
}

proof fn lemma_conic_pair(c: Conic, z: Xy, w: Xy)
    requires
        vanishes(c.e),
        vanishes(conic_at(c, z)),
        vanishes(conic_at(c, w)),
    ensures
        vanishes((z.x - w.x) * (z.x + w.x + c.a)),
{
    let (f, g) = (conic_at(c, z), conic_at(c, w));
    let (a, e) = (c.a, c.e);
    lemma_comb4(1, f, -1, g, -(z.y - w.y), e, 0, e);
    assert((z.x - w.x) * (z.x + w.x + a) == 1 * f + (-1) * g + (-(z.y - w.y)) * e + 0 * e)
        by (nonlinear_arith)
        requires
            f == z.x * z.x + a * z.x + c.b + e * z.y,
            g == w.x * w.x + a * w.x + c.b + e * w.y,
    ;
}

/// Two ways of adding three points whose conics are equal give the same sum.
proof fn lemma_conic_determines(c: Conic, d: Conic, x: int, u: Point, v: Point)
    requires
        proper(u),
        proper(v),
        proper(g1::point_neg(u)),
        proper(g1::point_neg(v)),
        vanishes(c.a - d.a),
        vanishes(c.b - d.b),
        vanishes(c.e - d.e),
        !vanishes(c.e),
        vanishes(x + xy(u).x - (c.e * c.e - 2 * c.a)),
        vanishes(x + xy(v).x - (d.e * d.e - 2 * d.a)),
        vanishes(conic_at(c, xy(g1::point_neg(u)))),
        vanishes(conic_at(d, xy(g1::point_neg(v)))),
    ensures
        u == v,
{
    let (g, h) = (
        x + xy(u).x - (c.e * c.e - 2 * c.a),
        x + xy(v).x - (d.e * d.e - 2 * d.a),
    );
    lemma_comb4(1, g, -1, h, c.e + d.e, c.e - d.e, -2, c.a - d.a);
    assert((c.e + d.e) * (c.e - d.e) == c.e * c.e - d.e * d.e) by (nonlinear_arith);
    assert(xy(u).x - xy(v).x == 1 * g + (-1) * h + (c.e + d.e) * (c.e - d.e) + (-2) * (c.a - d.a));
    lemma_equal(xy(u).x, xy(v).x);
    let (z, w) = (xy(g1::point_neg(u)), xy(g1::point_neg(v)));
    lemma_difference_at(c, d, w);
    lemma_comb4(z.x, c.a - d.a, 1, c.b - d.b, w.y, c.e - d.e, 0, c.e - d.e);
    let k = z.x * (c.a - d.a) + 1 * (c.b - d.b) + w.y * (c.e - d.e) + 0 * (c.e - d.e);
    lemma_comb4(1, conic_at(c, z), -1, conic_at(d, w), -1, k, 0, k);
    assert(k == conic_at(c, w) - conic_at(d, w)) by {
        assert(z.x * (c.a - d.a) == (c.a - d.a) * w.x) by (nonlinear_arith)
            requires
                z.x == w.x,
        ;
        assert(w.y * (c.e - d.e) == (c.e - d.e) * w.y) by (nonlinear_arith);
    }
    assert(conic_at(c, z) - conic_at(c, w) == c.e * (z.y - w.y)) by (nonlinear_arith)
        requires
            conic_at(c, z) == z.x * z.x + c.a * z.x + c.b + c.e * z.y,
            conic_at(c, w) == w.x * w.x + c.a * w.x + c.b + c.e * w.y,
            z.x == w.x,
    ;
    lemma_cancel(c.e, z.y - w.y);
    lemma_equal(z.y, w.y);
    assert(g1::point_neg(u) == g1::point_neg(v));
    lemma_neg_twice(u);
    lemma_neg_twice(v);
}

/// Associativity where neither a vertical line nor a special equality gets in the
/// way.
proof fn lemma_associative_proper(p: Point, q: Point, r: Point)
    requires
        proper(p),
        proper(q),
        proper(r),
        q != g1::point_neg(p),
        r != g1::point_neg(q),
        r != g1::point_neg(p),
        r != p,
        r != q,
        r != g1::point_neg(g1::point_add(p, q)),
        g1::point_add(q, r) != g1::point_neg(p),
    ensures
        g1::point_add(g1::point_add(p, q), r) == g1::point_add(p, g1::point_add(q, r)),
{
    let s = g1::point_add(p, q);
    let t = g1::point_add(q, r);
    let u = g1::point_add(s, r);
    let v = g1::point_add(p, t);
    let (l1, n1) = lemma_line(p, q);
    let (l2, n2) = lemma_line(s, r);
    let (l3, n3) = lemma_line(q, r);
    let (l4, n4) = lemma_line(p, t);
    let (nt, nv) = (g1::point_neg(t), g1::point_neg(v));
    lemma_meets_order(l4, n4, xy(p), xy(t), xy(nv));
    let c = conic_of(l1, l2, xy(s));
    let d = conic_of(l3, l4, xy(t));
    lemma_conic_passes(l1, n1, l2, n2, p, q, s, r, u);
    lemma_conic_passes(l3, n3, l4, n4, q, r, t, p, v);
    lemma_conic_sum(l1, n1, l2, n2, p, q, s, r, u);
    lemma_conic_sum(l3, n3, l4, n4, q, r, t, p, v);
    if p == q {
        lemma_below(l1, n1, s, xy(p));
        lemma_touches_below(l1, n1, l2, xy(s), xy(p));
        lemma_below(l3, n3, t, xy(p));
        lemma_above(l4, n4, xy(t), xy(p));
        if xy(p).x == xy(t).x {
            lemma_same_abscissa(p, t);
            lemma_meets_order(l3, n3, xy(q), xy(r), xy(nt));
            lemma_not_opposite(l3, n3, nt, q, r);
            lemma_neg_twice(t);
        }
        lemma_different(xy(p).x, xy(t).x);
        lemma_touches_both(l3, l4, xy(t), xy(p));
    }
    lemma_conic_difference(l1, n1, c, d, p, q);
    // The conics are equal, as the third summand is not on the first line.
    let (a, b, e) = (c.a - d.a, c.b - d.b, c.e - d.e);
    let h = line(l1, n1, xy(r));
    let Xy { x, y } = xy(r);
    lemma_difference_at(c, d, xy(r));
    lemma_comb(1, conic_at(c, xy(r)), -1, conic_at(d, xy(r)));
    let f = a * x + b + e * y;
    let (k1, k2) = (a + l1 * e, b + n1 * e);
    lemma_comb4(1, f, -x, k1, -1, k2, 0, f);
    assert(e * h == 1 * f + (-x) * k1 + (-1) * k2 + 0 * f) by {
        let m = l1 * x;
        assert(e * (y - m - n1) == e * y - e * m - e * n1) by (nonlinear_arith);
        let w = l1 * e;
        assert((-x) * (a + w) == -(a * x) - x * w) by (nonlinear_arith);
        assert(x * (l1 * e) == e * (l1 * x)) by (nonlinear_arith);
        assert(e * n1 == n1 * e) by (nonlinear_arith);
    }
    if vanishes(h) {
        lemma_third_on_line(l1, n1, p, q, g1::point_neg(s), r);
    }
    assert(h * e == e * h) by (nonlinear_arith);
    lemma_cancel(h, e);
    lemma_comb(1, k1, -l1, e);
    lemma_comb(1, k2, -n1, e);
    assert(a == 1 * k1 + (-l1) * e) by (nonlinear_arith)
        requires
            k1 == a + l1 * e,
    ;
    assert(b == 1 * k2 + (-n1) * e) by (nonlinear_arith)
        requires
            k2 == b + n1 * e,
    ;
    if xy(r).x == xy(p).x {
        lemma_same_abscissa(p, r);
    }
    if xy(r).x == xy(q).x {
        lemma_same_abscissa(q, r);
    }
    lemma_conic_ordinate(c, p, q, r);
    lemma_conic_determines(c, d, xy(p).x + xy(q).x + xy(r).x, u, v);
}

/// The sum of points of the curve is associative.
pub proof fn law_sum_associates(p: Point, q: Point, r: Point)
    requires
        g1::on_curve(p),
        g1::in_range(p),
        g1::on_curve(q),
        g1::in_range(q),
        g1::on_curve(r),
        g1::in_range(r),
    ensures
        g1::point_add(g1::point_add(p, q), r) == g1::point_add(p, g1::point_add(q, r)),
{
    let s = g1::point_add(p, q);
    let t = g1::point_add(q, r);
    law_inverse(p);
    law_inverse(q);
    law_inverse(r);
    law_sum_on_curve(p, q);
    law_sum_on_curve(q, r);
    law_inverse(s);
    law_inverse(t);
    law_sum_commutes(p, q);
    law_sum_commutes(q, r);
    law_sum_commutes(s, r);
    law_sum_commutes(p, t);
    if p is Infinity || q is Infinity || r is Infinity {
    } else if q == g1::point_neg(p) {
        law_sum_cancels(q, r);
    } else if r == g1::point_neg(q) {
        law_sum_cancels(q, p);
    } else if r == g1::point_neg(s) {
        law_sum_cancels(q, p);
        law_sum_of_negatives(g1::point_neg(q), s);
        law_sum_commutes(g1::point_neg(q), s);
    } else if t == g1::point_neg(p) {
        law_sum_cancels(q, r);
        law_sum_of_negatives(g1::point_neg(q), t);
        law_sum_commutes(g1::point_neg(q), t);
        law_sum_commutes(q, p);
    } else if r == g1::point_neg(p) {
        law_sum_cancels(p, q);
        law_sum_cancels(r, q);
    } else if r == p {
    } else if r == q {
        if p == q {
        } else {
            if p == g1::point_neg(t) {
                lemma_neg_twice(t);
            }
            if q == g1::point_neg(s) {
                lemma_neg_twice(s);
            }
            if p == g1::point_neg(q) {
                lemma_neg_twice(q);
            }
            lemma_associative_proper(q, q, p);
        }
    } else {
        lemma_associative_proper(p, q, r);
    }
}

} // verus!
