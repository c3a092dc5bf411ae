//! The BN254 curve `y^2 = x^3 + 3` over the base field: affine and Jacobian
//! coordinates, the group operation, and multi-scalar multiplication.

use crate::fields;
use crate::fields::{Fq, Fr};
use crate::limbs;
use crate::modular;
use crate::{BN254G1Affine, BN254G1Jacobian};
use vstd::arithmetic::div_mod::*;
use vstd::arithmetic::mul::*;
use vstd::prelude::*;

verus! {

// ---------------------------------------------------------------------------
// The group operation on points
// ---------------------------------------------------------------------------

/// A point: the point at infinity, or a pair of coordinates.
pub enum Point {
    Infinity,
    At { x: int, y: int },
}

/// The slope of the tangent at a point.
pub open spec fn tangent_slope(x: int, y: int) -> int {
    fields::qmul(
        fields::qmul(3, fields::qmul(x, x)),
        fields::qinv(fields::qmul(2, y)),
    )
}

/// The slope of the chord through two points.
pub open spec fn chord_slope(x1: int, y1: int, x2: int, y2: int) -> int {
    fields::qmul(fields::qsub(y2, y1), fields::qinv(fields::qsub(x2, x1)))
}

/// The reflected third point on the line of slope `s` through `(x1, y1)` that
/// also meets the curve at the abscissa `x2`.
pub open spec fn third_point(s: int, x1: int, y1: int, x2: int) -> Point {
    let x3 = fields::qsub(fields::qsub(fields::qmul(s, s), x1), x2);
    Point::At { x: x3, y: fields::qsub(fields::qmul(s, fields::qsub(x1, x3)), y1) }
}

/// Twice a point, by the tangent.
pub open spec fn point_double(a: Point) -> Point {
    match a {
        Point::Infinity => Point::Infinity,
        Point::At { x, y } => if y == 0 {
            Point::Infinity
        } else {
            third_point(tangent_slope(x, y), x, y, x)
        },
    }
}

/// The sum of two points, by the chord or the tangent.
pub open spec fn point_add(a: Point, b: Point) -> Point {
    match (a, b) {
        (Point::Infinity, _) => b,
        (_, Point::Infinity) => a,
        (Point::At { x: x1, y: y1 }, Point::At { x: x2, y: y2 }) => if x1 != x2 {
            third_point(chord_slope(x1, y1, x2, y2), x1, y1, x2)
        } else if y1 == y2 {
            point_double(a)
        } else {
            Point::Infinity
        },
    }
}

/// The negative of a point.
pub open spec fn point_neg(a: Point) -> Point {
    match a {
        Point::Infinity => Point::Infinity,
        Point::At { x, y } => Point::At { x, y: fields::qneg(y) },
    }
}

/// `acc` plus `k` times `base`, by doubling and adding from the lowest bit on.
pub open spec fn double_and_add(acc: Point, base: Point, k: nat) -> Point
    decreases k,
{
    if k == 0 {
        acc
    } else {
        double_and_add(
            if k % 2 == 1 {
                point_add(acc, base)
            } else {
                acc
            },
            point_double(base),
            k / 2,
        )
    }
}

/// `k` times a point.
pub open spec fn point_mul(k: nat, a: Point) -> Point {
    double_and_add(Point::Infinity, a, k)
}

/// The sum of the points, each times its scalar, from the first one on.
pub open spec fn point_msm(points: Seq<Point>, scalars: Seq<int>) -> Point
    decreases points.len(),
{
    if points.len() == 0 {
        Point::Infinity
    } else {
        point_add(
            point_msm(points.drop_last(), scalars),
            point_mul(scalars[points.len() - 1] as nat, points.last()),
        )
    }
}

/// The point lies on the curve `y^2 = x^3 + 3`.
pub open spec fn on_curve(a: Point) -> bool {
    match a {
        Point::Infinity => true,
        Point::At { x, y } => fields::qmul(y, y) == fields::qadd(
            fields::qmul(fields::qmul(x, x), x),
            3,
        ),
    }
}

/// The curve is `y^2 = x^3 + 3`.
pub proof fn law_curve(x: int, y: int)
    ensures
        on_curve(Point::At { x, y }) <==> (y * y) % fields::fq_modulus() == (x * x * x + 3)
            % fields::fq_modulus(),
        on_curve(Point::Infinity),
{
    fields::lemma_fq_modulus();
    let q = fields::fq_modulus();
    modular::lemma_mod_idem(x * x, q);
    modular::lemma_mul_cong((x * x) % q, x, x * x, x, q);
    modular::lemma_mod_idem(x * x * x, q);
    modular::lemma_add_cong(fields::qmul(fields::qmul(x, x), x), 3, x * x * x, 3, q);
}

/// The coordinates lie in the base field.
pub open spec fn in_range(a: Point) -> bool {
    match a {
        Point::Infinity => true,
        Point::At { x, y } => 0 <= x < fields::fq_modulus() && 0 <= y < fields::fq_modulus(),
    }
}

/// The point that affine coordinates stand for, where two zeros stand for the
/// point at infinity.
pub open spec fn affine_point(x: int, y: int) -> Point {
    if x == 0 && y == 0 {
        Point::Infinity
    } else {
        Point::At { x, y }
    }
}

/// A point as it can be written in affine coordinates.
pub open spec fn as_affine(a: Point) -> Point {
    match a {
        Point::Infinity => Point::Infinity,
        Point::At { x, y } => affine_point(x, y),
    }
}

/// The point that Jacobian coordinates stand for.
pub open spec fn jacobian_point(x: int, y: int, z: int) -> Point {
    if z == 0 {
        Point::Infinity
    } else {
        let i = fields::qinv(z);
        let i2 = fields::qmul(i, i);
        Point::At { x: fields::qmul(x, i2), y: fields::qmul(y, fields::qmul(i2, i)) }
    }
}

// ---------------------------------------------------------------------------
// Congruences modulo the base field modulus
// ---------------------------------------------------------------------------

/// Congruence modulo the base field modulus.
pub open spec fn cong(a: int, b: int) -> bool {
    a % fields::fq_modulus() == b % fields::fq_modulus()
}

proof fn lemma_cong_mul(a: int, b: int, x: int, y: int)
    requires
        cong(a, x),
        cong(b, y),
    ensures
        cong(fields::qmul(a, b), x * y),
{
    fields::lemma_fq_modulus();
    modular::lemma_mul_cong(a, b, x, y, fields::fq_modulus());
    modular::lemma_mod_idem(a * b, fields::fq_modulus());
}

proof fn lemma_cong_add(a: int, b: int, x: int, y: int)
    requires
        cong(a, x),
        cong(b, y),
    ensures
        cong(fields::qadd(a, b), x + y),
{
    fields::lemma_fq_modulus();
    modular::lemma_add_cong(a, b, x, y, fields::fq_modulus());
    modular::lemma_mod_idem(a + b, fields::fq_modulus());
}

proof fn lemma_cong_sub(a: int, b: int, x: int, y: int)
    requires
        cong(a, x),
        cong(b, y),
    ensures
        cong(fields::qsub(a, b), x - y),
{
    fields::lemma_fq_modulus();
    modular::lemma_sub_cong(a, b, x, y, fields::fq_modulus());
    modular::lemma_mod_idem(a - b, fields::fq_modulus());
}

proof fn lemma_cong_neg(a: int, x: int)
    requires
        cong(a, x),
    ensures
        cong(fields::qneg(a), -x),
{
    fields::lemma_fq_modulus();
    modular::lemma_sub_cong(0, a, 0, x, fields::fq_modulus());
    modular::lemma_mod_idem(-a, fields::fq_modulus());
}

/// Replacing a factor by a congruent one.
proof fn lemma_cong_times(a: int, b: int, x: int, y: int)
    requires
        cong(a, x),
        cong(b, y),
    ensures
        cong(a * b, x * y),
{
    fields::lemma_fq_modulus();
    modular::lemma_mul_cong(a, b, x, y, fields::fq_modulus());
}

/// Field elements that are congruent are equal.
proof fn lemma_cong_equal(a: int, b: int)
    requires
        cong(a, b),
        0 <= a < fields::fq_modulus(),
        0 <= b < fields::fq_modulus(),
    ensures
        a == b,
{
    lemma_small_mod(a as nat, fields::fq_modulus() as nat);
    lemma_small_mod(b as nat, fields::fq_modulus() as nat);
}

/// A product of nonzero field elements is not congruent to zero.
proof fn lemma_cong_nonzero(a: int, b: int)
    requires
        !cong(a, 0),
        !cong(b, 0),
    ensures
        !cong(a * b, 0),
{
    fields::lemma_fq_modulus();
    lemma_small_mod(0, fields::fq_modulus() as nat);
    if cong(a * b, 0) {
        modular::lemma_euclid(a, b, fields::fq_modulus());
    }
}

/// A field element other than zero is not congruent to zero.
proof fn lemma_nonzero(a: int)
    requires
        0 < a < fields::fq_modulus(),
    ensures
        !cong(a, 0),
{
    lemma_small_mod(a as nat, fields::fq_modulus() as nat);
    lemma_small_mod(0, fields::fq_modulus() as nat);
}

/// The quotient times the divisor is the dividend.
pub proof fn lemma_quotient(a: int, b: int)
    requires
        0 < b < fields::fq_modulus(),
    ensures
        cong(fields::qmul(a, fields::qinv(b)) * b, a),
{
    fields::lemma_fq_modulus();
    let p = fields::fq_modulus();
    fields::law_fq_inverse(b);
    let i = fields::qinv(b);
    lemma_cong_mul(a, i, a, i);
    lemma_cong_times(fields::qmul(a, i), b, a * i, b);
    lemma_small_mod(1, p as nat);
    lemma_cong_times(a, i * b, a, 1);
    assert((a * i) * b == a * (i * b)) by (nonlinear_arith);
}

/// Coordinates that are `x z^2` and `y z^3` stand for the point at `(x, y)`.
proof fn lemma_jacobian(jx: int, jy: int, z: int, x: int, y: int)
    requires
        0 < z < fields::fq_modulus(),
        0 <= x < fields::fq_modulus(),
        0 <= y < fields::fq_modulus(),
        cong(jx, x * (z * z)),
        cong(jy, y * (z * z * z)),
    ensures
        jacobian_point(jx, jy, z) == (Point::At { x, y }),
{
    fields::lemma_fq_modulus();
    let p = fields::fq_modulus();
    let i = fields::qinv(z);
    let i2 = fields::qmul(i, i);
    let i3 = fields::qmul(i2, i);
    fields::law_fq_inverse(z);
    lemma_small_mod(1, p as nat);
    assert(cong(z * i, 1));
    lemma_cong_mul(i, i, i, i);
    lemma_cong_mul(i2, i, i * i, i);
    lemma_cong_mul(jx, i2, x * (z * z), i * i);
    lemma_cong_mul(jy, i3, y * (z * z * z), i * i * i);
    lemma_cong_times(z * i, z * i, 1, 1);
    lemma_cong_times((z * i) * (z * i), z * i, 1, 1);
    lemma_cong_times(x, (z * i) * (z * i), x, 1);
    lemma_cong_times(y, (z * i) * (z * i) * (z * i), y, 1);
    assert((x * (z * z)) * (i * i) == x * ((z * i) * (z * i))) by (nonlinear_arith);
    assert((y * (z * z * z)) * (i * i * i) == y * ((z * i) * (z * i) * (z * i)))
        by (nonlinear_arith);
    fields::lemma_qrange(jx, i2, 0);
    fields::lemma_qrange(jy, i3, 0);
    lemma_cong_equal(fields::qmul(jx, i2), x);
    lemma_cong_equal(fields::qmul(jy, i3), y);
}

/// Conversely, Jacobian coordinates are multiples of the affine ones.
proof fn lemma_jacobian_coordinates(jx: int, jy: int, z: int)
    requires
        0 < z < fields::fq_modulus(),
    ensures
        ({
            let i = fields::qinv(z);
            let i2 = fields::qmul(i, i);
            let x = fields::qmul(jx, i2);
            let y = fields::qmul(jy, fields::qmul(i2, i));
            &&& jacobian_point(jx, jy, z) == (Point::At { x, y })
            &&& 0 <= x < fields::fq_modulus()
            &&& 0 <= y < fields::fq_modulus()
            &&& cong(jx, x * (z * z))
            &&& cong(jy, y * (z * z * z))
        }),
{
    fields::lemma_fq_modulus();
    let p = fields::fq_modulus();
    let i = fields::qinv(z);
    let i2 = fields::qmul(i, i);
    let i3 = fields::qmul(i2, i);
    let x = fields::qmul(jx, i2);
    let y = fields::qmul(jy, i3);
    fields::lemma_qrange(jx, i2, 0);
    fields::lemma_qrange(jy, i3, 0);
    fields::law_fq_inverse(z);
    lemma_small_mod(1, p as nat);
    assert(cong(z * i, 1));
    lemma_cong_mul(i, i, i, i);
    lemma_cong_mul(i2, i, i * i, i);
    lemma_cong_mul(jx, i2, jx, i * i);
    lemma_cong_mul(jy, i3, jy, i * i * i);
    lemma_cong_times(x, z * z, jx * (i * i), z * z);
    lemma_cong_times(y, z * z * z, jy * (i * i * i), z * z * z);
    lemma_cong_times(z * i, z * i, 1, 1);
    lemma_cong_times((z * i) * (z * i), z * i, 1, 1);
    lemma_cong_times(jx, (z * i) * (z * i), jx, 1);
    lemma_cong_times(jy, (z * i) * (z * i) * (z * i), jy, 1);
    assert((jx * (i * i)) * (z * z) == jx * ((z * i) * (z * i))) by (nonlinear_arith);
    assert((jy * (i * i * i)) * (z * z * z) == jy * ((z * i) * (z * i) * (z * i)))
        by (nonlinear_arith);
}

// ---------------------------------------------------------------------------
// The formulas
// ---------------------------------------------------------------------------

/// The end of an addition. With `d` the difference of the abscissas, `s` the
/// slope and `t` the product of the two `z`, the intermediate values have the
/// stated forms, and the result stands for the third point.
proof fn lemma_addition(
    s: int,
    d: int,
    t: int,
    x1: int,
    y1: int,
    x2: int,
    r: int,
    j: int,
    v: int,
    w: int,
    z3: int,
)
    requires
        cong(x2, x1 + d),
        cong(r, 2 * (s * d * (t * t * t))),
        cong(j, 4 * (d * d * d * (t * t * t * t * t * t))),
        cong(v, 4 * (x1 * d * d * (t * t * t * t * t * t))),
        cong(w, y1 * (t * t * t)),
        cong(z3, 2 * (d * (t * t * t))),
        0 < z3 < fields::fq_modulus(),
    ensures
        ({
            let x3 = fields::qsub(
                fields::qsub(fields::qmul(r, r), j),
                fields::qadd(v, v),
            );
            let wj = fields::qmul(w, j);
            let y3 = fields::qsub(
                fields::qmul(r, fields::qsub(v, x3)),
                fields::qadd(wj, wj),
            );
            jacobian_point(x3, y3, z3) == third_point(s, x1, y1, x2)
        }),
{
    fields::lemma_fq_modulus();
    let t3 = t * t * t;
    let t6 = t3 * t3;
    assert(t * t * t * t * t * t == t6) by (nonlinear_arith)
        requires
            t3 == t * t * t,
            t6 == t3 * t3,
    ;
    let g = d * t3;
    // The third point.
    let ss = fields::qmul(s, s);
    let ax = fields::qsub(fields::qsub(ss, x1), x2);
    let ay = fields::qsub(fields::qmul(s, fields::qsub(x1, ax)), y1);
    fields::lemma_qrange(fields::qsub(ss, x1), x2, 0);
    fields::lemma_qrange(fields::qmul(s, fields::qsub(x1, ax)), y1, 0);
    lemma_cong_mul(s, s, s, s);
    lemma_cong_sub(ss, x1, s * s, x1);
    lemma_cong_sub(fields::qsub(ss, x1), x2, s * s - x1, x1 + d);
    let lx = s * s - x1 - (x1 + d);
    assert(cong(ax, lx));
    lemma_cong_sub(x1, ax, x1, lx);
    lemma_cong_mul(s, fields::qsub(x1, ax), s, x1 - lx);
    lemma_cong_sub(fields::qmul(s, fields::qsub(x1, ax)), y1, s * (x1 - lx), y1);
    let ly = s * (x1 - lx) - y1;
    assert(cong(ay, ly));
    // The abscissa that the formula gives.
    let rr = fields::qmul(r, r);
    let vv = fields::qadd(v, v);
    let x3 = fields::qsub(fields::qsub(rr, j), vv);
    let lr = 2 * (s * g);
    assert(s * d * t3 == s * g) by (nonlinear_arith)
        requires
            g == d * t3,
    ;
    let lj = 4 * (d * (g * g));
    assert(d * d * d * t6 == d * (g * g)) by (nonlinear_arith)
        requires
            g == d * t3,
            t6 == t3 * t3,
    ;
    let lv = 4 * (x1 * (g * g));
    assert(x1 * d * d * t6 == x1 * (g * g)) by (nonlinear_arith)
        requires
            g == d * t3,
            t6 == t3 * t3,
    ;
    lemma_cong_mul(r, r, lr, lr);
    lemma_cong_sub(rr, j, lr * lr, lj);
    lemma_cong_add(v, v, lv, lv);
    lemma_cong_sub(fields::qsub(rr, j), vv, lr * lr - lj, lv + lv);
    let k = 2 * g;
    let gg = g * g;
    assert(k * k == 4 * gg) by (nonlinear_arith)
        requires
            k == 2 * g,
            gg == g * g,
    ;
    assert(lr * lr == 4 * ((s * s) * gg)) by (nonlinear_arith)
        requires
            lr == 2 * (s * g),
            gg == g * g,
    ;
    assert(lr * lr - lj - (lv + lv) == lx * (k * k)) by (nonlinear_arith)
        requires
            lr * lr == 4 * ((s * s) * gg),
            lj == 4 * (d * gg),
            lv == 4 * (x1 * gg),
            lx == s * s - x1 - (x1 + d),
            k * k == 4 * gg,
    ;
    assert(cong(x3, lx * (k * k)));
    lemma_cong_times(z3, z3, k, k);
    lemma_cong_times(ax, z3 * z3, lx, k * k);
    // The ordinate.
    let wj = fields::qmul(w, j);
    let lw = y1 * t3;
    lemma_cong_mul(w, j, lw, lj);
    lemma_cong_add(wj, wj, lw * lj, lw * lj);
    lemma_cong_sub(v, x3, lv, lx * (k * k));
    lemma_cong_mul(r, fields::qsub(v, x3), lr, lv - lx * (k * k));
    lemma_cong_sub(
        fields::qmul(r, fields::qsub(v, x3)),
        fields::qadd(wj, wj),
        lr * (lv - lx * (k * k)),
        lw * lj + lw * lj,
    );
    let ggg = gg * g;
    assert(k * k * k == 8 * ggg) by (nonlinear_arith)
        requires
            k * k == 4 * gg,
            k == 2 * g,
            ggg == gg * g,
    ;
    assert(lr * (lv - lx * (k * k)) == 8 * ((s * (x1 - lx)) * ggg)) by (nonlinear_arith)
        requires
            lr == 2 * (s * g),
            lv == 4 * (x1 * gg),
            k * k == 4 * gg,
            ggg == gg * g,
    ;
    assert(lw * lj == 4 * (y1 * ggg)) by (nonlinear_arith)
        requires
            lw == y1 * t3,
            lj == 4 * (d * gg),
            g == d * t3,
            ggg == gg * g,
    ;
    assert(lr * (lv - lx * (k * k)) - (lw * lj + lw * lj) == ly * (k * k * k)) by (nonlinear_arith)
        requires
            lr * (lv - lx * (k * k)) == 8 * ((s * (x1 - lx)) * ggg),
            lw * lj == 4 * (y1 * ggg),
            ly == s * (x1 - lx) - y1,
            k * k * k == 8 * ggg,
    ;
    lemma_cong_times(z3 * z3, z3, k * k, k);
    lemma_cong_times(ay, z3 * z3 * z3, ly, k * k * k);
    let y3 = fields::qsub(
        fields::qmul(r, fields::qsub(v, x3)),
        fields::qadd(wj, wj),
    );
    lemma_jacobian(x3, y3, z3, ax, ay);
}

/// The `z` of a doubling is twice the product of `y` and `z`.
proof fn lemma_doubling_z(jy: int, z: int, b: int)
    requires
        b == fields::qmul(jy, jy),
    ensures
        ({
            let yz = fields::qadd(jy, z);
            cong(
                fields::qsub(fields::qsub(fields::qmul(yz, yz), b), fields::qmul(z, z)),
                2 * (jy * z),
            )
        }),
{
    let yz = fields::qadd(jy, z);
    lemma_cong_add(jy, z, jy, z);
    lemma_cong_mul(yz, yz, jy + z, jy + z);
    lemma_cong_mul(jy, jy, jy, jy);
    lemma_cong_mul(z, z, z, z);
    lemma_cong_sub(fields::qmul(yz, yz), b, (jy + z) * (jy + z), jy * jy);
    lemma_cong_sub(
        fields::qsub(fields::qmul(yz, yz), b),
        fields::qmul(z, z),
        (jy + z) * (jy + z) - jy * jy,
        z * z,
    );
    assert((jy + z) * (jy + z) - jy * jy - z * z == 2 * (jy * z)) by (nonlinear_arith);
}

/// The values on the way to a doubling.
pub open spec fn doubling_d(jx: int, jy: int) -> int {
    let b = fields::qmul(jy, jy);
    let xb = fields::qadd(jx, b);
    let e = fields::qsub(
        fields::qsub(fields::qmul(xb, xb), fields::qmul(jx, jx)),
        fields::qmul(b, b),
    );
    fields::qadd(e, e)
}

/// The doubling formulas stand for the tangent construction.
proof fn lemma_doubling(jx: int, jy: int, z: int, x: int, y: int, z3: int)
    requires
        0 <= x < fields::fq_modulus(),
        0 < y < fields::fq_modulus(),
        0 < z < fields::fq_modulus(),
        cong(jx, x * (z * z)),
        cong(jy, y * (z * z * z)),
        cong(z3, 2 * (jy * z)),
        0 <= z3 < fields::fq_modulus(),
    ensures
        z3 != 0,
        ({
            let a = fields::qmul(jx, jx);
            let b = fields::qmul(jy, jy);
            let c = fields::qmul(b, b);
            let d = doubling_d(jx, jy);
            let e = fields::qadd(fields::qadd(a, a), a);
            let x3 = fields::qsub(fields::qmul(e, e), fields::qadd(d, d));
            let c2 = fields::qadd(c, c);
            let c4 = fields::qadd(c2, c2);
            let y3 = fields::qsub(
                fields::qmul(e, fields::qsub(d, x3)),
                fields::qadd(c4, c4),
            );
            jacobian_point(x3, y3, z3) == third_point(tangent_slope(x, y), x, y, x)
        }),
{
    fields::lemma_fq_modulus();
    let p = fields::fq_modulus();
    let s = tangent_slope(x, y);
    // The slope: 2 y s = 3 x^2.
    let xx = fields::qmul(x, x);
    let txx = fields::qmul(3, xx);
    let y2 = fields::qmul(2, y);
    lemma_cong_mul(x, x, x, x);
    lemma_cong_mul(3, xx, 3, x * x);
    lemma_cong_mul(2, y, 2, y);
    lemma_nonzero(y);
    lemma_nonzero(2);
    lemma_cong_nonzero(2, y);
    fields::lemma_qrange(2, y, 0);
    lemma_small_mod(0, p as nat);
    assert(y2 != 0);
    lemma_quotient(txx, y2);
    lemma_cong_times(s, y2, s, 2 * y);
    assert(cong(s * (2 * y), 3 * (x * x)));
    // z3 is not zero.
    let z2 = z * z;
    let z3p = z2 * z;
    let z4 = z2 * z2;
    lemma_nonzero(z);
    lemma_cong_nonzero(z, z);
    lemma_cong_nonzero(z2, z2);
    lemma_cong_nonzero(y, z4);
    lemma_cong_nonzero(2, y * z4);
    let g = 2 * (y * z4);
    lemma_cong_times(jy, z, y * (z * z * z), z);
    assert((y * (z * z * z)) * z == y * z4) by (nonlinear_arith)
        requires
            z2 == z * z,
            z4 == z2 * z2,
    ;
    lemma_cong_times(2, jy * z, 2, y * z4);
    assert(cong(z3, g));
    // The values on the way.
    let lx = x * z2;
    let ly = y * z3p;
    let a = fields::qmul(jx, jx);
    let b = fields::qmul(jy, jy);
    let c = fields::qmul(b, b);
    lemma_cong_mul(jx, jx, lx, lx);
    lemma_cong_mul(jy, jy, ly, ly);
    let lb = ly * ly;
    lemma_cong_mul(b, b, lb, lb);
    let xb = fields::qadd(jx, b);
    lemma_cong_add(jx, b, lx, lb);
    lemma_cong_mul(xb, xb, lx + lb, lx + lb);
    lemma_cong_sub(fields::qmul(xb, xb), a, (lx + lb) * (lx + lb), lx * lx);
    lemma_cong_sub(
        fields::qsub(fields::qmul(xb, xb), a),
        c,
        (lx + lb) * (lx + lb) - lx * lx,
        lb * lb,
    );
    assert((lx + lb) * (lx + lb) - lx * lx - lb * lb == 2 * (lx * lb)) by (nonlinear_arith);
    let half = fields::qsub(fields::qsub(fields::qmul(xb, xb), a), c);
    lemma_cong_add(half, half, 2 * (lx * lb), 2 * (lx * lb));
    let d = doubling_d(jx, jy);
    assert(cong(d, 4 * (lx * lb)));
    // In terms of x, y and the powers of z: g = 2 y z^4.
    let gg = g * g;
    assert(lx * lb == (x * (y * y)) * (z4 * z4)) by (nonlinear_arith)
        requires
            lx == x * z2,
            lb == (y * z3p) * (y * z3p),
            z3p == z2 * z,
            z2 == z * z,
            z4 == z2 * z2,
    ;
    assert(gg == 4 * ((y * y) * (z4 * z4))) by (nonlinear_arith)
        requires
            gg == (2 * (y * z4)) * (2 * (y * z4)),
    ;
    assert(4 * (lx * lb) == x * gg) by (nonlinear_arith)
        requires
            lx * lb == (x * (y * y)) * (z4 * z4),
            gg == 4 * ((y * y) * (z4 * z4)),
    ;
    assert(cong(d, x * gg));
    let e = fields::qadd(fields::qadd(a, a), a);
    lemma_cong_add(a, a, lx * lx, lx * lx);
    lemma_cong_add(fields::qadd(a, a), a, lx * lx + lx * lx, lx * lx);
    assert(lx * lx + lx * lx + lx * lx == (3 * (x * x)) * z4) by (nonlinear_arith)
        requires
            lx == x * z2,
            z4 == z2 * z2,
    ;
    lemma_cong_times(s * (2 * y), z4, 3 * (x * x), z4);
    assert((s * (2 * y)) * z4 == s * g) by (nonlinear_arith)
        requires
            g == 2 * (y * z4),
    ;
    assert(cong(e, s * g));
    // The abscissa.
    let x3 = fields::qsub(fields::qmul(e, e), fields::qadd(d, d));
    lemma_cong_mul(e, e, s * g, s * g);
    lemma_cong_add(d, d, x * gg, x * gg);
    lemma_cong_sub(
        fields::qmul(e, e),
        fields::qadd(d, d),
        (s * g) * (s * g),
        x * gg + x * gg,
    );
    let px = s * s - x - x;
    assert((s * g) * (s * g) - (x * gg + x * gg) == px * (g * g)) by (nonlinear_arith)
        requires
            gg == g * g,
            px == s * s - x - x,
    ;
    // The ordinate.
    let c2 = fields::qadd(c, c);
    let c4 = fields::qadd(c2, c2);
    lemma_cong_add(c, c, lb * lb, lb * lb);
    lemma_cong_add(c2, c2, lb * lb + lb * lb, lb * lb + lb * lb);
    lemma_cong_add(c4, c4, 4 * (lb * lb), 4 * (lb * lb));
    lemma_cong_sub(d, x3, x * gg, px * (g * g));
    lemma_cong_mul(e, fields::qsub(d, x3), s * g, x * gg - px * (g * g));
    lemma_cong_sub(
        fields::qmul(e, fields::qsub(d, x3)),
        fields::qadd(c4, c4),
        (s * g) * (x * gg - px * (g * g)),
        8 * (lb * lb),
    );
    let py = s * (x - px) - y;
    assert((s * g) * (x * gg - px * (g * g)) == (s * (x - px)) * (g * g * g)) by (nonlinear_arith)
        requires
            gg == g * g,
    ;
    assert(8 * (lb * lb) == y * (g * g * g)) by (nonlinear_arith)
        requires
            lb == (y * z3p) * (y * z3p),
            z3p == z2 * z,
            z2 == z * z,
            z4 == z2 * z2,
            g == 2 * (y * z4),
    {
        let q = z4 * z4 * z4;
        assert(z3p * z3p * z3p * z3p == q) by (nonlinear_arith)
            requires
                z3p == z2 * z,
                z2 == z * z,
                z4 == z2 * z2,
                q == z4 * z4 * z4,
        ;
        assert(lb * lb == (y * y * y * y) * (z3p * z3p * z3p * z3p)) by (nonlinear_arith)
            requires
                lb == (y * z3p) * (y * z3p),
        ;
        assert(g * g * g == 8 * ((y * y * y) * q)) by (nonlinear_arith)
            requires
                g == 2 * (y * z4),
                q == z4 * z4 * z4,
        ;
        assert(8 * ((y * y * y * y) * q) == y * (8 * ((y * y * y) * q))) by (nonlinear_arith);
    }
    assert((s * (x - px)) * (g * g * g) - y * (g * g * g) == py * (g * g * g)) by (nonlinear_arith)
        requires
            py == s * (x - px) - y,
    ;
    // The third point.
    let ss = fields::qmul(s, s);
    let ax = fields::qsub(fields::qsub(ss, x), x);
    let ay = fields::qsub(fields::qmul(s, fields::qsub(x, ax)), y);
    fields::lemma_qrange(fields::qsub(ss, x), x, 0);
    fields::lemma_qrange(fields::qmul(s, fields::qsub(x, ax)), y, 0);
    lemma_cong_mul(s, s, s, s);
    lemma_cong_sub(ss, x, s * s, x);
    lemma_cong_sub(fields::qsub(ss, x), x, s * s - x, x);
    lemma_cong_sub(x, ax, x, px);
    lemma_cong_mul(s, fields::qsub(x, ax), s, x - px);
    lemma_cong_sub(fields::qmul(s, fields::qsub(x, ax)), y, s * (x - px), y);
    lemma_cong_times(z3, z3, g, g);
    lemma_cong_times(z3 * z3, z3, g * g, g);
    lemma_cong_times(ax, z3 * z3, px, g * g);
    lemma_cong_times(ay, z3 * z3 * z3, py, g * g * g);
    let y3 = fields::qsub(fields::qmul(e, fields::qsub(d, x3)), fields::qadd(c4, c4));
    lemma_jacobian(x3, y3, z3, ax, ay);
}

// ---------------------------------------------------------------------------
// Points in coordinates
// ---------------------------------------------------------------------------

/// A point in affine coordinates. Two zeros stand for the point at infinity.
#[derive(Clone, Copy, Debug)]
pub struct G1Affine {
    pub x: Fq,
    pub y: Fq,
}

/// A point in Jacobian coordinates `(X, Y, Z)`, which stand for the point
/// `(X / Z^2, Y / Z^3)`.
#[derive(Clone, Copy, Debug)]
pub struct G1Jacobian {
    pub x: Fq,
    pub y: Fq,
    pub z: Fq,
}

impl PartialEq for G1Affine {
    fn eq(&self, other: &Self) -> (r: bool) {
        self.x == other.x && self.y == other.y
    }
}

impl Eq for G1Affine {

}

impl vstd::std_specs::cmp::PartialEqSpecImpl for G1Affine {
    open spec fn obeys_eq_spec() -> bool {
        true
    }

    open spec fn eq_spec(&self, other: &Self) -> bool {
        *self == *other
    }
}

impl View for G1Affine {
    type V = Point;

    open spec fn view(&self) -> Point {
        affine_point(self.x@, self.y@)
    }
}

impl View for G1Jacobian {
    type V = Point;

    open spec fn view(&self) -> Point {
        jacobian_point(self.x@, self.y@, self.z@)
    }
}

impl View for BN254G1Affine {
    type V = Point;

    open spec fn view(&self) -> Point {
        affine_point(self.x@, self.y@)
    }
}

/// Reduced coordinates are determined by the point: proofs that hold the same points hold
/// the same limbs.
pub proof fn law_reduced_points_are_equal(a: BN254G1Affine, b: BN254G1Affine)
    requires
        a.wf(),
        b.wf(),
        a@ == b@,
    ensures
        a == b,
{
    fields::lemma_fq_modulus();
    let q = fields::fq_modulus();
    limbs::lemma_mont_form(limbs::value32(a.x.limbs), q);
    limbs::lemma_mont_form(limbs::value32(a.y.limbs), q);
    limbs::lemma_mont_form(limbs::value32(b.x.limbs), q);
    limbs::lemma_mont_form(limbs::value32(b.y.limbs), q);
    limbs::lemma_value32_injective(a.x.limbs, b.x.limbs);
    limbs::lemma_value32_injective(a.y.limbs, b.y.limbs);
}

/// The constant of the curve equation.
pub fn b_mont() -> (r: Fq)
    ensures
        r.wf(),
        r@ == 3,
{
    Fq::from_u64(3)
}

/// The points behind affine coordinates.
pub open spec fn points_of(s: Seq<G1Affine>) -> Seq<Point> {
    Seq::new(s.len(), |i: int| s[i]@)
}

/// All coordinates are reduced.
pub open spec fn all_points_wf(s: Seq<G1Affine>) -> bool {
    forall|i: int| 0 <= i < s.len() ==> (#[trigger] s[i]).wf()
}

impl G1Affine {
    /// The coordinates are reduced.
    pub open spec fn wf(self) -> bool {
        self.x.wf() && self.y.wf()
    }

    /// The point at infinity.
    pub fn infinity() -> (r: Self)
        ensures
            r.wf(),
            r@ == Point::Infinity,
    {
        G1Affine { x: Fq::zero(), y: Fq::zero() }
    }

    /// Whether this is the point at infinity.
    pub fn is_infinity(&self) -> (r: bool)
        requires
            self.wf(),
        ensures
            r == (self@ == Point::Infinity),
    {
        self.x.is_zero() && self.y.is_zero()
    }

    /// The same point in Jacobian coordinates.
    pub fn to_jacobian(&self) -> (r: G1Jacobian)
        requires
            self.wf(),
        ensures
            r.wf(),
            r@ == self@,
    {
        if self.is_infinity() {
            return G1Jacobian::infinity();
        }
        let r = G1Jacobian { x: self.x, y: self.y, z: Fq::one() };
        proof {
            fields::lemma_fq_modulus();
            self.x.lemma_of_view();
            self.y.lemma_of_view();
            assert(1int * 1int == 1int && 1int * 1int * 1int == 1int);
            lemma_jacobian(self.x@, self.y@, 1, self.x@, self.y@);
        }
        r
    }

    /// The point whose Montgomery coordinates the `u32` limbs hold.
    pub fn from_bn254(p: &BN254G1Affine) -> (r: Self)
        ensures
            r@ == p@,
            p.wf() ==> r.wf(),
            limbs::value(r.x.0) == limbs::value32(p.x.limbs),
            limbs::value(r.y.0) == limbs::value32(p.y.limbs),
    {
        G1Affine { x: Fq::from_bn254fq_raw(&p.x), y: Fq::from_bn254fq_raw(&p.y) }
    }

    /// The Montgomery coordinates as `u32` limbs.
    pub fn to_bn254(&self) -> (r: BN254G1Affine)
        ensures
            r@ == self@,
            self.wf() ==> r.wf(),
            limbs::value32(r.x.limbs) == limbs::value(self.x.0),
            limbs::value32(r.y.limbs) == limbs::value(self.y.0),
    {
        BN254G1Affine { x: self.x.to_bn254fq_raw(), y: self.y.to_bn254fq_raw() }
    }
}

impl G1Jacobian {
    /// The coordinates are reduced.
    pub open spec fn wf(self) -> bool {
        self.x.wf() && self.y.wf() && self.z.wf()
    }

    /// The point at infinity.
    pub fn infinity() -> (r: Self)
        ensures
            r.wf(),
            r@ == Point::Infinity,
    {
        G1Jacobian { x: Fq::one(), y: Fq::one(), z: Fq::zero() }
    }

    /// Whether this is the point at infinity.
    pub fn is_infinity(&self) -> (r: bool)
        requires
            self.wf(),
        ensures
            r == (self@ == Point::Infinity),
            r == (self.z@ == 0),
    {
        self.z.is_zero()
    }

    /// The coordinates of a point that is not at infinity.
    proof fn lemma_coordinates(self)
        requires
            self.wf(),
            self.z@ != 0,
        ensures
            0 < self.z@ < fields::fq_modulus(),
            self@ is At,
            in_range(self@),
            cong(self.x@, self@->x * (self.z@ * self.z@)),
            cong(self.y@, self@->y * (self.z@ * self.z@ * self.z@)),
    {
        self.z.lemma_of_view();
        lemma_jacobian_coordinates(self.x@, self.y@, self.z@);
    }

    /// The same point in affine coordinates.
    pub fn to_affine(&self) -> (r: G1Affine)
        requires
            self.wf(),
        ensures
            r.wf(),
            r@ == as_affine(self@),
    {
        if self.is_infinity() {
            return G1Affine::infinity();
        }
        let z_inv = self.z.inv();
        let z_inv2 = z_inv.mul(&z_inv);
        let z_inv3 = z_inv2.mul(&z_inv);
        G1Affine { x: self.x.mul(&z_inv2), y: self.y.mul(&z_inv3) }
    }

    /// The negative of the point.
    pub fn neg(&self) -> (r: Self)
        requires
            self.wf(),
        ensures
            r.wf(),
            r@ == point_neg(self@),
    {
        let r = G1Jacobian { x: self.x, y: self.y.neg(), z: self.z };
        proof {
            if self.z@ != 0 {
                let i = fields::qinv(self.z@);
                let k = fields::qmul(fields::qmul(i, i), i);
                lemma_cong_mul(self.y@, k, self.y@, k);
                lemma_cong_neg(fields::qmul(self.y@, k), self.y@ * k);
                fields::lemma_fq_modulus();
                lemma_mod_twice(-self.y@, fields::fq_modulus());
                lemma_cong_mul(r.y@, k, -self.y@, k);
                assert((-self.y@) * k == -(self.y@ * k)) by (nonlinear_arith);
                fields::lemma_qrange(r.y@, k, 0);
                fields::lemma_qrange(fields::qmul(self.y@, k), 0, 0);
                lemma_cong_equal(
                    fields::qmul(r.y@, k),
                    fields::qneg(fields::qmul(self.y@, k)),
                );
            }
        }
        r
    }

    /// Twice the point.
    pub fn double(&self) -> (r: Self)
        requires
            self.wf(),
        ensures
            r.wf(),
            r@ == point_double(self@),
    {
        if self.is_infinity() {
            return *self;
        }
        let a = self.x.square();
        let b = self.y.square();
        let c = b.square();
        let xpb = self.x.add(&b);
        let d = xpb.square().sub(&a).sub(&c).double();
        let e = a.add(&a).add(&a);
        let f = e.square();
        let x3 = f.sub(&d.double());
        let y3 = e.mul(&d.sub(&x3)).sub(&c.double().double().double());
        let z3 = self.y.add(&self.z).square().sub(&b).sub(&self.z.square());
        let r = G1Jacobian { x: x3, y: y3, z: z3 };
        proof {
            self.lemma_coordinates();
            let x = self@->x;
            let y = self@->y;
            z3.lemma_of_view();
            lemma_doubling_z(self.y@, self.z@, b@);
            if y == 0 {
                fields::lemma_fq_modulus();
                lemma_small_mod(0, fields::fq_modulus() as nat);
                lemma_cong_times(self.y@, self.z@, 0, self.z@);
                assert(0 * (self.z@ * self.z@ * self.z@) == 0 && 0 * self.z@ == 0);
                lemma_cong_times(2, self.y@ * self.z@, 2, 0);
                lemma_cong_equal(z3@, 0);
            } else {
                lemma_doubling(self.x@, self.y@, self.z@, x, y, z3@);
            }
        }
        r
    }

    /// The sum with a point in affine coordinates.
    pub fn add_affine(&self, q: &G1Affine) -> (r: Self)
        requires
            self.wf(),
            q.wf(),
        ensures
            r.wf(),
            r@ == point_add(self@, q@),
    {
        if q.is_infinity() {
            return *self;
        }
        if self.is_infinity() {
            return q.to_jacobian();
        }
        let z1z1 = self.z.square();
        let u2 = q.x.mul(&z1z1);
        let s2 = q.y.mul(&self.z).mul(&z1z1);
        let h = u2.sub(&self.x);
        let r = s2.sub(&self.y).double();
        let ghost (x1, y1) = (self@->x, self@->y);
        let ghost (x2, y2) = (q.x@, q.y@);
        let ghost t = self.z@;
        proof {
            self.lemma_coordinates();
            q.x.lemma_of_view();
            q.y.lemma_of_view();
            lemma_nonzero(t);
            let (zz, zzz) = (t * t, t * t * t);
            lemma_cong_mul(t, t, t, t);
            lemma_cong_mul(x2, z1z1@, x2, zz);
            lemma_cong_mul(y2, t, y2, t);
            lemma_cong_mul(fields::qmul(y2, t), z1z1@, y2 * t, zz);
            assert((y2 * t) * zz == y2 * zzz) by (nonlinear_arith)
                requires
                    zz == t * t,
                    zzz == t * t * t,
            ;
            lemma_differences(u2@, self.x@, s2@, self.y@, x1, y1, x2, y2, t, h@, r@);
        }
        if h.is_zero() {
            if r.is_zero() {
                return self.double();
            }
            return G1Jacobian::infinity();
        }
        let hh = h.square();
        let i = hh.double().double();
        let j = h.mul(&i);
        let v = self.x.mul(&i);
        let x3 = r.square().sub(&j).sub(&v.double());
        let y3 = r.mul(&v.sub(&x3)).sub(&self.y.mul(&j).double());
        let z3 = self.z.add(&h).square().sub(&z1z1).sub(&hh);
        proof {
            let d = x2 - x1;
            let lh = d * (t * t);
            lemma_cong_mul(h@, h@, lh, lh);
            lemma_cong_add(hh@, hh@, lh * lh, lh * lh);
            lemma_cong_add(
                fields::qadd(hh@, hh@),
                fields::qadd(hh@, hh@),
                lh * lh + lh * lh,
                lh * lh + lh * lh,
            );
            assert(cong(i@, 4 * (lh * lh)));
            // z3 = 2 z1 h
            let zh = fields::qadd(t, h@);
            lemma_cong_add(t, h@, t, lh);
            lemma_cong_mul(zh, zh, t + lh, t + lh);
            lemma_cong_mul(t, t, t, t);
            lemma_cong_sub(fields::qmul(zh, zh), z1z1@, (t + lh) * (t + lh), t * t);
            lemma_cong_sub(
                fields::qsub(fields::qmul(zh, zh), z1z1@),
                hh@,
                (t + lh) * (t + lh) - t * t,
                lh * lh,
            );
            assert((t + lh) * (t + lh) - t * t - lh * lh == 2 * (t * lh)) by (nonlinear_arith);
            assert(t * lh == d * (t * t * t)) by (nonlinear_arith)
                requires
                    lh == d * (t * t),
            ;
            lemma_finish(x1, y1, x2, y2, t, self.x@, self.y@, h@, r@, i@, j@, v@, z3);
        }
        G1Jacobian { x: x3, y: y3, z: z3 }
    }

    /// The sum.
    pub fn add(&self, other: &Self) -> (r: Self)
        requires
            self.wf(),
            other.wf(),
        ensures
            r.wf(),
            r@ == point_add(self@, other@),
    {
        if self.is_infinity() {
            return *other;
        }
        if other.is_infinity() {
            return *self;
        }
        let z1z1 = self.z.square();
        let z2z2 = other.z.square();
        let u1 = self.x.mul(&z2z2);
        let u2 = other.x.mul(&z1z1);
        let s1 = self.y.mul(&other.z).mul(&z2z2);
        let s2 = other.y.mul(&self.z).mul(&z1z1);
        let h = u2.sub(&u1);
        let r = s2.sub(&s1).double();
        let ghost (x1, y1) = (self@->x, self@->y);
        let ghost (x2, y2) = (other@->x, other@->y);
        let ghost (z1, z2) = (self.z@, other.z@);
        let ghost t = z1 * z2;
        proof {
            self.lemma_coordinates();
            other.lemma_coordinates();
            lemma_nonzero(z1);
            lemma_nonzero(z2);
            lemma_cong_nonzero(z1, z2);
            lemma_cong_mul(z1, z1, z1, z1);
            lemma_cong_mul(z2, z2, z2, z2);
            lemma_cong_mul(self.x@, z2z2@, x1 * (z1 * z1), z2 * z2);
            lemma_cong_mul(other.x@, z1z1@, x2 * (z2 * z2), z1 * z1);
            assert((x1 * (z1 * z1)) * (z2 * z2) == x1 * (t * t)) by (nonlinear_arith)
                requires
                    t == z1 * z2,
            ;
            assert((x2 * (z2 * z2)) * (z1 * z1) == x2 * (t * t)) by (nonlinear_arith)
                requires
                    t == z1 * z2,
            ;
            lemma_cong_mul(self.y@, z2, y1 * (z1 * z1 * z1), z2);
            lemma_cong_mul(
                fields::qmul(self.y@, z2),
                z2z2@,
                (y1 * (z1 * z1 * z1)) * z2,
                z2 * z2,
            );
            assert(((y1 * (z1 * z1 * z1)) * z2) * (z2 * z2) == y1 * (t * t * t))
                by (nonlinear_arith)
                requires
                    t == z1 * z2,
            ;
            lemma_cong_mul(other.y@, z1, y2 * (z2 * z2 * z2), z1);
            lemma_cong_mul(
                fields::qmul(other.y@, z1),
                z1z1@,
                (y2 * (z2 * z2 * z2)) * z1,
                z1 * z1,
            );
            assert(((y2 * (z2 * z2 * z2)) * z1) * (z1 * z1) == y2 * (t * t * t))
                by (nonlinear_arith)
                requires
                    t == z1 * z2,
            ;
            lemma_differences(u2@, u1@, s2@, s1@, x1, y1, x2, y2, t, h@, r@);
        }
        if h.is_zero() {
            if r.is_zero() {
                return self.double();
            }
            return G1Jacobian::infinity();
        }
        let i = h.double().square();
        let j = h.mul(&i);
        let v = u1.mul(&i);
        let x3 = r.square().sub(&j).sub(&v.double());
        let y3 = r.mul(&v.sub(&x3)).sub(&s1.mul(&j).double());
        let z3 = self.z.add(&other.z).square().sub(&z1z1).sub(&z2z2).mul(&h);
        proof {
            let d = x2 - x1;
            let lh = d * (t * t);
            lemma_cong_add(h@, h@, lh, lh);
            lemma_cong_mul(fields::qadd(h@, h@), fields::qadd(h@, h@), lh + lh, lh + lh);
            assert((lh + lh) * (lh + lh) == 4 * (lh * lh)) by (nonlinear_arith);
            // z3 = 2 z1 z2 h
            let zz = fields::qadd(z1, z2);
            lemma_cong_add(z1, z2, z1, z2);
            lemma_cong_mul(zz, zz, z1 + z2, z1 + z2);
            lemma_cong_sub(fields::qmul(zz, zz), z1z1@, (z1 + z2) * (z1 + z2), z1 * z1);
            lemma_cong_sub(
                fields::qsub(fields::qmul(zz, zz), z1z1@),
                z2z2@,
                (z1 + z2) * (z1 + z2) - z1 * z1,
                z2 * z2,
            );
            assert((z1 + z2) * (z1 + z2) - z1 * z1 - z2 * z2 == 2 * t) by (nonlinear_arith)
                requires
                    t == z1 * z2,
            ;
            lemma_cong_mul(
                fields::qsub(fields::qsub(fields::qmul(zz, zz), z1z1@), z2z2@),
                h@,
                2 * t,
                lh,
            );
            assert((2 * t) * lh == 2 * (d * (t * t * t))) by (nonlinear_arith)
                requires
                    lh == d * (t * t),
            ;
            lemma_finish(x1, y1, x2, y2, t, u1@, s1@, h@, r@, i@, j@, v@, z3);
        }
        G1Jacobian { x: x3, y: y3, z: z3 }
    }

    /// The multiple of the point by a scalar in four little-endian limbs.
    pub fn scalar_mul(&self, scalar: &[u64; 4]) -> (r: Self)
        requires
            self.wf(),
        ensures
            r.wf(),
            r@ == point_mul(limbs::value(*scalar) as nat, self@),
    {
        let mut result = G1Jacobian::infinity();
        let mut base = *self;
        let ghost k = limbs::value(*scalar) as nat;
        let mut l: usize = 0;
        proof {
            assert(limbs_from(*scalar, 0) == k);
        }
        while l < 4
            invariant
                l <= 4,
                k == limbs::value(*scalar),
                result.wf(),
                base.wf(),
                double_and_add(result@, base@, limbs_from(*scalar, l as int)) == point_mul(
                    k,
                    self@,
                ),
            decreases 4 - l,
        {
            let mut s: u64 = scalar[l];
            let ghost high = limbs_from(*scalar, l + 1);
            proof {
                lemma_limbs_from(*scalar, l as int);
                vstd::arithmetic::power2::lemma2_to64();
            }
            let mut b: u32 = 0;
            while b < 64
                invariant
                    b <= 64,
                    result.wf(),
                    base.wf(),
                    s < vstd::arithmetic::power2::pow2((64 - b) as nat),
                    double_and_add(
                        result@,
                        base@,
                        s as nat + high * vstd::arithmetic::power2::pow2((64 - b) as nat),
                    ) == point_mul(k, self@),
                decreases 64 - b,
            {
                let ghost w = vstd::arithmetic::power2::pow2((63 - b) as nat);
                let ghost n = s as nat + high * (2 * w);
                proof {
                    vstd::arithmetic::power2::lemma_pow2_unfold((64 - b) as nat);
                    assert(s & 1 == s % 2) by (bit_vector);
                    assert(s >> 1 == s / 2) by (bit_vector);
                    assert(high * (2 * w) == 2 * (high * w)) by (nonlinear_arith);
                    assert(n % 2 == s % 2 && n / 2 == s / 2 + high * w);
                    if n == 0 {
                        lemma_double_and_add_zero(result@, base@);
                    }
                }
                if s & 1 == 1 {
                    result = result.add(&base);
                }
                base = base.double();
                s = s >> 1;
                b = b + 1;
            }
            proof {
                vstd::arithmetic::power2::lemma2_to64();
                assert(s == 0);
                assert(high * 1 == high);
            }
            l = l + 1;
        }
        result
    }

    /// The point whose Montgomery coordinates the `u32` limbs hold.
    pub fn from_bn254(p: &BN254G1Jacobian) -> (r: Self)
        ensures
            limbs::value(r.x.0) == limbs::value32(p.x.limbs),
            limbs::value(r.y.0) == limbs::value32(p.y.limbs),
            limbs::value(r.z.0) == limbs::value32(p.z.limbs),
    {
        G1Jacobian {
            x: Fq::from_bn254fq_raw(&p.x),
            y: Fq::from_bn254fq_raw(&p.y),
            z: Fq::from_bn254fq_raw(&p.z),
        }
    }

    /// The Montgomery coordinates as `u32` limbs.
    pub fn to_bn254(&self) -> (r: BN254G1Jacobian)
        ensures
            limbs::value32(r.x.limbs) == limbs::value(self.x.0),
            limbs::value32(r.y.limbs) == limbs::value(self.y.0),
            limbs::value32(r.z.limbs) == limbs::value(self.z.0),
    {
        BN254G1Jacobian {
            x: self.x.to_bn254fq_raw(),
            y: self.y.to_bn254fq_raw(),
            z: self.z.to_bn254fq_raw(),
        }
    }
}

/// The number that the limbs from index `l` on stand for.
spec fn limbs_from(a: [u64; 4], l: int) -> nat {
    if l == 0 {
        limbs::value(a) as nat
    } else if l == 1 {
        (a[1] + 0x1_0000000000000000int * a[2] + 0x1_0000000000000000_0000000000000000int
            * a[3]) as nat
    } else if l == 2 {
        (a[2] + 0x1_0000000000000000int * a[3]) as nat
    } else if l == 3 {
        a[3] as nat
    } else {
        0
    }
}

proof fn lemma_limbs_from(a: [u64; 4], l: int)
    requires
        0 <= l < 4,
    ensures
        limbs_from(a, l) == a[l] as nat + limbs_from(a, l + 1) * 0x1_0000000000000000nat,
{
}

/// Once nothing of the scalar is left, further doublings change nothing.
proof fn lemma_double_and_add_zero(acc: Point, base: Point)
    ensures
        double_and_add(acc, base, 0) == acc,
        double_and_add(acc, point_double(base), 0) == acc,
{
}

/// What the differences of the scaled coordinates say of the points.
proof fn lemma_differences(
    u2: int,
    u1: int,
    s2: int,
    s1: int,
    x1: int,
    y1: int,
    x2: int,
    y2: int,
    t: int,
    h: int,
    r: int,
)
    requires
        0 <= x1 < fields::fq_modulus(),
        0 <= y1 < fields::fq_modulus(),
        0 <= x2 < fields::fq_modulus(),
        0 <= y2 < fields::fq_modulus(),
        !cong(t, 0),
        cong(u1, x1 * (t * t)),
        cong(u2, x2 * (t * t)),
        cong(s1, y1 * (t * t * t)),
        cong(s2, y2 * (t * t * t)),
        h == fields::qsub(u2, u1),
        r == fields::qadd(fields::qsub(s2, s1), fields::qsub(s2, s1)),
    ensures
        cong(h, (x2 - x1) * (t * t)),
        cong(r, 2 * ((y2 - y1) * (t * t * t))),
        (h == 0) == (x1 == x2),
        (r == 0) == (y1 == y2),
{
    fields::lemma_fq_modulus();
    let p = fields::fq_modulus();
    lemma_small_mod(0, p as nat);
    fields::lemma_qrange(u2, u1, 0);
    fields::lemma_qrange(fields::qsub(s2, s1), fields::qsub(s2, s1), 0);
    let (t2, t3) = (t * t, t * t * t);
    lemma_cong_sub(u2, u1, x2 * t2, x1 * t2);
    assert(x2 * t2 - x1 * t2 == (x2 - x1) * t2) by (nonlinear_arith);
    lemma_cong_sub(s2, s1, y2 * t3, y1 * t3);
    assert(y2 * t3 - y1 * t3 == (y2 - y1) * t3) by (nonlinear_arith);
    let e = (y2 - y1) * t3;
    lemma_cong_add(fields::qsub(s2, s1), fields::qsub(s2, s1), e, e);
    lemma_cong_nonzero(t, t);
    lemma_cong_nonzero(t2, t);
    if x1 == x2 {
        assert(0 * t2 == 0);
        lemma_cong_equal(h, 0);
    } else {
        lemma_distinct(x1, x2);
        lemma_cong_nonzero(x2 - x1, t2);
    }
    if y1 == y2 {
        assert(0 * t3 == 0);
        lemma_cong_equal(r, 0);
    } else {
        lemma_distinct(y1, y2);
        lemma_cong_nonzero(y2 - y1, t3);
        lemma_nonzero(2);
        lemma_cong_nonzero(2, e);
    }
}

/// Distinct field elements have a difference that is not congruent to zero.
proof fn lemma_distinct(a: int, b: int)
    requires
        0 <= a < fields::fq_modulus(),
        0 <= b < fields::fq_modulus(),
        a != b,
    ensures
        !cong(b - a, 0),
{
    fields::lemma_fq_modulus();
    if cong(b - a, 0) {
        lemma_small_mod(0, fields::fq_modulus() as nat);
        lemma_mod_equivalence(b, a, fields::fq_modulus());
        lemma_cong_equal(a, b);
    }
}

/// The rest of an addition of two points with distinct abscissas.
proof fn lemma_finish(
    x1: int,
    y1: int,
    x2: int,
    y2: int,
    t: int,
    u1: int,
    s1: int,
    h: int,
    r: int,
    i: int,
    j: int,
    v: int,
    z3: Fq,
)
    requires
        0 <= x1 < fields::fq_modulus(),
        0 <= x2 < fields::fq_modulus(),
        x1 != x2,
        !cong(t, 0),
        cong(u1, x1 * (t * t)),
        cong(s1, y1 * (t * t * t)),
        cong(h, (x2 - x1) * (t * t)),
        cong(r, 2 * ((y2 - y1) * (t * t * t))),
        cong(i, 4 * (((x2 - x1) * (t * t)) * ((x2 - x1) * (t * t)))),
        j == fields::qmul(h, i),
        v == fields::qmul(u1, i),
        z3.wf(),
        cong(z3@, 2 * ((x2 - x1) * (t * t * t))),
    ensures
        ({
            let x3 = fields::qsub(
                fields::qsub(fields::qmul(r, r), j),
                fields::qadd(v, v),
            );
            let wj = fields::qmul(s1, j);
            let y3 = fields::qsub(
                fields::qmul(r, fields::qsub(v, x3)),
                fields::qadd(wj, wj),
            );
            jacobian_point(x3, y3, z3@) == third_point(chord_slope(x1, y1, x2, y2), x1, y1, x2)
        }),
{
    fields::lemma_fq_modulus();
    let p = fields::fq_modulus();
    let d = x2 - x1;
    let (t2, t3) = (t * t, t * t * t);
    let lh = d * t2;
    // The slope.
    let dq = fields::qsub(x2, x1);
    let dy = fields::qsub(y2, y1);
    let s = chord_slope(x1, y1, x2, y2);
    lemma_distinct(x1, x2);
    fields::lemma_qrange(x2, x1, 0);
    lemma_cong_sub(x2, x1, x2, x1);
    lemma_cong_sub(y2, y1, y2, y1);
    lemma_small_mod(0, p as nat);
    lemma_quotient(dy, dq);
    lemma_cong_times(s, dq, s, d);
    assert(cong(s * d, y2 - y1));
    lemma_cong_times(s * d, t3, y2 - y1, t3);
    lemma_cong_times(2, (s * d) * t3, 2, (y2 - y1) * t3);
    assert(s * d * t3 == (s * d) * t3);
    // j and v.
    let li = 4 * (lh * lh);
    lemma_cong_mul(h, i, lh, li);
    lemma_cong_mul(u1, i, x1 * t2, li);
    let t6 = t * t * t * t * t * t;
    assert(t2 * t2 * t2 == t6) by (nonlinear_arith)
        requires
            t2 == t * t,
            t6 == t * t * t * t * t * t,
    ;
    assert(lh * li == 4 * (d * d * d * t6)) by (nonlinear_arith)
        requires
            lh == d * t2,
            li == 4 * (lh * lh),
            t2 * t2 * t2 == t6,
    ;
    assert((x1 * t2) * li == 4 * (x1 * d * d * t6)) by (nonlinear_arith)
        requires
            lh == d * t2,
            li == 4 * (lh * lh),
            t2 * t2 * t2 == t6,
    ;
    // z3 is not zero.
    lemma_nonzero(2);
    lemma_cong_nonzero(t, t);
    lemma_cong_nonzero(t2, t);
    lemma_cong_nonzero(d, t3);
    lemma_cong_nonzero(2, d * t3);
    z3.lemma_of_view();
    assert(x1 + d == x2);
    lemma_addition(s, d, t, x1, y1, x2, r, j, v, s1, z3@);
}

/// The sum of the points, each times its scalar.
pub fn cpu_msm(points: &[G1Affine], scalars: &[Fr]) -> (r: G1Jacobian)
    requires
        points@.len() == scalars@.len(),
        all_points_wf(points@),
    ensures
        r.wf(),
        r@ == point_msm(points_of(points@), fields::vals(scalars@)),
{
    let mut result = G1Jacobian::infinity();
    let ghost ps = points_of(points@);
    let ghost ss = fields::vals(scalars@);
    for i in 0..points.len()
        invariant
            points@.len() == scalars@.len(),
            all_points_wf(points@),
            ps == points_of(points@),
            ss == fields::vals(scalars@),
            result.wf(),
            result@ == point_msm(ps.take(i as int), ss),
    {
        proof {
            assert(ps.take(i + 1).drop_last() =~= ps.take(i as int));
        }
        let canonical = scalars[i].to_canonical();
        let p = points[i].to_jacobian().scalar_mul(&canonical);
        result = result.add(&p);
    }
    assert(ps.take(points@.len() as int) =~= ps);
    result
}

/// The sum of the points, each times its scalar.
pub fn msm(points: &[G1Affine], scalars: &[Fr]) -> (r: G1Jacobian)
    requires
        points@.len() == scalars@.len(),
        all_points_wf(points@),
    ensures
        r.wf(),
        r@ == point_msm(points_of(points@), fields::vals(scalars@)),
{
    cpu_msm(points, scalars)
}

} // verus!
