//! How far a chord strays from its curve.
use crate::dxf::flatten::{bernstein, lemma_steps, square, steps_of, Curve};
use vstd::prelude::*;

verus! {

/// A cubic's coordinates along one axis.
pub struct Axis {
    pub p0: int,
    pub p1: int,
    pub p2: int,
    pub p3: int,
}

impl Axis {
    /// The sum that over `n^3` is the coordinate at t = i / n.
    pub open spec fn at(self, i: int, n: int) -> int {
        bernstein(self.p0, self.p1, self.p2, self.p3, i, n)
    }

    pub open spec fn first_second(self) -> int {
        self.p0 - 2 * self.p1 + self.p2
    }

    pub open spec fn last_second(self) -> int {
        self.p1 - 2 * self.p2 + self.p3
    }

    /// How far the chord from t = i / n to t = (i + 1) / n strays from the
    /// curve, a / b of the way along it, times `n^3 * b^3`.
    pub open spec fn stray(self, i: int, n: int, a: int, b: int) -> int {
        self.at(i * b + a, n * b) - (b * b) * ((b - a) * self.at(i, n) + a * self.at(i + 1, n))
    }
}

/// The cubes and mixed cubes of `x - y` and `z + w`.
proof fn lemma_expansions(x: int, y: int, z: int, w: int)
    ensures
        (x - y) * (x - y) * (x - y) == x * x * x - 3 * (x * x * y) + 3 * (x * y * y) - y * y * y,
        (x - y) * (x - y) * (z + w) == x * x * z + x * x * w - 2 * (x * y * z) - 2 * (x * y * w) + y
            * y * z + y * y * w,
        (x - y) * (z + w) * (z + w) == x * z * z + 2 * (x * z * w) + x * w * w - y * z * z - 2 * (y
            * z * w) - y * w * w,
        (z + w) * (z + w) * (z + w) == z * z * z + 3 * (z * z * w) + 3 * (z * w * w) + w * w * w,
{
    assert((x - y) * (x - y) * (x - y) == x * x * x - 3 * (x * x * y) + 3 * (x * y * y) - y * y * y)
        by (nonlinear_arith);
    assert((x - y) * (x - y) * (z + w) == x * x * z + x * x * w - 2 * (x * y * z) - 2 * (x * y * w)
        + y * y * z + y * y * w) by (nonlinear_arith);
    let (d, e) = (x - y, z + w);
    let (zz, zw, ww) = (z * z, z * w, w * w);
    assert(e * e == zz + 2 * zw + ww) by (nonlinear_arith)
        requires
            e == z + w,
            zz == z * z,
            zw == z * w,
            ww == w * w,
    ;
    assert(d * e * e == d * (e * e)) by (nonlinear_arith);
    let q = e * e;
    assert(d * q == x * q - y * q) by (nonlinear_arith)
        requires
            d == x - y,
    ;
    assert(x * q == x * zz + 2 * (x * zw) + x * ww && y * q == y * zz + 2 * (y * zw) + y * ww)
        by (nonlinear_arith)
        requires
            q == zz + 2 * zw + ww,
    ;
    assert(x * zz == x * z * z && x * zw == x * z * w && x * ww == x * w * w && y * zz == y * z * z
        && y * zw == y * z * w && y * ww == y * w * w) by (nonlinear_arith)
        requires
            zz == z * z,
            zw == z * w,
            ww == w * w,
    ;
    assert((z + w) * (z + w) * (z + w) == z * z * z + 3 * (z * z * w) + 3 * (z * w * w) + w * w * w)
        by (nonlinear_arith);
}

/// Products of two scaled numbers and a third, regrouped.
proof fn lemma_regrouped(u: int, i: int, v: int, a: int, b: int)
    ensures
        (u * b) * (i * b) * (v * b) == (b * b * b) * (u * i * v),
        (u * b) * (i * b) * a == (b * b * a) * (u * i),
        (u * b) * a * (i * b) == (b * b * a) * (u * i),
        a * (u * b) * (i * b) == (b * b * a) * (u * i),
        (u * b) * a * a == (b * a * a) * u,
        a * (u * b) * a == (b * a * a) * u,
        a * a * (u * b) == (b * a * a) * u,
{
    assert((u * b) * (i * b) * (v * b) == (b * b * b) * (u * i * v)) by (nonlinear_arith);
    assert((u * b) * (i * b) * a == (b * b * a) * (u * i)) by (nonlinear_arith);
    assert((u * b) * a * (i * b) == (b * b * a) * (u * i)) by (nonlinear_arith);
    assert(a * (u * b) * (i * b) == (b * b * a) * (u * i)) by (nonlinear_arith);
    assert((u * b) * a * a == (b * a * a) * u) by (nonlinear_arith);
    assert(a * (u * b) * a == (b * a * a) * u) by (nonlinear_arith);
    assert(a * a * (u * b) == (b * a * a) * u) by (nonlinear_arith);
}

/// One weight of the curve against the same weight of the chord.
proof fn lemma_weight(a: int, b: int, g: int, s: int, t: int, m: int, k: int)
    requires
        g == (b * b * b) * s + (b * b * a) * t + (b * a * a) * m + k * (a * a * a),
    ensures
        g - (b * b) * ((b - a) * s + a * (s + t + m + k)) == -((a * (b - a)) * (b * m + k * (a + b))),
{
    let e = s + t + m + k;
    assert((b * b) * ((b - a) * s + a * e) == (b * b * b) * s - (b * b * a) * s + (b * b * a) * e)
        by (nonlinear_arith);
    let c = b * b * a;
    assert(c * e == c * s + c * t + c * m + c * k) by (nonlinear_arith)
        requires
            e == s + t + m + k,
    ;
    let f = a * (b - a);
    assert(f * (b * m) == (b * b * a) * m - (b * a * a) * m) by (nonlinear_arith)
        requires
            f == a * (b - a),
    ;
    assert(f * (a + b) == b * b * a - a * a * a) by (nonlinear_arith)
        requires
            f == a * (b - a),
    ;
    let d = a + b;
    assert(f * (b * m + k * d) == f * (b * m) + k * (f * d)) by (nonlinear_arith);
    let x = a * a * a;
    assert(k * (c - x) == c * k - k * x) by (nonlinear_arith);
}

/// The four weights of the curve against those of the chord, `u = n - i`.
proof fn lemma_weights(u: int, i: int, a: int, b: int)
    ensures
        ({
            let (x, z, v, j) = (u * b - a, i * b + a, u - 1, i + 1);
            let f = a * (b - a);
            let d = a + b;
            &&& x * x * x - (b * b) * ((b - a) * (u * u * u) + a * (v * v * v)) == -(f * (b * (3 * u)
                - d))
            &&& x * x * z - (b * b) * ((b - a) * (u * u * i) + a * (v * v * j)) == -(f * (b * (i - 2
                * u) + d))
            &&& x * z * z - (b * b) * ((b - a) * (u * i * i) + a * (v * j * j)) == -(f * (b * (u - 2
                * i) - d))
            &&& z * z * z - (b * b) * ((b - a) * (i * i * i) + a * (j * j * j)) == -(f * (b * (3 * i)
                + d))
        }),
{
    let (bu, bi) = (u * b, i * b);
    lemma_expansions(bu, a, bi, a);
    lemma_expansions(u, 1, i, 1);
    lemma_regrouped(u, u, u, a, b);
    lemma_regrouped(u, u, i, a, b);
    lemma_regrouped(u, i, i, a, b);
    lemma_regrouped(i, i, i, a, b);
    lemma_regrouped(i, u, i, a, b);
    let (c2, c1) = (b * b * a, b * a * a);
    let (uu, ui, ii) = (u * u, u * i, i * i);
    assert(c2 * (-3 * uu) == -3 * (c2 * uu) && c1 * (3 * u) == 3 * (c1 * u)) by (nonlinear_arith);
    lemma_weight(a, b, (bu - a) * (bu - a) * (bu - a), u * u * u, -3 * uu, 3 * u, -1);
    assert(c2 * (uu - 2 * ui) == c2 * uu - 2 * (c2 * ui) && c1 * (i - 2 * u) == c1 * i - 2 * (c1
        * u)) by (nonlinear_arith);
    lemma_weight(a, b, (bu - a) * (bu - a) * (bi + a), u * u * i, uu - 2 * ui, i - 2 * u, 1);
    assert(c2 * (2 * ui - ii) == 2 * (c2 * ui) - c2 * ii && c1 * (u - 2 * i) == c1 * u - 2 * (c1
        * i)) by (nonlinear_arith);
    lemma_weight(a, b, (bu - a) * (bi + a) * (bi + a), u * i * i, 2 * ui - ii, u - 2 * i, -1);
    assert(c2 * (3 * ii) == 3 * (c2 * ii) && c1 * (3 * i) == 3 * (c1 * i)) by (nonlinear_arith);
    lemma_weight(a, b, (bi + a) * (bi + a) * (bi + a), i * i * i, 3 * ii, 3 * i, 1);
}

/// The weights, out of `3 * n * b`, of the second differences in what a
/// chord strays.
spec fn weight_first(u: int, a: int, b: int) -> int {
    b * (3 * u) - (a + b)
}

spec fn weight_last(i: int, a: int, b: int) -> int {
    b * (3 * i) + (a + b)
}

/// What a chord strays is a weighted sum of the curve's two second
/// differences.
proof fn lemma_stray(p: Axis, i: int, n: int, a: int, b: int)
    ensures
        p.stray(i, n, a, b) == -((a * (b - a)) * (weight_first(n - i, a, b) * p.first_second()
            + weight_last(i, a, b) * p.last_second())),
{
    let u = n - i;
    let (x, z, v, j) = (u * b - a, i * b + a, u - 1, i + 1);
    let f = a * (b - a);
    let d = a + b;
    lemma_weights(u, i, a, b);
    assert(n * b - (i * b + a) == x) by (nonlinear_arith)
        requires
            x == u * b - a,
            u == n - i,
    ;
    let (g0, g1, g2, g3) = (x * x * x, x * x * z, x * z * z, z * z * z);
    let (s0, s1, s2, s3) = (u * u * u, u * u * i, u * i * i, i * i * i);
    let (e0, e1, e2, e3) = (v * v * v, v * v * j, v * j * j, j * j * j);
    let q = b * b;
    let c = b - a;
    let (q0, q1, q2, q3) = (
        q * (c * s0 + a * e0),
        q * (c * s1 + a * e1),
        q * (c * s2 + a * e2),
        q * (c * s3 + a * e3),
    );
    lemma_term(q, c, a, s0, e0, p.p0);
    lemma_term(q, c, a, s1, e1, p.p1);
    lemma_term(q, c, a, s2, e2, p.p2);
    lemma_term(q, c, a, s3, e3, p.p3);
    let (t0, t1, t2, t3) = (s0 * p.p0, s1 * p.p1, s2 * p.p2, s3 * p.p3);
    let (w0, w1, w2, w3) = (e0 * p.p0, e1 * p.p1, e2 * p.p2, e3 * p.p3);
    assert(3 * s1 * p.p1 == 3 * t1 && 3 * e1 * p.p1 == 3 * w1 && 3 * g1 * p.p1 == 3 * (g1 * p.p1))
        by (nonlinear_arith)
        requires
            t1 == s1 * p.p1,
            w1 == e1 * p.p1,
    ;
    assert(3 * s2 * p.p2 == 3 * t2 && 3 * e2 * p.p2 == 3 * w2 && 3 * g2 * p.p2 == 3 * (g2 * p.p2))
        by (nonlinear_arith)
        requires
            t2 == s2 * p.p2,
            w2 == e2 * p.p2,
    ;
    assert(p.at(i, n) == t0 + 3 * t1 + 3 * t2 + t3);
    assert(p.at(i + 1, n) == w0 + 3 * w1 + 3 * w2 + w3);
    assert(p.at(i * b + a, n * b) == g0 * p.p0 + 3 * (g1 * p.p1) + 3 * (g2 * p.p2) + g3 * p.p3);
    lemma_chord_sum(q, c, a, (t0, t1, t2, t3), (w0, w1, w2, w3));
    let (k0, k1, k2, k3) = (
        b * (3 * u) - d,
        b * (i - 2 * u) + d,
        b * (u - 2 * i) - d,
        b * (3 * i) + d,
    );
    lemma_gap(g0, q0, f, k0, p.p0);
    lemma_gap(g1, q1, f, k1, p.p1);
    lemma_gap(g2, q2, f, k2, p.p2);
    lemma_gap(g3, q3, f, k3, p.p3);
    let (r0, r1, r2, r3) = (k0 * p.p0, k1 * p.p1, k2 * p.p2, k3 * p.p3);
    assert(p.stray(i, n, a, b) == -(f * r0) - 3 * (f * r1) - 3 * (f * r2) - f * r3);
    assert(f * (r0 + 3 * r1 + 3 * r2 + r3) == f * r0 + 3 * (f * r1) + 3 * (f * r2) + f * r3)
        by (nonlinear_arith);
    let (wf, wl) = (weight_first(u, a, b), weight_last(i, a, b));
    assert(3 * k1 == wl - 2 * wf && 3 * k2 == wf - 2 * wl) by (nonlinear_arith)
        requires
            k1 == b * (i - 2 * u) + d,
            k2 == b * (u - 2 * i) - d,
            wf == b * (3 * u) - d,
            wl == b * (3 * i) + d,
    ;
    lemma_differences(p, wf, wl, k1, k2);
}

/// A weight's part of the chord, its coordinate taken out.
proof fn lemma_term(q: int, c: int, a: int, s: int, e: int, p: int)
    ensures
        q * (c * (s * p) + a * (e * p)) == (q * (c * s + a * e)) * p,
{
    let t = c * s + a * e;
    assert(c * (s * p) + a * (e * p) == t * p) by (nonlinear_arith)
        requires
            t == c * s + a * e,
    ;
    assert(q * (t * p) == (q * t) * p) by (nonlinear_arith);
}

proof fn lemma_chord_sum(
    q: int,
    c: int,
    a: int,
    t: (int, int, int, int),
    w: (int, int, int, int),
)
    ensures
        q * (c * (t.0 + 3 * t.1 + 3 * t.2 + t.3) + a * (w.0 + 3 * w.1 + 3 * w.2 + w.3)) == q * (c
            * t.0 + a * w.0) + 3 * (q * (c * t.1 + a * w.1)) + 3 * (q * (c * t.2 + a * w.2)) + q * (c
            * t.3 + a * w.3),
{
    let (s, e) = (t.0 + 3 * t.1 + 3 * t.2 + t.3, w.0 + 3 * w.1 + 3 * w.2 + w.3);
    assert(c * s == c * t.0 + 3 * (c * t.1) + 3 * (c * t.2) + c * t.3) by (nonlinear_arith)
        requires
            s == t.0 + 3 * t.1 + 3 * t.2 + t.3,
    ;
    assert(a * e == a * w.0 + 3 * (a * w.1) + 3 * (a * w.2) + a * w.3) by (nonlinear_arith)
        requires
            e == w.0 + 3 * w.1 + 3 * w.2 + w.3,
    ;
    let (m0, m1, m2, m3) = (
        c * t.0 + a * w.0,
        c * t.1 + a * w.1,
        c * t.2 + a * w.2,
        c * t.3 + a * w.3,
    );
    assert(q * (m0 + 3 * m1 + 3 * m2 + m3) == q * m0 + 3 * (q * m1) + 3 * (q * m2) + q * m3)
        by (nonlinear_arith);
}

proof fn lemma_gap(g: int, q: int, f: int, k: int, p: int)
    requires
        g - q == -(f * k),
    ensures
        g * p - q * p == -(f * (k * p)),
{
    assert(g * p - q * p == (g - q) * p) by (nonlinear_arith);
    let m = f * k;
    assert((-m) * p == -(m * p)) by (nonlinear_arith);
    assert(f * k * p == f * (k * p)) by (nonlinear_arith);
}

proof fn lemma_differences(p: Axis, wf: int, wl: int, k1: int, k2: int)
    requires
        3 * k1 == wl - 2 * wf,
        3 * k2 == wf - 2 * wl,
    ensures
        wf * p.first_second() + wl * p.last_second() == wf * p.p0 + 3 * (k1 * p.p1) + 3 * (k2
            * p.p2) + wl * p.p3,
{
    let (p0, p1, p2, p3) = (p.p0, p.p1, p.p2, p.p3);
    assert(wf * (p0 - 2 * p1 + p2) == wf * p0 - 2 * (wf * p1) + wf * p2) by (nonlinear_arith);
    assert(wl * (p1 - 2 * p2 + p3) == wl * p1 - 2 * (wl * p2) + wl * p3) by (nonlinear_arith);
    assert(3 * (k1 * p1) == wl * p1 - 2 * (wf * p1)) by (nonlinear_arith)
        requires
            3 * k1 == wl - 2 * wf,
    ;
    assert(3 * (k2 * p2) == wf * p2 - 2 * (wl * p2)) by (nonlinear_arith)
        requires
            3 * k2 == wf - 2 * wl,
    ;
}

/// A weighted sum of two vectors is no longer than the weights' sum times the
/// longer one.
proof fn lemma_weighted_length(w: int, v: int, x1: int, y1: int, x2: int, y2: int, m: int)
    requires
        w >= 0,
        v >= 0,
        square(x1) + square(y1) <= m,
        square(x2) + square(y2) <= m,
    ensures
        square(w * x1 + v * x2) + square(w * y1 + v * y2) <= square(w + v) * m,
{
    lemma_binomial(w, x1, v, x2);
    lemma_binomial(w, y1, v, y2);
    let (s1, s2) = (square(x1) + square(y1), square(x2) + square(y2));
    let dot = x1 * x2 + y1 * y2;
    assert(2 * (x1 * x2) <= x1 * x1 + x2 * x2) by (nonlinear_arith);
    assert(2 * (y1 * y2) <= y1 * y1 + y2 * y2) by (nonlinear_arith);
    let (ww, wv, vv) = (w * w, w * v, v * v);
    assert(ww >= 0 && wv >= 0 && vv >= 0) by (nonlinear_arith)
        requires
            w >= 0,
            v >= 0,
            ww == w * w,
            wv == w * v,
            vv == v * v,
    ;
    assert(ww * s1 == ww * square(x1) + ww * square(y1)) by (nonlinear_arith)
        requires
            s1 == square(x1) + square(y1),
    ;
    assert(vv * s2 == vv * square(x2) + vv * square(y2)) by (nonlinear_arith)
        requires
            s2 == square(x2) + square(y2),
    ;
    assert(wv * dot == wv * (x1 * x2) + wv * (y1 * y2)) by (nonlinear_arith)
        requires
            dot == x1 * x2 + y1 * y2,
    ;
    assert(ww * s1 <= ww * m && vv * s2 <= vv * m && wv * dot <= wv * m) by (nonlinear_arith)
        requires
            ww >= 0,
            wv >= 0,
            vv >= 0,
            s1 <= m,
            s2 <= m,
            dot <= m,
    ;
    assert((w + v) * (w + v) == ww + 2 * wv + vv) by (nonlinear_arith)
        requires
            ww == w * w,
            wv == w * v,
            vv == v * v,
    ;
    assert((ww + 2 * wv + vv) * m == ww * m + 2 * (wv * m) + vv * m) by (nonlinear_arith);
}

proof fn lemma_binomial(w: int, x: int, v: int, y: int)
    ensures
        square(w * x + v * y) == (w * w) * square(x) + 2 * ((w * v) * (x * y)) + (v * v) * square(y),
{
    let (p, q) = (w * x, v * y);
    assert((p + q) * (p + q) == p * p + 2 * (p * q) + q * q) by (nonlinear_arith);
    assert((w * x) * (w * x) == (w * w) * (x * x)) by (nonlinear_arith);
    assert((w * x) * (v * y) == (w * v) * (x * y)) by (nonlinear_arith);
    assert((v * y) * (v * y) == (v * v) * (y * y)) by (nonlinear_arith);
}

/// The curve's coordinates along x and along y.
pub open spec fn x_axis(curve: Curve) -> Axis {
    Axis {
        p0: curve.p0.x as int,
        p1: curve.p1.x as int,
        p2: curve.p2.x as int,
        p3: curve.p3.x as int,
    }
}

pub open spec fn y_axis(curve: Curve) -> Axis {
    Axis {
        p0: curve.p0.y as int,
        p1: curve.p1.y as int,
        p2: curve.p2.y as int,
        p3: curve.p3.y as int,
    }
}

/// Every chord stays within the tolerance of its curve: at a / b of the way
/// along chord `i` of `n`, the curve (both scaled by `n^3 * b^3`) is no
/// further off than the tolerance, scaled likewise.
pub proof fn law_chords_stay_within_the_tolerance(
    curve: Curve,
    tolerance: int,
    n: int,
    i: int,
    a: int,
    b: int,
)
    requires
        tolerance >= 0,
        steps_of(curve, tolerance) == Some(n),
        0 <= i < n,
        0 <= a <= b,
        1 <= b,
    ensures
        square(x_axis(curve).stray(i, n, a, b)) + square(y_axis(curve).stray(i, n, a, b)) <= square(
            tolerance * ((n * n * n) * (b * b * b)),
        ),
{
    let (x, y) = (x_axis(curve), y_axis(curve));
    lemma_steps(curve, tolerance);
    lemma_stray(x, i, n, a, b);
    lemma_stray(y, i, n, a, b);
    let (w, v) = (weight_first(n - i, a, b), weight_last(i, a, b));
    let f = a * (b - a);
    let m = curve.bend2();
    let u = n - i;
    assert(b * (3 * u) >= 3 * b && b * (3 * i) >= 0) by (nonlinear_arith)
        requires
            b >= 1,
            u >= 1,
            i >= 0,
    ;
    assert(w + v == 3 * (b * n)) by (nonlinear_arith)
        requires
            w == b * (3 * u) - (a + b),
            v == b * (3 * i) + (a + b),
            u == n - i,
    ;
    lemma_weighted_length(
        w,
        v,
        x.first_second(),
        y.first_second(),
        x.last_second(),
        y.last_second(),
        m,
    );
    let vx = w * x.first_second() + v * x.last_second();
    let vy = w * y.first_second() + v * y.last_second();
    let length = square(vx) + square(vy);
    let (sx, sy) = (x.stray(i, n, a, b), y.stray(i, n, a, b));
    lemma_square_product(f, vx);
    lemma_square_product(f, vy);
    assert(square(sx) == square(f) * square(vx)) by {
        let fx = f * vx;
        assert((-fx) * (-fx) == fx * fx) by (nonlinear_arith);
    }
    assert(square(sy) == square(f) * square(vy)) by {
        let fy = f * vy;
        assert((-fy) * (-fy) == fy * fy) by (nonlinear_arith);
    }
    let ff = square(f);
    assert(ff * length == ff * square(vx) + ff * square(vy)) by (nonlinear_arith)
        requires
            length == square(vx) + square(vy),
    ;
    assert(0 <= f && 4 * f <= b * b) by (nonlinear_arith)
        requires
            f == a * (b - a),
            0 <= a <= b,
    ;
    let bb = b * b;
    assert(0 <= 16 * (f * f) <= bb * bb) by (nonlinear_arith)
        requires
            0 <= f,
            4 * f <= bb,
    ;
    let bn = b * n;
    let nine = 9 * (bn * bn);
    assert(square(w + v) == nine) by (nonlinear_arith)
        requires
            w + v == 3 * bn,
            nine == 9 * (bn * bn),
            square(w + v) == (w + v) * (w + v),
    ;
    let b4 = bb * bb;
    let bn2 = bn * bn;
    assert(vx * vx >= 0 && vy * vy >= 0) by (nonlinear_arith);
    assert(0 <= length <= nine * m);
    // 16 f^2 L <= b^4 * 9 (bn)^2 m
    let nm = nine * m;
    assert(16 * (ff * length) <= b4 * nm) by (nonlinear_arith)
        requires
            0 <= 16 * ff <= b4,
            0 <= length <= nm,
    ;
    let reach = square(square(n)) * square(tolerance);
    assert(9 * m <= 16 * reach);
    assert(bn2 >= 0 && b4 >= 0) by (nonlinear_arith)
        requires
            bn2 == bn * bn,
            b4 == bb * bb,
    ;
    assert(nm == bn2 * (9 * m)) by (nonlinear_arith)
        requires
            nm == nine * m,
            nine == 9 * bn2,
    ;
    assert(bn2 * (9 * m) <= bn2 * (16 * reach)) by (nonlinear_arith)
        requires
            bn2 >= 0,
            9 * m <= 16 * reach,
    ;
    assert(b4 * nm <= b4 * (bn2 * (16 * reach))) by (nonlinear_arith)
        requires
            b4 >= 0,
            nm <= bn2 * (16 * reach),
    ;
    assert(b4 * (bn2 * (16 * reach)) == 16 * (b4 * (bn2 * reach))) by (nonlinear_arith);
    lemma_sixth(tolerance, n, b);
}

proof fn lemma_square_product(f: int, v: int)
    ensures
        square(f * v) == square(f) * square(v),
{
    assert((f * v) * (f * v) == (f * f) * (v * v)) by (nonlinear_arith);
}

/// The tolerance scaled by `n^3 * b^3`, squared.
proof fn lemma_sixth(tolerance: int, n: int, b: int)
    ensures
        square(tolerance * ((n * n * n) * (b * b * b))) == ((b * b) * (b * b)) * (((b * n) * (b
            * n)) * (square(square(n)) * square(tolerance))),
{
    let (n2, b2, t2) = (n * n, b * b, tolerance * tolerance);
    let (n3, b3) = (n * n * n, b * b * b);
    lemma_square_product(tolerance, n3 * b3);
    lemma_square_product(n3, b3);
    assert(n3 * n3 == n2 * (n2 * n2)) by (nonlinear_arith)
        requires
            n3 == n * n * n,
            n2 == n * n,
    ;
    assert(b3 * b3 == b2 * (b2 * b2)) by (nonlinear_arith)
        requires
            b3 == b * b * b,
            b2 == b * b,
    ;
    lemma_square_product(b, n);
    assert((b * n) * (b * n) == b2 * n2);
    let (n4, b4) = (n2 * n2, b2 * b2);
    let (p, q, s) = (n2 * n4, b2 * b4, n4 * t2);
    assert(t2 * (p * q) == q * (p * t2)) by (nonlinear_arith);
    assert(n2 * n4 * t2 == n2 * (n4 * t2)) by (nonlinear_arith);
    let r = n2 * s;
    assert(b2 * b4 * r == b4 * (b2 * r)) by (nonlinear_arith);
    assert(b2 * (n2 * s) == b2 * n2 * s) by (nonlinear_arith);
}

} // verus!
