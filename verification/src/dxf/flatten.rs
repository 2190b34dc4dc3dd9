//! Curves cut into chords.
use crate::dxf::outline::{drawn_ok, Outline, OutlineView, Piece};
use crate::geometry::{Xy, REACH};
use vstd::prelude::*;

verus! {

/// The flattening tolerances of the line modes: "more lines" keeps every
/// chord within 0.05 pt (0.018 mm) of its curve, "fewer lines" within 0.5 pt
/// (0.18 mm).
pub const FINE_TOLERANCE: u64 = 50_000;

pub const COARSE_TOLERANCE: u64 = 500_000;

/// The most chords one cubic is cut into: at 0.05 pt it takes a curve about
/// a kilometre across to need more, so only a hostile file reaches it.
pub const MAX_STEPS: u64 = 4096;

/// The most vertices a line-mode file holds (about 600 MB of DXF).
pub const MAX_VERTICES: usize = 10_000_000;

/// Why a drawing is not written as lines.
#[derive(Clone, Copy, Debug, PartialEq, Eq, Structural)]
pub enum Refusal {
    /// A curve needs more than `MAX_STEPS` chords.
    TooLarge,
    /// The file would hold more than `MAX_VERTICES` vertices.
    TooManyVertices,
}

/// A cubic's four control points.
#[derive(Clone, Copy)]
pub struct Curve {
    pub p0: Xy,
    pub p1: Xy,
    pub p2: Xy,
    pub p3: Xy,
}

impl Curve {
    pub open spec fn ok(self) -> bool {
        drawn_ok(self.p0) && drawn_ok(self.p1) && drawn_ok(self.p2) && drawn_ok(self.p3)
    }

    /// The larger second difference of the control points, squared.
    pub open spec fn bend2(self) -> int {
        let first = second2(self.p0, self.p1, self.p2);
        let last = second2(self.p1, self.p2, self.p3);
        if first >= last {
            first
        } else {
            last
        }
    }
}

/// The square of the length of the second difference of three points.
pub open spec fn second2(a: Xy, b: Xy, c: Xy) -> int {
    square(a.x - 2 * b.x + c.x) + square(a.y - 2 * b.y + c.y)
}

pub open spec fn square(n: int) -> int {
    n * n
}

/// Whether `n` equal steps of t keep the chords within `tolerance`: Wang's
/// bound, `n^2 >= 3/4 * bend / tolerance`, squared.
pub open spec fn enough(bend2: int, tolerance: int, n: int) -> bool {
    16 * (square(square(n)) * square(tolerance)) >= 9 * bend2
}

/// The least number of steps from `n` on that is enough, at most `MAX_STEPS`.
pub open spec fn steps_from(bend2: int, tolerance: int, n: int) -> Option<int>
    decreases MAX_STEPS + 1 - n,
{
    if n > MAX_STEPS {
        None
    } else if enough(bend2, tolerance, n) {
        Some(n)
    } else {
        steps_from(bend2, tolerance, n + 1)
    }
}

/// How many equal steps of t keep a cubic's chords within `tolerance` of it;
/// none when it takes more than `MAX_STEPS`.
pub open spec fn steps_of(curve: Curve, tolerance: int) -> Option<int> {
    steps_from(curve.bend2(), tolerance, 1)
}

proof fn lemma_steps_from(bend2: int, tolerance: int, n: int)
    ensures
        steps_from(bend2, tolerance, n) matches Some(m) ==> n <= m <= MAX_STEPS && enough(
            bend2,
            tolerance,
            m,
        ),
    decreases MAX_STEPS + 1 - n,
{
    if n <= MAX_STEPS && !enough(bend2, tolerance, n) {
        lemma_steps_from(bend2, tolerance, n + 1);
    }
}

/// The number of steps is enough and within its bounds.
pub proof fn lemma_steps(curve: Curve, tolerance: int)
    ensures
        steps_of(curve, tolerance) matches Some(n) ==> 1 <= n <= MAX_STEPS && enough(
            curve.bend2(),
            tolerance,
            n,
        ),
{
    lemma_steps_from(curve.bend2(), tolerance, 1);
}

proof fn lemma_power4(n: int, tolerance: int)
    requires
        0 <= n <= MAX_STEPS,
        0 <= tolerance <= COARSE_TOLERANCE,
    ensures
        0 <= square(n) <= 16_777_216,
        0 <= square(square(n)) <= 281_474_976_710_656,
        0 <= square(tolerance) <= 250_000_000_000,
        0 <= 16 * (square(square(n)) * square(tolerance)) <= 1_125_899_906_842_624_000_000_000_000,
{
    assert(0 <= n * n <= 4096 * 4096) by (nonlinear_arith)
        requires
            0 <= n <= 4096,
    ;
    let m = square(n);
    assert(0 <= m * m <= 16_777_216 * 16_777_216) by (nonlinear_arith)
        requires
            0 <= m <= 16_777_216,
    ;
    assert(0 <= tolerance * tolerance <= 500_000 * 500_000) by (nonlinear_arith)
        requires
            0 <= tolerance <= 500_000,
    ;
    let (a, b) = (square(m), square(tolerance));
    assert(0 <= a * b <= 281_474_976_710_656 * 250_000_000_000) by (nonlinear_arith)
        requires
            0 <= a <= 281_474_976_710_656,
            0 <= b <= 250_000_000_000,
    ;
}

proof fn lemma_never_enough(bend2: int, tolerance: int, n: int)
    requires
        n >= 1,
        0 <= tolerance <= COARSE_TOLERANCE,
        9 * bend2 > 1_125_899_906_842_624_000_000_000_000,
    ensures
        steps_from(bend2, tolerance, n) is None,
    decreases MAX_STEPS + 1 - n,
{
    if n <= MAX_STEPS {
        lemma_power4(n, tolerance);
        lemma_never_enough(bend2, tolerance, n + 1);
    }
}

/// A second difference past which every cubic needs more than `MAX_STEPS`.
const FAR: i128 = 100_000_000_000_000;

/// A second difference along one axis; none past `FAR`.
fn second(a: i64, b: i64, c: i64) -> (d: Option<i128>)
    ensures
        d matches Some(v) ==> v == a - 2 * b + c && -FAR <= v <= FAR,
        d is None ==> square(a - 2 * b + c) >= square(FAR as int),
{
    let v: i128 = a as i128 - 2 * b as i128 + c as i128;
    if v > FAR || v < -FAR {
        proof {
            let w = v as int;
            assert(w * w >= 100_000_000_000_000 * 100_000_000_000_000) by (nonlinear_arith)
                requires
                    w > 100_000_000_000_000 || w < -100_000_000_000_000,
            ;
        }
        None
    } else {
        Some(v)
    }
}

fn square_of(v: i128) -> (s: i128)
    requires
        -FAR <= v <= FAR,
    ensures
        s == square(v as int),
        0 <= s <= 10_000_000_000_000_000_000_000_000_000,
{
    assert(0 <= v * v <= 100_000_000_000_000 * 100_000_000_000_000) by (nonlinear_arith)
        requires
            -100_000_000_000_000 <= v <= 100_000_000_000_000,
    ;
    v * v
}

/// The square of a second difference; none when it is too large for any
/// number of steps.
fn second_square(a: Xy, b: Xy, c: Xy) -> (s: Option<i128>)
    ensures
        s matches Some(v) ==> v == second2(a, b, c) && 0 <= v
            <= 20_000_000_000_000_000_000_000_000_000,
        s is None ==> second2(a, b, c) >= 10_000_000_000_000_000_000_000_000_000,
{
    proof {
        let (x, y) = (a.x - 2 * b.x + c.x, a.y - 2 * b.y + c.y);
        assert(x * x >= 0 && y * y >= 0) by (nonlinear_arith);
        assert(square(FAR as int) == 10_000_000_000_000_000_000_000_000_000) by (nonlinear_arith);
    }
    match (second(a.x, b.x, c.x), second(a.y, b.y, c.y)) {
        (Some(x), Some(y)) => Some(square_of(x) + square_of(y)),
        _ => None,
    }
}

/// How many equal steps of t keep a cubic's chords within `tolerance` of it:
/// Wang's formula. The bound holds for every cubic, so the flattening is
/// within the tolerance everywhere, and short or flat pieces get few steps.
pub fn steps(curve: Curve, tolerance: u64) -> (n: Result<u64, Refusal>)
    requires
        0 < tolerance <= COARSE_TOLERANCE,
    ensures
        match n {
            Ok(n) => steps_of(curve, tolerance as int) == Some(n as int) && 1 <= n <= MAX_STEPS,
            Err(e) => steps_of(curve, tolerance as int) is None && e == Refusal::TooLarge,
        },
{
    let first = second_square(curve.p0, curve.p1, curve.p2);
    let last = second_square(curve.p1, curve.p2, curve.p3);
    let bend2: i128 = match (first, last) {
        (Some(a), Some(b)) => if a >= b {
            a
        } else {
            b
        },
        _ => {
            proof {
                lemma_never_enough(curve.bend2(), tolerance as int, 1);
            }
            return Err(Refusal::TooLarge);
        },
    };
    assert(bend2 == curve.bend2());
    let mut n: u64 = 1;
    while n <= MAX_STEPS
        invariant
            1 <= n <= MAX_STEPS + 1,
            0 < tolerance <= COARSE_TOLERANCE,
            bend2 == curve.bend2(),
            0 <= bend2 <= 20_000_000_000_000_000_000_000_000_000,
            steps_of(curve, tolerance as int) == steps_from(bend2 as int, tolerance as int, n as int),
        decreases MAX_STEPS + 1 - n,
    {
        proof {
            lemma_power4(n as int, tolerance as int);
        }
        let m: i128 = n as i128 * n as i128;
        let fourth: i128 = m * m;
        let reach: i128 = tolerance as i128 * tolerance as i128;
        if 16 * (fourth * reach) >= 9 * bend2 {
            return Ok(n);
        }
        n = n + 1;
    }
    Err(Refusal::TooLarge)
}

/// `value` over `over`, rounded to the nearest whole number, halves away from
/// zero.
pub open spec fn rounded(value: int, over: int) -> int {
    if value >= 0 {
        (2 * value + over) / (2 * over)
    } else {
        -((2 * -value + over) / (2 * over))
    }
}

/// The sum that over `n^3` is a cubic's coordinate at t = i / n.
pub open spec fn bernstein(a: int, b: int, c: int, d: int, i: int, n: int) -> int {
    let u = n - i;
    (u * u * u) * a + 3 * (u * u * i) * b + 3 * (u * i * i) * c + (i * i * i) * d
}

/// A cubic's point at t = i / n, to the nearest millionth.
pub open spec fn point_at(curve: Curve, i: int, n: int) -> Xy {
    Xy {
        x: rounded(
            bernstein(
                curve.p0.x as int,
                curve.p1.x as int,
                curve.p2.x as int,
                curve.p3.x as int,
                i,
                n,
            ),
            n * n * n,
        ) as i64,
        y: rounded(
            bernstein(
                curve.p0.y as int,
                curve.p1.y as int,
                curve.p2.y as int,
                curve.p3.y as int,
                i,
                n,
            ),
            n * n * n,
        ) as i64,
    }
}

proof fn lemma_weights(i: int, n: int)
    requires
        0 <= i <= n,
    ensures
        ({
            let u = n - i;
            &&& u * u * u >= 0
            &&& u * u * i >= 0
            &&& u * i * i >= 0
            &&& i * i * i >= 0
            &&& u * u * u + 3 * (u * u * i) + 3 * (u * i * i) + i * i * i == n * n * n
        }),
{
    let u = n - i;
    assert(u * u >= 0 && u * i >= 0 && i * i >= 0) by (nonlinear_arith)
        requires
            u >= 0,
            i >= 0,
    ;
    let (uu, ui, ii) = (u * u, u * i, i * i);
    assert(uu * u >= 0 && uu * i >= 0 && ui * i >= 0 && ii * i >= 0) by (nonlinear_arith)
        requires
            u >= 0,
            i >= 0,
            uu >= 0,
            ui >= 0,
            ii >= 0,
    ;
    assert((u + i) * (u + i) * (u + i) == u * u * u + 3 * (u * u * i) + 3 * (u * i * i) + i * i * i)
        by (nonlinear_arith);
}

/// A weighted sum lies between the bounds of what it weighs.
proof fn lemma_blend(a: int, b: int, c: int, d: int, i: int, n: int, low: int, high: int)
    requires
        0 <= i <= n,
        low <= a <= high,
        low <= b <= high,
        low <= c <= high,
        low <= d <= high,
    ensures
        low * (n * n * n) <= bernstein(a, b, c, d, i, n) <= high * (n * n * n),
{
    lemma_weights(i, n);
    let u = n - i;
    let (w0, w1, w2, w3) = (u * u * u, u * u * i, u * i * i, i * i * i);
    assert(low * w0 <= w0 * a <= high * w0 && low * w1 <= w1 * b <= high * w1 && low * w2 <= w2 * c
        <= high * w2 && low * w3 <= w3 * d <= high * w3) by (nonlinear_arith)
        requires
            w0 >= 0,
            w1 >= 0,
            w2 >= 0,
            w3 >= 0,
            low <= a <= high,
            low <= b <= high,
            low <= c <= high,
            low <= d <= high,
    ;
    let sum = w0 + 3 * w1 + 3 * w2 + w3;
    assert(low * sum == low * w0 + 3 * (low * w1) + 3 * (low * w2) + low * w3) by (nonlinear_arith)
        requires
            sum == w0 + 3 * w1 + 3 * w2 + w3,
    ;
    assert(high * sum == high * w0 + 3 * (high * w1) + 3 * (high * w2) + high * w3)
        by (nonlinear_arith)
        requires
            sum == w0 + 3 * w1 + 3 * w2 + w3,
    ;
    assert(3 * (u * u * i) * b == 3 * (w1 * b)) by (nonlinear_arith)
        requires
            w1 == u * u * i,
    ;
    assert(3 * (u * i * i) * c == 3 * (w2 * c)) by (nonlinear_arith)
        requires
            w2 == u * i * i,
    ;
}

/// Rounding is monotone enough to stay within whole bounds.
proof fn lemma_rounded(value: int, over: int, bound: int)
    requires
        over > 0,
        bound >= 0,
        -bound * over <= value <= bound * over,
    ensures
        -bound <= rounded(value, over) <= bound,
        -over <= 2 * (value - rounded(value, over) * over) <= over,
{
    let size = if value >= 0 {
        value
    } else {
        -value
    };
    let q = (2 * size + over) / (2 * over);
    vstd::arithmetic::div_mod::lemma_fundamental_div_mod(2 * size + over, 2 * over);
    let r = (2 * size + over) % (2 * over);
    assert(-bound * over == -(bound * over)) by (nonlinear_arith);
    assert(0 <= q <= bound) by (nonlinear_arith)
        requires
            2 * size + over == (2 * over) * q + r,
            0 <= r < 2 * over,
            0 <= size <= bound * over,
            over > 0,
            bound >= 0,
    ;
    assert(-over <= 2 * (size - q * over) <= over) by (nonlinear_arith)
        requires
            2 * size + over == (2 * over) * q + r,
            0 <= r < 2 * over,
    ;
    assert(-q * over == -(q * over)) by (nonlinear_arith);
}

/// The nearest whole number to `value` over `over`.
fn nearest(value: i128, over: i128) -> (q: i64)
    requires
        0 < over <= 68_719_476_736,
        -5_000_000_000_000_000_000 * over <= value <= 5_000_000_000_000_000_000 * over,
    ensures
        q == rounded(value as int, over as int),
        -5_000_000_000_000_000_000 <= q <= 5_000_000_000_000_000_000,
{
    proof {
        lemma_rounded(value as int, over as int, 5_000_000_000_000_000_000);
    }
    if value >= 0 {
        let q: u128 = (2 * value + over) as u128 / (2 * over) as u128;
        q as i64
    } else {
        let q: u128 = (2 * (-value) + over) as u128 / (2 * over) as u128;
        -(q as i64)
    }
}

fn blend(a: i64, b: i64, c: i64, d: i64, i: u64, n: u64) -> (v: i64)
    requires
        -5 * REACH <= a <= 5 * REACH,
        -5 * REACH <= b <= 5 * REACH,
        -5 * REACH <= c <= 5 * REACH,
        -5 * REACH <= d <= 5 * REACH,
        0 < i < n <= MAX_STEPS,
    ensures
        v == rounded(bernstein(a as int, b as int, c as int, d as int, i as int, n as int), (n * n * n) as int),
        -5 * REACH <= v <= 5 * REACH,
{
    let u: i128 = (n - i) as i128;
    let t: i128 = i as i128;
    let m: i128 = n as i128;
    proof {
        let (ui, ti, mi) = (u as int, t as int, m as int);
        lemma_weights(i as int, n as int);
        lemma_blend(
            a as int,
            b as int,
            c as int,
            d as int,
            i as int,
            n as int,
            -5 * REACH,
            5 * REACH as int,
        );
        assert(0 <= mi * mi <= 16_777_216) by (nonlinear_arith)
            requires
                0 <= mi <= 4096,
        ;
        let mm = mi * mi;
        assert(0 < mm * mi <= 68_719_476_736) by (nonlinear_arith)
            requires
                0 < mi <= 4096,
                mm == mi * mi,
                0 <= mm <= 16_777_216,
        ;
        assert(0 <= ui * ui <= mm && 0 <= ti * ti <= mm && 0 <= ui * ti <= mm) by (nonlinear_arith)
            requires
                0 <= ui <= mi,
                0 <= ti <= mi,
                mm == mi * mi,
        ;
        let (w0, w1, w2, w3) = (ui * ui * ui, ui * ui * ti, ui * ti * ti, ti * ti * ti);
        assert(w0 <= 68_719_476_736 && w1 <= 68_719_476_736 && w2 <= 68_719_476_736 && w3
            <= 68_719_476_736);
        lemma_bounded_product(w0, a as int);
        lemma_bounded_product(w1, b as int);
        lemma_bounded_product(w2, c as int);
        lemma_bounded_product(w3, d as int);
        assert(3 * (ui * ui * ti) * b == 3 * (w1 * b)) by (nonlinear_arith)
            requires
                w1 == ui * ui * ti,
        ;
        assert(3 * (ui * ti * ti) * c == 3 * (w2 * c)) by (nonlinear_arith)
            requires
                w2 == ui * ti * ti,
        ;
        assert(-5 * REACH * (mi * mi * mi) == -5_000_000_000_000_000_000 * (mi * mi * mi));
    }
    let sum: i128 = (u * u * u) * a as i128 + 3 * (u * u * t) * b as i128 + 3 * (u * t * t)
        * c as i128 + (t * t * t) * d as i128;
    nearest(sum, m * m * m)
}

proof fn lemma_bounded_product(w: int, v: int)
    requires
        0 <= w <= 68_719_476_736,
        -5 * REACH <= v <= 5 * REACH,
    ensures
        -350_000_000_000_000_000_000_000_000_000 <= w * v <= 350_000_000_000_000_000_000_000_000_000,
{
    assert(-68_719_476_736 * 5_000_000_000_000_000_000 <= w * v <= 68_719_476_736
        * 5_000_000_000_000_000_000) by (nonlinear_arith)
        requires
            0 <= w <= 68_719_476_736,
            -5_000_000_000_000_000_000 <= v <= 5_000_000_000_000_000_000,
    ;
}

/// A cubic's point at t = i / n, to the nearest millionth.
pub fn cubic_at(curve: Curve, i: u64, n: u64) -> (p: Xy)
    requires
        curve.ok(),
        0 < i < n <= MAX_STEPS,
    ensures
        p == point_at(curve, i as int, n as int),
        drawn_ok(p),
{
    Xy {
        x: blend(curve.p0.x, curve.p1.x, curve.p2.x, curve.p3.x, i, n),
        y: blend(curve.p0.y, curve.p1.y, curve.p2.y, curve.p3.y, i, n),
    }
}

/// The vertices of a cubic cut into `n` chords, after its start.
pub open spec fn curve_points(curve: Curve, n: int) -> Seq<Xy> {
    Seq::new((n - 1) as nat, |i: int| point_at(curve, i + 1, n)).push(curve.p3)
}

/// Where piece `k` of an outline starts.
pub open spec fn piece_start(outline: OutlineView, k: int) -> Xy {
    if k == 0 {
        outline.start
    } else {
        outline.pieces[k - 1].finish()
    }
}

/// Vertices, and how many the file may still take after them.
#[verifier::ext_equal]
pub struct Flat {
    pub points: Seq<Xy>,
    pub left: int,
}

/// The start and the first `n` pieces of an outline as vertices, out of a
/// budget of `budget`.
pub open spec fn flat_from(outline: OutlineView, tolerance: int, budget: int, n: nat) -> Result<
    Flat,
    Refusal,
>
    decreases n,
{
    if n == 0 {
        if budget < 1 {
            Err(Refusal::TooManyVertices)
        } else {
            Ok(Flat { points: seq![outline.start], left: budget - 1 })
        }
    } else {
        match flat_from(outline, tolerance, budget, (n - 1) as nat) {
            Err(e) => Err(e),
            Ok(flat) => match outline.pieces[n - 1] {
                Piece::Line(p) => if flat.left < 1 {
                    Err(Refusal::TooManyVertices)
                } else {
                    Ok(Flat { points: flat.points.push(p), left: flat.left - 1 })
                },
                Piece::Cubic(a, b, p) => {
                    let curve = Curve { p0: piece_start(outline, n - 1), p1: a, p2: b, p3: p };
                    match steps_of(curve, tolerance) {
                        None => Err(Refusal::TooLarge),
                        Some(m) => if flat.left < m {
                            Err(Refusal::TooManyVertices)
                        } else {
                            Ok(
                                Flat {
                                    points: flat.points + curve_points(curve, m),
                                    left: flat.left - m,
                                },
                            )
                        },
                    }
                },
            },
        }
    }
}

/// The outline as polyline vertices within `tolerance` of its curves; a
/// closed outline's last vertex is dropped when it repeats the first.
pub open spec fn flat_of(outline: OutlineView, tolerance: int, budget: int) -> Result<Flat, Refusal> {
    match flat_from(outline, tolerance, budget, outline.pieces.len()) {
        Err(e) => Err(e),
        Ok(flat) => if outline.closed && flat.points.len() > 1 && flat.points[0]
            == outline.finish() {
            Ok(Flat { points: flat.points.drop_last(), left: flat.left })
        } else {
            Ok(flat)
        },
    }
}

proof fn lemma_flat_stops(outline: OutlineView, tolerance: int, budget: int, n: nat, m: nat)
    requires
        n <= m,
        flat_from(outline, tolerance, budget, n) is Err,
    ensures
        flat_from(outline, tolerance, budget, m) == flat_from(outline, tolerance, budget, n),
    decreases m,
{
    if n < m {
        lemma_flat_stops(outline, tolerance, budget, n, (m - 1) as nat);
    }
}

/// The outline as polyline vertices within `tolerance` of its curves; a
/// closed outline's last vertex is dropped when it repeats the first.
/// `budget` is how many vertices the file may still take.
pub fn flattened(outline: &Outline, tolerance: u64, budget: &mut usize) -> (points: Result<
    Vec<Xy>,
    Refusal,
>)
    requires
        outline@.ok(),
        0 < tolerance <= COARSE_TOLERANCE,
    ensures
        match flat_of(outline@, tolerance as int, *old(budget) as int) {
            Ok(flat) => points matches Ok(v) && v@ == flat.points && *final(budget) == flat.left,
            Err(e) => points matches Err(r) && r == e,
        },
        points matches Ok(v) ==> forall|i: int| 0 <= i < v@.len() ==> drawn_ok(#[trigger] v@[i]),
{
    let ghost o = outline@;
    let ghost start_budget = *budget as int;
    if *budget < 1 {
        proof {
            lemma_flat_stops(o, tolerance as int, start_budget, 0, o.pieces.len());
        }
        return Err(Refusal::TooManyVertices);
    }
    *budget = *budget - 1;
    let mut points: Vec<Xy> = Vec::new();
    points.push(outline.start);
    let mut at: Xy = outline.start;
    let mut k: usize = 0;
    assert(points@ =~= seq![outline.start]);
    while k < outline.pieces.len()
        invariant
            k <= outline.pieces@.len(),
            o == outline@,
            o.ok(),
            start_budget == *old(budget),
            0 < tolerance <= COARSE_TOLERANCE,
            at == piece_start(o, k as int),
            drawn_ok(at),
            points@.len() > 0,
            forall|i: int| 0 <= i < points@.len() ==> drawn_ok(#[trigger] points@[i]),
            flat_from(o, tolerance as int, start_budget, k as nat) == Ok::<Flat, Refusal>(
                Flat { points: points@, left: *budget as int },
            ),
        decreases outline.pieces@.len() - k,
    {
        let piece: Piece = outline.pieces[k];
        assert(o.pieces[k as int].ok());
        match piece {
            Piece::Line(p) => {
                if *budget < 1 {
                    proof {
                        lemma_flat_stops(
                            o,
                            tolerance as int,
                            start_budget,
                            (k + 1) as nat,
                            o.pieces.len(),
                        );
                    }
                    return Err(Refusal::TooManyVertices);
                }
                *budget = *budget - 1;
                points.push(p);
            },
            Piece::Cubic(a, b, p) => {
                let curve = Curve { p0: at, p1: a, p2: b, p3: p };
                let n: u64 = match steps(curve, tolerance) {
                    Ok(n) => n,
                    Err(e) => {
                        proof {
                            lemma_flat_stops(
                                o,
                                tolerance as int,
                                start_budget,
                                (k + 1) as nat,
                                o.pieces.len(),
                            );
                        }
                        return Err(e);
                    },
                };
                if *budget < n as usize {
                    proof {
                        lemma_flat_stops(
                            o,
                            tolerance as int,
                            start_budget,
                            (k + 1) as nat,
                            o.pieces.len(),
                        );
                    }
                    return Err(Refusal::TooManyVertices);
                }
                *budget = *budget - n as usize;
                let ghost before = points@;
                let mut i: u64 = 1;
                while i < n
                    invariant
                        1 <= i <= n <= MAX_STEPS,
                        curve.ok(),
                        points@ =~= before + curve_points(curve, n as int).take(i - 1),
                        forall|j: int| 0 <= j < points@.len() ==> drawn_ok(#[trigger] points@[j]),
                    decreases n - i,
                {
                    let q = cubic_at(curve, i, n);
                    points.push(q);
                    assert(curve_points(curve, n as int)[i - 1] == q);
                    i = i + 1;
                }
                points.push(p);
                assert(points@ =~= before + curve_points(curve, n as int));
            },
        }
        at = piece.end();
        k = k + 1;
    }
    if outline.closed && points.len() > 1 && points[0] == at {
        points.pop();
    }
    Ok(points)
}

} // verus!
