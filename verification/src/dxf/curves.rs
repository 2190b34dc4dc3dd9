//! What a spline file says of an outline: its points and curves, one for one.
use crate::dxf::drawing::{Block, Drawing, ItemView, Layer};
use crate::dxf::flatten::{
    bernstein, curve_points, enough, flat_from, flat_of, lemma_steps, piece_start, rounded, steps_from,
    steps_of, Curve, MAX_STEPS,
};
use crate::dxf::outline::{Outline, OutlineView, Piece};
use crate::dxf::pairs::{code_text, Group, Value};
use crate::dxf::sheet::{
    all_lines, block_begin, block_end, block_name, block_outlines, closed_pieces, control_list,
    ends, entity_groups, is_cubic, knot_group, knot_list, model_space, point2_list, polyline_body,
    record_groups, record_list, run_end, spline_body, straight_points, with_block, with_item,
    with_outline, with_outlines, with_run, with_runs, Place, Sheet,
};
use crate::geometry::Xy;
use crate::path_data::{digits_value, lemma_decimal};
use crate::text::{decimal, digits_in};
use vstd::prelude::*;

verus! {

/// A point's x and y stand at `i`, under the codes 10 and 20.
pub open spec fn point_at(groups: Seq<Group>, i: int, p: Xy) -> bool {
    &&& 0 <= i && i + 1 < groups.len()
    &&& groups[i].code == 10 && groups[i].value == Value::Number(p.x as int)
    &&& groups[i + 1].code == 20 && groups[i + 1].value == Value::Number(p.y as int)
}

proof fn lemma_points(points: Seq<Xy>, n: nat, k: int)
    requires
        n <= points.len(),
    ensures
        point2_list(points, n).len() == 2 * n,
        0 <= k < n ==> point_at(point2_list(points, n), 2 * k, points[k]),
    decreases n,
{
    if n > 0 {
        lemma_points(points, (n - 1) as nat, k);
        let (before, now) = (point2_list(points, (n - 1) as nat), point2_list(points, n));
        if 0 <= k < n - 1 {
            assert(now[2 * k] == before[2 * k] && now[2 * k + 1] == before[2 * k + 1]);
        }
    }
}

/// A polyline says how many points it has and whether it is closed, and lists
/// them in their order.
pub proof fn law_a_light_polyline_lists_its_points(points: Seq<Xy>, closed: bool, k: int)
    requires
        0 <= k < points.len(),
    ensures
        ({
            let groups = polyline_body(points, closed);
            &&& groups.len() == 3 + 2 * points.len()
            &&& groups[0].code == 90 && groups[0].value == Value::Int(points.len() as int)
            &&& groups[1].code == 70 && groups[1].value == Value::Int(
                if closed {
                    1
                } else {
                    0
                },
            )
            &&& point_at(groups, 3 + 2 * k, points[k])
        }),
{
    let groups = polyline_body(points, closed);
    let list = point2_list(points, points.len());
    lemma_points(points, points.len(), k);
    assert(groups[3 + 2 * k] == list[2 * k] && groups[3 + 2 * k + 1] == list[2 * k + 1]);
}

/// The points of a straight outline: where it starts and where each of its
/// lines ends, without the last of a closed one that ends where it starts.
pub proof fn law_a_straight_outlines_points(outline: OutlineView, k: int)
    requires
        outline.pieces.len() >= 2,
        0 <= k < straight_points(outline).len(),
    ensures
        ({
            let points = straight_points(outline);
            let n = outline.pieces.len();
            let back = outline.closed && outline.pieces[n - 1].finish() == outline.start;
            &&& points.len() == (if back {
                n
            } else {
                n + 1
            })
            &&& points[k] == (if k == 0 {
                outline.start
            } else {
                outline.pieces[k - 1].finish()
            })
        }),
{
    assert(outline.pieces.last() == outline.pieces[outline.pieces.len() - 1]);
}

/// Control point `i` of cubics from `start`: where they start, then each one's
/// two handles and its end.
pub open spec fn control(start: Xy, pieces: Seq<Piece>, i: int) -> Xy {
    if i <= 0 {
        start
    } else {
        match pieces[(i - 1) / 3] {
            Piece::Cubic(a, b, p) => if i % 3 == 1 {
                a
            } else if i % 3 == 2 {
                b
            } else {
                p
            },
            Piece::Line(p) => p,
        }
    }
}

pub open spec fn all_cubic(pieces: Seq<Piece>) -> bool {
    forall|k: int| 0 <= k < pieces.len() ==> (#[trigger] pieces[k]) is Cubic
}

proof fn lemma_controls(start: Xy, pieces: Seq<Piece>, n: nat, i: int)
    requires
        n <= pieces.len(),
        all_cubic(pieces),
    ensures
        control_list(pieces, n).len() == 9 * n,
        1 <= i <= 3 * n ==> point_at(
            control_list(pieces, n),
            3 * (i - 1),
            control(start, pieces, i),
        ),
    decreases n,
{
    if n > 0 {
        lemma_controls(start, pieces, (n - 1) as nat, i);
        let (before, now) = (control_list(pieces, (n - 1) as nat), control_list(pieces, n));
        assert(pieces[n - 1] is Cubic);
        if 1 <= i <= 3 * (n - 1) {
            let at = 3 * (i - 1);
            assert(now[at] == before[at] && now[at + 1] == before[at + 1]);
        } else if 1 <= i <= 3 * n {
            assert((i - 1) / 3 == n - 1);
            let at = 3 * (i - 1) - before.len();
            assert(at == 0 || at == 3 || at == 6);
        }
    }
}

/// The knot that stands at place `i` among those of `n` cubics.
pub open spec fn knot_at(n: int, i: int) -> int {
    if i < 4 {
        0
    } else if i > 3 * n {
        n
    } else {
        (i - 1) / 3
    }
}

proof fn lemma_knots(pieces: int, n: nat, i: int)
    requires
        1 <= pieces,
        n <= pieces + 1,
    ensures
        knot_list(pieces, n).len() == (if n == 0 {
            0
        } else if n <= pieces {
            3 * n + 1
        } else {
            3 * n + 2
        }),
        0 <= i < knot_list(pieces, n).len() ==> knot_list(pieces, n)[i] == knot_group(
            knot_at(pieces, i),
        ),
    decreases n,
{
    if n > 0 {
        lemma_knots(pieces, (n - 1) as nat, i);
    }
}

/// A spline is of degree 3, and says how many knots and control points it has;
/// its knots are 0 four times, every join three times and its end four times,
/// and its control points are where it starts and then the handles and the end
/// of every cubic, in their order.
pub proof fn law_a_spline_lists_its_control_points(start: Xy, pieces: Seq<Piece>, i: int, j: int)
    requires
        pieces.len() > 0,
        all_cubic(pieces),
        0 <= i < 3 * pieces.len() + 5,
        0 <= j < 3 * pieces.len() + 1,
    ensures
        ({
            let groups = spline_body(start, pieces);
            let n = pieces.len() as int;
            let knots = 3 * n + 5;
            &&& groups.len() == 10 + knots + 3 * (3 * n + 1)
            &&& groups[4].code == 71 && groups[4].value == Value::Int(3)
            &&& groups[5].code == 72 && groups[5].value == Value::Int(knots)
            &&& groups[6].code == 73 && groups[6].value == Value::Int(3 * n + 1)
            &&& groups[10 + i].code == 40
            &&& groups[10 + i].value == Value::Text(decimal(knot_at(n, i) as nat) + ".0"@)
            &&& point_at(groups, 10 + knots + 3 * j, control(start, pieces, j))
        }),
{
    let groups = spline_body(start, pieces);
    let n = pieces.len() as int;
    let list = knot_list(n, (n + 1) as nat);
    lemma_knots(n, (n + 1) as nat, i);
    assert(list.len() == 3 * n + 5);
    assert(groups[10 + i] == list[i]);
    lemma_controls(start, pieces, pieces.len(), j);
    let controls = control_list(pieces, pieces.len());
    let at = 10 + list.len() + 3;
    if j > 0 {
        let k = 3 * (j - 1);
        assert(groups[at + k] == controls[k] && groups[at + k + 1] == controls[k + 1]);
    }
}

/// The pieces of a run are alike.
pub open spec fn alike(pieces: Seq<Piece>, from: int, to: int) -> bool {
    forall|i: int|
        from <= i < to ==> is_cubic(#[trigger] pieces[i]) == is_cubic(pieces[from])
}

/// The runs of an outline's pieces from `k` on: each of pieces that are alike,
/// every one from where the one before it ends, to the last piece.
pub open spec fn parts_from(list: Seq<(int, int)>, pieces: Seq<Piece>, k: int) -> bool {
    &&& k < pieces.len() ==> list.len() > 0 && list[0].0 == k && list.last().1 == pieces.len()
    &&& k >= pieces.len() ==> list.len() == 0
    &&& forall|m: int|
        0 <= m < list.len() ==> {
            &&& k <= (#[trigger] list[m]).0 < list[m].1 <= pieces.len()
            &&& alike(pieces, list[m].0, list[m].1)
        }
    &&& forall|m: int| 0 <= m < list.len() - 1 ==> meets(list, pieces, m)
}

/// The next run starts where this one ends, with a piece of the other kind.
pub open spec fn meets(list: Seq<(int, int)>, pieces: Seq<Piece>, m: int) -> bool {
    &&& list[m].1 == list[m + 1].0
    &&& is_cubic(pieces[list[m].0]) != is_cubic(pieces[list[m + 1].0])
}

/// The entity that draws the pieces from `from` up to `to`.
pub open spec fn run_entity(
    place: Place,
    start: Xy,
    pieces: Seq<Piece>,
    from: int,
    to: int,
    own: int,
) -> Seq<Group> {
    let at = if from == 0 {
        start
    } else {
        pieces[from - 1].finish()
    };
    let these = pieces.subrange(from, to);
    if pieces[from] is Cubic {
        entity_groups("SPLINE"@, own, place.owner, place.layer, "AcDbSpline"@) + spline_body(
            at,
            these,
        )
    } else {
        entity_groups("LWPOLYLINE"@, own, place.owner, place.layer, "AcDbPolyline"@)
            + polyline_body(ends(at, these), false)
    }
}

/// The entities of the runs of `list`, one behind the other, with handles from
/// `own` on.
pub open spec fn run_entities(
    place: Place,
    start: Xy,
    pieces: Seq<Piece>,
    list: Seq<(int, int)>,
    own: int,
) -> Seq<Group>
    decreases list.len(),
{
    if list.len() == 0 {
        Seq::empty()
    } else {
        run_entity(place, start, pieces, list[0].0, list[0].1, own) + run_entities(
            place,
            start,
            pieces,
            list.subrange(1, list.len() as int),
            own + 1,
        )
    }
}

proof fn lemma_run_alike(pieces: Seq<Piece>, k: int, m: int)
    requires
        0 <= k < m <= pieces.len(),
        alike(pieces, k, m),
    ensures
        m <= run_end(pieces, k, m) <= pieces.len(),
        alike(pieces, k, run_end(pieces, k, m)),
        run_end(pieces, k, m) < pieces.len() ==> is_cubic(pieces[run_end(pieces, k, m)])
            != is_cubic(pieces[k]),
    decreases pieces.len() - m,
{
    if m < pieces.len() && is_cubic(pieces[m]) == is_cubic(pieces[k]) {
        lemma_run_alike(pieces, k, m + 1);
    }
}

/// An outline with curves is drawn end to end: its pieces, the closing edge
/// among them, fall into runs of cubics and runs of lines in turn, each run
/// starts where the one before it ends, and every run is one entity.
pub proof fn law_runs_follow_the_outline(
    sheet: Sheet,
    place: Place,
    start: Xy,
    pieces: Seq<Piece>,
    k: int,
) -> (list: Seq<(int, int)>)
    requires
        0 <= k,
    ensures
        parts_from(list, pieces, k),
        with_runs(sheet, place, start, pieces, k).groups == sheet.groups + run_entities(
            place,
            start,
            pieces,
            list,
            sheet.last + 1,
        ),
        with_runs(sheet, place, start, pieces, k).last == sheet.last + list.len(),
    decreases pieces.len() - k,
{
    if k >= pieces.len() {
        assert(sheet.groups + Seq::<Group>::empty() =~= sheet.groups);
        Seq::empty()
    } else {
        let j = run_end(pieces, k, k + 1);
        lemma_run_alike(pieces, k, k + 1);
        let next = with_run(sheet, place, start, pieces, k, j);
        let rest = law_runs_follow_the_outline(next, place, start, pieces, j);
        let list = seq![(k, j)] + rest;
        assert(list.subrange(1, list.len() as int) =~= rest);
        let own = sheet.last + 1;
        let first = run_entity(place, start, pieces, k, j, own);
        assert(next.groups == sheet.groups + first);
        let more = run_entities(place, start, pieces, rest, own + 1);
        assert(sheet.groups + first + more =~= sheet.groups + (first + more));
        assert forall|m: int| 0 <= m < list.len() implies {
            &&& k <= (#[trigger] list[m]).0 < list[m].1 <= pieces.len()
            &&& alike(pieces, list[m].0, list[m].1)
        } by {
            if m > 0 {
                assert(list[m] == rest[m - 1]);
            }
        }
        assert forall|m: int| 0 <= m < list.len() - 1 implies meets(list, pieces, m) by {
            assert(list[m + 1] == rest[m]);
            if m > 0 {
                assert(meets(rest, pieces, m - 1));
                assert(list[m] == rest[m - 1]);
            }
        }
        assert(list.last() == if rest.len() > 0 {
            rest.last()
        } else {
            (k, j)
        });
        list
    }
}

/// A closed outline that does not end where it starts gets the edge back to it;
/// any other keeps its pieces.
pub proof fn law_a_closed_outline_comes_back(outline: OutlineView)
    requires
        outline.pieces.len() > 0,
    ensures
        ({
            let pieces = closed_pieces(outline);
            let n = outline.pieces.len() as int;
            let open = outline.pieces[n - 1].finish() != outline.start;
            &&& pieces.len() == (if outline.closed && open {
                n + 1
            } else {
                n
            })
            &&& forall|i: int| 0 <= i < n ==> #[trigger] pieces[i] == outline.pieces[i]
            &&& outline.closed ==> pieces[pieces.len() - 1].finish() == outline.start
        }),
{
    assert(outline.pieces.last() == outline.pieces[outline.pieces.len() - 1]);
}

/// Between `a` and `b`, `i` of `n` steps on, times `n`.
pub open spec fn between(a: int, b: int, i: int, n: int) -> int {
    (n - i) * a + i * b
}

proof fn lemma_spread(u: int, p: int, a: int, q: int, b: int)
    ensures
        u * (p * a + q * b) == (u * p) * a + (u * q) * b,
{
    assert(u * (p * a + q * b) == u * (p * a) + u * (q * b)) by (nonlinear_arith);
    assert(u * (p * a) == (u * p) * a) by (nonlinear_arith);
    assert(u * (q * b) == (u * q) * b) by (nonlinear_arith);
}

/// A cubic's point is found by repeated interpolation: between its control points,
/// between those three and between those two again, `i` of `n` steps on each
/// time.
pub proof fn law_a_point_lies_on_its_curve(a: int, b: int, c: int, d: int, i: int, n: int)
    ensures
        ({
            let (ab, bc, cd) = (between(a, b, i, n), between(b, c, i, n), between(c, d, i, n));
            bernstein(a, b, c, d, i, n) == between(
                between(ab, bc, i, n),
                between(bc, cd, i, n),
                i,
                n,
            )
        }),
        bernstein(a, b, c, d, 0, n) == a * (n * n * n),
        bernstein(a, b, c, d, n, n) == d * (n * n * n),
{
    let u = n - i;
    let (ab, bc, cd) = (u * a + i * b, u * b + i * c, u * c + i * d);
    let (x, y) = (u * ab + i * bc, u * bc + i * cd);
    let (uu, ui, ii) = (u * u, u * i, i * i);
    assert(i * u == ui) by (nonlinear_arith)
        requires
            ui == u * i,
    ;
    lemma_spread(u, u, a, i, b);
    lemma_spread(i, u, b, i, c);
    lemma_spread(u, u, b, i, c);
    lemma_spread(i, u, c, i, d);
    assert(x == uu * a + 2 * (ui * b) + ii * c);
    assert(y == uu * b + 2 * (ui * c) + ii * d);
    lemma_spread(u, uu, a, ui, b);
    lemma_spread(u, ui, b, ii, c);
    lemma_spread(i, uu, b, ui, c);
    lemma_spread(i, ui, c, ii, d);
    assert(u * (uu * a + ui * b + (ui * b + ii * c)) == u * (uu * a + ui * b) + u * (ui * b + ii
        * c)) by (nonlinear_arith);
    assert(i * (uu * b + ui * c + (ui * c + ii * d)) == i * (uu * b + ui * c) + i * (ui * c + ii
        * d)) by (nonlinear_arith);
    assert(u * uu == u * u * u && u * ui == u * u * i && u * ii == u * i * i && i * uu == u * u * i
        && i * ui == u * i * i && i * ii == i * i * i) by (nonlinear_arith)
        requires
            uu == u * u,
            ui == u * i,
            ii == i * i,
    ;
    assert(3 * (u * u * i) * b == 3 * ((u * u * i) * b)) by (nonlinear_arith);
    assert(3 * (u * i * i) * c == 3 * ((u * i * i) * c)) by (nonlinear_arith);
    let (z, w) = (0int, n - n);
    assert(bernstein(a, b, c, d, 0, n) == a * (n * n * n)) by {
        assert((n * n * n) * a + 3 * (n * n * z) * b + 3 * (n * z * z) * c + (z * z * z) * d == a
            * (n * n * n)) by (nonlinear_arith)
            requires
                z == 0,
        ;
    }
    assert(bernstein(a, b, c, d, n, n) == d * (n * n * n)) by {
        assert((w * w * w) * a + 3 * (w * w * n) * b + 3 * (w * n * n) * c + (n * n * n) * d == d
            * (n * n * n)) by (nonlinear_arith)
            requires
                w == 0,
        ;
    }
}

/// A coordinate is written as the nearest whole number.
pub proof fn law_coordinates_are_rounded_to_the_nearest(value: int, over: int)
    requires
        over > 0,
    ensures
        -over <= 2 * (rounded(value, over) * over - value) <= over,
{
    let size = if value >= 0 {
        value
    } else {
        -value
    };
    let q = (2 * size + over) / (2 * over);
    vstd::arithmetic::div_mod::lemma_fundamental_div_mod(2 * size + over, 2 * over);
    let m = (2 * size + over) % (2 * over);
    assert(0 <= m < 2 * over);
    assert(2 * size + over == 2 * (q * over) + m) by (nonlinear_arith)
        requires
            2 * size + over == (2 * over) * q + m,
    ;
    assert((-q) * over == -(q * over)) by (nonlinear_arith);
}

/// Enough steps: by Wang's bound for both of the curve's second differences.
pub open spec fn steps_suffice(curve: Curve, tolerance: int, n: int) -> bool {
    let (a, b, c, d) = (curve.p0, curve.p1, curve.p2, curve.p3);
    let (ux, uy) = (a.x - 2 * b.x + c.x, a.y - 2 * b.y + c.y);
    let (vx, vy) = (b.x - 2 * c.x + d.x, b.y - 2 * c.y + d.y);
    let bound = 16 * ((n * n) * (n * n) * (tolerance * tolerance));
    bound >= 9 * (ux * ux + uy * uy) && bound >= 9 * (vx * vx + vy * vy)
}

proof fn lemma_enough(curve: Curve, tolerance: int, n: int)
    ensures
        enough(curve.bend2(), tolerance, n) <==> steps_suffice(curve, tolerance, n),
{
}

proof fn lemma_fewest(bend2: int, tolerance: int, from: int)
    ensures
        match steps_from(bend2, tolerance, from) {
            Some(n) => from <= n <= MAX_STEPS && enough(bend2, tolerance, n) && forall|k: int|
                from <= k < n ==> !(#[trigger] enough(bend2, tolerance, k)),
            None => forall|k: int|
                from <= k <= MAX_STEPS ==> !(#[trigger] enough(bend2, tolerance, k)),
        },
    decreases MAX_STEPS + 1 - from,
{
    if from <= MAX_STEPS && !enough(bend2, tolerance, from) {
        lemma_fewest(bend2, tolerance, from + 1);
    }
}

/// A curve is cut into the fewest steps that suffice, and refused only where
/// none of those that are allowed do.
pub proof fn law_the_fewest_steps_are_taken(curve: Curve, tolerance: int, k: int)
    requires
        1 <= k <= MAX_STEPS,
    ensures
        match steps_of(curve, tolerance) {
            Some(n) => 1 <= n <= MAX_STEPS && steps_suffice(curve, tolerance, n) && (k < n
                ==> !steps_suffice(curve, tolerance, k)),
            None => !steps_suffice(curve, tolerance, k),
        },
{
    lemma_fewest(curve.bend2(), tolerance, 1);
    lemma_enough(curve, tolerance, k);
    if let Some(n) = steps_of(curve, tolerance) {
        lemma_enough(curve, tolerance, n);
    }
}

/// The vertices of piece `k` stand from `at[k] + 1` up to `at[k + 1]`, behind
/// the one it starts from: a line's end, or a curve's points at equal steps and
/// its end.
pub open spec fn flat_piece(
    outline: OutlineView,
    tolerance: int,
    points: Seq<Xy>,
    at: Seq<int>,
    k: int,
) -> bool {
    let from = if k == 0 {
        outline.start
    } else {
        outline.pieces[k - 1].finish()
    };
    &&& 0 <= at[k] < at[k + 1] < points.len()
    &&& points[at[k]] == from
    &&& points[at[k + 1]] == outline.pieces[k].finish()
    &&& match outline.pieces[k] {
        Piece::Line(_) => at[k + 1] == at[k] + 1,
        Piece::Cubic(a, b, p) => {
            let curve = Curve { p0: from, p1: a, p2: b, p3: p };
            let n = at[k + 1] - at[k];
            &&& steps_of(curve, tolerance) == Some(n)
            &&& forall|i: int|
                0 < i < n ==> #[trigger] points[at[k] + i] == crate::dxf::flatten::point_at(
                    curve,
                    i,
                    n,
                )
        },
    }
}

proof fn lemma_flat_moved(
    outline: OutlineView,
    tolerance: int,
    a: Seq<Xy>,
    b: Seq<Xy>,
    at: Seq<int>,
    more: Seq<int>,
    k: int,
)
    requires
        0 <= k,
        k + 1 < at.len() <= more.len(),
        a.len() <= b.len(),
        forall|i: int| 0 <= i < a.len() ==> #[trigger] a[i] == b[i],
        forall|i: int| 0 <= i < at.len() ==> #[trigger] at[i] == more[i],
        flat_piece(outline, tolerance, a, at, k),
    ensures
        flat_piece(outline, tolerance, b, more, k),
{
    assert(at[k] == more[k] && at[k + 1] == more[k + 1]);
    assert(a[at[k]] == b[at[k]] && a[at[k + 1]] == b[at[k + 1]]);
    if let Piece::Cubic(_, _, _) = outline.pieces[k] {
        let n = at[k + 1] - at[k];
        assert forall|i: int| 0 < i < n implies #[trigger] b[more[k] + i] == a[at[k] + i] by {}
    }
}

/// What the first `n` pieces come to: every one's vertices in their order, and
/// a budget that each vertex takes one of.
proof fn lemma_flat(outline: OutlineView, tolerance: int, budget: int, n: nat) -> (at: Seq<int>)
    requires
        n <= outline.pieces.len(),
        flat_from(outline, tolerance, budget, n) is Ok,
    ensures
        ({
            let flat = flat_from(outline, tolerance, budget, n)->Ok_0;
            &&& at.len() == n + 1
            &&& at[0] == 0
            &&& at[n as int] == flat.points.len() - 1
            &&& flat.left == budget - flat.points.len()
            &&& flat.left >= 0
            &&& flat.points[at[n as int]] == (if n == 0 {
                outline.start
            } else {
                outline.pieces[n - 1].finish()
            })
            &&& forall|k: int|
                0 <= k < n ==> #[trigger] flat_piece(outline, tolerance, flat.points, at, k)
        }),
    decreases n,
{
    if n == 0 {
        seq![0int]
    } else {
        let m = (n - 1) as nat;
        let before = flat_from(outline, tolerance, budget, m)->Ok_0;
        let now = flat_from(outline, tolerance, budget, n)->Ok_0;
        let at = lemma_flat(outline, tolerance, budget, m);
        let all = at.push(now.points.len() - 1);
        if let Piece::Cubic(a, b, p) = outline.pieces[n - 1] {
            let curve = Curve { p0: piece_start(outline, n - 1), p1: a, p2: b, p3: p };
            lemma_steps(curve, tolerance);
            let s = steps_of(curve, tolerance)->0;
            let added = curve_points(curve, s);
            assert(now.points == before.points + added);
            assert(added.len() == s);
            assert(added[s - 1] == p);
            assert forall|i: int| 0 < i < s implies #[trigger] now.points[at[m as int] + i]
                == crate::dxf::flatten::point_at(curve, i, s) by {
                assert(now.points[at[m as int] + i] == added[i - 1]);
            }
            assert(now.points[now.points.len() - 1] == added[s - 1]);
        }
        assert forall|i: int| 0 <= i < before.points.len() implies #[trigger] before.points[i]
            == now.points[i] by {}
        assert forall|k: int| 0 <= k < n implies #[trigger] flat_piece(
            outline,
            tolerance,
            now.points,
            all,
            k,
        ) by {
            if k < m {
                assert(flat_piece(outline, tolerance, before.points, at, k));
                lemma_flat_moved(outline, tolerance, before.points, now.points, at, all, k);
            } else {
                assert(all[k] == at[k] && all[k + 1] == now.points.len() - 1);
            }
        }
        all
    }
}

/// An outline cut into lines passes through the ends of all its pieces in their
/// order, and in between through the points of its curves at equal steps; each
/// vertex takes one of the budget. Only a closed outline that comes back to
/// where it starts is written without its last vertex.
pub proof fn law_a_flat_outline_follows_its_pieces(
    outline: OutlineView,
    tolerance: int,
    budget: int,
) -> (found: (Seq<int>, Seq<Xy>))
    requires
        flat_of(outline, tolerance, budget) is Ok,
        outline.pieces.len() > 0,
    ensures
        ({
            let flat = flat_of(outline, tolerance, budget)->Ok_0;
            let (at, points) = found;
            let n = outline.pieces.len() as int;
            let back = outline.closed && outline.pieces[n - 1].finish() == outline.start;
            &&& at.len() == n + 1
            &&& at[0] == 0
            &&& at[n] == points.len() - 1
            &&& forall|k: int|
                0 <= k < n ==> #[trigger] flat_piece(outline, tolerance, points, at, k)
            &&& flat.left == budget - points.len() >= 0
            &&& flat.points == (if back {
                points.drop_last()
            } else {
                points
            })
        }),
{
    let n = outline.pieces.len();
    let points = flat_from(outline, tolerance, budget, n)->Ok_0.points;
    let at = lemma_flat(outline, tolerance, budget, n);
    assert(flat_piece(outline, tolerance, points, at, 0));
    assert(points[0] == outline.start);
    assert(outline.pieces.last() == outline.pieces[n - 1]);
    (at, points)
}

/// What a group's code is written as: three places at least, blanks before its
/// digits, which read back as the code.
pub proof fn law_a_groups_code_reads_back(code: int)
    requires
        0 <= code < 1000,
    ensures
        ({
            let text = code_text(code);
            let digits = decimal(code as nat);
            let blanks = text.len() - digits.len();
            &&& text.len() >= 3
            &&& code < 100 ==> text.len() == 3
            &&& blanks >= 0
            &&& forall|i: int| 0 <= i < blanks ==> #[trigger] text[i] == ' '
            &&& text.subrange(blanks, text.len() as int) == digits
            &&& digits_value(digits, 0, digits.len() as int) == code
        }),
{
    let digits = decimal(code as nat);
    let text = code_text(code);
    lemma_decimal(code as nat);
    reveal_with_fuel(digits_in, 4);
    assert(digits.len() == (if code < 10 {
        1
    } else if code < 100 {
        2
    } else {
        3int
    }));
    assert(text.subrange(text.len() - digits.len(), text.len() as int) =~= digits);
}

/// The groups of `a` stand first in `b`.
spec fn goes_on_from(a: Seq<Group>, b: Seq<Group>) -> bool {
    a.len() <= b.len() && forall|i: int| 0 <= i < a.len() ==> #[trigger] a[i] == b[i]
}

proof fn lemma_outline_goes_on(sheet: Sheet, place: Place, outline: OutlineView)
    ensures
        goes_on_from(sheet.groups, with_outline(sheet, place, outline).groups),
{
    if !all_lines(outline.pieces) {
        let list = law_runs_follow_the_outline(
            sheet,
            place,
            outline.start,
            closed_pieces(outline),
            0,
        );
    }
}

proof fn lemma_outlines_go_on(
    sheet: Sheet,
    owner: int,
    layers: Seq<Layer>,
    list: Seq<Outline>,
    n: nat,
)
    ensures
        goes_on_from(sheet.groups, with_outlines(sheet, owner, layers, list, n).groups),
    decreases n,
{
    if n > 0 {
        lemma_outlines_go_on(sheet, owner, layers, list, (n - 1) as nat);
        let before = with_outlines(sheet, owner, layers, list, (n - 1) as nat);
        let outline = list[n - 1]@;
        let place = Place { owner, layer: layers[outline.layer] };
        lemma_outline_goes_on(before, place, outline);
        let after = with_outline(before, place, outline);
        assert forall|i: int| 0 <= i < sheet.groups.len() implies #[trigger] sheet.groups[i]
            == after.groups[i] by {
            assert(sheet.groups[i] == before.groups[i]);
        }
    }
}

/// The block record at `i` has this name and this handle.
pub open spec fn record_at(groups: Seq<Group>, i: int, name: Seq<char>, own: int) -> bool {
    &&& 0 <= i && i + 5 < groups.len()
    &&& groups[i].code == 0 && groups[i].value == Value::Text("BLOCK_RECORD"@)
    &&& groups[i + 1].code == 5 && groups[i + 1].value == Value::Handle(own as nat)
    &&& groups[i + 5].code == 2 && groups[i + 5].value == Value::Text(name)
}

proof fn lemma_records(blocks: Seq<Block>, layers: int, n: nat, k: int)
    requires
        0 <= k < n,
    ensures
        record_list(blocks, layers, n).len() == 6 * n,
        record_at(
            record_list(blocks, layers, n),
            6 * k,
            block_name(blocks, k),
            model_space(layers) + k,
        ),
    decreases n,
{
    lemma_records_len(blocks, layers, (n - 1) as nat);
    let before = record_list(blocks, layers, (n - 1) as nat);
    let now = record_list(blocks, layers, n);
    if k < n - 1 {
        lemma_records(blocks, layers, (n - 1) as nat, k);
        assert(now[6 * k] == before[6 * k] && now[6 * k + 1] == before[6 * k + 1]);
        assert(now[6 * k + 5] == before[6 * k + 5]);
    } else {
        assert(now[6 * k] == record_groups(model_space(layers) + k, block_name(blocks, k))[0]);
    }
}

proof fn lemma_records_len(blocks: Seq<Block>, layers: int, n: nat)
    ensures
        record_list(blocks, layers, n).len() == 6 * n,
    decreases n,
{
    if n > 0 {
        lemma_records_len(blocks, layers, (n - 1) as nat);
    }
}

/// Every block belongs to its record: the spaces and the drawing's blocks have
/// a record each, in one order, and a block says its record's name and handle
/// where it begins and the handle where it ends. What is drawn outside the
/// blocks belongs to the first record, the model space.
pub proof fn law_blocks_belong_to_their_records(
    sheet: Sheet,
    drawing: Drawing,
    k: int,
    item: ItemView,
) -> (own: int)
    requires
        0 <= k < 2 + drawing.blocks@.len(),
    ensures
        ({
            let (layers, blocks) = (drawing.layers@.len() as int, drawing.blocks@);
            let records = record_list(blocks, layers, 2 + blocks.len());
            let name = if k == 0 {
                "*Model_Space"@
            } else if k == 1 {
                "*Paper_Space"@
            } else {
                blocks[k - 2].name@
            };
            let after = with_block(sheet, drawing, k).groups;
            let (from, to) = (sheet.groups.len() as int, after.len() as int);
            let mark = if k == 1 {
                1int
            } else {
                0
            };
            &&& record_at(records, 6 * k, name, own)
            &&& from + 12 + mark <= to - 6 - mark
            &&& after[from].code == 0 && after[from].value == Value::Text("BLOCK"@)
            &&& after[from + 2].code == 330 && after[from + 2].value == Value::Handle(own as nat)
            &&& after[from + 6 + mark].code == 2 && after[from + 6 + mark].value == Value::Text(name)
            &&& after[to - 6 - mark].code == 0 && after[to - 6 - mark].value == Value::Text(
                "ENDBLK"@,
            )
            &&& after[to - 4 - mark].code == 330 && after[to - 4 - mark].value == Value::Handle(
                own as nat,
            )
            &&& k == 0 ==> (item matches ItemView::Array(_) ==> {
                let drawn = with_item(sheet, drawing, item).groups;
                drawn.len() > from + 2 && drawn[from + 2].code == 330 && drawn[from + 2].value
                    == Value::Handle(own as nat)
            })
        }),
{
    let (layers, blocks) = (drawing.layers@.len() as int, drawing.blocks@);
    let own = model_space(layers) + k;
    lemma_records(blocks, layers, 2 + blocks.len(), k);
    let first = sheet.last + 1;
    let begin = block_begin(first, own, k == 1, block_name(blocks, k));
    let begun = Sheet { groups: sheet.groups + begin, last: first };
    let list = block_outlines(blocks, k);
    let drawn = with_outlines(begun, own, drawing.layers@, list, list.len());
    lemma_outlines_go_on(begun, own, drawing.layers@, list, list.len());
    let after = with_block(sheet, drawing, k).groups;
    let from = sheet.groups.len() as int;
    let mark = if k == 1 {
        1int
    } else {
        0
    };
    let end = block_end(drawn.last + 1, own, k == 1);
    assert(after == drawn.groups + end);
    assert(begin.len() == 13 + mark && end.len() == 6 + mark);
    assert(begun.groups[from] == begin[0] && begun.groups[from + 2] == begin[2]);
    assert(begun.groups[from + 6 + mark] == begin[6 + mark]);
    assert(after[from] == begun.groups[from] && after[from + 2] == begun.groups[from + 2]);
    assert(after[from + 6 + mark] == begun.groups[from + 6 + mark]);
    let n = drawn.groups.len() as int;
    assert(after[n] == end[0] && after[n + 2] == end[2]);
    own
}

} // verus!
