//! What runs replace: the squares that lie under them, by their places on the
//! page.
use crate::dither::{
    ascending, corners_of, covered_by_run, has_side, is_corner, is_polygon, is_sides,
    law_runs_draw_their_squares, lemma_sides_unique, lies_on, owner_at, patches_of, point_of,
    reach_of, run_at, runs_in, runs_of, side_runs, sides_in, square_at, square_of, tile_inked,
    RunView, Square,
};
use crate::field::Field;
use crate::found::{law_a_window_counts_its_ink, law_the_first_run_has_the_most_squares, window_ink};
use crate::geometry::{least, lemma_extremes, most, path_ok, Segment, Xy};
use crate::grid::{Period, Rect, MAX_RUNS};
use crate::lattice::{
    any_on, bounds_of, cell_of, columns, layout, lemma_bounds, lemma_first_on, lemma_spots, rows,
    spot_of, spot_ok, spots, squares_ok, Bounds, Spot,
};
use crate::tiling::{candidate, chosen, lemma_chosen, run_ok, searchable, Patch};
use vstd::prelude::*;

verus! {

/// `v` lies within a millionth of `side` of `c`.
pub open spec fn near(v: int, c: int, side: int) -> bool {
    -side < (v - c) * 1_000_000 < side
}

/// The square lies on the cell in column `x` and row `y` of the run, counted
/// from the run's corner.
pub open spec fn sits_on(s: Square, run: RunView, x: int, y: int) -> bool {
    &&& s.side == run.side
    &&& near(s.x as int, run.x + x * run.side, run.side)
    &&& near(s.y as int, run.y + y * run.side, run.side)
}

/// Column `x` and row `y` are among the run's cells.
pub open spec fn in_run(run: RunView, x: int, y: int) -> bool {
    0 <= x && 0 <= y && x * run.side < run.width && y * run.side < run.height
}

proof fn lemma_cell(v: int, side: int, c: int)
    requires
        side > 0,
    ensures
        cell_of(v, side) == Some(c) <==> near(v, c * side, side),
{
    let (q, m) = (v / side, v % side);
    vstd::arithmetic::div_mod::lemma_fundamental_div_mod(v, side);
    assert(side * q == q * side && (q + 1) * side == q * side + side) by (nonlinear_arith);
    assert(0 <= m < side);
    let gap = v - c * side;
    if near(v, c * side, side) {
        assert(-side < gap < side);
        assert(gap == (q - c) * side + m) by (nonlinear_arith)
            requires
                v == q * side + m,
                gap == v - c * side,
        ;
        assert(c == q || c == q + 1) by (nonlinear_arith)
            requires
                gap == (q - c) * side + m,
                0 <= m < side,
                -side < gap < side,
        ;
    }
}

proof fn lemma_sides(squares: Seq<Square>) -> (sides: Seq<i64>)
    ensures
        is_sides(sides, squares),
    decreases squares.len(),
{
    if squares.len() == 0 {
        Seq::empty()
    } else {
        let before = squares.drop_last();
        let some = lemma_sides(before);
        let v = squares.last().side;
        let sides = lemma_put(some, v);
        assert forall|i: int| 0 <= i < squares.len() implies sides.contains(
            (#[trigger] squares[i]).side,
        ) by {
            if i < before.len() {
                assert(before[i] == squares[i]);
                assert(some.contains(before[i].side));
            }
        }
        assert forall|k: int| 0 <= k < sides.len() implies has_side(
            squares,
            #[trigger] sides[k],
        ) by {
            assert(sides.contains(sides[k]));
            if some.contains(sides[k]) {
                let j = choose|j: int| 0 <= j < some.len() && some[j] == sides[k];
                assert(has_side(before, some[j]));
                let i = choose|i: int| 0 <= i < before.len() && (#[trigger] before[i]).side == some[j];
                assert(squares[i].side == sides[k]);
            } else {
                assert(squares[squares.len() - 1].side == v);
            }
        }
        sides
    }
}

/// `v` among the ascending `list`.
proof fn lemma_put(list: Seq<i64>, v: i64) -> (all: Seq<i64>)
    requires
        ascending(list),
    ensures
        ascending(all),
        forall|u: i64| #[trigger] all.contains(u) <==> list.contains(u) || u == v,
    decreases list.len(),
{
    if list.len() == 0 {
        let all = seq![v];
        assert(all[0] == v);
        all
    } else if list.last() < v {
        let all = list.push(v);
        assert forall|u: i64| #[trigger] all.contains(u) <==> list.contains(u) || u == v by {
            if list.contains(u) {
                let k = choose|k: int| 0 <= k < list.len() && list[k] == u;
                assert(all[k] == u);
            }
            assert(all[list.len() as int] == v);
        }
        assert forall|a: int, b: int| 0 <= a < b < all.len() implies #[trigger] all[a]
            < #[trigger] all[b] by {
            if b == list.len() && a < list.len() - 1 {
                assert(list[a] < list[list.len() - 1]);
            }
        }
        all
    } else if list.last() == v {
        assert(list[list.len() - 1] == v);
        list
    } else {
        let less = list.drop_last();
        assert(ascending(less)) by {
            assert forall|a: int, b: int| 0 <= a < b < less.len() implies #[trigger] less[a]
                < #[trigger] less[b] by {
                assert(less[a] == list[a] && less[b] == list[b]);
            }
        }
        let some = lemma_put(less, v);
        let all = some.push(list.last());
        assert forall|k: int| 0 <= k < some.len() implies #[trigger] some[k] < list.last() by {
            assert(some.contains(some[k]));
            if less.contains(some[k]) {
                let j = choose|j: int| 0 <= j < less.len() && less[j] == some[k];
                assert(list[j] < list[list.len() - 1]);
            }
        }
        assert forall|u: i64| #[trigger] all.contains(u) <==> list.contains(u) || u == v by {
            if all.contains(u) {
                let k = choose|k: int| 0 <= k < all.len() && all[k] == u;
                if k < some.len() {
                    assert(some.contains(u));
                    if less.contains(u) {
                        let j = choose|j: int| 0 <= j < less.len() && less[j] == u;
                        assert(list[j] == u);
                    }
                } else {
                    assert(list[list.len() - 1] == u);
                }
            }
            if list.contains(u) {
                let j = choose|j: int| 0 <= j < list.len() && list[j] == u;
                if j < less.len() {
                    assert(less[j] == u);
                    assert(some.contains(u));
                    let k = choose|k: int| 0 <= k < some.len() && some[k] == u;
                    assert(all[k] == u);
                } else {
                    assert(all[some.len() as int] == u);
                }
            }
            if u == v {
                assert(some.contains(u));
                let k = choose|k: int| 0 <= k < some.len() && some[k] == u;
                assert(all[k] == u);
            }
        }
        all
    }
}

/// Every run is one of its side's, and every run of a side is there.
proof fn lemma_run_of_side(squares: Seq<Square>, sides: Seq<i64>, n: nat, k: int) -> (found: (
    int,
    int,
))
    requires
        n <= sides.len(),
        0 <= k < runs_of(squares, sides, n).len(),
    ensures
        0 <= found.0 < n,
        0 <= found.1 < side_runs(squares, sides[found.0] as int).len(),
        runs_of(squares, sides, n)[k] == side_runs(squares, sides[found.0] as int)[found.1],
    decreases n,
{
    let before = runs_of(squares, sides, (n - 1) as nat);
    if k < before.len() {
        lemma_run_of_side(squares, sides, (n - 1) as nat, k)
    } else {
        (n - 1, k - before.len())
    }
}

proof fn lemma_side_run_there(squares: Seq<Square>, sides: Seq<i64>, n: nat, j: int, m: int) -> (k:
    int)
    requires
        0 <= j < n <= sides.len(),
        0 <= m < side_runs(squares, sides[j] as int).len(),
    ensures
        0 <= k < runs_of(squares, sides, n).len(),
        runs_of(squares, sides, n)[k] == side_runs(squares, sides[j] as int)[m],
    decreases n,
{
    let before = runs_of(squares, sides, (n - 1) as nat);
    if j == n - 1 {
        before.len() + m
    } else {
        lemma_side_run_there(squares, sides, (n - 1) as nat, j, m)
    }
}

/// The squares of one side make a field that is searched.
proof fn lemma_field(squares: Seq<Square>, side: int)
    requires
        side > 0,
        squares_ok(squares),
        squares.len() <= usize::MAX,
        patches_of(squares, side).len() > 0,
    ensures
        searchable(layout(spots(squares, side, squares.len()))),
{
    let g = spots(squares, side, squares.len());
    lemma_spots(squares, side, squares.len());
    let b = Bounds {
        left: least(columns(g)) as i64,
        right: most(columns(g)) as i64,
        top: least(rows(g)) as i64,
        bottom: most(rows(g)) as i64,
    };
    lemma_extremes(columns(g));
    lemma_extremes(rows(g));
    assert(bounds_of(g, b)) by {
        assert forall|i: int| 0 <= i < g.len() implies i64::MIN <= #[trigger] columns(g)[i]
            <= i64::MAX by {
            assert(spot_ok(squares, side, g[i]));
        }
        assert forall|i: int| 0 <= i < g.len() implies i64::MIN <= #[trigger] rows(g)[i]
            <= i64::MAX by {
            assert(spot_ok(squares, side, g[i]));
        }
    }
    lemma_bounds(g, b);
}

/// A square lies on a patch's cell exactly when it sits on its run's.
proof fn lemma_sits(squares: Seq<Square>, side: int, i: int, patch: Patch, x: int, y: int)
    requires
        side > 0,
        squares_ok(squares),
        squares.len() <= usize::MAX,
        0 <= i < squares.len(),
    ensures
        lies_on(squares, side, i, patch, x, y) <==> sits_on(
            squares[i],
            run_at(spots(squares, side, squares.len()), side, patch),
            x,
            y,
        ),
{
    let g = spots(squares, side, squares.len());
    let (cx, cy) = (least(columns(g)) + patch.rect.x0 + x, least(rows(g)) + patch.rect.y0 + y);
    let run = run_at(g, side, patch);
    assert(run.x + x * side == cx * side && run.y + y * side == cy * side) by (nonlinear_arith)
        requires
            run.x == (cx - x) * side,
            run.y == (cy - y) * side,
    ;
    let s = squares[i];
    assert(s.ok());
    lemma_cell(s.x as int, side, cx);
    lemma_cell(s.y as int, side, cy);
    if let (Some(a), Some(b)) = (cell_of(s.x as int, side), cell_of(s.y as int, side)) {
        lemma_cell_fits(s.x as int, side, a);
        lemma_cell_fits(s.y as int, side, b);
    }
}

proof fn lemma_cell_fits(v: int, side: int, c: int)
    requires
        side > 0,
        cell_of(v, side) == Some(c),
        -crate::geometry::REACH <= v <= crate::geometry::REACH,
    ensures
        i64::MIN <= c <= i64::MAX,
{
    lemma_cell(v, side, c);
    assert(-side < v - c * side < side);
    assert(-crate::geometry::REACH - 1 <= c <= crate::geometry::REACH + 1) by (nonlinear_arith)
        requires
            -crate::geometry::REACH <= v <= crate::geometry::REACH,
            -side < v - c * side < side,
            side > 0,
    ;
}

/// A run draws the squares under it and no others: on every one of its cells
/// its tile is inked exactly where a square of the run's side lies on that
/// cell, to a millionth of a side, and one that lies there is taken out of
/// the path. A run's tile spans eight cells each way at most, the run two
/// tiles each way at least.
pub proof fn law_a_run_draws_the_squares_under_it(
    squares: Seq<Square>,
    k: int,
    x: int,
    y: int,
)
    requires
        squares_ok(squares),
        squares.len() <= usize::MAX,
        0 <= k < runs_in(squares).len(),
        in_run(runs_in(squares)[k], x, y),
    ensures
        ({
            let run = runs_in(squares)[k];
            &&& run.side > 0
            &&& 1 <= run.period.x <= 8 && 1 <= run.period.y <= 8
            &&& run.width >= 2 * run.period.x * run.side
            &&& run.height >= 2 * run.period.y * run.side
            &&& tile_inked(run, x, y) <==> exists|i: int|
                0 <= i < squares.len() && sits_on(#[trigger] squares[i], run, x, y)
            &&& tile_inked(run, x, y) ==> exists|i: int|
                0 <= i < squares.len() && sits_on(#[trigger] squares[i], run, x, y)
                    && covered_by_run(squares, i)
        }),
{
    let sides = lemma_sides(squares);
    lemma_sides_unique(sides, sides_in(squares), squares);
    let run = runs_in(squares)[k];
    let (j, m) = lemma_run_of_side(squares, sides, sides.len(), k);
    let side = sides[j] as int;
    assert(has_side(squares, sides[j]));
    let s = choose|i: int| 0 <= i < squares.len() && (#[trigger] squares[i]).side == sides[j];
    assert(squares[s].ok());
    let g = spots(squares, side, squares.len());
    let patch = patches_of(squares, side)[m];
    assert(run == run_at(g, side, patch));
    lemma_field(squares, side);
    lemma_chosen(layout(g), Set::empty(), MAX_RUNS as nat);
    assert(run_ok(layout(g), Set::empty(), patch));
    let r = patch.rect;
    assert(x < r.width()) by (nonlinear_arith)
        requires
            x * side < r.width() * side,
            side > 0,
    ;
    assert(y < r.height()) by (nonlinear_arith)
        requires
            y * side < r.height() * side,
            side > 0,
    ;
    assert(r.width() * side >= 2 * patch.period.x * side) by (nonlinear_arith)
        requires
            r.width() >= patch.period.x * 2,
            side > 0,
    ;
    assert(r.height() * side >= 2 * patch.period.y * side) by (nonlinear_arith)
        requires
            r.height() >= patch.period.y * 2,
            side > 0,
    ;
    law_runs_draw_their_squares(squares, side, m, x, y);
    assert forall|i: int| 0 <= i < squares.len() implies lies_on(squares, side, i, patch, x, y)
        == sits_on(#[trigger] squares[i], run, x, y) by {
        lemma_sits(squares, side, i, patch, x, y);
    }
    if tile_inked(run, x, y) {
        let i = choose|i: int|
            0 <= i < squares.len() && #[trigger] lies_on(squares, side, i, patch, x, y)
                && covered_by_run(squares, i);
        assert(sits_on(squares[i], run, x, y));
    }
    if exists|i: int| 0 <= i < squares.len() && sits_on(#[trigger] squares[i], run, x, y) {
        let i = choose|i: int| 0 <= i < squares.len() && sits_on(#[trigger] squares[i], run, x, y);
        assert(lies_on(squares, side, i, patch, x, y));
    }
}

/// A square is taken out of the path only where a run draws it: a cell of one
/// of the runs lies where it does. `found` is the run, and the cell's column
/// and row.
pub proof fn law_a_square_taken_out_is_drawn_by_a_run(squares: Seq<Square>, i: int) -> (found: (
    int,
    int,
    int,
))
    requires
        squares_ok(squares),
        squares.len() <= usize::MAX,
        0 <= i < squares.len(),
        covered_by_run(squares, i),
    ensures
        ({
            let (k, x, y) = found;
            &&& 0 <= k < runs_in(squares).len()
            &&& in_run(runs_in(squares)[k], x, y)
            &&& sits_on(squares[i], runs_in(squares)[k], x, y)
            &&& tile_inked(runs_in(squares)[k], x, y)
        }),
{
    let sides = lemma_sides(squares);
    lemma_sides_unique(sides, sides_in(squares), squares);
    let side = squares[i].side as int;
    assert(squares[i].ok());
    assert(sides.contains(squares[i].side));
    let j = choose|j: int| 0 <= j < sides.len() && sides[j] == squares[i].side;
    let g = spots(squares, side, squares.len());
    let patches = patches_of(squares, side);
    let (m, a, b) = choose|k: int, x: int, y: int|
        0 <= k < patches.len() && #[trigger] patches[k].rect.holds(x, y) && owner_at(g, x, y)
            == Some(i as usize);
    let patch = patches[m];
    lemma_field(squares, side);
    lemma_chosen(layout(g), Set::empty(), MAX_RUNS as nat);
    assert(run_ok(layout(g), Set::empty(), patch));
    assert(m < side_runs(squares, side).len());
    let k = lemma_side_run_there(squares, sides, sides.len(), j, m);
    let (x, y) = (a - patch.rect.x0, b - patch.rect.y0);
    let run = runs_in(squares)[k];
    assert(run == run_at(g, side, patch));
    lemma_first_on(g, g.len(), least(columns(g)) + a, least(rows(g)) + b);
    let q = choose|q: int|
        0 <= q < g.len() && (#[trigger] g[q]).cx == least(columns(g)) + a && g[q].cy == least(
            rows(g),
        ) + b && g[q].index == i as usize;
    lemma_spots(squares, side, squares.len());
    assert(spot_ok(squares, side, g[q]));
    assert(lies_on(squares, side, i, patch, x, y));
    lemma_sits(squares, side, i, patch, x, y);
    let r = patch.rect;
    assert(x * side < r.width() * side) by (nonlinear_arith)
        requires
            x < r.width(),
            side > 0,
    ;
    assert(y * side < r.height() * side) by (nonlinear_arith)
        requires
            y < r.height(),
            side > 0,
    ;
    law_a_run_draws_the_squares_under_it(squares, k, x, y);
    assert(sits_on(squares[i], run, x, y));
    (k, x, y)
}

/// The points of a rectangle's outline from corner `(x, y)` over `(u, v)`, the
/// corner across, to the last: the second shares its row with the first when
/// `row`, else its column.
pub open spec fn round(x: int, y: int, u: int, v: int, row: bool) -> Seq<(int, int)> {
    if row {
        seq![(x, y), (u, y), (u, v), (x, v)]
    } else {
        seq![(x, y), (x, v), (u, v), (u, y)]
    }
}

/// The subpath's first four steps go to `points`, the first by a move or a
/// line and the others by lines; it may go back to the first point, and may
/// close, and has no other steps.
pub open spec fn outlines_by(subpath: Seq<Segment>, points: Seq<(int, int)>) -> bool {
    let n = reach_of(subpath);
    &&& is_polygon(subpath)
    &&& points.len() == 4
    &&& n == 4 || n == 5 && point_of(subpath[4]) == point_of(subpath[0])
    &&& forall|k: int|
        0 <= k < 4 ==> {
            &&& (#[trigger] points[k]).0 == point_of(subpath[k]).x
            &&& points[k].1 == point_of(subpath[k]).y
        }
}

/// An outline that goes round the four corners of a square, from whichever of
/// them and whichever way, is found as that square.
pub proof fn law_any_way_round_a_square_is_found(
    subpath: Seq<Segment>,
    s: Square,
    right: bool,
    low: bool,
    row: bool,
)
    requires
        s.side > 0,
        s.x + s.side <= i64::MAX,
        s.y + s.side <= i64::MAX,
        ({
            let (x0, x1) = (s.x as int, s.x + s.side);
            let (y0, y1) = (s.y as int, s.y + s.side);
            let (x, u) = if right {
                (x1, x0)
            } else {
                (x0, x1)
            };
            let (y, v) = if low {
                (y1, y0)
            } else {
                (y0, y1)
            };
            outlines_by(subpath, round(x, y, u, v, row))
        }),
    ensures
        square_of(subpath) == Some(s),
{
    let n = reach_of(subpath);
    let points = subpath.take(n).map_values(|s: Segment| point_of(s));
    let c = corners_of(subpath);
    assert(points.len() == n);
    assert forall|k: int| 0 <= k < n implies #[trigger] points[k] == point_of(subpath[k]) by {}
    assert(c.len() == 4);
    assert forall|k: int| 0 <= k < 4 implies #[trigger] c[k] == point_of(subpath[k]) by {
        assert(c[k] == points[k]);
    }
    let xs = c.map_values(|p: Xy| p.x as int);
    let ys = c.map_values(|p: Xy| p.y as int);
    let (x0, x1) = (s.x as int, s.x + s.side);
    let (y0, y1) = (s.y as int, s.y + s.side);
    let (x, u) = if right {
        (x1, x0)
    } else {
        (x0, x1)
    };
    let (y, v) = if low {
        (y1, y0)
    } else {
        (y0, y1)
    };
    let r = round(x, y, u, v, row);
    assert(r[0] == (x, y) && r[2] == (u, v));
    assert(xs[0] == r[0].0 && xs[1] == r[1].0 && xs[2] == r[2].0 && xs[3] == r[3].0);
    assert(ys[0] == r[0].1 && ys[1] == r[1].1 && ys[2] == r[2].1 && ys[3] == r[3].1);
    lemma_extremes(xs);
    lemma_extremes(ys);
    assert(least(xs) == x0 && most(xs) == x1) by {
        assert(least(xs) <= xs[0] && least(xs) <= xs[2]);
        assert(most(xs) >= xs[0] && most(xs) >= xs[2]);
    }
    assert(least(ys) == y0 && most(ys) == y1) by {
        assert(least(ys) <= ys[0] && least(ys) <= ys[2]);
        assert(most(ys) >= ys[0] && most(ys) >= ys[2]);
    }
    assert forall|k: int| 0 <= k < 4 implies is_corner(#[trigger] c[k], x0, x1, y0, y1) by {
        assert(xs[k] == r[k].0 && ys[k] == r[k].1);
    }
    assert(c[0].x == xs[0] && c[1].x == xs[1] && c[2].x == xs[2] && c[3].x == xs[3]);
    assert(c[0].y == ys[0] && c[1].y == ys[1] && c[2].y == ys[2] && c[3].y == ys[3]);
    assert(square_at(c) == Some(s));
}

/// A square that is found has the outline of a rectangle with that corner and
/// width, gone round once from some corner one way or the other; its height is
/// the width to within a thousandth of a millionth of the longer of the width
/// and a point.
pub proof fn law_a_found_square_is_outlined(subpath: Seq<Segment>) -> (way: (int, int, int, int, bool))
    requires
        path_ok(subpath),
        square_of(subpath) is Some,
    ensures
        ({
            let s = square_of(subpath)->0;
            let (x, y, u, v, row) = way;
            let (wide, high) = (s.side as int, if v < y {
                y - v
            } else {
                v - y
            });
            &&& outlines_by(subpath, round(x, y, u, v, row))
            &&& wide > 0 && high > 0
            &&& x == s.x && u == s.x + s.side || u == s.x && x == s.x + s.side
            &&& y == s.y && v == s.y + high || v == s.y && y == s.y + high
            &&& (high - wide) * 1_000_000_000 <= wide || (high - wide) * 1_000_000_000 <= 1_000_000
            &&& (wide - high) * 1_000_000_000 <= wide || (wide - high) * 1_000_000_000 <= 1_000_000
        }),
{
    let s = square_of(subpath)->0;
    let n = reach_of(subpath);
    let points = subpath.take(n).map_values(|s: Segment| point_of(s));
    let c = corners_of(subpath);
    assert forall|k: int| 0 <= k < n implies #[trigger] points[k] == point_of(subpath[k]) by {}
    assert forall|k: int| 0 <= k < 4 implies #[trigger] c[k] == point_of(subpath[k]) by {
        assert(c[k] == points[k]);
    }
    assert forall|k: int| 0 <= k < 4 implies (#[trigger] c[k]).ok() by {
        assert(subpath[k].ok());
    }
    let xs = c.map_values(|p: Xy| p.x as int);
    let ys = c.map_values(|p: Xy| p.y as int);
    lemma_extremes(xs);
    lemma_extremes(ys);
    let (x0, x1, y0, y1) = (least(xs), most(xs), least(ys), most(ys));
    assert(is_corner(c[0], x0, x1, y0, y1) && is_corner(c[1], x0, x1, y0, y1));
    assert(is_corner(c[2], x0, x1, y0, y1) && is_corner(c[3], x0, x1, y0, y1));
    let i = choose|i: int| 0 <= i < xs.len() && least(xs) == #[trigger] xs[i];
    let j = choose|j: int| 0 <= j < ys.len() && least(ys) == #[trigger] ys[j];
    assert(c[i].ok() && c[j].ok());
    assert(xs[i] == c[i].x && ys[j] == c[j].y);
    let found = (
        c[0].x as int,
        c[0].y as int,
        c[2].x as int,
        c[2].y as int,
        c[0].y == c[1].y,
    );
    let r = round(found.0, found.1, found.2, found.3, found.4);
    assert(r[0] == (c[0].x as int, c[0].y as int));
    assert(r[1] == (c[1].x as int, c[1].y as int));
    assert(r[2] == (c[2].x as int, c[2].y as int));
    assert(r[3] == (c[3].x as int, c[3].y as int));
    found
}

/// The square lies on column `cx` and row `cy` of the cells of side `side`.
pub open spec fn on_cell(s: Square, side: int, cx: int, cy: int) -> bool {
    &&& s.side == side
    &&& near(s.x as int, cx * side, side)
    &&& near(s.y as int, cy * side, side)
}

/// `f` shows the squares of side `side`: inked where one lies, counted from
/// column `x0` and row `y0`, and no larger than it must be.
pub open spec fn shows_squares(f: Field, squares: Seq<Square>, side: int, x0: int, y0: int) -> bool {
    &&& f.wf()
    &&& forall|x: int, y: int| #[trigger]
        f.ink.contains((x, y)) <==> exists|i: int|
            0 <= i < squares.len() && on_cell(#[trigger] squares[i], side, x0 + x, y0 + y)
    &&& exists|y: int| #[trigger] f.ink.contains((0int, y))
    &&& exists|y: int| #[trigger] f.ink.contains((f.w - 1, y))
    &&& exists|x: int| #[trigger] f.ink.contains((x, 0int))
    &&& exists|x: int| #[trigger] f.ink.contains((x, f.h - 1))
}

proof fn lemma_spot_there(squares: Seq<Square>, side: int, n: nat, i: int) -> (k: int)
    requires
        0 <= i < n <= squares.len(),
        spot_of(squares, side, i) is Some,
    ensures
        0 <= k < spots(squares, side, n).len(),
        spots(squares, side, n)[k] == spot_of(squares, side, i)->0,
    decreases n,
{
    if i == n - 1 {
        spots(squares, side, n).len() - 1
    } else {
        lemma_spot_there(squares, side, (n - 1) as nat, i)
    }
}

proof fn lemma_any_on(squares: Seq<Square>, side: int, cx: int, cy: int)
    requires
        side > 0,
        squares_ok(squares),
        squares.len() <= usize::MAX,
    ensures
        any_on(spots(squares, side, squares.len()), cx, cy) <==> exists|i: int|
            0 <= i < squares.len() && on_cell(#[trigger] squares[i], side, cx, cy),
{
    let g = spots(squares, side, squares.len());
    lemma_spots(squares, side, squares.len());
    if any_on(g, cx, cy) {
        let k = choose|k: int| 0 <= k < g.len() && (#[trigger] g[k]).cx == cx && g[k].cy == cy;
        assert(spot_ok(squares, side, g[k]));
        let i = g[k].index as int;
        let s = squares[i];
        assert(s.ok());
        let (a, b) = (cell_of(s.x as int, side)->0, cell_of(s.y as int, side)->0);
        lemma_cell(s.x as int, side, a);
        lemma_cell(s.y as int, side, b);
        lemma_cell_fits(s.x as int, side, a);
        lemma_cell_fits(s.y as int, side, b);
        assert(on_cell(squares[i], side, cx, cy));
    }
    if exists|i: int| 0 <= i < squares.len() && on_cell(#[trigger] squares[i], side, cx, cy) {
        let i = choose|i: int|
            0 <= i < squares.len() && on_cell(#[trigger] squares[i], side, cx, cy);
        let s = squares[i];
        assert(s.ok());
        lemma_cell(s.x as int, side, cx);
        lemma_cell(s.y as int, side, cy);
        lemma_cell_fits(s.x as int, side, cx);
        lemma_cell_fits(s.y as int, side, cy);
        let k = lemma_spot_there(squares, side, squares.len(), i);
        assert(g[k].cx == cx && g[k].cy == cy);
    }
}

/// A field that shows squares is the layout of their spots.
proof fn lemma_layout(f: Field, squares: Seq<Square>, side: int, x0: int, y0: int)
    requires
        side > 0,
        squares_ok(squares),
        squares.len() <= usize::MAX,
        shows_squares(f, squares, side, x0, y0),
    ensures
        ({
            let g = spots(squares, side, squares.len());
            &&& g.len() > 0
            &&& least(columns(g)) == x0
            &&& least(rows(g)) == y0
            &&& layout(g) == f
        }),
{
    let g = spots(squares, side, squares.len());
    assert forall|x: int, y: int| #[trigger] f.ink.contains((x, y)) <==> any_on(
        g,
        x0 + x,
        y0 + y,
    ) by {
        lemma_any_on(squares, side, x0 + x, y0 + y);
    }
    let (cs, rs) = (columns(g), rows(g));
    let a = choose|y: int| #[trigger] f.ink.contains((0int, y));
    let b = choose|y: int| #[trigger] f.ink.contains((f.w - 1, y));
    let c = choose|x: int| #[trigger] f.ink.contains((x, 0int));
    let d = choose|x: int| #[trigger] f.ink.contains((x, f.h - 1));
    assert(any_on(g, x0 + 0, y0 + a) && any_on(g, x0 + (f.w - 1), y0 + b));
    assert(any_on(g, x0 + c, y0 + 0) && any_on(g, x0 + d, y0 + (f.h - 1)));
    let ka = choose|k: int| 0 <= k < g.len() && (#[trigger] g[k]).cx == x0 && g[k].cy == y0 + a;
    let kb = choose|k: int|
        0 <= k < g.len() && (#[trigger] g[k]).cx == x0 + (f.w - 1) && g[k].cy == y0 + b;
    let kc = choose|k: int| 0 <= k < g.len() && (#[trigger] g[k]).cx == x0 + c && g[k].cy == y0;
    let kd = choose|k: int|
        0 <= k < g.len() && (#[trigger] g[k]).cx == x0 + d && g[k].cy == y0 + (f.h - 1);
    assert(cs[ka] == x0 && cs[kb] == x0 + f.w - 1 && rs[kc] == y0 && rs[kd] == y0 + f.h - 1);
    assert forall|k: int| 0 <= k < g.len() implies x0 <= #[trigger] cs[k] <= x0 + f.w - 1 && y0
        <= rs[k] <= y0 + f.h - 1 by {
        let (x, y) = (g[k].cx - x0, g[k].cy - y0);
        assert(any_on(g, x0 + x, y0 + y)) by {
            assert(g[k].cx == x0 + x && g[k].cy == y0 + y);
        }
        assert(f.ink.contains((x, y)));
    }
    lemma_extremes(cs);
    lemma_extremes(rs);
    assert(least(cs) <= cs[ka] && most(cs) >= cs[kb] && least(rs) <= rs[kc] && most(rs) >= rs[kd]);
    let i = choose|i: int| 0 <= i < rs.len() && least(rs) == #[trigger] rs[i];
    let j = choose|j: int| 0 <= j < rs.len() && most(rs) == #[trigger] rs[j];
    assert(cs[i] >= x0 && cs[j] >= x0);
    assert(least(cs) == x0 && most(cs) == x0 + f.w - 1);
    assert(least(rs) == y0 && most(rs) == y0 + f.h - 1);
    assert(layout(g).ink =~= f.ink) by {
        assert forall|s: (int, int)| #[trigger] layout(g).ink.contains(s) <==> f.ink.contains(
            s,
        ) by {
            assert(f.ink.contains((s.0, s.1)) <==> any_on(g, x0 + s.0, y0 + s.1));
        }
    }
}

proof fn lemma_enough_spots(f: Field, squares: Seq<Square>, side: int, x0: int, y0: int, r: Rect)
    requires
        side > 0,
        squares_ok(squares),
        squares.len() <= usize::MAX,
        shows_squares(f, squares, side, x0, y0),
    ensures
        r.inked(f) <= spots(squares, side, squares.len()).len(),
{
    let g = spots(squares, side, squares.len());
    lemma_layout(f, squares, side, x0, y0);
    let cells = g.map_values(|s: Spot| (s.cx - x0, s.cy - y0));
    let ink = window_ink(f, r.x0 as int, r.y0 as int, r.x1 as int, r.y1 as int);
    law_a_window_counts_its_ink(f, r.x0 as int, r.y0 as int, r.x1 as int, r.y1 as int);
    assert(ink.subset_of(cells.to_set())) by {
        assert forall|s: (int, int)| #[trigger] ink.contains(s) implies cells.to_set().contains(
            s,
        ) by {
            assert(layout(g).ink.contains(s));
            let k = choose|k: int|
                0 <= k < g.len() && (#[trigger] g[k]).cx == x0 + s.0 && g[k].cy == y0 + s.1;
            assert(cells[k] == s);
        }
    }
    cells.lemma_cardinality_of_set();
    vstd::seq_lib::seq_to_set_is_finite(cells);
    vstd::set_lib::lemma_len_subset(ink, cells.to_set());
}

/// A dithered area becomes a run. Where squares of one side lie on a grid of
/// 1048576 cells at most, and a tile of up to eight cells each way repeats over
/// a rectangle with 16 of them and a blank cell, a run of that side is found
/// whose rectangle holds at least as many.
pub proof fn law_a_repeating_area_becomes_a_run(
    squares: Seq<Square>,
    side: int,
    f: Field,
    x0: int,
    y0: int,
    p: Period,
) -> (found: (int, Rect))
    requires
        side > 0,
        squares_ok(squares),
        squares.len() <= usize::MAX,
        shows_squares(f, squares, side, x0, y0),
        f.w * f.h <= 1_048_576,
        1 <= p.x <= 8,
        1 <= p.y <= 8,
        !(p.x == 1 && p.y == 1),
        candidate(f, Set::empty(), p) matches Some(rect) && 16 <= rect.inked(f) < rect.area(),
    ensures
        ({
            let (k, r) = found;
            let run = runs_in(squares)[k];
            &&& 0 <= k < runs_in(squares).len()
            &&& run.side == side
            &&& run.x == (x0 + r.x0) * side
            &&& run.y == (y0 + r.y0) * side
            &&& run.width == (r.x1 - r.x0) * side
            &&& run.height == (r.y1 - r.y0) * side
            &&& r.inked(f) >= candidate(f, Set::empty(), p)->0.inked(f)
        }),
{
    let g = spots(squares, side, squares.len());
    lemma_layout(f, squares, side, x0, y0);
    lemma_enough_spots(f, squares, side, x0, y0, candidate(f, Set::empty(), p)->0);
    let a = choose|y: int| #[trigger] f.ink.contains((0int, y));
    assert(f.w >= 1 && f.h >= 1);
    law_the_first_run_has_the_most_squares(f, p);
    let patches = patches_of(squares, side);
    assert(patches == chosen(f, Set::empty(), MAX_RUNS as nat));
    let sides = lemma_sides(squares);
    lemma_sides_unique(sides, sides_in(squares), squares);
    lemma_spots(squares, side, squares.len());
    assert(spot_ok(squares, side, g[0]));
    let i = g[0].index as int;
    assert(squares[i].ok());
    assert(sides.contains(squares[i].side));
    let j = choose|j: int| 0 <= j < sides.len() && sides[j] == squares[i].side;
    assert(side_runs(squares, side)[0] == run_at(g, side, patches[0]));
    let k = lemma_side_run_there(squares, sides, sides.len(), j, 0);
    (k, patches[0].rect)
}

} // verus!
