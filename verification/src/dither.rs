//! Dithered areas as runs of tiles. A picture with an exact palette comes
//! back pixel for pixel, so a dithered area is one square per pixel. Where
//! one shape's squares repeat a tile of at most `MAX_PERIOD` cells each way
//! across a rectangle, that rectangle is a run, and a file draws it once,
//! filled with the tile as a pattern or as an array of a block.
use crate::field::Field;
use crate::geometry::{least, lemma_extremes, most, path_ok, Segment, Xy, REACH};
use crate::grid::{Grid, Period, Rect, MAX_GRID, MAX_RUNS, MIN_SQUARES};
use crate::lattice::{
    bounds, bounds_of, columns, first_on, grid_of, layout, lemma_bounds, lemma_spots, owners, rows,
    spot_of, spot_ok, spots, spots_of, spots_ok, squares_ok, Bounds, Spot,
};
use crate::tiling::{chosen, lemma_chosen, run_ok, Patch};
use vstd::prelude::*;

verus! {

/// A square one subpath outlines: its corner with the smaller coordinates
/// and its side.
#[derive(Clone, Copy, Debug, PartialEq, Eq, Structural)]
pub struct Square {
    pub x: i64,
    pub y: i64,
    pub side: i64,
}

impl Square {
    pub open spec fn ok(self) -> bool {
        &&& -REACH <= self.x <= REACH
        &&& -REACH <= self.y <= REACH
        &&& 0 < self.side <= 2 * REACH
    }
}

/// A step that only a subpath's first can be.
pub open spec fn is_move(segment: Segment) -> bool {
    segment is Move
}

/// `parts` is `segments` cut before every `Move`.
pub open spec fn is_subpaths(parts: Seq<Seq<Segment>>, segments: Seq<Segment>) -> bool {
    &&& parts.flatten() == segments
    &&& forall|k: int| 0 <= k < parts.len() ==> (#[trigger] parts[k]).len() > 0
    &&& forall|k: int| 0 < k < parts.len() ==> is_move((#[trigger] parts[k])[0])
    &&& forall|k: int, i: int|
        0 <= k < parts.len() && 0 < i < parts[k].len() ==> !is_move(#[trigger] parts[k][i])
}

/// The contents of `parts`.
pub open spec fn slices(parts: Seq<&[Segment]>) -> Seq<Seq<Segment>> {
    parts.map_values(|part: &[Segment]| part@)
}

/// The subpaths of `segments`, each from its `Move`.
pub fn subpaths(segments: &[Segment]) -> (parts: Vec<&[Segment]>)
    ensures
        is_subpaths(slices(parts@), segments@),
{
    let mut out: Vec<&[Segment]> = Vec::new();
    let mut start: usize = 0;
    let mut i: usize = 0;
    assert(slices(out@).flatten() =~= segments@.take(0)) by {
        assert(slices(out@) =~= Seq::<Seq<Segment>>::empty());
    }
    while i < segments.len()
        invariant
            start <= i <= segments@.len(),
            i > 0 ==> start < i,
            is_subpaths(slices(out@), segments@.take(start as int)),
            start > 0 ==> is_move(segments@[start as int]),
            forall|j: int| start < j < i ==> !is_move(#[trigger] segments@[j]),
            start == 0 <==> out@.len() == 0,
        decreases segments@.len() - i,
    {
        let here = match segments[i] {
            Segment::Move(_) => true,
            _ => false,
        };
        if here && i > start {
            let ghost before = slices(out@);
            let part = vstd::slice::slice_subrange(segments, start, i);
            out.push(part);
            proof {
                lemma_push_part(before, segments@, start as int, i as int);
                assert(slices(out@) =~= before.push(part@));
            }
            start = i;
        }
        i = i + 1;
    }
    if start < segments.len() {
        let ghost before = slices(out@);
        let part = vstd::slice::slice_subrange(segments, start, segments.len());
        out.push(part);
        proof {
            lemma_push_part(before, segments@, start as int, segments@.len() as int);
            assert(slices(out@) =~= before.push(part@));
        }
    }
    assert(segments@.take(segments@.len() as int) =~= segments@);
    out
}

proof fn lemma_push_part(before: Seq<Seq<Segment>>, segments: Seq<Segment>, start: int, end: int)
    requires
        0 <= start < end <= segments.len(),
        is_subpaths(before, segments.take(start)),
        before.len() > 0 ==> is_move(segments[start]),
        forall|j: int| start < j < end ==> !is_move(#[trigger] segments[j]),
    ensures
        is_subpaths(before.push(segments.subrange(start, end)), segments.take(end)),
{
    let part = segments.subrange(start, end);
    before.lemma_flatten_push(part);
    assert(segments.take(start) + part =~= segments.take(end));
    let after = before.push(part);
    assert forall|k: int| 0 < k < after.len() implies is_move((#[trigger] after[k])[0]) by {
        if k < before.len() {
            assert(after[k] == before[k]);
        } else {
            assert(part[0] == segments[start]);
        }
    }
    assert forall|k: int, i: int| 0 <= k < after.len() && 0 < i < after[k].len() implies !is_move(
        #[trigger] after[k][i],
    ) by {
        if k < before.len() {
            assert(after[k] == before[k]);
        } else {
            assert(part[i] == segments[start + i]);
        }
    }
}

/// How many steps of `subpath` go to a point: all but a `Close` at the end.
pub open spec fn reach_of(subpath: Seq<Segment>) -> int {
    if subpath.len() > 0 && subpath.last() is Close {
        subpath.len() - 1
    } else {
        subpath.len() as int
    }
}

/// The point a straight step goes to.
pub open spec fn point_of(segment: Segment) -> Xy {
    match segment {
        Segment::Move(p) => p,
        Segment::Line(p) => p,
        Segment::Cubic(_, _, p) => p,
        Segment::Close => arbitrary(),
    }
}

/// `subpath` is one run of straight steps, closed or not.
pub open spec fn is_polygon(subpath: Seq<Segment>) -> bool {
    forall|i: int|
        0 <= i < reach_of(subpath) ==> (#[trigger] subpath[i]) is Line || i == 0 && subpath[i] is Move
}

/// The points of a polygon, the last left out when there are five and it
/// repeats the first.
pub open spec fn corners_of(subpath: Seq<Segment>) -> Seq<Xy> {
    let points = subpath.take(reach_of(subpath)).map_values(|s: Segment| point_of(s));
    if points.len() == 5 && points[4] == points[0] {
        points.drop_last()
    } else {
        points
    }
}

/// `p` is a corner of the rectangle from `(x0, y0)` to `(x1, y1)`.
pub open spec fn is_corner(p: Xy, x0: int, x1: int, y0: int, y1: int) -> bool {
    (p.x == x0 || p.x == x1) && (p.y == y0 || p.y == y1)
}

/// Two corners on one side of a square: apart along one axis alone.
pub open spec fn along(a: Xy, b: Xy) -> bool {
    (a.x == b.x) != (a.y == b.y)
}

/// The square whose four corners `c` visits once each, with sides equal to a
/// thousandth of a millionth of the longer of the side and a point.
pub open spec fn square_at(c: Seq<Xy>) -> Option<Square> {
    let xs = c.map_values(|p: Xy| p.x as int);
    let ys = c.map_values(|p: Xy| p.y as int);
    let side = most(xs) - least(xs);
    let slack = most(ys) - least(ys) - side;
    if c.len() == 4 && side > 0 && (if slack < 0 {
        -slack
    } else {
        slack
    }) * 1_000_000_000 <= (if side > 1_000_000 {
        side
    } else {
        1_000_000
    }) && (forall|k: int|
        0 <= k < 4 ==> is_corner(#[trigger] c[k], least(xs), most(xs), least(ys), most(ys))) && along(c[0], c[1]) && along(c[1], c[2]) && along(c[2], c[3])
        && along(c[3], c[0]) && c[0].x != c[2].x && c[0].y != c[2].y && c[1] != c[3] {
        Some(Square { x: least(xs) as i64, y: least(ys) as i64, side: side as i64 })
    } else {
        None
    }
}

/// The square `subpath` outlines, when it is one: its four corners visited
/// once each along the square's sides, in either turn, closed or not.
pub open spec fn square_of(subpath: Seq<Segment>) -> Option<Square> {
    if is_polygon(subpath) {
        square_at(corners_of(subpath))
    } else {
        None
    }
}

/// The points of `subpath` when it is one run of straight steps.
fn corners(subpath: &[Segment]) -> (points: Option<Vec<Xy>>)
    requires
        path_ok(subpath@),
    ensures
        points is Some <==> is_polygon(subpath@),
        points is Some ==> points->0@ == corners_of(subpath@),
        points is Some ==> forall|i: int| 0 <= i < points->0@.len() ==> (#[trigger] points->0@[i]).ok(),
{
    let n: usize = subpath.len();
    let mut reach: usize = n;
    if n > 0 {
        if let Segment::Close = subpath[n - 1] {
            reach = n - 1;
        }
    }
    let mut points: Vec<Xy> = Vec::new();
    let mut i: usize = 0;
    while i < reach
        invariant
            path_ok(subpath@),
            reach == reach_of(subpath@),
            0 <= i <= reach <= subpath@.len(),
            points@ =~= subpath@.take(i as int).map_values(|s: Segment| point_of(s)),
            forall|j: int|
                0 <= j < i ==> (#[trigger] subpath@[j]) is Line || j == 0 && subpath@[j] is Move,
            forall|j: int| 0 <= j < points@.len() ==> (#[trigger] points@[j]).ok(),
        decreases reach - i,
    {
        assert(subpath@[i as int].ok());
        match subpath[i] {
            Segment::Move(p) => {
                if i != 0 {
                    return None;
                }
                points.push(p);
            },
            Segment::Line(p) => {
                points.push(p);
            },
            _ => {
                return None;
            },
        }
        i = i + 1;
    }
    if points.len() == 5 && points[4] == points[0] {
        points.pop();
    }
    Some(points)
}

/// The square `subpath` outlines, when it is one: its four corners visited
/// once each along the square's sides, in either turn, closed or not.
pub fn square(subpath: &[Segment]) -> (found: Option<Square>)
    requires
        path_ok(subpath@),
    ensures
        found == square_of(subpath@),
        found is Some ==> found->0.ok(),
{
    let points = match corners(subpath) {
        Some(points) => points,
        None => {
            return None;
        },
    };
    if points.len() != 4 {
        return None;
    }
    let ghost c = points@;
    let ghost xs = c.map_values(|p: Xy| p.x as int);
    let ghost ys = c.map_values(|p: Xy| p.y as int);
    let mut x0: i64 = points[0].x;
    let mut x1: i64 = x0;
    let mut y0: i64 = points[0].y;
    let mut y1: i64 = y0;
    let mut k: usize = 1;
    proof {
        assert(xs.take(1).len() == 1 && ys.take(1).len() == 1);
    }
    while k < 4
        invariant
            1 <= k <= 4,
            c == points@,
            c.len() == 4,
            xs == c.map_values(|p: Xy| p.x as int),
            ys == c.map_values(|p: Xy| p.y as int),
            x0 == least(xs.take(k as int)),
            x1 == most(xs.take(k as int)),
            y0 == least(ys.take(k as int)),
            y1 == most(ys.take(k as int)),
        decreases 4 - k,
    {
        let p: Xy = points[k];
        proof {
            let n = k + 1;
            assert(xs.take(n).drop_last() =~= xs.take(k as int));
            assert(ys.take(n).drop_last() =~= ys.take(k as int));
            assert(xs.take(n).last() == p.x && ys.take(n).last() == p.y);
        }
        if p.x < x0 {
            x0 = p.x;
        }
        if p.x > x1 {
            x1 = p.x;
        }
        if p.y < y0 {
            y0 = p.y;
        }
        if p.y > y1 {
            y1 = p.y;
        }
        k = k + 1;
    }
    proof {
        assert(xs.take(4) =~= xs);
        assert(ys.take(4) =~= ys);
        lemma_extremes(xs);
        lemma_extremes(ys);
        assert forall|i: int| 0 <= i < 4 implies -REACH <= #[trigger] xs[i] <= REACH by {
            assert(c[i].ok());
        }
        assert forall|i: int| 0 <= i < 4 implies -REACH <= #[trigger] ys[i] <= REACH by {
            assert(c[i].ok());
        }
    }
    let side: i64 = x1 - x0;
    let tall: i64 = y1 - y0;
    let slack: i128 = if tall < side {
        side as i128 - tall as i128
    } else {
        tall as i128 - side as i128
    };
    let scale: i128 = if side > 1_000_000 {
        side as i128
    } else {
        1_000_000
    };
    if side <= 0 || slack * 1_000_000_000 > scale {
        return None;
    }
    let mut k: usize = 0;
    while k < 4
        invariant
            k <= 4,
            c == points@,
            c.len() == 4,
            forall|i: int|
                0 <= i < k ==> is_corner(
                    #[trigger] c[i],
                    x0 as int,
                    x1 as int,
                    y0 as int,
                    y1 as int,
                ),
        ensures
            k <= 4,
            k < 4 ==> !is_corner(c[k as int], x0 as int, x1 as int, y0 as int, y1 as int),
            forall|i: int|
                0 <= i < k ==> is_corner(
                    #[trigger] c[i],
                    x0 as int,
                    x1 as int,
                    y0 as int,
                    y1 as int,
                ),
        decreases 4 - k,
    {
        let p: Xy = points[k];
        if !((p.x == x0 || p.x == x1) && (p.y == y0 || p.y == y1)) {
            break;
        }
        k = k + 1;
    }
    let (a, b, e, d) = (points[0], points[1], points[2], points[3]);
    if k == 4 && (a.x == b.x) != (a.y == b.y) && (b.x == e.x) != (b.y == e.y) && (e.x == d.x) != (
    e.y == d.y) && (d.x == a.x) != (d.y == a.y) && a.x != e.x && a.y != e.y && !(b.x == d.x && b.y
        == d.y) {
        Some(Square { x: x0, y: y0, side })
    } else {
        None
    }
}

/// A rectangle whose squares of one size repeat one tile.
#[derive(Debug)]
pub struct Run {
    /// The rectangle; its corner is the tile's.
    pub x: i64,
    pub y: i64,
    pub width: i64,
    pub height: i64,
    /// The squares' side.
    pub side: i64,
    /// The tile's size in cells.
    pub period: Period,
    /// The tile's inked cells as column and row, counted from its corner, row
    /// by row.
    pub inked: Vec<(usize, usize)>,
}

/// What a run is: `Run` as numbers.
#[verifier::ext_equal]
pub struct RunView {
    pub x: int,
    pub y: int,
    pub width: int,
    pub height: int,
    pub side: int,
    pub period: Period,
    pub inked: Seq<(usize, usize)>,
}

impl View for Run {
    type V = RunView;

    open spec fn view(&self) -> RunView {
        RunView {
            x: self.x as int,
            y: self.y as int,
            width: self.width as int,
            height: self.height as int,
            side: self.side as int,
            period: self.period,
            inked: self.inked@,
        }
    }
}

impl Run {
    /// The run lies within the page's reach, and its tile on whole cells.
    pub open spec fn ok(self) -> bool {
        &&& self.period.ok()
        &&& 0 < self.side <= 2 * REACH
        &&& -3 * REACH <= self.x <= 5 * REACH
        &&& -3 * REACH <= self.y <= 5 * REACH
        &&& 0 <= self.width <= 8 * REACH
        &&& 0 <= self.height <= 8 * REACH
        &&& -3 * REACH <= self.x + self.width <= 5 * REACH
        &&& -3 * REACH <= self.y + self.height <= 5 * REACH
        &&& (self.width as int) % (self.side as int) == 0
        &&& (self.height as int) % (self.side as int) == 0
        &&& self.width <= MAX_GRID * self.side
        &&& self.height <= MAX_GRID * self.side
        &&& self.width >= 2 * self.period.x * self.side
        &&& self.height >= 2 * self.period.y * self.side
        &&& forall|k: int|
            0 <= k < self.inked@.len() ==> (#[trigger] self.inked@[k]).0 < self.period.x
                && self.inked@[k].1 < self.period.y
    }

    /// The tile's width and height.
    pub fn tile(&self) -> (size: (i64, i64))
        requires
            self.ok(),
        ensures
            size.0 == self.period.x * self.side,
            size.1 == self.period.y * self.side,
    {
        proof {
            let (px, py, s) = (self.period.x as int, self.period.y as int, self.side as int);
            assert(2 * px * s == 2 * (px * s) && px * s >= 0 && 2 * py * s == 2 * (py * s) && py * s
                >= 0) by (nonlinear_arith)
                requires
                    px >= 0,
                    py >= 0,
                    s > 0,
            ;
        }
        (self.period.x as i64 * self.side, self.period.y as i64 * self.side)
    }
}

/// The inked cells among the first `n` of a run's tile, row by row.
pub open spec fn tile_cells(f: Field, patch: Patch, n: nat) -> Seq<(usize, usize)>
    decreases n,
{
    if n == 0 {
        Seq::empty()
    } else {
        let before = tile_cells(f, patch, (n - 1) as nat);
        let i = (n - 1) % (patch.period.x as int);
        let j = (n - 1) / (patch.period.x as int);
        if f.inked(patch.rect.x0 + i, patch.rect.y0 + j) {
            before.push((i as usize, j as usize))
        } else {
            before
        }
    }
}

/// The run that draws `patch` of the grid of `g`.
pub open spec fn run_at(g: Seq<Spot>, side: int, patch: Patch) -> RunView {
    RunView {
        x: (least(columns(g)) + patch.rect.x0) * side,
        y: (least(rows(g)) + patch.rect.y0) * side,
        width: patch.rect.width() * side,
        height: patch.rect.height() * side,
        side,
        period: patch.period,
        inked: tile_cells(layout(g), patch, (patch.period.x * patch.period.y) as nat),
    }
}

/// The rectangles of the squares of side `side` that become runs.
pub open spec fn patches_of(squares: Seq<Square>, side: int) -> Seq<Patch> {
    let g = spots(squares, side, squares.len());
    if g.len() < MIN_SQUARES || layout(g).w * layout(g).h > MAX_GRID {
        Seq::empty()
    } else {
        chosen(layout(g), Set::empty(), MAX_RUNS as nat)
    }
}

/// The runs of the squares of side `side`.
pub open spec fn side_runs(squares: Seq<Square>, side: int) -> Seq<RunView> {
    let g = spots(squares, side, squares.len());
    patches_of(squares, side).map_values(|patch: Patch| run_at(g, side, patch))
}

/// The runs of the first `n` sides of `sides`, in their order.
pub open spec fn runs_of(squares: Seq<Square>, sides: Seq<i64>, n: nat) -> Seq<RunView>
    decreases n,
{
    if n == 0 {
        Seq::empty()
    } else {
        runs_of(squares, sides, (n - 1) as nat) + side_runs(squares, sides[n - 1] as int)
    }
}

/// `sides` are the sides of `squares`, each once, smallest first.
pub open spec fn is_sides(sides: Seq<i64>, squares: Seq<Square>) -> bool {
    &&& ascending(sides)
    &&& forall|i: int| 0 <= i < squares.len() ==> sides.contains((#[trigger] squares[i]).side)
    &&& forall|k: int| 0 <= k < sides.len() ==> has_side(squares, #[trigger] sides[k])
}

pub open spec fn ascending(sides: Seq<i64>) -> bool {
    forall|a: int, b: int| 0 <= a < b < sides.len() ==> #[trigger] sides[a] < #[trigger] sides[b]
}

pub open spec fn has_side(squares: Seq<Square>, side: i64) -> bool {
    exists|i: int| 0 <= i < squares.len() && (#[trigger] squares[i]).side == side
}

/// The sides of `squares`, each once, smallest first.
pub open spec fn sides_in(squares: Seq<Square>) -> Seq<i64> {
    choose|sides: Seq<i64>| is_sides(sides, squares)
}

/// The runs of `squares`, those of the smallest squares first.
pub open spec fn runs_in(squares: Seq<Square>) -> Seq<RunView> {
    runs_of(squares, sides_in(squares), sides_in(squares).len())
}

/// Squares have one list of sides.
pub proof fn lemma_sides_unique(a: Seq<i64>, b: Seq<i64>, squares: Seq<Square>)
    requires
        is_sides(a, squares),
        is_sides(b, squares),
    ensures
        a == b,
{
    assert forall|v: i64| a.contains(v) <==> b.contains(v) by {
        lemma_listed(a, b, squares, v);
        lemma_listed(b, a, squares, v);
    }
    lemma_same_values(a, b);
}

proof fn lemma_listed(a: Seq<i64>, b: Seq<i64>, squares: Seq<Square>, v: i64)
    requires
        is_sides(a, squares),
        is_sides(b, squares),
    ensures
        a.contains(v) ==> b.contains(v),
{
    if a.contains(v) {
        let k = choose|k: int| 0 <= k < a.len() && a[k] == v;
        assert(has_side(squares, a[k]));
    }
}

proof fn lemma_same_values(a: Seq<i64>, b: Seq<i64>)
    requires
        ascending(a),
        ascending(b),
        forall|v: i64| a.contains(v) <==> b.contains(v),
    ensures
        a == b,
    decreases a.len(),
{
    if a.len() == 0 {
        if b.len() > 0 {
            assert(b.contains(b[0]));
            assert(a.contains(b[0]));
        }
        assert(a =~= b);
    } else {
        assert(a.contains(a.last()));
        let j = choose|j: int| 0 <= j < b.len() && b[j] == a.last();
        assert(b.contains(b.last()));
        let i = choose|i: int| 0 <= i < a.len() && a[i] == b.last();
        assert(a.last() == b.last()) by {
            if j < b.len() - 1 {
                assert(b[j] < b[b.len() - 1]);
            }
            if i < a.len() - 1 {
                assert(a[i] < a[a.len() - 1]);
            }
        }
        let (c, d) = (a.drop_last(), b.drop_last());
        assert forall|v: i64| c.contains(v) <==> d.contains(v) by {
            if c.contains(v) {
                let k = choose|k: int| 0 <= k < c.len() && c[k] == v;
                assert(a[k] == v && a[k] < a[a.len() - 1]);
                assert(a.contains(v) && b.contains(v));
                let m = choose|m: int| 0 <= m < b.len() && b[m] == v;
                assert(m < d.len() && d[m] == v);
            }
            if d.contains(v) {
                let k = choose|k: int| 0 <= k < d.len() && d[k] == v;
                assert(b[k] == v && b[k] < b[b.len() - 1]);
                assert(b.contains(v) && a.contains(v));
                let m = choose|m: int| 0 <= m < a.len() && a[m] == v;
                assert(m < c.len() && c[m] == v);
            }
        }
        lemma_same_values(c, d);
        assert(a =~= c.push(a.last()));
        assert(b =~= d.push(b.last()));
    }
}

/// Square `i` is the first on a cell that a run of its size covers.
pub open spec fn covered_by_run(squares: Seq<Square>, i: int) -> bool {
    let side = squares[i].side as int;
    drawn(spots(squares, side, squares.len()), patches_of(squares, side), i)
}

/// Square `i` is the first of `g` on a cell of one of `patches`.
pub open spec fn drawn(g: Seq<Spot>, patches: Seq<Patch>, i: int) -> bool {
    exists|k: int, x: int, y: int|
        0 <= k < patches.len() && #[trigger] patches[k].rect.holds(x, y) && owner_at(g, x, y)
            == Some(i as usize)
}

/// The first square of `g` on cell `(x, y)` of their grid.
pub open spec fn owner_at(g: Seq<Spot>, x: int, y: int) -> Option<usize> {
    first_on(g, g.len(), least(columns(g)) + x, least(rows(g)) + y)
}

pub open spec fn run_views(runs: Seq<Run>) -> Seq<RunView> {
    runs.map_values(|r: Run| r@)
}

/// The sides of `squares`, each once, smallest first.
fn sides_of(squares: &[Square]) -> (sides: Vec<i64>)
    ensures
        is_sides(sides@, squares@),
{
    let mut sides: Vec<i64> = Vec::new();
    let mut i: usize = 0;
    while i < squares.len()
        invariant
            i <= squares@.len(),
            ascending(sides@),
            forall|j: int| 0 <= j < i ==> sides@.contains((#[trigger] squares@[j]).side),
            forall|k: int| 0 <= k < sides@.len() ==> has_side(squares@, #[trigger] sides@[k]),
        decreases squares@.len() - i,
    {
        let side: i64 = squares[i].side;
        // The first of the sides found so far that is not smaller.
        let mut low: usize = 0;
        let mut high: usize = sides.len();
        while low < high
            invariant
                low <= high <= sides@.len(),
                ascending(sides@),
                forall|k: int| 0 <= k < low ==> #[trigger] sides@[k] < side,
                forall|k: int| high <= k < sides@.len() ==> #[trigger] sides@[k] >= side,
            decreases high - low,
        {
            let middle: usize = low + (high - low) / 2;
            if sides[middle] < side {
                low = middle + 1;
            } else {
                high = middle;
            }
        }
        let ghost before = sides@;
        if low == sides.len() || sides[low] != side {
            sides.insert(low, side);
            proof {
                assert(has_side(squares@, side)) by {
                    assert(squares@[i as int].side == side);
                }
                assert(sides@[low as int] == side);
                assert forall|j: int| 0 <= j < i implies sides@.contains(
                    (#[trigger] squares@[j]).side,
                ) by {
                    let k = choose|k: int| 0 <= k < before.len() && before[k] == squares@[j].side;
                    if k < low {
                        assert(sides@[k] == before[k]);
                    } else {
                        assert(sides@[k + 1] == before[k]);
                    }
                }
            }
        } else {
            assert(sides@[low as int] == side);
        }
        i = i + 1;
    }
    sides
}

/// The inked cells of a run's tile, row by row.
fn tile_of(grid: &Grid, patch: Patch) -> (inked: Vec<(usize, usize)>)
    requires
        grid.wf(),
        patch.period.ok(),
        patch.rect.on(grid@),
    ensures
        inked@ == tile_cells(grid@, patch, (patch.period.x * patch.period.y) as nat),
        forall|k: int|
            0 <= k < inked@.len() ==> (#[trigger] inked@[k]).0 < patch.period.x && inked@[k].1
                < patch.period.y,
{
    proof {
        grid.lemma_small();
    }
    let (px, py): (usize, usize) = (patch.period.x, patch.period.y);
    let mut inked: Vec<(usize, usize)> = Vec::new();
    let mut j: usize = 0;
    while j < py
        invariant
            grid.wf(),
            grid.w <= MAX_GRID,
            grid.h <= MAX_GRID,
            patch.rect.on(grid@),
            px == patch.period.x,
            py == patch.period.y,
            patch.period.ok(),
            j <= py,
            inked@ == tile_cells(grid@, patch, (j * px) as nat),
            forall|k: int|
                0 <= k < inked@.len() ==> (#[trigger] inked@[k]).0 < px && inked@[k].1 < py,
        decreases py - j,
    {
        let mut i: usize = 0;
        while i < px
            invariant
                grid.wf(),
                grid.w <= MAX_GRID,
                grid.h <= MAX_GRID,
                patch.rect.on(grid@),
                px == patch.period.x,
                py == patch.period.y,
                patch.period.ok(),
                j < py,
                i <= px,
                inked@ == tile_cells(grid@, patch, (j * px + i) as nat),
                forall|k: int|
                    0 <= k < inked@.len() ==> (#[trigger] inked@[k]).0 < px && inked@[k].1 < py,
            decreases px - i,
        {
            proof {
                let n = j * px + i;
                assert(n >= 0) by (nonlinear_arith)
                    requires
                        n == j * px + i,
                ;
                assert(n == px * j + i) by (nonlinear_arith)
                    requires
                        n == j * px + i,
                ;
                vstd::arithmetic::div_mod::lemma_fundamental_div_mod_converse(
                    n,
                    px as int,
                    j as int,
                    i as int,
                );
            }
            if grid.ink(patch.rect.x0 + i, patch.rect.y0 + j) {
                inked.push((i, j));
            }
            i = i + 1;
        }
        proof {
            assert((j + 1) * px == j * px + px) by (nonlinear_arith);
        }
        j = j + 1;
    }
    assert(py * px == px * py) by (nonlinear_arith);
    inked
}

/// A cell between the bounds of spots within reach has its corner within
/// reach of the page.
proof fn lemma_corner(side: int, c: int, left: int, right: int, v0: int, v1: int)
    requires
        0 < side <= 2 * REACH,
        left <= c <= right + 1,
        -side < side * left - v0,
        side * right - v1 < side,
        -REACH <= v0 <= REACH,
        -REACH <= v1 <= REACH,
    ensures
        -3 * REACH <= c * side <= 5 * REACH,
{
    assert(side * left <= c * side <= side * (right + 1) && side * (right + 1) == side * right
        + side) by (nonlinear_arith)
        requires
            side > 0,
            left <= c <= right + 1,
    ;
}

/// The run that draws `patch` on the grid of `g`.
fn run_for(
    squares: &[Square],
    g: &Vec<Spot>,
    b: Bounds,
    side: i64,
    grid: &Grid,
    patch: Patch,
) -> (run: Run)
    requires
        0 < side <= 2 * REACH,
        squares_ok(squares@),
        g@.len() > 0,
        spots_ok(squares@, side as int, g@),
        bounds_of(g@, b),
        grid.wf(),
        grid@ == layout(g@),
        run_ok(grid@, Set::empty(), patch),
    ensures
        run@ == run_at(g@, side as int, patch),
        run.ok(),
{
    let r: Rect = patch.rect;
    proof {
        lemma_bounds(g@, b);
        grid.lemma_small();
        let sq = squares@;
        let k0 = choose|k: int| 0 <= k < g@.len() && (#[trigger] g@[k]).cx == b.left;
        let k1 = choose|k: int| 0 <= k < g@.len() && (#[trigger] g@[k]).cx == b.right;
        let k2 = choose|k: int| 0 <= k < g@.len() && (#[trigger] g@[k]).cy == b.top;
        let k3 = choose|k: int| 0 <= k < g@.len() && (#[trigger] g@[k]).cy == b.bottom;
        assert(spot_ok(sq, side as int, g@[k0]) && spot_ok(sq, side as int, g@[k1]));
        assert(spot_ok(sq, side as int, g@[k2]) && spot_ok(sq, side as int, g@[k3]));
        assert(sq[g@[k0].index as int].ok() && sq[g@[k1].index as int].ok());
        assert(sq[g@[k2].index as int].ok() && sq[g@[k3].index as int].ok());
        let (v0, v1) = (sq[g@[k0].index as int].x as int, sq[g@[k1].index as int].x as int);
        let (v2, v3) = (sq[g@[k2].index as int].y as int, sq[g@[k3].index as int].y as int);
        let s = side as int;
        lemma_corner(s, b.left + r.x0, b.left as int, b.right as int, v0, v1);
        lemma_corner(s, b.left + r.x1, b.left as int, b.right as int, v0, v1);
        lemma_corner(s, b.top + r.y0, b.top as int, b.bottom as int, v2, v3);
        lemma_corner(s, b.top + r.y1, b.top as int, b.bottom as int, v2, v3);
        let (x0, x1, y0, y1) = (b.left + r.x0, b.left + r.x1, b.top + r.y0, b.top + r.y1);
        assert((x1 - x0) * s == x1 * s - x0 * s && (y1 - y0) * s == y1 * s - y0 * s)
            by (nonlinear_arith);
        vstd::arithmetic::div_mod::lemma_mod_multiples_basic(r.width(), s);
        vstd::arithmetic::div_mod::lemma_mod_multiples_basic(r.height(), s);
        let (w, h, px, py) = (
            r.width(),
            r.height(),
            patch.period.x as int,
            patch.period.y as int,
        );
        assert(w * s <= MAX_GRID * s && h * s <= MAX_GRID * s) by (nonlinear_arith)
            requires
                w <= MAX_GRID,
                h <= MAX_GRID,
                s > 0,
        ;
        assert(w * s >= 2 * px * s && h * s >= 2 * py * s && w * s >= 0 && h * s >= 0)
            by (nonlinear_arith)
            requires
                w >= px * 2,
                h >= py * 2,
                px >= 0,
                py >= 0,
                s > 0,
        ;
    }
    let x: i64 = ((b.left as i128 + r.x0 as i128) * side as i128) as i64;
    let y: i64 = ((b.top as i128 + r.y0 as i128) * side as i128) as i64;
    let width: i64 = (r.x1 - r.x0) as i64 * side;
    let height: i64 = (r.y1 - r.y0) as i64 * side;
    let inked = tile_of(grid, patch);
    Run { x, y, width, height, side, period: patch.period, inked }
}

/// Adds the runs of the squares of side `side` to `out`, and marks the
/// squares they draw in `covered`.
fn add_side(squares: &[Square], side: i64, out: &mut Vec<Run>, covered: &mut Vec<bool>)
    requires
        0 < side <= 2 * REACH,
        squares_ok(squares@),
        old(covered)@.len() == squares@.len(),
        forall|k: int| 0 <= k < old(out)@.len() ==> (#[trigger] old(out)@[k]).ok(),
    ensures
        run_views(final(out)@) == run_views(old(out)@) + side_runs(squares@, side as int),
        forall|k: int| 0 <= k < final(out)@.len() ==> (#[trigger] final(out)@[k]).ok(),
        final(covered)@.len() == squares@.len(),
        forall|i: int|
            0 <= i < squares@.len() ==> #[trigger] final(covered)@[i] == (old(covered)@[i] || (
            squares@[i].side == side && covered_by_run(squares@, i))),
{
    let ghost sq = squares@;
    let count: usize = squares.len();
    let g = spots_of(squares, side);
    let ghost patches = patches_of(sq, side as int);
    proof {
        lemma_spots(sq, side as int, sq.len());
        assert(side_runs(sq, side as int).len() == patches.len());
        assert(patches.len() == 0 ==> run_views(out@) + side_runs(sq, side as int) =~= run_views(
            out@,
        ));
    }
    if g.len() < MIN_SQUARES {
        return;
    }
    let b = bounds(&g);
    proof {
        lemma_bounds(g@, b);
        let k0 = choose|k: int| 0 <= k < g@.len() && (#[trigger] g@[k]).cx == b.left;
        let k1 = choose|k: int| 0 <= k < g@.len() && (#[trigger] g@[k]).cx == b.right;
        let k2 = choose|k: int| 0 <= k < g@.len() && (#[trigger] g@[k]).cy == b.top;
        let k3 = choose|k: int| 0 <= k < g@.len() && (#[trigger] g@[k]).cy == b.bottom;
        assert(spot_ok(sq, side as int, g@[k0]) && spot_ok(sq, side as int, g@[k1]));
        assert(spot_ok(sq, side as int, g@[k2]) && spot_ok(sq, side as int, g@[k3]));
    }
    let wide: u64 = (b.right - b.left) as u64 + 1;
    let tall: u64 = (b.bottom - b.top) as u64 + 1;
    proof {
        assert(wide * tall <= 0xffff_ffff_ffff_ffff * 0xffff_ffff_ffff_ffff) by (nonlinear_arith)
            requires
                0 <= wide <= 0xffff_ffff_ffff_ffff,
                0 <= tall <= 0xffff_ffff_ffff_ffff,
        ;
        assert(wide <= wide * tall && tall <= wide * tall) by (nonlinear_arith)
            requires
                wide >= 1,
                tall >= 1,
        ;
    }
    if wide as u128 * tall as u128 > MAX_GRID as u128 {
        return;
    }
    let w: usize = wide as usize;
    let h: usize = tall as usize;
    let owner = owners(&g, b, w, h);
    let mut grid = grid_of(&g, b, &owner, w, h);
    let list = grid.runs();
    proof {
        lemma_chosen(layout(g@), Set::empty(), MAX_RUNS as nat);
    }
    let mut k: usize = 0;
    while k < list.len()
        invariant
            k <= list@.len(),
            0 < side <= 2 * REACH,
            sq == squares@,
            sq.len() == count,
            squares_ok(sq),
            g@ == spots(sq, side as int, sq.len()),
            g@.len() > 0,
            spots_ok(sq, side as int, g@),
            bounds_of(g@, b),
            grid.wf(),
            grid.w == w,
            grid.h == h,
            grid@ == layout(g@),
            w * h <= MAX_GRID,
            crate::grid::shaped(owner@, w as int, h as int),
            forall|x: int, y: int|
                0 <= x < w && 0 <= y < h ==> #[trigger] owner@[y]@[x] == first_on(
                    g@,
                    g@.len(),
                    b.left + x,
                    b.top + y,
                ),
            patches == patches_of(sq, side as int),
            list@ == patches,
            forall|i: int|
                0 <= i < list@.len() ==> run_ok(layout(g@), Set::empty(), #[trigger] list@[i]),
            run_views(out@) =~= run_views(old(out)@) + side_runs(sq, side as int).take(k as int),
            forall|i: int| 0 <= i < out@.len() ==> (#[trigger] out@[i]).ok(),
            covered@.len() == sq.len(),
            forall|i: int|
                0 <= i < sq.len() ==> #[trigger] covered@[i] == (old(covered)@[i] || drawn(
                    g@,
                    patches.take(k as int),
                    i,
                )),
        decreases list@.len() - k,
    {
        let patch: Patch = list[k];
        assert(run_ok(layout(g@), Set::empty(), patch));
        let ghost marked = covered@;
        cover(&g, b, &owner, w, h, patch, covered);
        let ghost before = out@;
        let run = run_for(squares, &g, b, side, &grid, patch);
        out.push(run);
        proof {
            let next = patches.take(k + 1);
            let done = patches.take(k as int);
            assert(run_views(out@) =~= run_views(before).push(run@));
            assert(side_runs(sq, side as int)[k as int] == run@);
            assert forall|i: int| 0 <= i < sq.len() implies #[trigger] covered@[i] == (
            old(covered)@[i] || drawn(g@, next, i)) by {
                assert(covered@[i] == (marked[i] || drawn(g@, seq![patch], i)));
                assert(marked[i] == (old(covered)@[i] || drawn(g@, done, i)));
                if drawn(g@, next, i) {
                    let (m, x, y) = choose|m: int, x: int, y: int|
                        0 <= m < next.len() && #[trigger] next[m].rect.holds(x, y) && owner_at(
                            g@,
                            x,
                            y,
                        ) == Some(i as usize);
                    if m < k {
                        assert(done[m].rect.holds(x, y));
                    } else {
                        assert(seq![patch][0].rect.holds(x, y));
                    }
                }
                if drawn(g@, done, i) {
                    let (m, x, y) = choose|m: int, x: int, y: int|
                        0 <= m < done.len() && #[trigger] done[m].rect.holds(x, y) && owner_at(
                            g@,
                            x,
                            y,
                        ) == Some(i as usize);
                    assert(next[m].rect.holds(x, y));
                }
                if drawn(g@, seq![patch], i) {
                    let (m, x, y) = choose|m: int, x: int, y: int|
                        0 <= m < seq![patch].len() && #[trigger] seq![patch][m].rect.holds(x, y)
                            && owner_at(g@, x, y) == Some(i as usize);
                    assert(next[k as int].rect.holds(x, y));
                }
            }
        }
        k = k + 1;
    }
    proof {
        assert(side_runs(sq, side as int).take(k as int) =~= side_runs(sq, side as int));
        assert(patches.take(k as int) =~= patches);
        assert forall|i: int| 0 <= i < sq.len() implies #[trigger] covered@[i] == (
        old(covered)@[i] || (sq[i].side == side && covered_by_run(sq, i))) by {
            if drawn(g@, patches, i) {
                lemma_drawn_in_group(sq, side as int, i);
            }
        }
    }
}

/// A square that a run draws is one of the group that the run was found in.
proof fn lemma_drawn_in_group(squares: Seq<Square>, side: int, i: int)
    requires
        side > 0,
        squares_ok(squares),
        0 <= i < squares.len() <= usize::MAX,
        drawn(spots(squares, side, squares.len()), patches_of(squares, side), i),
    ensures
        squares[i].side == side,
{
    let g = spots(squares, side, squares.len());
    let patches = patches_of(squares, side);
    let (m, x, y) = choose|m: int, x: int, y: int|
        0 <= m < patches.len() && #[trigger] patches[m].rect.holds(x, y) && owner_at(g, x, y)
            == Some(i as usize);
    lemma_spots(squares, side, squares.len());
    let (cx, cy) = (least(columns(g)) + x, least(rows(g)) + y);
    crate::lattice::lemma_first_on(g, g.len(), cx, cy);
    let k = choose|k: int|
        0 <= k < g.len() && (#[trigger] g[k]).cx == cx && g[k].cy == cy && g[k].index == i;
    assert(spot_ok(squares, side, g[k]));
}

/// Marks the square on each cell of `patch`.
fn cover(
    g: &Vec<Spot>,
    b: Bounds,
    owner: &Vec<Vec<Option<usize>>>,
    w: usize,
    h: usize,
    patch: Patch,
    covered: &mut Vec<bool>,
)
    requires
        bounds_of(g@, b),
        patch.rect.x1 <= w,
        patch.rect.y1 <= h,
        crate::grid::shaped(owner@, w as int, h as int),
        forall|k: int| 0 <= k < g@.len() ==> (#[trigger] g@[k]).index < old(covered)@.len(),
        forall|x: int, y: int|
            0 <= x < w && 0 <= y < h ==> #[trigger] owner@[y]@[x] == first_on(
                g@,
                g@.len(),
                b.left + x,
                b.top + y,
            ),
    ensures
        final(covered)@.len() == old(covered)@.len(),
        forall|i: int|
            0 <= i < old(covered)@.len() ==> #[trigger] final(covered)@[i] == (old(covered)@[i]
                || drawn(g@, seq![patch], i)),
{
    let rect: Rect = patch.rect;
    let ghost was = covered@;
    let count: usize = covered.len();
    let mut y: usize = rect.y0;
    while y < rect.y1
        invariant
            bounds_of(g@, b),
            rect.x1 <= w,
            rect.y1 <= h,
            rect.y0 <= y,
            crate::grid::shaped(owner@, w as int, h as int),
            forall|k: int| 0 <= k < g@.len() ==> (#[trigger] g@[k]).index < was.len(),
            forall|i: int, j: int|
                0 <= i < w && 0 <= j < h ==> #[trigger] owner@[j]@[i] == first_on(
                    g@,
                    g@.len(),
                    b.left + i,
                    b.top + j,
                ),
            covered@.len() == was.len(),
            was.len() == count,
            forall|i: int|
                0 <= i < was.len() ==> #[trigger] covered@[i] == (was[i] || owned(
                    g@,
                    rect,
                    rect.x0 as int,
                    y as int,
                    i,
                )),
        decreases rect.y1 - y,
    {
        let mut x: usize = rect.x0;
        while x < rect.x1
            invariant
                bounds_of(g@, b),
                rect.x1 <= w,
                rect.y1 <= h,
                rect.y0 <= y < rect.y1,
                rect.x0 <= x,
                crate::grid::shaped(owner@, w as int, h as int),
                forall|k: int| 0 <= k < g@.len() ==> (#[trigger] g@[k]).index < was.len(),
                forall|i: int, j: int|
                    0 <= i < w && 0 <= j < h ==> #[trigger] owner@[j]@[i] == first_on(
                        g@,
                        g@.len(),
                        b.left + i,
                        b.top + j,
                    ),
                covered@.len() == was.len(),
                was.len() == count,
                forall|i: int|
                    0 <= i < was.len() ==> #[trigger] covered@[i] == (was[i] || owned(
                        g@,
                        rect,
                        x as int,
                        y as int,
                        i,
                    )),
            decreases rect.x1 - x,
        {
            let here = owner[y][x];
            proof {
                crate::lattice::lemma_first_on(g@, g@.len(), b.left + x, b.top + y);
                assert(here == owner_at(g@, x as int, y as int));
                assert(rect.holds(x as int, y as int));
                assert forall|i: int| 0 <= i < was.len() implies #[trigger] owned(
                    g@,
                    rect,
                    x + 1,
                    y as int,
                    i,
                ) == (owned(g@, rect, x as int, y as int, i) || here == Some(i as usize)) by {
                    lemma_owned_step(g@, rect, x as int, y as int, i);
                }
            }
            if let Some(i) = here {
                covered.set(i, true);
            }
            x = x + 1;
        }
        proof {
            assert forall|i: int| 0 <= i < was.len() implies #[trigger] owned(
                g@,
                rect,
                rect.x0 as int,
                y + 1,
                i,
            ) == owned(g@, rect, x as int, y as int, i) by {
                lemma_owned_row(g@, rect, x as int, y as int, i);
            }
        }
        y = y + 1;
    }
    proof {
        assert forall|i: int| 0 <= i < was.len() implies #[trigger] covered@[i] == (was[i] || drawn(
            g@,
            seq![patch],
            i,
        )) by {
            lemma_owned_all(g@, patch, y as int, i);
        }
    }
}

/// Square `i` owns a cell of `rect` before column `x` of row `y`, row by row.
spec fn owned(g: Seq<Spot>, rect: Rect, x: int, y: int, i: int) -> bool {
    exists|a: int, b: int|
        #[trigger] rect.holds(a, b) && (b < y || b == y && a < x) && owner_at(g, a, b) == Some(
            i as usize,
        )
}

proof fn lemma_owned_step(g: Seq<Spot>, rect: Rect, x: int, y: int, i: int)
    requires
        rect.holds(x, y),
    ensures
        owned(g, rect, x + 1, y, i) == (owned(g, rect, x, y, i) || owner_at(g, x, y) == Some(
            i as usize,
        )),
{
    if owned(g, rect, x + 1, y, i) {
        let (a, b) = choose|a: int, b: int|
            #[trigger] rect.holds(a, b) && (b < y || b == y && a < x + 1) && owner_at(g, a, b)
                == Some(i as usize);
        assert(rect.holds(a, b));
    }
    if owned(g, rect, x, y, i) {
        let (a, b) = choose|a: int, b: int|
            #[trigger] rect.holds(a, b) && (b < y || b == y && a < x) && owner_at(g, a, b) == Some(
                i as usize,
            );
        assert(rect.holds(a, b));
    }
}

proof fn lemma_owned_row(g: Seq<Spot>, rect: Rect, x: int, y: int, i: int)
    requires
        x >= rect.x1,
    ensures
        owned(g, rect, rect.x0 as int, y + 1, i) == owned(g, rect, x, y, i),
{
    if owned(g, rect, rect.x0 as int, y + 1, i) {
        let (a, b) = choose|a: int, b: int|
            #[trigger] rect.holds(a, b) && (b < y + 1 || b == y + 1 && a < rect.x0) && owner_at(
                g,
                a,
                b,
            ) == Some(i as usize);
        assert(rect.holds(a, b));
    }
    if owned(g, rect, x, y, i) {
        let (a, b) = choose|a: int, b: int|
            #[trigger] rect.holds(a, b) && (b < y || b == y && a < x) && owner_at(g, a, b) == Some(
                i as usize,
            );
        assert(rect.holds(a, b));
    }
}

proof fn lemma_owned_all(g: Seq<Spot>, patch: Patch, y: int, i: int)
    requires
        y >= patch.rect.y1,
    ensures
        owned(g, patch.rect, patch.rect.x0 as int, y, i) == drawn(g, seq![patch], i),
{
    let one = seq![patch];
    if drawn(g, one, i) {
        let (m, a, b) = choose|m: int, a: int, b: int|
            0 <= m < one.len() && #[trigger] one[m].rect.holds(a, b) && owner_at(g, a, b) == Some(
                i as usize,
            );
        assert(patch.rect.holds(a, b));
    }
    if owned(g, patch.rect, patch.rect.x0 as int, y, i) {
        let (a, b) = choose|a: int, b: int|
            #[trigger] patch.rect.holds(a, b) && (b < y || b == y && a < patch.rect.x0)
                && owner_at(g, a, b) == Some(i as usize);
        assert(one[0].rect.holds(a, b));
    }
}

/// The runs among `squares` (one shape's), smallest squares first, and for
/// each square whether a run draws it.
pub fn runs(squares: &[Square]) -> (found: (Vec<Run>, Vec<bool>))
    requires
        squares_ok(squares@),
    ensures
        run_views(found.0@) == runs_in(squares@),
        forall|k: int| 0 <= k < found.0@.len() ==> (#[trigger] found.0@[k]).ok(),
        found.1@.len() == squares@.len(),
        forall|i: int|
            0 <= i < squares@.len() ==> #[trigger] found.1@[i] == covered_by_run(squares@, i),
{
    let ghost sq = squares@;
    let mut covered: Vec<bool> = vec![false; squares.len()];
    let mut out: Vec<Run> = Vec::new();
    let sides = sides_of(squares);
    let mut k: usize = 0;
    assert(run_views(out@) =~= runs_of(sq, sides@, 0));
    while k < sides.len()
        invariant
            k <= sides@.len(),
            sq == squares@,
            squares_ok(sq),
            is_sides(sides@, sq),
            run_views(out@) == runs_of(sq, sides@, k as nat),
            forall|m: int| 0 <= m < out@.len() ==> (#[trigger] out@[m]).ok(),
            covered@.len() == sq.len(),
            forall|i: int|
                0 <= i < sq.len() ==> #[trigger] covered@[i] == (sides@.take(k as int).contains(
                    sq[i].side,
                ) && covered_by_run(sq, i)),
        decreases sides@.len() - k,
    {
        let side: i64 = sides[k];
        proof {
            assert(has_side(sq, side));
            let i = choose|i: int| 0 <= i < sq.len() && (#[trigger] sq[i]).side == side;
            assert(sq[i].ok());
        }
        add_side(squares, side, &mut out, &mut covered);
        proof {
            let done = sides@.take(k as int);
            let next = sides@.take(k + 1);
            assert(next =~= done.push(side));
            assert forall|i: int| 0 <= i < sq.len() implies #[trigger] next.contains(sq[i].side)
                == (done.contains(sq[i].side) || sq[i].side == side) by {
                if done.contains(sq[i].side) {
                    let m = choose|m: int| 0 <= m < done.len() && done[m] == sq[i].side;
                    assert(next[m] == sq[i].side);
                }
                if sq[i].side == side {
                    assert(next[k as int] == sq[i].side);
                }
            }
        }
        k = k + 1;
    }
    assert(sides@.take(sides@.len() as int) =~= sides@);
    proof {
        lemma_sides_unique(sides@, sides_in(squares@), squares@);
    }
    (out, covered)
}

/// The squares among the first `n` subpaths, in their order.
pub open spec fn outlined(parts: Seq<Seq<Segment>>, n: nat) -> Seq<Square>
    decreases n,
{
    if n == 0 {
        Seq::empty()
    } else {
        let before = outlined(parts, (n - 1) as nat);
        match square_of(parts[n - 1]) {
            Some(square) => before.push(square),
            None => before,
        }
    }
}

/// Whether a run draws the square that subpath `k` outlines.
pub open spec fn part_dropped(parts: Seq<Seq<Segment>>, k: int) -> bool {
    square_of(parts[k]) is Some && covered_by_run(
        outlined(parts, parts.len()),
        outlined(parts, k as nat).len() as int,
    )
}

/// The steps of the first `n` subpaths without those that a run draws.
pub open spec fn kept(parts: Seq<Seq<Segment>>, n: nat) -> Seq<Segment>
    decreases n,
{
    if n == 0 {
        Seq::empty()
    } else if part_dropped(parts, n - 1) {
        kept(parts, (n - 1) as nat)
    } else {
        kept(parts, (n - 1) as nat) + parts[n - 1]
    }
}

/// `found` is what `parts` become: nothing when they hold no run, else the
/// subpaths no run draws and the runs.
pub open spec fn is_split(
    parts: Seq<Seq<Segment>>,
    found: Option<(Seq<Segment>, Seq<RunView>)>,
) -> bool {
    let squares = outlined(parts, parts.len());
    let views = runs_in(squares);
    match found {
        None => views.len() == 0,
        Some((rest, runs)) => {
            &&& views.len() > 0
            &&& runs == views
            &&& rest == kept(parts, parts.len())
        },
    }
}

pub open spec fn split_view(found: Option<(Vec<Segment>, Vec<Run>)>) -> Option<
    (Seq<Segment>, Seq<RunView>),
> {
    match found {
        None => None,
        Some((rest, runs)) => Some((rest@, run_views(runs@))),
    }
}

/// `found` is a path's runs and what is left of it without them.
pub open spec fn is_split_of(
    segments: Seq<Segment>,
    found: Option<(Seq<Segment>, Seq<RunView>)>,
) -> bool {
    exists|parts: Seq<Seq<Segment>>| #[trigger] split_of(segments, parts, found)
}

/// The subpaths that `is_split` speaks of.
pub open spec fn split_of(
    segments: Seq<Segment>,
    parts: Seq<Seq<Segment>>,
    found: Option<(Seq<Segment>, Seq<RunView>)>,
) -> bool {
    &&& is_subpaths(parts, segments)
    &&& is_split(parts, found)
}

proof fn lemma_part_ok(parts: Seq<Seq<Segment>>, k: int)
    requires
        0 <= k < parts.len(),
        path_ok(parts.flatten()),
    ensures
        path_ok(parts[k]),
    decreases parts.len(),
{
    let first = parts.first();
    let rest = parts.drop_first().flatten();
    assert(parts.flatten() == first + rest);
    if k == 0 {
        assert forall|i: int| 0 <= i < first.len() implies (#[trigger] first[i]).ok() by {
            assert((first + rest)[i] == first[i]);
            assert(parts.flatten()[i].ok());
        }
    } else {
        assert forall|i: int| 0 <= i < rest.len() implies (#[trigger] rest[i]).ok() by {
            assert((first + rest)[first.len() + i] == rest[i]);
            assert(parts.flatten()[first.len() + i].ok());
        }
        lemma_part_ok(parts.drop_first(), k - 1);
        assert(parts.drop_first()[k - 1] == parts[k]);
    }
}

proof fn lemma_kept_ok(parts: Seq<Seq<Segment>>, n: nat)
    requires
        n <= parts.len(),
        forall|k: int| 0 <= k < parts.len() ==> path_ok(#[trigger] parts[k]),
    ensures
        path_ok(kept(parts, n)),
    decreases n,
{
    if n > 0 {
        lemma_kept_ok(parts, (n - 1) as nat);
        let (a, b) = (kept(parts, (n - 1) as nat), parts[n - 1]);
        assert(path_ok(b));
        assert forall|i: int| 0 <= i < kept(parts, n).len() implies (#[trigger] kept(
            parts,
            n,
        )[i]).ok() by {
            if !part_dropped(parts, n - 1) {
                if i < a.len() {
                    assert((a + b)[i] == a[i]);
                } else {
                    assert((a + b)[i] == b[i - a.len()]);
                }
            }
        }
    }
}

/// `segments` without the squares that runs draw, and the runs; `None` when
/// no run is found.
pub fn split(segments: &[Segment]) -> (found: Option<(Vec<Segment>, Vec<Run>)>)
    requires
        path_ok(segments@),
    ensures
        is_split_of(segments@, split_view(found)),
        found matches Some((rest, runs)) ==> path_ok(rest@) && forall|k: int|
            0 <= k < runs@.len() ==> (#[trigger] runs@[k]).ok(),
{
    let list = subpaths(segments);
    let ghost parts = slices(list@);
    proof {
        assert forall|k: int| 0 <= k < parts.len() implies path_ok(#[trigger] parts[k]) by {
            lemma_part_ok(parts, k);
        }
    }
    let mut squares: Vec<Square> = Vec::new();
    let mut rank: Vec<Option<usize>> = Vec::new();
    let mut k: usize = 0;
    while k < list.len()
        invariant
            k <= list@.len(),
            parts == slices(list@),
            forall|i: int| 0 <= i < parts.len() ==> path_ok(#[trigger] parts[i]),
            squares@ == outlined(parts, k as nat),
            squares_ok(squares@),
            squares@.len() <= k,
            rank@.len() == k,
            forall|i: int|
                0 <= i < k ==> #[trigger] rank@[i] == (if square_of(parts[i]) is Some {
                    Some(outlined(parts, i as nat).len() as usize)
                } else {
                    None
                }) && outlined(parts, i as nat).len() <= i,
        decreases list@.len() - k,
    {
        assert(parts[k as int] == list@[k as int]@);
        assert(path_ok(parts[k as int]));
        match square(list[k]) {
            Some(s) => {
                rank.push(Some(squares.len()));
                squares.push(s);
            },
            None => {
                rank.push(None);
            },
        }
        k = k + 1;
    }
    let (found, covered) = runs(squares.as_slice());
    if found.len() == 0 {
        assert(split_of(segments@, parts, None));
        return None;
    }
    let mut rest: Vec<Segment> = Vec::new();
    let mut k: usize = 0;
    while k < list.len()
        invariant
            k <= list@.len(),
            parts == slices(list@),
            squares@ == outlined(parts, parts.len()),
            rank@.len() == parts.len(),
            forall|i: int|
                0 <= i < parts.len() ==> #[trigger] rank@[i] == (if square_of(parts[i]) is Some {
                    Some(outlined(parts, i as nat).len() as usize)
                } else {
                    None
                }) && outlined(parts, i as nat).len() <= i,
            covered@.len() == squares@.len(),
            forall|i: int|
                0 <= i < squares@.len() ==> #[trigger] covered@[i] == covered_by_run(squares@, i),
            rest@ == kept(parts, k as nat),
        decreases list@.len() - k,
    {
        let part = list[k];
        assert(part@ == parts[k as int]);
        let dropped = match rank[k] {
            Some(i) => {
                proof {
                    lemma_rank(parts, k as int);
                }
                covered[i]
            },
            None => false,
        };
        assert(dropped == part_dropped(parts, k as int));
        if !dropped {
            rest.extend_from_slice(part);
            assert(rest@ =~= kept(parts, k as nat) + parts[k as int]);
        }
        k = k + 1;
    }
    proof {
        lemma_kept_ok(parts, parts.len());
        assert(split_of(segments@, parts, Some((rest@, run_views(found@)))));
    }
    Some((rest, found))
}

/// A square's rank among the squares is below their number.
pub proof fn lemma_rank(parts: Seq<Seq<Segment>>, k: int)
    requires
        0 <= k < parts.len(),
        square_of(parts[k]) is Some,
    ensures
        outlined(parts, k as nat).len() < outlined(parts, parts.len()).len(),
{
    lemma_outlined_grows(parts, (k + 1) as nat, parts.len());
}

proof fn lemma_outlined_grows(parts: Seq<Seq<Segment>>, a: nat, b: nat)
    requires
        a <= b,
    ensures
        outlined(parts, a).len() <= outlined(parts, b).len(),
    decreases b,
{
    if a < b {
        lemma_outlined_grows(parts, a, (b - 1) as nat);
    }
}

proof fn lemma_tile_cells(f: Field, patch: Patch, n: nat, i: int, j: int)
    requires
        patch.period.ok(),
        0 <= i < patch.period.x,
        0 <= j < patch.period.y,
        n <= usize::MAX,
    ensures
        tile_cells(f, patch, n).contains((i as usize, j as usize)) <==> j * patch.period.x + i < n
            && f.inked(patch.rect.x0 + i, patch.rect.y0 + j),
    decreases n,
{
    let px = patch.period.x as int;
    assert(j * px >= 0 && j <= j * px) by (nonlinear_arith)
        requires
            j >= 0,
            px >= 1,
    ;
    if n == 0 {
    } else {
        let m = (n - 1) as nat;
        lemma_tile_cells(f, patch, m, i, j);
        let before = tile_cells(f, patch, m);
        vstd::arithmetic::div_mod::lemma_fundamental_div_mod(m as int, px);
        let (a, b) = (m as int % px, m as int / px);
        assert(0 <= a < px && m == px * b + a);
        assert(b <= m && 0 <= b) by (nonlinear_arith)
            requires
                m == px * b + a,
                0 <= a < px,
                px >= 1,
                m >= 0,
        ;
        if j * px + i == m {
            assert(m == px * j + i) by (nonlinear_arith)
                requires
                    j * px + i == m,
            ;
            vstd::arithmetic::div_mod::lemma_fundamental_div_mod_converse(m as int, px, j, i);
            if f.inked(patch.rect.x0 + i, patch.rect.y0 + j) {
                assert(tile_cells(f, patch, n).last() == (i as usize, j as usize));
            }
        } else {
            assert(!(a == i && b == j)) by (nonlinear_arith)
                requires
                    m == px * b + a,
                    j * px + i != m,
            ;
            if before.contains((i as usize, j as usize)) {
                let k = choose|k: int| 0 <= k < before.len() && before[k] == (i as usize, j as usize);
                assert(tile_cells(f, patch, n)[k] == (i as usize, j as usize));
            }
        }
    }
}

/// Whether a run's tile is inked where cell `(x, y)` of the run's rectangle
/// falls.
pub open spec fn tile_inked(run: RunView, x: int, y: int) -> bool {
    run.inked.contains(
        ((x % (run.period.x as int)) as usize, (y % (run.period.y as int)) as usize),
    )
}

/// The runs draw what they replace: on every cell of a run's rectangle,
/// counted from its corner, the tile is inked exactly where the shape has a
/// square of that size, and one such square is drawn by the run.
pub proof fn law_runs_draw_their_squares(
    squares: Seq<Square>,
    side: int,
    k: int,
    x: int,
    y: int,
)
    requires
        side > 0,
        squares_ok(squares),
        squares.len() <= usize::MAX,
        0 <= k < patches_of(squares, side).len(),
        0 <= x < patches_of(squares, side)[k].rect.width(),
        0 <= y < patches_of(squares, side)[k].rect.height(),
    ensures
        tile_inked(side_runs(squares, side)[k], x, y) <==> exists|i: int|
            0 <= i < squares.len() && #[trigger] lies_on(
                squares,
                side,
                i,
                patches_of(squares, side)[k],
                x,
                y,
            ) && covered_by_run(squares, i),
        tile_inked(side_runs(squares, side)[k], x, y) <==> exists|i: int|
            0 <= i < squares.len() && #[trigger] lies_on(
                squares,
                side,
                i,
                patches_of(squares, side)[k],
                x,
                y,
            ),
{
    let g = spots(squares, side, squares.len());
    let patches = patches_of(squares, side);
    let patch = patches[k];
    let f = layout(g);
    let (r, p) = (patch.rect, patch.period);
    let (px, py) = (p.x as int, p.y as int);
    lemma_spots(squares, side, squares.len());
    let b = Bounds {
        left: least(columns(g)) as i64,
        right: most(columns(g)) as i64,
        top: least(rows(g)) as i64,
        bottom: most(rows(g)) as i64,
    };
    lemma_extremes(columns(g));
    lemma_extremes(rows(g));
    assert(bounds_of(g, b)) by {
        assert forall|i: int| 0 <= i < g.len() implies i64::MIN <= #[trigger] columns(g)[i]
            <= i64::MAX && i64::MIN <= rows(g)[i] <= i64::MAX by {
            assert(spot_ok(squares, side, g[i]));
        }
        assert forall|i: int| 0 <= i < g.len() implies i64::MIN <= #[trigger] rows(g)[i]
            <= i64::MAX by {
            assert(spot_ok(squares, side, g[i]));
        }
    }
    lemma_bounds(g, b);
    assert(f.w >= 1 && f.h >= 1);
    lemma_chosen(f, Set::empty(), MAX_RUNS as nat);
    assert(run_ok(f, Set::empty(), patch));
    let (cx, cy) = (r.x0 + x, r.y0 + y);
    assert(r.holds(cx, cy));
    assert(crate::grid::cell_repeats(f, p, r, cx, cy));
    let (i, j) = (x % px, y % py);
    assert(0 <= i < px && 0 <= j < py) by {
        vstd::arithmetic::div_mod::lemma_mod_bound(x, px);
        vstd::arithmetic::div_mod::lemma_mod_bound(y, py);
    }
    assert(px * py <= 64 && j * px + i < px * py) by (nonlinear_arith)
        requires
            1 <= px <= 8,
            1 <= py <= 8,
            0 <= i < px,
            0 <= j < py,
    ;
    lemma_tile_cells(f, patch, (p.x * p.y) as nat, i, j);
    let run = side_runs(squares, side)[k];
    assert(run == run_at(g, side, patch));
    assert(tile_inked(run, x, y) == f.inked(cx, cy));
    let (ax, ay) = (least(columns(g)) + cx, least(rows(g)) + cy);
    crate::lattice::lemma_first_on(g, g.len(), ax, ay);
    if f.inked(cx, cy) {
        assert(crate::lattice::any_on(g, ax, ay));
        let index = owner_at(g, cx, cy)->0 as int;
        let m = choose|m: int|
            0 <= m < g.len() && (#[trigger] g[m]).cx == ax && g[m].cy == ay && g[m].index
                == owner_at(g, cx, cy)->0;
        assert(spot_ok(squares, side, g[m]));
        assert(patches[k].rect.holds(cx, cy));
        assert(drawn(g, patches, index));
        assert(lies_on(squares, side, index, patch, x, y));
        assert(covered_by_run(squares, index));
    }
    if exists|i: int| 0 <= i < squares.len() && #[trigger] lies_on(squares, side, i, patch, x, y) {
        let i = choose|i: int|
            0 <= i < squares.len() && #[trigger] lies_on(squares, side, i, patch, x, y);
        lemma_spot_listed(squares, side, squares.len(), i);
        let m = choose|m: int| 0 <= m < g.len() && #[trigger] g[m] == spot_of(squares, side, i)->0;
        assert(g[m].cx == ax && g[m].cy == ay);
        assert(crate::lattice::any_on(g, ax, ay));
    }
}

/// Square `i` of side `side` lies on cell `(x, y)` of `patch`, counted from
/// its corner.
pub open spec fn lies_on(
    squares: Seq<Square>,
    side: int,
    i: int,
    patch: Patch,
    x: int,
    y: int,
) -> bool {
    let g = spots(squares, side, squares.len());
    &&& spot_of(squares, side, i) matches Some(s)
    &&& s.cx == least(columns(g)) + patch.rect.x0 + x
    &&& s.cy == least(rows(g)) + patch.rect.y0 + y
}

proof fn lemma_spot_listed(squares: Seq<Square>, side: int, n: nat, i: int)
    requires
        0 <= i < n <= squares.len(),
        spot_of(squares, side, i) is Some,
    ensures
        exists|m: int|
            0 <= m < spots(squares, side, n).len() && #[trigger] spots(squares, side, n)[m]
                == spot_of(squares, side, i)->0,
    decreases n,
{
    let now = spots(squares, side, n);
    let before = spots(squares, side, (n - 1) as nat);
    if i == n - 1 {
        assert(now[now.len() - 1] == spot_of(squares, side, i)->0);
    } else {
        lemma_spot_listed(squares, side, (n - 1) as nat, i);
        let m = choose|m: int|
            0 <= m < before.len() && #[trigger] before[m] == spot_of(squares, side, i)->0;
        assert(now[m] == before[m]);
    }
}

} // verus!
