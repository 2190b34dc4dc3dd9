//! The squares of one size on their grid, and the rectangles of it that
//! repeat a tile.
use crate::field::Field;
use vstd::prelude::*;

verus! {

/// Cells a tile may span each way: ordered dithers repeat every 2, 4 or 8.
pub const MAX_PERIOD: usize = 8;

/// The fewest squares a pattern replaces: a pattern's definition costs about
/// as much as a dozen squares.
pub const MIN_SQUARES: usize = 16;

/// Tiles a run spans each way, at least.
pub const MIN_TILES: usize = 2;

/// The largest grid (cells in the bounding box of one size of square) that
/// is searched: 63 periods cost a pass over the grid each per run.
pub const MAX_GRID: usize = 0x10_0000;

/// Runs found per shape and square size, at most.
pub const MAX_RUNS: usize = 256;

/// The cells from column `x0` to `x1` and row `y0` to `y1`, the last of each
/// not among them.
#[derive(Clone, Copy, Debug, PartialEq, Eq, Structural)]
pub struct Rect {
    pub x0: usize,
    pub y0: usize,
    pub x1: usize,
    pub y1: usize,
}

/// A tile's size in cells.
#[derive(Clone, Copy, Debug, PartialEq, Eq, Structural)]
pub struct Period {
    pub x: usize,
    pub y: usize,
}

impl Rect {
    pub open spec fn width(self) -> int {
        self.x1 - self.x0
    }

    pub open spec fn height(self) -> int {
        self.y1 - self.y0
    }

    pub open spec fn area(self) -> int {
        self.width() * self.height()
    }

    pub open spec fn holds(self, x: int, y: int) -> bool {
        self.x0 <= x < self.x1 && self.y0 <= y < self.y1
    }

    pub open spec fn on(self, f: Field) -> bool {
        &&& self.x0 <= self.x1 <= f.w
        &&& self.y0 <= self.y1 <= f.h
    }

    /// Inked cells in the rectangle.
    pub open spec fn inked(self, f: Field) -> nat {
        f.count(self.x0 as int, self.y0 as int, self.x1 as int, self.y1 as int)
    }
}

impl Period {
    pub open spec fn ok(self) -> bool {
        1 <= self.x <= MAX_PERIOD && 1 <= self.y <= MAX_PERIOD
    }
}

/// Whether cell `(x, y)` may lie in a run of tiles of size `p`: not yet
/// taken, like the cells a period to its right and below, and not in a blank
/// tile.
#[verifier::opaque]
pub open spec fn fits(f: Field, taken: Set<(int, int)>, p: Period, x: int, y: int) -> bool {
    &&& 0 <= x < f.w
    &&& 0 <= y < f.h
    &&& !taken.contains((x, y))
    &&& f.inked(x, y) == f.inked(x + p.x, y)
    &&& f.inked(x, y) == f.inked(x, y + p.y)
    &&& f.count(x, y, x + p.x, y + p.y) > 0
}

/// A rectangle of fitting cells, at least `MIN_TILES` tiles each way.
pub open spec fn tiled(f: Field, taken: Set<(int, int)>, p: Period, r: Rect) -> bool {
    &&& r.on(f)
    &&& r.width() >= p.x * MIN_TILES
    &&& r.height() >= p.y * MIN_TILES
    &&& forall|x: int, y: int| r.holds(x, y) ==> #[trigger] fits(f, taken, p, x, y)
}

/// Whether `a` is taken over `b`: the larger one, then the one that ends
/// higher, then the one that ends further left, then the taller one.
pub open spec fn leads(a: Rect, b: Rect) -> bool {
    ||| a.area() > b.area()
    ||| {
        &&& a.area() == b.area()
        &&& {
            ||| a.y1 < b.y1
            ||| a.y1 == b.y1 && a.x1 < b.x1
            ||| a.y1 == b.y1 && a.x1 == b.x1 && a.height() >= b.height()
        }
    }
}

/// `r` is the tiled rectangle that leads every other.
pub open spec fn is_largest(f: Field, taken: Set<(int, int)>, p: Period, r: Rect) -> bool {
    &&& tiled(f, taken, p, r)
    &&& forall|o: Rect| tiled(f, taken, p, o) ==> #[trigger] leads(r, o)
}

/// The largest tiled rectangle, if there is one.
pub open spec fn largest_tiled(f: Field, taken: Set<(int, int)>, p: Period) -> Option<Rect> {
    if exists|r: Rect| is_largest(f, taken, p, r) {
        Some(choose|r: Rect| is_largest(f, taken, p, r))
    } else {
        None
    }
}

/// How many cells of column `x` fit in a row upwards from row `y`.
pub open spec fn rise(f: Field, taken: Set<(int, int)>, p: Period, x: int, y: int) -> nat
    decreases y + 1,
{
    if y < 0 {
        0
    } else if fits(f, taken, p, x, y) {
        1 + rise(f, taken, p, x, y - 1)
    } else {
        0
    }
}

proof fn lemma_rise(f: Field, taken: Set<(int, int)>, p: Period, x: int, y: int, k: int)
    requires
        y >= -1,
        k >= 0,
    ensures
        rise(f, taken, p, x, y) <= y + 1,
        rise(f, taken, p, x, y) >= k <==> (k <= y + 1 && forall|j: int|
            y - k < j <= y ==> #[trigger] fits(f, taken, p, x, j)),
    decreases y + 1,
{
    if y >= 0 {
        if k > 0 {
            lemma_rise(f, taken, p, x, y - 1, k - 1);
            if rise(f, taken, p, x, y) >= k {
                assert forall|j: int| y - k < j <= y implies #[trigger] fits(f, taken, p, x, j) by {
                    if j < y {
                        assert((y - 1) - (k - 1) < j <= y - 1);
                    }
                }
            } else if k <= y + 1 && forall|j: int|
                y - k < j <= y ==> #[trigger] fits(f, taken, p, x, j) {
                assert(fits(f, taken, p, x, y));
                assert forall|j: int| (y - 1) - (k - 1) < j <= y - 1 implies #[trigger] fits(
                    f,
                    taken,
                    p,
                    x,
                    j,
                ) by {
                    assert(y - k < j <= y);
                }
            }
        } else {
            lemma_rise(f, taken, p, x, y - 1, 0);
        }
    }
}

/// A rectangle is tiled exactly when its columns rise to its top.
proof fn lemma_tiled_by_rise(f: Field, taken: Set<(int, int)>, p: Period, r: Rect)
    requires
        r.on(f),
        r.width() >= p.x * MIN_TILES,
        r.height() >= p.y * MIN_TILES,
        p.ok(),
    ensures
        tiled(f, taken, p, r) <==> forall|x: int|
            r.x0 <= x < r.x1 ==> #[trigger] rise(f, taken, p, x, r.y1 - 1) >= r.height(),
{
    if tiled(f, taken, p, r) {
        assert forall|x: int| r.x0 <= x < r.x1 implies #[trigger] rise(f, taken, p, x, r.y1 - 1)
            >= r.height() by {
            lemma_rise(f, taken, p, x, r.y1 - 1, r.height());
            assert forall|j: int| r.y1 - 1 - r.height() < j <= r.y1 - 1 implies #[trigger] fits(
                f,
                taken,
                p,
                x,
                j,
            ) by {
                assert(r.holds(x, j));
            }
        }
    }
    if forall|x: int| r.x0 <= x < r.x1 ==> #[trigger] rise(f, taken, p, x, r.y1 - 1) >= r.height() {
        assert forall|x: int, y: int| r.holds(x, y) implies #[trigger] fits(f, taken, p, x, y) by {
            lemma_rise(f, taken, p, x, r.y1 - 1, r.height());
            assert(rise(f, taken, p, x, r.y1 - 1) >= r.height());
        }
    }
}

proof fn lemma_area_grows(a: int, b: int, c: int, d: int)
    by (nonlinear_arith)
    requires
        0 <= a <= b,
        0 <= c <= d,
    ensures
        a * c <= b * d,
        0 <= a * c,
{
}

proof fn lemma_area_strictly(a: int, c: int)
    by (nonlinear_arith)
    requires
        0 < c,
    ensures
        (a + 1) * c > a * c,
{
}

proof fn lemma_leads_transitive(a: Rect, b: Rect, c: Rect)
    requires
        leads(a, b),
        leads(b, c),
    ensures
        leads(a, c),
{
}

/// At most one rectangle leads every other.
pub proof fn lemma_largest_unique(f: Field, taken: Set<(int, int)>, p: Period, a: Rect, b: Rect)
    requires
        p.ok(),
        is_largest(f, taken, p, a),
        is_largest(f, taken, p, b),
    ensures
        a == b,
{
    assert(leads(a, b) && leads(b, a));
    let (aw, bw, h) = (a.width(), b.width(), a.height());
    assert(aw * h == bw * h);
    assert(aw == bw) by (nonlinear_arith)
        requires
            aw * h == bw * h,
            h > 0,
    ;
}

/// A column that still fits at the right of a tiled rectangle makes a larger
/// one, so what leads the rectangles that end at a lower column leads all.
proof fn lemma_leads_open(
    f: Field,
    taken: Set<(int, int)>,
    p: Period,
    y1: usize,
    best: Option<Rect>,
    r: Rect,
)
    requires
        p.ok(),
        tiled(f, taken, p, r),
        r.y1 == y1,
        f.w <= usize::MAX,
        forall|o: Rect|
            #![trigger tiled(f, taken, p, o)]
            tiled(f, taken, p, o) && o.y1 == y1 && (o.x1 == f.w || rise(
                f,
                taken,
                p,
                o.x1 as int,
                y1 - 1,
            ) < o.height()) ==> best is Some && leads(best->0, o),
    ensures
        best is Some && leads(best->0, r),
    decreases f.w - r.x1,
{
    if r.x1 < f.w && rise(f, taken, p, r.x1 as int, y1 - 1) >= r.height() {
        let wider = Rect { x1: (r.x1 + 1) as usize, ..r };
        lemma_tiled_by_rise(f, taken, p, r);
        lemma_tiled_by_rise(f, taken, p, wider);
        assert forall|x: int| wider.x0 <= x < wider.x1 implies #[trigger] rise(
            f,
            taken,
            p,
            x,
            wider.y1 - 1,
        ) >= wider.height() by {
            if x < r.x1 {
                assert(rise(f, taken, p, x, r.y1 - 1) >= r.height());
            }
        }
        lemma_leads_open(f, taken, p, y1, best, wider);
        lemma_area_strictly(r.width(), r.height());
        assert(wider.area() > r.area());
    }
}

/// `heights` is how far the cells of each column fit upwards from row `y`.
spec fn is_histogram(
    f: Field,
    taken: Set<(int, int)>,
    p: Period,
    y: int,
    heights: Seq<usize>,
) -> bool {
    &&& heights.len() == f.w
    &&& forall|x: int| 0 <= x < f.w ==> #[trigger] heights[x] == rise(f, taken, p, x, y)
}

/// The column under entry `k` of a stack of columns.
spec fn below(stack: Seq<usize>, k: int) -> int {
    if k == 0 {
        -1
    } else {
        stack[k - 1] as int
    }
}

spec fn top_of(stack: Seq<usize>) -> int {
    below(stack, stack.len() as int)
}

/// Columns before `x`, left to right, each higher than the one before it,
/// with no lower column in between.
spec fn ladder(stack: Seq<usize>, heights: Seq<usize>, x: int) -> bool {
    &&& forall|k: int|
        0 <= k < stack.len() ==> #[trigger] stack[k] < heights.len() && stack[k] < x
    &&& forall|k: int, m: int|
        0 <= k < m < stack.len() ==> #[trigger] stack[k] < #[trigger] stack[m]
            && heights[stack[k] as int] < heights[stack[m] as int]
    &&& forall|k: int| 0 <= k < stack.len() ==> #[trigger] clear_below(stack, heights, k)
}

/// No column between entry `k` of the stack and the one under it is lower.
spec fn clear_below(stack: Seq<usize>, heights: Seq<usize>, k: int) -> bool {
    forall|j: int|
        below(stack, k) < j <= stack[k] ==> #[trigger] heights[j] >= heights[stack[k] as int]
}

/// `best` leads every tiled rectangle that ends above row `y`.
spec fn leads_above(
    f: Field,
    taken: Set<(int, int)>,
    p: Period,
    y: int,
    best: Option<Rect>,
) -> bool {
    forall|r: Rect| #[trigger]
        tiled(f, taken, p, r) && r.y1 <= y ==> best is Some && leads(best->0, r)
}

/// `best` leads every tiled rectangle that ends on row `y` before column `x`
/// where the next column is lower than it.
spec fn leads_closed(
    f: Field,
    taken: Set<(int, int)>,
    p: Period,
    y: int,
    heights: Seq<usize>,
    x: int,
    best: Option<Rect>,
) -> bool {
    forall|r: Rect| #[trigger]
        tiled(f, taken, p, r) && r.y1 == y + 1 && r.x1 < x && (r.x1 == f.w
            || heights[r.x1 as int] < r.height()) ==> best is Some && leads(best->0, r)
}

/// Cell `(x, y)` is free and like cell `(i, j)`.
pub open spec fn cell_matches(
    f: Field,
    taken: Set<(int, int)>,
    x: int,
    y: int,
    i: int,
    j: int,
) -> bool {
    !taken.contains((x, y)) && f.inked(x, y) == f.inked(i, j)
}

/// Column `x` between rows `y0` and `y1` is free and like column `from`.
pub open spec fn column_matches(
    f: Field,
    taken: Set<(int, int)>,
    x: int,
    from: int,
    y0: int,
    y1: int,
) -> bool {
    forall|y: int| y0 <= y < y1 ==> #[trigger] cell_matches(f, taken, x, y, from, y)
}

/// Row `y` between columns `x0` and `x1` is free and like row `from`.
pub open spec fn row_matches(
    f: Field,
    taken: Set<(int, int)>,
    y: int,
    from: int,
    x0: int,
    x1: int,
) -> bool {
    forall|x: int| x0 <= x < x1 ==> #[trigger] cell_matches(f, taken, x, y, x, from)
}

/// `r` with the column at its right, when that is free and like the column a
/// period inside.
pub open spec fn grow_right(f: Field, taken: Set<(int, int)>, p: Period, r: Rect) -> Rect {
    if r.x1 < f.w && column_matches(
        f,
        taken,
        r.x1 as int,
        r.x1 - p.x,
        r.y0 as int,
        r.y1 as int,
    ) {
        Rect { x1: (r.x1 + 1) as usize, ..r }
    } else {
        r
    }
}

/// `r` with the row under it, when that is free and like the row a period
/// inside.
pub open spec fn grow_down(f: Field, taken: Set<(int, int)>, p: Period, r: Rect) -> Rect {
    if r.y1 < f.h && row_matches(f, taken, r.y1 as int, r.y1 - p.y, r.x0 as int, r.x1 as int) {
        Rect { y1: (r.y1 + 1) as usize, ..r }
    } else {
        r
    }
}

/// `r` with the column at its left, when that is free and like the column a
/// period inside.
pub open spec fn grow_left(f: Field, taken: Set<(int, int)>, p: Period, r: Rect) -> Rect {
    if r.x0 > 0 && column_matches(
        f,
        taken,
        r.x0 - 1,
        r.x0 - 1 + p.x,
        r.y0 as int,
        r.y1 as int,
    ) {
        Rect { x0: (r.x0 - 1) as usize, ..r }
    } else {
        r
    }
}

/// `r` with the row above it, when that is free and like the row a period
/// inside.
pub open spec fn grow_up(f: Field, taken: Set<(int, int)>, p: Period, r: Rect) -> Rect {
    if r.y0 > 0 && row_matches(f, taken, r.y0 - 1, r.y0 - 1 + p.y, r.x0 as int, r.x1 as int) {
        Rect { y0: (r.y0 - 1) as usize, ..r }
    } else {
        r
    }
}

/// `r` grown by at most one column or row on each side.
pub open spec fn grow_round(f: Field, taken: Set<(int, int)>, p: Period, r: Rect) -> Rect {
    let right = grow_right(f, taken, p, r);
    let down = grow_down(f, taken, p, right);
    let left = grow_left(f, taken, p, down);
    grow_up(f, taken, p, left)
}

/// `r` grown round by round until no side moves.
pub open spec fn grown_from(f: Field, taken: Set<(int, int)>, p: Period, r: Rect) -> Rect
    decreases f.w - r.x1 + f.h - r.y1 + r.x0 + r.y0,
{
    let round = grow_round(f, taken, p, r);
    if round == r || !r.on(f) || f.w > usize::MAX || f.h > usize::MAX {
        r
    } else {
        grown_from(f, taken, p, round)
    }
}

/// Cell `(x, y)` of `r` is like the one a period to its right in `r`.
pub open spec fn like_right(f: Field, p: Period, r: Rect, x: int, y: int) -> bool {
    r.holds(x, y) && r.holds(x + p.x, y) ==> f.inked(x, y) == f.inked(x + p.x, y)
}

/// Cell `(x, y)` of `r` is like the one a period below it in `r`.
pub open spec fn like_down(f: Field, p: Period, r: Rect, x: int, y: int) -> bool {
    r.holds(x, y) && r.holds(x, y + p.y) ==> f.inked(x, y) == f.inked(x, y + p.y)
}

/// A free rectangle of at least `MIN_TILES` tiles each way that is periodic.
pub open spec fn periodic(f: Field, taken: Set<(int, int)>, p: Period, r: Rect) -> bool {
    &&& r.on(f)
    &&& r.width() >= p.x * MIN_TILES
    &&& r.height() >= p.y * MIN_TILES
    &&& forall|x: int, y: int| r.holds(x, y) ==> !(#[trigger] taken.contains((x, y)))
    &&& forall|x: int, y: int| #[trigger] like_right(f, p, r, x, y)
    &&& forall|x: int, y: int| #[trigger] like_down(f, p, r, x, y)
}

/// Cell `(x, y)` of `r` is the cell of the tile at the corner of `r` that
/// falls on it.
pub open spec fn cell_repeats(f: Field, p: Period, r: Rect, x: int, y: int) -> bool {
    f.inked(x, y) == f.inked(
        r.x0 + (x - r.x0) % (p.x as int),
        r.y0 + (y - r.y0) % (p.y as int),
    )
}

/// Every cell of `r` is the tile's cell at its corner.
pub open spec fn repeats_tile(f: Field, p: Period, r: Rect) -> bool {
    forall|x: int, y: int| r.holds(x, y) ==> #[trigger] cell_repeats(f, p, r, x, y)
}

pub proof fn lemma_tiled_is_periodic(f: Field, taken: Set<(int, int)>, p: Period, r: Rect)
    requires
        p.ok(),
        tiled(f, taken, p, r),
    ensures
        periodic(f, taken, p, r),
{
    reveal(fits);
    assert forall|x: int, y: int| r.holds(x, y) implies !(#[trigger] taken.contains((x, y))) by {
        assert(fits(f, taken, p, x, y));
    }
    assert forall|x: int, y: int| #[trigger] like_right(f, p, r, x, y) by {
        if r.holds(x, y) {
            assert(fits(f, taken, p, x, y));
        }
    }
    assert forall|x: int, y: int| #[trigger] like_down(f, p, r, x, y) by {
        if r.holds(x, y) {
            assert(fits(f, taken, p, x, y));
        }
    }
}

proof fn lemma_grow_right_periodic(f: Field, taken: Set<(int, int)>, p: Period, r: Rect)
    requires
        p.ok(),
        f.w <= usize::MAX,
        periodic(f, taken, p, r),
    ensures
        periodic(f, taken, p, grow_right(f, taken, p, r)),
{
    let g = grow_right(f, taken, p, r);
    if g != r {
        let edge = r.x1 as int;
        assert forall|x: int, y: int| g.holds(x, y) implies !(#[trigger] taken.contains((x, y))) by {
            assert(x < edge ==> r.holds(x, y));
            assert(cell_matches(f, taken, edge, y, edge - p.x, y));
        }
        assert forall|x: int, y: int| #[trigger] like_right(f, p, g, x, y) by {
            assert(like_right(f, p, r, x, y));
            assert(r.y0 <= y < r.y1 ==> cell_matches(f, taken, edge, y, edge - p.x, y));
        }
        assert forall|x: int, y: int| #[trigger] like_down(f, p, g, x, y) by {
            assert(like_down(f, p, r, x, y));
            assert(like_down(f, p, r, edge - p.x, y));
            assert(r.y0 <= y < r.y1 ==> cell_matches(f, taken, edge, y, edge - p.x, y));
            assert(r.y0 <= y + p.y < r.y1 ==> cell_matches(f, taken, edge, y + p.y, edge - p.x, y + p.y));
        }
    }
}

proof fn lemma_grow_left_periodic(f: Field, taken: Set<(int, int)>, p: Period, r: Rect)
    requires
        p.ok(),
        periodic(f, taken, p, r),
    ensures
        periodic(f, taken, p, grow_left(f, taken, p, r)),
{
    let g = grow_left(f, taken, p, r);
    if g != r {
        let edge = r.x0 - 1;
        assert forall|x: int, y: int| g.holds(x, y) implies !(#[trigger] taken.contains((x, y))) by {
            assert(x > edge ==> r.holds(x, y));
            assert(cell_matches(f, taken, edge, y, edge + p.x, y));
        }
        assert forall|x: int, y: int| #[trigger] like_right(f, p, g, x, y) by {
            assert(like_right(f, p, r, x, y));
            assert(r.y0 <= y < r.y1 ==> cell_matches(f, taken, edge, y, edge + p.x, y));
        }
        assert forall|x: int, y: int| #[trigger] like_down(f, p, g, x, y) by {
            assert(like_down(f, p, r, x, y));
            assert(like_down(f, p, r, edge + p.x, y));
            assert(r.y0 <= y < r.y1 ==> cell_matches(f, taken, edge, y, edge + p.x, y));
            assert(r.y0 <= y + p.y < r.y1 ==> cell_matches(f, taken, edge, y + p.y, edge + p.x, y + p.y));
        }
    }
}

proof fn lemma_grow_down_periodic(f: Field, taken: Set<(int, int)>, p: Period, r: Rect)
    requires
        p.ok(),
        f.h <= usize::MAX,
        periodic(f, taken, p, r),
    ensures
        periodic(f, taken, p, grow_down(f, taken, p, r)),
{
    let g = grow_down(f, taken, p, r);
    if g != r {
        let edge = r.y1 as int;
        assert forall|x: int, y: int| g.holds(x, y) implies !(#[trigger] taken.contains((x, y))) by {
            assert(y < edge ==> r.holds(x, y));
            assert(cell_matches(f, taken, x, edge, x, edge - p.y));
        }
        assert forall|x: int, y: int| #[trigger] like_down(f, p, g, x, y) by {
            assert(like_down(f, p, r, x, y));
            assert(r.x0 <= x < r.x1 ==> cell_matches(f, taken, x, edge, x, edge - p.y));
        }
        assert forall|x: int, y: int| #[trigger] like_right(f, p, g, x, y) by {
            assert(like_right(f, p, r, x, y));
            assert(like_right(f, p, r, x, edge - p.y));
            assert(r.x0 <= x < r.x1 ==> cell_matches(f, taken, x, edge, x, edge - p.y));
            assert(r.x0 <= x + p.x < r.x1 ==> cell_matches(f, taken, x + p.x, edge, x + p.x, edge - p.y));
        }
    }
}

proof fn lemma_grow_up_periodic(f: Field, taken: Set<(int, int)>, p: Period, r: Rect)
    requires
        p.ok(),
        periodic(f, taken, p, r),
    ensures
        periodic(f, taken, p, grow_up(f, taken, p, r)),
{
    let g = grow_up(f, taken, p, r);
    if g != r {
        let edge = r.y0 - 1;
        assert forall|x: int, y: int| g.holds(x, y) implies !(#[trigger] taken.contains((x, y))) by {
            assert(y > edge ==> r.holds(x, y));
            assert(cell_matches(f, taken, x, edge, x, edge + p.y));
        }
        assert forall|x: int, y: int| #[trigger] like_down(f, p, g, x, y) by {
            assert(like_down(f, p, r, x, y));
            assert(r.x0 <= x < r.x1 ==> cell_matches(f, taken, x, edge, x, edge + p.y));
        }
        assert forall|x: int, y: int| #[trigger] like_right(f, p, g, x, y) by {
            assert(like_right(f, p, r, x, y));
            assert(like_right(f, p, r, x, edge + p.y));
            assert(r.x0 <= x < r.x1 ==> cell_matches(f, taken, x, edge, x, edge + p.y));
            assert(r.x0 <= x + p.x < r.x1 ==> cell_matches(f, taken, x + p.x, edge, x + p.x, edge + p.y));
        }
    }
}

proof fn lemma_round_periodic(f: Field, taken: Set<(int, int)>, p: Period, r: Rect)
    requires
        p.ok(),
        f.w <= usize::MAX,
        f.h <= usize::MAX,
        periodic(f, taken, p, r),
    ensures
        periodic(f, taken, p, grow_round(f, taken, p, r)),
{
    let right = grow_right(f, taken, p, r);
    let down = grow_down(f, taken, p, right);
    let left = grow_left(f, taken, p, down);
    lemma_grow_right_periodic(f, taken, p, r);
    lemma_grow_down_periodic(f, taken, p, right);
    lemma_grow_left_periodic(f, taken, p, down);
    lemma_grow_up_periodic(f, taken, p, left);
}

/// Growing keeps a rectangle periodic and free, covers what it had, and ends
/// where no side can move.
pub proof fn lemma_grown(f: Field, taken: Set<(int, int)>, p: Period, r: Rect)
    requires
        p.ok(),
        f.w <= usize::MAX,
        f.h <= usize::MAX,
        periodic(f, taken, p, r),
    ensures
        periodic(f, taken, p, grown_from(f, taken, p, r)),
        grow_round(f, taken, p, grown_from(f, taken, p, r)) == grown_from(f, taken, p, r),
        forall|x: int, y: int|
            r.holds(x, y) ==> #[trigger] grown_from(f, taken, p, r).holds(x, y),
    decreases f.w - r.x1 + f.h - r.y1 + r.x0 + r.y0,
{
    let round = grow_round(f, taken, p, r);
    if round != r {
        lemma_round_periodic(f, taken, p, r);
        lemma_grown(f, taken, p, round);
        assert forall|x: int, y: int| r.holds(x, y) implies #[trigger] grown_from(
            f,
            taken,
            p,
            r,
        ).holds(x, y) by {
            assert(round.holds(x, y));
            assert(grown_from(f, taken, p, round).holds(x, y));
        }
    }
}

proof fn lemma_row_of_tiles(
    f: Field,
    taken: Set<(int, int)>,
    p: Period,
    r: Rect,
    x: int,
    y: int,
)
    requires
        p.ok(),
        periodic(f, taken, p, r),
        r.holds(x, y),
    ensures
        f.inked(x, y) == f.inked(r.x0 + (x - r.x0) % (p.x as int), y),
        0 <= (x - r.x0) % (p.x as int) < p.x,
    decreases x,
{
    if x - r.x0 < p.x {
        vstd::arithmetic::div_mod::lemma_small_mod((x - r.x0) as nat, p.x as nat);
    } else {
        assert(like_right(f, p, r, x - p.x, y));
        lemma_row_of_tiles(f, taken, p, r, x - p.x, y);
        vstd::arithmetic::div_mod::lemma_mod_sub_multiples_vanish(x - r.x0, p.x as int);
        assert((x - r.x0 - p.x) % (p.x as int) == (x - r.x0) % (p.x as int));
        assert(x - p.x - r.x0 == x - r.x0 - p.x);
    }
}

proof fn lemma_column_of_tiles(
    f: Field,
    taken: Set<(int, int)>,
    p: Period,
    r: Rect,
    x: int,
    y: int,
)
    requires
        p.ok(),
        periodic(f, taken, p, r),
        r.holds(x, y),
    ensures
        f.inked(x, y) == f.inked(x, r.y0 + (y - r.y0) % (p.y as int)),
        0 <= (y - r.y0) % (p.y as int) < p.y,
    decreases y,
{
    if y - r.y0 < p.y {
        vstd::arithmetic::div_mod::lemma_small_mod((y - r.y0) as nat, p.y as nat);
    } else {
        assert(like_down(f, p, r, x, y - p.y));
        lemma_column_of_tiles(f, taken, p, r, x, y - p.y);
        vstd::arithmetic::div_mod::lemma_mod_sub_multiples_vanish(y - r.y0, p.y as int);
        assert((y - r.y0 - p.y) % (p.y as int) == (y - r.y0) % (p.y as int));
        assert(y - p.y - r.y0 == y - r.y0 - p.y);
    }
}

/// A periodic rectangle repeats the tile at its corner.
pub proof fn lemma_periodic_repeats(f: Field, taken: Set<(int, int)>, p: Period, r: Rect)
    requires
        p.ok(),
        periodic(f, taken, p, r),
    ensures
        repeats_tile(f, p, r),
{
    assert forall|x: int, y: int| r.holds(x, y) implies #[trigger] cell_repeats(f, p, r, x, y) by {
        lemma_row_of_tiles(f, taken, p, r, x, y);
        lemma_column_of_tiles(f, taken, p, r, r.x0 + (x - r.x0) % (p.x as int), y);
    }
}

/// The squares of one size on their grid, and the cells already given to
/// runs.
pub struct Grid {
    pub w: usize,
    pub h: usize,
    /// The inked cells, row by row.
    pub ink: Vec<Vec<bool>>,
    /// Inked cells above and left of each grid corner, row by row.
    pub sums: Vec<Vec<u32>>,
    /// The cells given to runs, row by row.
    pub taken: Vec<Vec<bool>>,
}

/// Every row of `rows` is `w` long, and there are `h`.
pub open spec fn shaped<T>(rows: Seq<Vec<T>>, w: int, h: int) -> bool {
    &&& rows.len() == h
    &&& forall|y: int| 0 <= y < h ==> (#[trigger] rows[y])@.len() == w
}

/// The cells set in `rows`.
pub open spec fn cells(rows: Seq<Vec<bool>>, w: int, h: int) -> Set<(int, int)> {
    Set::new(|c: (int, int)| 0 <= c.0 < w && 0 <= c.1 < h && rows[c.1]@[c.0])
}

impl View for Grid {
    type V = Field;

    open spec fn view(&self) -> Field {
        Field {
            w: self.w as int,
            h: self.h as int,
            ink: cells(self.ink@, self.w as int, self.h as int),
        }
    }
}

impl Grid {
    pub open spec fn taken_cells(&self) -> Set<(int, int)> {
        cells(self.taken@, self.w as int, self.h as int)
    }

    pub open spec fn wf(&self) -> bool {
        &&& 1 <= self.w
        &&& 1 <= self.h
        &&& self.w * self.h <= MAX_GRID
        &&& shaped(self.ink@, self.w as int, self.h as int)
        &&& shaped(self.taken@, self.w as int, self.h as int)
        &&& shaped(self.sums@, self.w + 1, self.h + 1)
        &&& forall|x: int, y: int|
            0 <= x <= self.w && 0 <= y <= self.h ==> #[trigger] self.sums@[y]@[x] == self@.count(
                0,
                0,
                x,
                y,
            )
    }

    pub proof fn lemma_small(&self)
        requires
            self.wf(),
        ensures
            self.w <= MAX_GRID,
            self.h <= MAX_GRID,
            self@.wf(),
    {
        let (w, h) = (self.w as int, self.h as int);
        assert(w <= w * h && h <= w * h) by (nonlinear_arith)
            requires
                w >= 1,
                h >= 1,
        ;
    }

    /// The grid whose cells hold a square where `owner` names one.
    pub fn new(w: usize, h: usize, owner: &Vec<Vec<Option<usize>>>) -> (grid: Self)
        requires
            1 <= w,
            1 <= h,
            w * h <= MAX_GRID,
            shaped(owner@, w as int, h as int),
        ensures
            grid.wf(),
            grid.w == w,
            grid.h == h,
            forall|x: int, y: int|
                0 <= x < w && 0 <= y < h ==> #[trigger] grid@.inked(x, y) == (owner@[y]@[x]
                    is Some),
            grid.taken_cells() == Set::<(int, int)>::empty(),
    {
        proof {
            assert(w <= w * h && h <= w * h) by (nonlinear_arith)
                requires
                    w >= 1,
                    h >= 1,
            ;
        }
        let mut ink: Vec<Vec<bool>> = Vec::new();
        let mut taken: Vec<Vec<bool>> = Vec::new();
        let mut y: usize = 0;
        while y < h
            invariant
                y <= h,
                shaped(owner@, w as int, h as int),
                shaped(ink@, w as int, y as int),
                shaped(taken@, w as int, y as int),
                forall|i: int, j: int|
                    0 <= i < w && 0 <= j < y ==> #[trigger] ink@[j]@[i] == (owner@[j]@[i] is Some),
                forall|i: int, j: int| 0 <= i < w && 0 <= j < y ==> !(#[trigger] taken@[j]@[i]),
            decreases h - y,
        {
            let mut row: Vec<bool> = Vec::new();
            let mut free: Vec<bool> = Vec::new();
            let mut x: usize = 0;
            while x < w
                invariant
                    x <= w,
                    y < h,
                    shaped(owner@, w as int, h as int),
                    row@.len() == x,
                    free@.len() == x,
                    forall|i: int| 0 <= i < x ==> #[trigger] row@[i] == (owner@[y as int]@[i]
                        is Some),
                    forall|i: int| 0 <= i < x ==> !(#[trigger] free@[i]),
                decreases w - x,
            {
                row.push(owner[y][x].is_some());
                free.push(false);
                x = x + 1;
            }
            ink.push(row);
            taken.push(free);
            y = y + 1;
        }
        let ghost f = Field { w: w as int, h: h as int, ink: cells(ink@, w as int, h as int) };
        let mut sums: Vec<Vec<u32>> = Vec::new();
        let mut first: Vec<u32> = Vec::new();
        let mut x: usize = 0;
        while x <= w
            invariant
                x <= w + 1,
                w <= MAX_GRID,
                first@.len() == x,
                forall|i: int| 0 <= i < x ==> #[trigger] first@[i] == f.count(0, 0, i, 0),
            decreases w + 1 - x,
        {
            first.push(0);
            x = x + 1;
        }
        sums.push(first);
        let mut y: usize = 0;
        while y < h
            invariant
                y <= h,
                1 <= w,
                w * h <= MAX_GRID,
                w <= MAX_GRID,
                f == (Field { w: w as int, h: h as int, ink: cells(ink@, w as int, h as int) }),
                shaped(ink@, w as int, h as int),
                shaped(sums@, w + 1, y + 1),
                forall|i: int, j: int|
                    0 <= i <= w && 0 <= j <= y ==> #[trigger] sums@[j]@[i] == f.count(0, 0, i, j),
            decreases h - y,
        {
            let mut row: Vec<u32> = Vec::new();
            row.push(0);
            proof {
                assert(f.row_count(y as int, 0, 0) == 0);
                f.lemma_count_bounded(0, 0, 0, y + 1);
                assert(f.count(0, 0, 0, y + 1) == 0) by {
                    assert((0 - 0) * (y + 1 - 0) == 0);
                }
            }
            let mut run: u32 = 0;
            let mut x: usize = 0;
            while x < w
                invariant
                    x <= w,
                    y < h,
                    1 <= w,
                    w * h <= MAX_GRID,
                    w <= MAX_GRID,
                    f == (Field { w: w as int, h: h as int, ink: cells(ink@, w as int, h as int) }),
                    shaped(ink@, w as int, h as int),
                    shaped(sums@, w + 1, y + 1),
                    forall|i: int, j: int|
                        0 <= i <= w && 0 <= j <= y ==> #[trigger] sums@[j]@[i] == f.count(
                            0,
                            0,
                            i,
                            j,
                        ),
                    run == f.row_count(y as int, 0, x as int),
                    row@.len() == x + 1,
                    forall|i: int| 0 <= i <= x ==> #[trigger] row@[i] == f.count(0, 0, i, y + 1),
                decreases w - x,
            {
                proof {
                    f.lemma_row_bounded(y as int, 0, x as int);
                    f.lemma_count_bounded(0, 0, x + 1, y + 1);
                    assert((x + 1) * (y + 1) <= w * h) by (nonlinear_arith)
                        requires
                            x + 1 <= w,
                            y + 1 <= h,
                    ;
                    assert(sums@[y as int]@[x + 1] == f.count(0, 0, x + 1, y as int));
                    assert(f.inked(x as int, y as int) == ink@[y as int]@[x as int]);
                }
                if ink[y][x] {
                    run = run + 1;
                }
                let above: u32 = sums[y][x + 1];
                row.push(above + run);
                x = x + 1;
            }
            sums.push(row);
            y = y + 1;
        }
        let grid = Grid { w, h, ink, sums, taken };
        assert(grid@ == f);
        assert(grid.taken_cells() =~= Set::<(int, int)>::empty());
        grid
    }

    /// Whether cell `(x, y)` holds a square; outside the grid none does.
    pub fn ink(&self, x: usize, y: usize) -> (inked: bool)
        requires
            self.wf(),
        ensures
            inked == self@.inked(x as int, y as int),
    {
        x < self.w && y < self.h && self.ink[y][x]
    }

    /// Whether cell `(x, y)` of the grid is not yet taken.
    fn free(&self, x: usize, y: usize) -> (free: bool)
        requires
            self.wf(),
            x < self.w,
            y < self.h,
        ensures
            free == !self.taken_cells().contains((x as int, y as int)),
    {
        !self.taken[y][x]
    }

    /// Inked cells in `[x0, x1) x [y0, y1)`, clipped to the grid.
    pub fn count(&self, x0: usize, y0: usize, x1: usize, y1: usize) -> (inked: u32)
        requires
            self.wf(),
        ensures
            inked == self@.count(x0 as int, y0 as int, x1 as int, y1 as int),
    {
        proof {
            self.lemma_small();
            self@.lemma_count_clipped(x0 as int, y0 as int, x1 as int, y1 as int);
        }
        let x1: usize = if x1 < self.w {
            x1
        } else {
            self.w
        };
        let y1: usize = if y1 < self.h {
            y1
        } else {
            self.h
        };
        if x0 >= x1 || y0 >= y1 {
            proof {
                self@.lemma_count_positive(x0 as int, y0 as int, x1 as int, y1 as int);
            }
            return 0;
        }
        proof {
            self@.lemma_count_from_corner(x0 as int, y0 as int, x1 as int, y1 as int);
            self@.lemma_count_splits_columns(0, x0 as int, x1 as int, 0, y1 as int);
            self@.lemma_count_splits_columns(0, x0 as int, x1 as int, 0, y0 as int);
            self@.lemma_count_splits_rows(0, x1 as int, 0, y0 as int, y1 as int);
            self@.lemma_count_splits_rows(0, x0 as int, 0, y0 as int, y1 as int);
            self@.lemma_count_bounded(0, 0, x1 as int, y1 as int);
            assert(x1 * y1 <= self.w * self.h) by (nonlinear_arith)
                requires
                    x1 <= self.w,
                    y1 <= self.h,
            ;
            assert(self.sums@[y1 as int]@[x1 as int] == self@.count(0, 0, x1 as int, y1 as int));
            assert(self.sums@[y0 as int]@[x0 as int] == self@.count(0, 0, x0 as int, y0 as int));
            assert(self.sums@[y1 as int]@[x0 as int] == self@.count(0, 0, x0 as int, y1 as int));
            assert(self.sums@[y0 as int]@[x1 as int] == self@.count(0, 0, x1 as int, y0 as int));
        }
        self.sums[y1][x1] + self.sums[y0][x0] - self.sums[y1][x0] - self.sums[y0][x1]
    }

    /// Whether cell `(x, y)` of the grid fits a run of tiles of size `p`.
    fn fits(&self, p: Period, x: usize, y: usize) -> (ok: bool)
        requires
            self.wf(),
            p.ok(),
            x < self.w,
            y < self.h,
        ensures
            ok == fits(self@, self.taken_cells(), p, x as int, y as int),
    {
        proof {
            self.lemma_small();
            reveal(fits);
        }
        let here = self.ink(x, y);
        self.free(x, y) && here == self.ink(x + p.x, y) && here == self.ink(x, y + p.y)
            && self.count(x, y, x + p.x, y + p.y) > 0
    }

    /// Takes the columns no lower than `bar` off `stack` at column `x`, and
    /// returns `best` or a larger tiled rectangle that ends there on row `y`.
    fn close_bars(
        &self,
        p: Period,
        y: usize,
        heights: &Vec<usize>,
        x: usize,
        bar: usize,
        stack: &mut Vec<usize>,
        best: Option<Rect>,
    ) -> (found: Option<Rect>)
        requires
            self.wf(),
            p.ok(),
            y < self.h,
            x <= self.w,
            is_histogram(self@, self.taken_cells(), p, y as int, heights@),
            bar == (if x < self.w {
                heights@[x as int]
            } else {
                0
            }),
            ladder(old(stack)@, heights@, x as int),
            x > 0 ==> old(stack)@.len() > 0 && old(stack)@.last() == x - 1,
            best is Some ==> tiled(self@, self.taken_cells(), p, best->0),
            best is Some ==> best->0.y1 <= y || best->0.y1 == y + 1 && best->0.x1 < x,
            leads_above(self@, self.taken_cells(), p, y as int, best),
            leads_closed(self@, self.taken_cells(), p, y as int, heights@, x as int, best),
        ensures
            ladder(final(stack)@, heights@, x as int),
            final(stack)@.len() > 0 ==> heights@[final(stack)@.last() as int] < bar,
            forall|j: int|
                top_of(final(stack)@) < j < x ==> #[trigger] heights@[j] >= bar,
            found is Some ==> tiled(self@, self.taken_cells(), p, found->0),
            found is Some ==> found->0.y1 <= y || found->0.y1 == y + 1 && found->0.x1 < x + 1,
            leads_above(self@, self.taken_cells(), p, y as int, found),
            leads_closed(self@, self.taken_cells(), p, y as int, heights@, x + 1, found),
    {
        let ghost f = self@;
        let ghost t = self.taken_cells();
        let w: usize = self.w;
        proof {
            self.lemma_small();
        }
        let mut best: Option<Rect> = best;
        while stack.len() > 0 && heights[stack[stack.len() - 1]] >= bar
            invariant
                w == self.w,
                x <= w,
                y < self.h,
                self.wf(),
                self.w <= MAX_GRID,
                self.h <= MAX_GRID,
                p.ok(),
                f == self@,
                t == self.taken_cells(),
                is_histogram(f, t, p, y as int, heights@),
                bar == (if x < w {
                    heights@[x as int]
                } else {
                    0
                }),
                ladder(stack@, heights@, x as int),
                // What lies right of the stack is no lower than its top and
                // no lower than the bar.
                forall|j: int|
                    top_of(stack@) < j < x ==> #[trigger] heights@[j] >= bar && (stack@.len() > 0
                        ==> heights@[j] >= heights@[stack@.last() as int]),
                best is Some ==> tiled(f, t, p, best->0),
                best is Some ==> best->0.y1 <= y || best->0.y1 == y + 1 && (best->0.x1 < x
                    || best->0.x1 == x && (stack@.len() > 0 ==> best->0.height()
                    > heights@[stack@.last() as int])),
                leads_above(f, t, p, y as int, best),
                leads_closed(f, t, p, y as int, heights@, x as int, best),
                forall|r: Rect| #[trigger]
                    tiled(f, t, p, r) && r.y1 == y + 1 && r.x1 == x && bar < r.height() && top_of(
                        stack@,
                    ) < r.x0 ==> best is Some && leads(best->0, r),
            decreases stack@.len(),
        {
            let ghost before = stack@;
            let ghost old_best = best;
            let top: usize = stack[stack.len() - 1];
            stack.pop();
            let height: usize = heights[top];
            let left: usize = if stack.len() > 0 {
                stack[stack.len() - 1] + 1
            } else {
                0
            };
            let width: usize = x - left;
            proof {
                let k = before.len() - 1;
                assert(before[k] == top);
                assert(heights@[top as int] == rise(f, t, p, top as int, y as int));
                lemma_rise(f, t, p, top as int, y as int, 0);
                assert forall|j: int| left <= j < x implies #[trigger] heights@[j] >= height by {
                    if j <= top {
                        assert(clear_below(before, heights@, k));
                        assert(below(before, k) < j <= before[k]);
                    }
                }
                if stack@.len() > 0 {
                    assert(before[k - 1] < before[k]);
                    assert(stack@.last() == before[k - 1]);
                }
                assert(ladder(stack@, heights@, x as int)) by {
                    assert forall|k: int| 0 <= k < stack@.len() implies #[trigger] clear_below(
                        stack@,
                        heights@,
                        k,
                    ) by {
                        assert(clear_below(before, heights@, k));
                        assert(below(stack@, k) == below(before, k));
                    }
                }
            }
            let wide_enough = width >= p.x * MIN_TILES && height >= p.y * MIN_TILES;
            let ghost c = Rect {
                x0: left,
                y0: (y + 1 - height) as usize,
                x1: x,
                y1: (y + 1) as usize,
            };
            proof {
                lemma_area_grows(width as int, w as int, height as int, self.h as int);
                if wide_enough {
                    assert forall|i: int| c.x0 <= i < c.x1 implies #[trigger] rise(
                        f,
                        t,
                        p,
                        i,
                        c.y1 - 1,
                    ) >= c.height() by {
                        assert(heights@[i] >= height);
                    }
                    lemma_tiled_by_rise(f, t, p, c);
                    assert(tiled(f, t, p, c));
                }
                // Every rectangle that ends here and starts past the new top
                // lies within the one found.
                assert forall|r: Rect| #[trigger]
                    tiled(f, t, p, r) && r.y1 == y + 1 && r.x1 == x && bar < r.height() && left
                        <= r.x0 <= top implies wide_enough && leads(c, r) by {
                    lemma_tiled_by_rise(f, t, p, r);
                    assert(rise(f, t, p, top as int, r.y1 - 1) >= r.height());
                    lemma_area_grows(r.width(), c.width(), r.height(), c.height());
                }
            }
            if wide_enough {
                let area: usize = width * height;
                let larger = match best {
                    None => true,
                    Some(b) => {
                        proof {
                            lemma_area_grows(b.width(), w as int, b.height(), self.h as int);
                        }
                        area > (b.x1 - b.x0) * (b.y1 - b.y0)
                    },
                };
                if larger {
                    best = Some(Rect { x0: left, y0: y + 1 - height, x1: x, y1: y + 1 });
                    assert(best->0 == c);
                }
            }
            proof {
                assert(wide_enough ==> best is Some && leads(best->0, c));
                assert(old_best is Some ==> best is Some && leads(best->0, old_best->0));
                assert forall|r: Rect| #[trigger]
                    tiled(f, t, p, r) && old_best is Some && leads(
                        old_best->0,
                        r,
                    ) implies best is Some && leads(best->0, r) by {
                    lemma_leads_transitive(best->0, old_best->0, r);
                }
                assert forall|r: Rect| #[trigger]
                    tiled(f, t, p, r) && r.y1 == y + 1 && r.x1 == x && bar < r.height() && top_of(
                        stack@,
                    ) < r.x0 implies best is Some && leads(best->0, r) by {
                    if r.x0 <= top {
                        lemma_leads_transitive(best->0, c, r);
                    }
                }
            }
        }
        proof {
            assert forall|r: Rect| #[trigger]
                tiled(f, t, p, r) && r.y1 == y + 1 && r.x1 < x + 1 && (r.x1 == w
                    || heights@[r.x1 as int] < r.height()) implies best is Some && leads(
                best->0,
                r,
            ) by {
                if r.x1 == x && top_of(stack@) >= r.x0 {
                    lemma_tiled_by_rise(f, t, p, r);
                    let last = stack@.last() as int;
                    assert(stack@[stack@.len() - 1] == last);
                    assert(rise(f, t, p, last, r.y1 - 1) >= r.height());
                    assert(heights@[last] == rise(f, t, p, last, y as int));
                }
            }
        }
        best
    }

    /// `best`, or a larger tiled rectangle whose last row is `y`: the largest
    /// rectangle under the histogram of `heights`.
    fn scan_row(&self, p: Period, y: usize, heights: &Vec<usize>, best: Option<Rect>) -> (found:
        Option<Rect>)
        requires
            self.wf(),
            p.ok(),
            y < self.h,
            is_histogram(self@, self.taken_cells(), p, y as int, heights@),
            best is Some ==> tiled(self@, self.taken_cells(), p, best->0) && best->0.y1 <= y,
            leads_above(self@, self.taken_cells(), p, y as int, best),
        ensures
            found is Some ==> tiled(self@, self.taken_cells(), p, found->0) && found->0.y1 <= y + 1,
            leads_above(self@, self.taken_cells(), p, y + 1, found),
    {
        let ghost f = self@;
        let ghost t = self.taken_cells();
        let w: usize = self.w;
        proof {
            self.lemma_small();
        }
        let mut best: Option<Rect> = best;
        let mut stack: Vec<usize> = Vec::new();
        let mut x: usize = 0;
        while x <= w
            invariant
                w == self.w,
                x <= w + 1,
                y < self.h,
                self.wf(),
                self.w <= MAX_GRID,
                p.ok(),
                f == self@,
                t == self.taken_cells(),
                is_histogram(f, t, p, y as int, heights@),
                ladder(stack@, heights@, x as int),
                0 < x <= w ==> stack@.len() > 0 && stack@.last() == x - 1,
                best is Some ==> tiled(f, t, p, best->0),
                best is Some ==> best->0.y1 <= y || best->0.y1 == y + 1 && best->0.x1 < x,
                leads_above(f, t, p, y as int, best),
                leads_closed(f, t, p, y as int, heights@, x as int, best),
            decreases w + 1 - x,
        {
            let bar: usize = if x < w {
                heights[x]
            } else {
                0
            };
            best = self.close_bars(p, y, heights, x, bar, &mut stack, best);
            let ghost before = stack@;
            if x < w {
                stack.push(x);
                proof {
                    assert forall|k: int| 0 <= k < stack@.len() implies #[trigger] clear_below(
                        stack@,
                        heights@,
                        k,
                    ) by {
                        if k < before.len() {
                            assert(clear_below(before, heights@, k));
                            assert(below(stack@, k) == below(before, k));
                        } else {
                            assert(below(stack@, k) == top_of(before));
                        }
                    }
                }
            }
            x = x + 1;
        }
        proof {
            assert forall|r: Rect| #[trigger] tiled(f, t, p, r) && r.y1 <= y + 1 implies best is Some
                && leads(best->0, r) by {
                if r.y1 == y + 1 {
                    assert forall|o: Rect|
                        #![trigger tiled(f, t, p, o)]
                        tiled(f, t, p, o) && o.y1 == y + 1 && (o.x1 == f.w || rise(
                            f,
                            t,
                            p,
                            o.x1 as int,
                            y + 1 - 1,
                        ) < o.height()) implies best is Some && leads(best->0, o) by {
                        if o.x1 < w {
                            assert(heights@[o.x1 as int] == rise(f, t, p, o.x1 as int, y as int));
                        }
                    }
                    lemma_leads_open(f, t, p, (y + 1) as usize, best, r);
                }
            }
        }
        best
    }

    /// The largest rectangle, at least `MIN_TILES` tiles each way, over
    /// which every cell fits: such a rectangle repeats the tile at its
    /// corner. The largest rectangle under a histogram, row by row.
    pub fn largest(&self, p: Period) -> (best: Option<Rect>)
        requires
            self.wf(),
            p.ok(),
        ensures
            best == largest_tiled(self@, self.taken_cells(), p),
            best is Some ==> is_largest(self@, self.taken_cells(), p, best->0),
            best is None ==> forall|r: Rect| !tiled(self@, self.taken_cells(), p, r),
    {
        let ghost f = self@;
        let ghost t = self.taken_cells();
        let mut heights: Vec<usize> = vec![0usize; self.w];
        let mut best: Option<Rect> = None;
        let mut y: usize = 0;
        proof {
            self.lemma_small();
        }
        while y < self.h
            invariant
                y <= self.h,
                self.wf(),
                self.h <= MAX_GRID,
                p.ok(),
                f == self@,
                t == self.taken_cells(),
                heights@.len() == self.w,
                forall|x: int|
                    0 <= x < self.w ==> #[trigger] heights@[x] == rise(f, t, p, x, y - 1),
                best is Some ==> tiled(f, t, p, best->0) && best->0.y1 <= y,
                leads_above(f, t, p, y as int, best),
            decreases self.h - y,
        {
            let mut x: usize = 0;
            while x < self.w
                invariant
                    x <= self.w,
                    y < self.h,
                    self.wf(),
                    self.h <= MAX_GRID,
                    p.ok(),
                    f == self@,
                    t == self.taken_cells(),
                    heights@.len() == self.w,
                    forall|i: int|
                        0 <= i < x ==> #[trigger] heights@[i] == rise(f, t, p, i, y as int),
                    forall|i: int|
                        x <= i < self.w ==> #[trigger] heights@[i] == rise(f, t, p, i, y - 1),
                decreases self.w - x,
            {
                proof {
                    lemma_rise(f, t, p, x as int, y - 1, 0);
                }
                let height: usize = if self.fits(p, x, y) {
                    heights[x] + 1
                } else {
                    0
                };
                heights.set(x, height);
                x = x + 1;
            }
            best = self.scan_row(p, y, &heights, best);
            y = y + 1;
        }
        proof {
            if best is Some {
                assert(is_largest(f, t, p, best->0));
                lemma_largest_unique(f, t, p, best->0, largest_tiled(f, t, p)->0);
            } else {
                assert forall|r: Rect| !tiled(f, t, p, r) by {}
            }
        }
        best
    }

    /// Whether column `x` between rows `y0` and `y1` is free and like column
    /// `from`.
    fn column_matches(&self, x: usize, from: usize, y0: usize, y1: usize) -> (ok: bool)
        requires
            self.wf(),
            x < self.w,
            y1 <= self.h,
        ensures
            ok == column_matches(
                self@,
                self.taken_cells(),
                x as int,
                from as int,
                y0 as int,
                y1 as int,
            ),
    {
        let mut y: usize = y0;
        while y < y1
            invariant
                self.wf(),
                x < self.w,
                y1 <= self.h,
                y0 <= y,
                column_matches(
                    self@,
                    self.taken_cells(),
                    x as int,
                    from as int,
                    y0 as int,
                    y as int,
                ),
            decreases y1 - y,
        {
            if !(self.free(x, y) && self.ink(x, y) == self.ink(from, y)) {
                assert(!cell_matches(
                    self@,
                    self.taken_cells(),
                    x as int,
                    y as int,
                    from as int,
                    y as int,
                ));
                return false;
            }
            y = y + 1;
        }
        true
    }

    /// Whether row `y` between columns `x0` and `x1` is free and like row
    /// `from`.
    fn row_matches(&self, y: usize, from: usize, x0: usize, x1: usize) -> (ok: bool)
        requires
            self.wf(),
            y < self.h,
            x1 <= self.w,
        ensures
            ok == row_matches(
                self@,
                self.taken_cells(),
                y as int,
                from as int,
                x0 as int,
                x1 as int,
            ),
    {
        let mut x: usize = x0;
        while x < x1
            invariant
                self.wf(),
                y < self.h,
                x1 <= self.w,
                x0 <= x,
                row_matches(
                    self@,
                    self.taken_cells(),
                    y as int,
                    from as int,
                    x0 as int,
                    x as int,
                ),
            decreases x1 - x,
        {
            if !(self.free(x, y) && self.ink(x, y) == self.ink(x, from)) {
                assert(!cell_matches(
                    self@,
                    self.taken_cells(),
                    x as int,
                    y as int,
                    x as int,
                    from as int,
                ));
                return false;
            }
            x = x + 1;
        }
        true
    }

    /// `rect` grown a column or a row at a time on any side while the new
    /// cells match the cells a period inside and are not taken: the test for
    /// a fitting cell looks a period ahead, so it stops a period short of
    /// where the dither ends.
    pub fn grown(&self, rect: Rect, p: Period) -> (grown: Rect)
        requires
            self.wf(),
            p.ok(),
            periodic(self@, self.taken_cells(), p, rect),
        ensures
            grown == grown_from(self@, self.taken_cells(), p, rect),
            periodic(self@, self.taken_cells(), p, grown),
            repeats_tile(self@, p, grown),
    {
        let ghost f = self@;
        let ghost t = self.taken_cells();
        let mut r: Rect = rect;
        proof {
            self.lemma_small();
        }
        loop
            invariant
                self.wf(),
                self.w <= MAX_GRID,
                self.h <= MAX_GRID,
                p.ok(),
                f == self@,
                t == self.taken_cells(),
                periodic(f, t, p, r),
                grown_from(f, t, p, rect) == grown_from(f, t, p, r),
            decreases f.w - r.x1 + f.h - r.y1 + r.x0 + r.y0,
        {
            let mut next: Rect = r;
            proof {
                lemma_grow_right_periodic(f, t, p, r);
            }
            if next.x1 < self.w && self.column_matches(next.x1, next.x1 - p.x, next.y0, next.y1) {
                next.x1 = next.x1 + 1;
            }
            assert(next == grow_right(f, t, p, r));
            let ghost right = next;
            proof {
                lemma_grow_down_periodic(f, t, p, right);
            }
            if next.y1 < self.h && self.row_matches(next.y1, next.y1 - p.y, next.x0, next.x1) {
                next.y1 = next.y1 + 1;
            }
            assert(next == grow_down(f, t, p, right));
            let ghost down = next;
            proof {
                lemma_grow_left_periodic(f, t, p, down);
            }
            if next.x0 > 0 && self.column_matches(
                next.x0 - 1,
                next.x0 - 1 + p.x,
                next.y0,
                next.y1,
            ) {
                next.x0 = next.x0 - 1;
            }
            assert(next == grow_left(f, t, p, down));
            let ghost left = next;
            proof {
                lemma_grow_up_periodic(f, t, p, left);
            }
            if next.y0 > 0 && self.row_matches(next.y0 - 1, next.y0 - 1 + p.y, next.x0, next.x1) {
                next.y0 = next.y0 - 1;
            }
            assert(next == grow_round(f, t, p, r));
            if next == r {
                proof {
                    lemma_periodic_repeats(f, t, p, r);
                }
                return r;
            }
            r = next;
        }
    }

    /// Whether every cell of `rect` is the tile's cell at its corner.
    pub fn repeats(&self, rect: Rect, p: Period) -> (ok: bool)
        requires
            self.wf(),
            p.ok(),
            rect.on(self@),
        ensures
            ok == repeats_tile(self@, p, rect),
    {
        proof {
            self.lemma_small();
        }
        let mut y: usize = rect.y0;
        while y < rect.y1
            invariant
                self.wf(),
                self.w <= MAX_GRID,
                self.h <= MAX_GRID,
                p.ok(),
                rect.on(self@),
                rect.y0 <= y <= rect.y1,
                forall|i: int, j: int|
                    rect.holds(i, j) && j < y ==> #[trigger] cell_repeats(self@, p, rect, i, j),
            decreases rect.y1 - y,
        {
            let mut x: usize = rect.x0;
            while x < rect.x1
                invariant
                    self.wf(),
                    self.w <= MAX_GRID,
                    self.h <= MAX_GRID,
                    p.ok(),
                    rect.on(self@),
                    rect.y0 <= y < rect.y1,
                    rect.x0 <= x <= rect.x1,
                    forall|i: int, j: int|
                        rect.holds(i, j) && (j < y || j == y && i < x) ==> #[trigger] cell_repeats(
                            self@,
                            p,
                            rect,
                            i,
                            j,
                        ),
                decreases rect.x1 - x,
            {
                let same = self.ink(x, y) == self.ink(
                    rect.x0 + (x - rect.x0) % p.x,
                    rect.y0 + (y - rect.y0) % p.y,
                );
                assert(same == cell_repeats(self@, p, rect, x as int, y as int));
                if !same {
                    assert(rect.holds(x as int, y as int));
                    return false;
                }
                x = x + 1;
            }
            y = y + 1;
        }
        true
    }
}

} // verus!
