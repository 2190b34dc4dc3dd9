//! Where a file draws what: a path's lines and curves, piece by piece, and the
//! squares of a dithered area.
use crate::dither::{tile_inked, Run, RunView};
use crate::dxf::drawing::{
    block_of, cell_ok, cell_outline, cells_high, cells_wide, colour_place, law_arrays_draw_the_run,
    lemma_cells, lemma_part, lemma_tiles_in, part_covers, part_inked, part_of, placed_part,
    placed_run, placed_runs, shape_colour, sketch, tile_place, window_cells, with_shape, with_tile,
    Array, Block, Drawing, ItemView, Layer, Placed, Sketch, TileView,
};
use crate::dxf::lines::{array_groups, extents_groups, polyline_groups, vertex_groups};
use crate::dxf::outline::{outline_views, outlines_of, trace, OutlineView, Piece, Setting};
use crate::dxf::pairs::{Group, Value};
use crate::geometry::{path_ok, Segment, Shape, Xy, REACH};
use crate::path_data::lemma_decimal;
use crate::text::decimal;
use vstd::prelude::*;

verus! {

/// `q` is `p` with y counted upwards on a page `height` high.
pub open spec fn upright(p: Xy, q: Xy, height: int) -> bool {
    q.x == p.x && p.y + q.y == height
}

/// The step draws a line or a curve.
pub open spec fn draws(segment: Segment) -> bool {
    segment is Line || segment is Cubic
}

/// The piece draws what the step draws.
pub open spec fn redraws(segment: Segment, piece: Piece, height: int) -> bool {
    match (segment, piece) {
        (Segment::Line(p), Piece::Line(q)) => upright(p, q, height),
        (Segment::Cubic(a, b, p), Piece::Cubic(c, d, q)) => upright(a, c, height) && upright(
            b,
            d,
            height,
        ) && upright(p, q, height),
        _ => false,
    }
}

/// Where the subpath that step `n` belongs to starts: the last move before it.
pub open spec fn subpath_start(segments: Seq<Segment>, n: int) -> Xy
    decreases n,
{
    if n <= 0 {
        Xy { x: 0, y: 0 }
    } else if let Segment::Move(p) = segments[n - 1] {
        p
    } else {
        subpath_start(segments, n - 1)
    }
}

/// The outline's pieces draw the steps from `from` up to `to`, from where
/// their subpath starts.
pub open spec fn covers(
    setting: Setting,
    segments: Seq<Segment>,
    o: OutlineView,
    from: int,
    to: int,
) -> bool {
    &&& 0 <= from <= to <= segments.len()
    &&& o.layer == setting.layer
    &&& o.pieces.len() == to - from
    &&& upright(subpath_start(segments, from), o.start, setting.height as int)
    &&& forall|i: int|
        from <= i < to ==> redraws(
            #[trigger] segments[i],
            o.pieces[i - from],
            setting.height as int,
        )
    &&& from > 0 ==> !draws(segments[from - 1])
}

/// The outline draws all of its steps, and is closed where they are filled or
/// closed.
pub open spec fn whole(
    setting: Setting,
    segments: Seq<Segment>,
    o: OutlineView,
    from: int,
    to: int,
) -> bool {
    &&& covers(setting, segments, o, from, to)
    &&& from < to
    &&& to < segments.len() ==> !draws(segments[to])
    &&& o.closed <==> setting.filled || (to < segments.len() && segments[to] is Close)
}

/// Step `i` is among those of `list`.
pub open spec fn listed(list: Seq<(int, int)>, i: int) -> bool {
    exists|k: int| 0 <= k < list.len() && (#[trigger] list[k]).0 <= i < list[k].1
}

/// Each range ends before the next one starts.
pub open spec fn apart(list: Seq<(int, int)>) -> bool {
    forall|j: int, k: int|
        0 <= j < k < list.len() ==> (#[trigger] list[j]).1 < (#[trigger] list[k]).0
}

/// What is known of the first `n` steps: the outlines done, and how far back
/// the one being drawn starts.
spec fn follows(setting: Setting, segments: Seq<Segment>, n: nat, list: Seq<(int, int)>) -> bool {
    let t = trace(setting, segments, n);
    let from = match t.current {
        Some(o) => n - o.pieces.len(),
        None => n as int,
    };
    &&& list.len() == t.done.len()
    &&& apart(list)
    &&& forall|k: int|
        0 <= k < list.len() ==> whole(
            setting,
            segments,
            #[trigger] t.done[k],
            list[k].0,
            list[k].1,
        )
    &&& forall|k: int| 0 <= k < list.len() ==> (#[trigger] list[k]).1 < from
    &&& t.current matches Some(o) ==> covers(setting, segments, o, from, n as int) && o.closed
        == setting.filled && subpath_start(segments, from) == subpath_start(segments, n as int)
    &&& t.current is None ==> (n > 0 ==> !draws(segments[n - 1])) && upright(
        subpath_start(segments, n as int),
        t.at,
        setting.height as int,
    )
    &&& forall|i: int|
        0 <= i < from && draws(#[trigger] segments[i]) ==> listed(list, i)
}

proof fn lemma_listed_more(list: Seq<(int, int)>, range: (int, int), i: int)
    requires
        listed(list, i) || range.0 <= i < range.1,
    ensures
        listed(list.push(range), i),
{
    let more = list.push(range);
    if listed(list, i) {
        let k = choose|k: int| 0 <= k < list.len() && (#[trigger] list[k]).0 <= i < list[k].1;
        assert(more[k] == list[k]);
    } else {
        assert(more[list.len() as int] == range);
    }
}

proof fn lemma_follows(setting: Setting, segments: Seq<Segment>, n: nat) -> (list: Seq<(int, int)>)
    requires
        path_ok(segments),
        0 <= setting.height <= REACH,
        n <= segments.len(),
    ensures
        follows(setting, segments, n, list),
    decreases n,
{
    if n == 0 {
        Seq::empty()
    } else {
        let m = (n - 1) as nat;
        let list = lemma_follows(setting, segments, m);
        let before = trace(setting, segments, m);
        let now = trace(setting, segments, n);
        let h = setting.height as int;
        let segment = segments[n - 1];
        assert(segment.ok());
        if draws(segment) {
            let o = now.current->0;
            let from = n - o.pieces.len();
            assert(from == match before.current {
                Some(b) => m - b.pieces.len(),
                None => m as int,
            });
            assert forall|i: int| from <= i < n implies redraws(
                #[trigger] segments[i],
                o.pieces[i - from],
                h,
            ) by {
                if let Some(b) = before.current {
                    if i < m {
                        assert(o.pieces[i - from] == b.pieces[i - from]);
                    }
                }
            }
            assert(covers(setting, segments, o, from, n as int));
            list
        } else {
            match before.current {
                Some(o) => {
                    let from = m - o.pieces.len();
                    if o.pieces.len() > 0 {
                        let done = if segment is Close {
                            OutlineView { closed: true, ..o }
                        } else {
                            o
                        };
                        assert(now.done == before.done.push(done));
                        let more = list.push((from, m as int));
                        assert(whole(setting, segments, done, from, m as int));
                        assert forall|k: int| 0 <= k < more.len() implies whole(
                            setting,
                            segments,
                            #[trigger] now.done[k],
                            more[k].0,
                            more[k].1,
                        ) by {
                            if k < list.len() {
                                assert(now.done[k] == before.done[k]);
                            }
                        }
                        assert forall|i: int| 0 <= i < n && draws(#[trigger] segments[i]) implies listed(
                            more,
                            i,
                        ) by {
                            lemma_listed_more(list, (from, m as int), i);
                        }
                        more
                    } else {
                        list
                    }
                },
                None => list,
            }
        }
    }
}

/// The outlines of a path draw its lines and curves, every one of them once and
/// in their order, y counted upwards: outline `k` the steps from `list[k].0` up
/// to `list[k].1`, which reach from one move or close to the next. It starts
/// where the last move before them went, and is closed exactly where the path
/// is filled or a close follows.
pub proof fn law_outlines_draw_the_path(setting: Setting, segments: Seq<Segment>) -> (list: Seq<
    (int, int),
>)
    requires
        path_ok(segments),
        0 <= setting.height <= REACH,
    ensures
        list.len() == outlines_of(setting, segments).len(),
        apart(list),
        forall|k: int|
            0 <= k < list.len() ==> whole(
                setting,
                segments,
                #[trigger] outlines_of(setting, segments)[k],
                list[k].0,
                list[k].1,
            ),
        forall|i: int|
            0 <= i < segments.len() && draws(#[trigger] segments[i]) ==> listed(list, i),
{
    let n = segments.len();
    let list = lemma_follows(setting, segments, n);
    let t = trace(setting, segments, n);
    let out = outlines_of(setting, segments);
    if let Some(o) = t.current {
        if o.pieces.len() > 0 {
            let from = n - o.pieces.len();
            let more = list.push((from, n as int));
            assert forall|k: int| 0 <= k < more.len() implies whole(
                setting,
                segments,
                #[trigger] out[k],
                more[k].0,
                more[k].1,
            ) by {
                if k < list.len() {
                    assert(out[k] == t.done[k]);
                }
            }
            assert forall|i: int| 0 <= i < n && draws(#[trigger] segments[i]) implies listed(
                more,
                i,
            ) by {
                lemma_listed_more(list, (from, n as int), i);
            }
            more
        } else {
            list
        }
    } else {
        list
    }
}

/// The square that copy `(i, j)` of an array, counted from its lower left, has
/// for cell `c` of its tile: its left edge, its top edge and its side.
pub open spec fn copied(a: Array, key: TileView, i: int, j: int, c: int) -> (int, int, int) {
    (
        a.at.x + i * a.step.x + key.inked[c].0 * key.side,
        a.at.y + j * a.step.y + (key.inked[c].1 + 1) * key.side,
        key.side,
    )
}

/// There are such a copy and such a cell.
pub open spec fn is_copy(a: Array, key: TileView, i: int, j: int, c: int) -> bool {
    0 <= i < a.columns && 0 <= j < a.rows && 0 <= c < key.inked.len()
}

/// What one part adds: items and tiles stay, and where there is one more item
/// it is an array of a tile of the run's.
spec fn part_adds(before: Placed, after: Placed, run: RunView, layer: int) -> bool {
    &&& before.items.is_prefix_of(after.items)
    &&& before.tiles.is_prefix_of(after.tiles)
    &&& after.items.len() <= before.items.len() + 1
}

proof fn lemma_part_adds(placed: Placed, run: RunView, layer: int, height: int, k: int)
    ensures
        part_adds(placed, placed_part(placed, run, layer, height, k), run, layer),
{
    let after = placed_part(placed, run, layer, height, k);
    assert(placed.items =~= after.items.take(placed.items.len() as int));
    assert(placed.tiles =~= after.tiles.take(placed.tiles.len() as int));
}

/// The array that part `k` adds, and its tile.
proof fn lemma_part_array(placed: Placed, run: Run, layer: int, height: int, k: int)
    requires
        run.ok(),
        0 <= k < 4,
        0 <= layer <= usize::MAX,
        0 <= height <= REACH,
        placed.tiles.len() < usize::MAX,
        placed_part(placed, run@, layer, height, k).items.len() > placed.items.len(),
    ensures
        ({
            let after = placed_part(placed, run@, layer, height, k);
            let part = part_of(run@, k);
            let (w, h) = part.window;
            let inked = window_cells(run@.inked, part.window, (w * h) as nat);
            &&& after.items.last() is Array
            &&& ({
                let a = after.items.last()->Array_0;
                &&& a.layer == layer
                &&& a.block < after.tiles.len()
                &&& after.tiles[a.block as int] == (TileView { layer, side: run@.side, inked })
                &&& a.columns == part.counts.0
                &&& a.rows == part.counts.1
                &&& a.at.x == run.x + part.offset.0 * run.side
                &&& a.at.y == height - (run.y + (part.offset.1 + part.counts.1 * h) * run.side)
                &&& a.step.x == w * run.side
                &&& a.step.y == h * run.side
                &&& a.columns > 0
                &&& a.rows > 0
            })
        }),
{
    lemma_cells(run);
    lemma_part(run, k);
    let part = part_of(run@, k);
    let (w, h) = (cells_wide(run@), cells_high(run@));
    let (px, py) = (run.period.x as int, run.period.y as int);
    lemma_tiles_in(w, px);
    lemma_tiles_in(h, py);
    let sd = run.side as int;
    let (ox, down) = (part.offset.0, part.offset.1 + part.counts.1 * part.window.1);
    let (w0, w1) = part.window;
    assert(1 * (w % px) == w % px && 1 * (h % py) == h % py) by (nonlinear_arith);
    assert(0 <= ox <= w && 0 <= down <= h);
    assert(0 <= ox * sd <= w * sd && 0 <= down * sd <= h * sd && 0 <= w0 * sd <= px * sd && 0 <= w1
        * sd <= py * sd) by (nonlinear_arith)
        requires
            0 <= ox <= w,
            0 <= down <= h,
            0 <= w0 <= px,
            0 <= w1 <= py,
            sd > 0,
    ;
    let inked = window_cells(run@.inked, part.window, (w0 * w1) as nat);
    let key = TileView { layer, side: run@.side, inked };
    let place = tile_place(placed.tiles, key);
    if placed.tiles.contains(key) {
        placed.tiles.index_of_first_ensures(key);
    }
    assert(with_tile(placed.tiles, key)[place] == key);
}

/// The members of a window are its cells, turned over.
proof fn lemma_window_members(inked: Seq<(usize, usize)>, window: (int, int), n: nat, c: int)
    requires
        0 <= window.0 <= 8,
        1 <= window.1 <= 8,
        n <= window.0 * window.1,
        0 <= c < window_cells(inked, window, n).len(),
    ensures
        ({
            let cell = window_cells(inked, window, n)[c];
            cell.0 < window.0 && cell.1 < window.1
        }),
    decreases n,
{
    if n > 0 {
        let before = window_cells(inked, window, (n - 1) as nat);
        if c < before.len() {
            lemma_window_members(inked, window, (n - 1) as nat, c);
        } else {
            let m = n - 1;
            let h = window.1;
            vstd::arithmetic::div_mod::lemma_fundamental_div_mod(m, h);
            let (a, b) = (m / h, m % h);
            assert(0 <= a < window.0) by (nonlinear_arith)
                requires
                    m == h * a + b,
                    0 <= b < h,
                    0 <= m < window.0 * h,
            ;
        }
    }
}

proof fn lemma_split(v: int, n: int, w: int) -> (parts: (int, int))
    requires
        0 <= v < n * w,
        0 <= w,
    ensures
        v == parts.0 * w + parts.1,
        0 <= parts.0 < n,
        0 <= parts.1 < w,
        v % w == parts.1,
{
    assert(w > 0) by (nonlinear_arith)
        requires
            0 <= v < n * w,
            0 <= w,
    ;
    let (q, r) = (v / w, v % w);
    vstd::arithmetic::div_mod::lemma_fundamental_div_mod(v, w);
    assert(q * w == w * q && 0 <= q < n) by (nonlinear_arith)
        requires
            v == w * q + r,
            0 <= r < w,
            0 <= v < n * w,
    ;
    (q, r)
}

/// Where the array of part `k` has the cell in column `x` and row `y`.
proof fn lemma_part_draws(
    placed: Placed,
    run: Run,
    layer: int,
    height: int,
    k: int,
    x: int,
    y: int,
) -> (at: (int, int, int))
    requires
        run.ok(),
        0 <= k < 4,
        0 <= layer <= usize::MAX,
        0 <= height <= REACH,
        placed.tiles.len() < usize::MAX,
        part_covers(part_of(run@, k), x, y),
        part_inked(run@, part_of(run@, k), x, y),
    ensures
        ({
            let after = placed_part(placed, run@, layer, height, k);
            &&& after.items.len() == placed.items.len() + 1
            &&& drawn_by(after, placed.items.len() as int, run@, layer, height, x, y, at)
        }),
{
    lemma_cells(run);
    lemma_part(run, k);
    let part = part_of(run@, k);
    let (w0, w1) = part.window;
    let (n0, n1) = part.counts;
    let (ox, oy) = part.offset;
    let (q, ci) = lemma_split(x - ox, n0, w0);
    let (r, cj) = lemma_split(y - oy, n1, w1);
    let inked = window_cells(run@.inked, part.window, (w0 * w1) as nat);
    let cell = (ci as usize, (w1 - 1 - cj) as usize);
    assert(inked.contains(cell));
    let c = choose|c: int| 0 <= c < inked.len() && inked[c] == cell;
    let after = placed_part(placed, run@, layer, height, k);
    assert(after.items.len() == placed.items.len() + 1);
    lemma_part_array(placed, run, layer, height, k);
    let a = after.items.last()->Array_0;
    let j = n1 - 1 - r;
    let side = run.side as int;
    assert(a.at.x + q * a.step.x + ci * side == run.x + x * side) by (nonlinear_arith)
        requires
            a.at.x == run.x + ox * side,
            a.step.x == w0 * side,
            x == ox + q * w0 + ci,
    ;
    assert(a.at.y + j * a.step.y + (w1 - 1 - cj + 1) * side == height - (run.y + y * side))
        by (nonlinear_arith)
        requires
            a.at.y == height - (run.y + (oy + n1 * w1) * side),
            a.step.y == w1 * side,
            y == oy + r * w1 + cj,
            j == n1 - 1 - r,
    ;
    (q, j, c)
}

/// Item `n` is an array on the layer, and its copy and cell `at` is the square
/// that the run has in column `x` and row `y`, y counted upwards.
pub open spec fn drawn_by(
    placed: Placed,
    n: int,
    run: RunView,
    layer: int,
    height: int,
    x: int,
    y: int,
    at: (int, int, int),
) -> bool {
    &&& 0 <= n < placed.items.len()
    &&& placed.items[n] matches ItemView::Array(a) && {
        let key = placed.tiles[a.block as int];
        &&& a.layer == layer
        &&& a.block < placed.tiles.len()
        &&& key.layer == layer
        &&& is_copy(a, key, at.0, at.1, at.2)
        &&& copied(a, key, at.0, at.1, at.2) == (
            run.x + x * run.side,
            height - (run.y + y * run.side),
            run.side,
        )
    }
}

proof fn lemma_drawn_stays(
    before: Placed,
    after: Placed,
    n: int,
    run: RunView,
    layer: int,
    height: int,
    x: int,
    y: int,
    at: (int, int, int),
)
    requires
        before.items.is_prefix_of(after.items),
        before.tiles.is_prefix_of(after.tiles),
        drawn_by(before, n, run, layer, height, x, y, at),
    ensures
        drawn_by(after, n, run, layer, height, x, y, at),
{
    assert(after.items[n] == before.items[n]);
    let a = before.items[n]->Array_0;
    assert(after.tiles[a.block as int] == before.tiles[a.block as int]);
}

/// The run placed up to its part `k`.
spec fn placed_up_to(placed: Placed, run: RunView, layer: int, height: int, k: int) -> Placed
    decreases k,
{
    if k <= 0 {
        placed
    } else {
        placed_part(placed_up_to(placed, run, layer, height, k - 1), run, layer, height, k - 1)
    }
}

proof fn lemma_up_to(placed: Placed, run: RunView, layer: int, height: int, a: int, b: int)
    requires
        0 <= a <= b,
    ensures
        ({
            let (p, q) = (
                placed_up_to(placed, run, layer, height, a),
                placed_up_to(placed, run, layer, height, b),
            );
            &&& p.items.is_prefix_of(q.items)
            &&& p.tiles.is_prefix_of(q.tiles)
            &&& q.tiles.len() <= p.tiles.len() + b - a
        }),
    decreases b - a,
{
    if a < b {
        lemma_up_to(placed, run, layer, height, a, b - 1);
        let p = placed_up_to(placed, run, layer, height, a);
        let r = placed_up_to(placed, run, layer, height, b - 1);
        let q = placed_up_to(placed, run, layer, height, b);
        lemma_part_adds(r, run, layer, height, b - 1);
        assert(p.items =~= q.items.take(p.items.len() as int));
        assert(p.tiles =~= q.tiles.take(p.tiles.len() as int));
    }
}

proof fn lemma_four_parts(placed: Placed, run: RunView, layer: int, height: int)
    ensures
        placed_run(placed, run, layer, height) == placed_up_to(placed, run, layer, height, 4),
{
    reveal_with_fuel(placed_up_to, 5);
}

/// Every inked cell of a run's rectangle is drawn: one of the arrays it is
/// placed as has a copy of a tile with a square on that very place of the page,
/// y counted upwards.
pub proof fn law_every_inked_cell_is_placed(
    placed: Placed,
    run: Run,
    layer: int,
    height: int,
    x: int,
    y: int,
) -> (found: (int, (int, int, int)))
    requires
        run.ok(),
        0 <= layer <= usize::MAX,
        0 <= height <= REACH,
        placed.tiles.len() + 4 < usize::MAX,
        0 <= x < cells_wide(run@),
        0 <= y < cells_high(run@),
        tile_inked(run@, x, y),
    ensures
        placed.items.len() <= found.0,
        drawn_by(
            placed_run(placed, run@, layer, height),
            found.0,
            run@,
            layer,
            height,
            x,
            y,
            found.1,
        ),
{
    law_arrays_draw_the_run(run, x, y);
    let k = choose|k: int|
        0 <= k < 4 && #[trigger] part_covers(part_of(run@, k), x, y) && (part_inked(
            run@,
            part_of(run@, k),
            x,
            y,
        ) <==> tile_inked(run@, x, y)) && forall|m: int|
            0 <= m < 4 && m != k ==> !(#[trigger] part_covers(part_of(run@, m), x, y));
    let before = placed_up_to(placed, run@, layer, height, k);
    let after = placed_up_to(placed, run@, layer, height, k + 1);
    lemma_up_to(placed, run@, layer, height, 0, k);
    lemma_up_to(placed, run@, layer, height, k + 1, 4);
    let at = lemma_part_draws(before, run, layer, height, k, x, y);
    let n = before.items.len() as int;
    lemma_four_parts(placed, run@, layer, height);
    lemma_drawn_stays(
        after,
        placed_up_to(placed, run@, layer, height, 4),
        n,
        run@,
        layer,
        height,
        x,
        y,
        at,
    );
    (n, at)
}

/// The array of part `k` draws inked cells of the run alone.
proof fn lemma_part_draws_cells(
    placed: Placed,
    run: Run,
    layer: int,
    height: int,
    k: int,
    at: (int, int, int),
) -> (cell: (int, int))
    requires
        run.ok(),
        0 <= k < 4,
        0 <= layer <= usize::MAX,
        0 <= height <= REACH,
        placed.tiles.len() < usize::MAX,
        placed_part(placed, run@, layer, height, k).items.len() > placed.items.len(),
        ({
            let after = placed_part(placed, run@, layer, height, k);
            let a = after.items.last()->Array_0;
            is_copy(a, after.tiles[a.block as int], at.0, at.1, at.2)
        }),
    ensures
        0 <= cell.0 < cells_wide(run@),
        0 <= cell.1 < cells_high(run@),
        tile_inked(run@, cell.0, cell.1),
        drawn_by(
            placed_part(placed, run@, layer, height, k),
            placed.items.len() as int,
            run@,
            layer,
            height,
            cell.0,
            cell.1,
            at,
        ),
{
    lemma_cells(run);
    lemma_part(run, k);
    lemma_part_array(placed, run, layer, height, k);
    let (w, h) = (cells_wide(run@), cells_high(run@));
    let (px, py) = (run.period.x as int, run.period.y as int);
    lemma_tiles_in(w, px);
    lemma_tiles_in(h, py);
    assert(1 * (w % px) == w % px && 1 * (h % py) == h % py) by (nonlinear_arith);
    let part = part_of(run@, k);
    let (w0, w1) = part.window;
    let (n0, n1) = part.counts;
    let (ox, oy) = part.offset;
    let after = placed_part(placed, run@, layer, height, k);
    let a = after.items.last()->Array_0;
    let inked = window_cells(run@.inked, part.window, (w0 * w1) as nat);
    assert(w1 >= 1) by {
        if w1 == 0 {
            assert(w0 * w1 == 0) by (nonlinear_arith)
                requires
                    w1 == 0,
            ;
        }
    }
    assert(w0 * w1 >= 0) by (nonlinear_arith)
        requires
            w0 >= 0,
            w1 >= 0,
    ;
    lemma_window_members(run@.inked, part.window, (w0 * w1) as nat, at.2);
    let cell = inked[at.2];
    let (ci, cj) = (cell.0 as int, w1 - 1 - cell.1);
    let r = n1 - 1 - at.1;
    let (x, y) = (ox + at.0 * w0 + ci, oy + r * w1 + cj);
    assert(0 <= at.0 * w0 + ci < n0 * w0) by (nonlinear_arith)
        requires
            0 <= at.0 < n0,
            0 <= ci < w0,
    ;
    assert(0 <= r * w1 + cj < n1 * w1) by (nonlinear_arith)
        requires
            0 <= r < n1,
            0 <= cj < w1,
    ;
    vstd::arithmetic::div_mod::lemma_fundamental_div_mod_converse(x - ox, w0, at.0, ci);
    vstd::arithmetic::div_mod::lemma_fundamental_div_mod_converse(y - oy, w1, r, cj);
    assert(part_covers(part, x, y));
    assert(inked.contains(cell));
    assert(part_inked(run@, part, x, y));
    assert(0 <= x < w && 0 <= y < h);
    law_arrays_draw_the_run(run, x, y);
    let side = run.side as int;
    assert(a.at.x + at.0 * a.step.x + ci * side == run.x + x * side) by (nonlinear_arith)
        requires
            a.at.x == run.x + ox * side,
            a.step.x == w0 * side,
            x == ox + at.0 * w0 + ci,
    ;
    assert(a.at.y + at.1 * a.step.y + (w1 - 1 - cj + 1) * side == height - (run.y + y * side))
        by (nonlinear_arith)
        requires
            a.at.y == height - (run.y + (oy + n1 * w1) * side),
            a.step.y == w1 * side,
            y == oy + r * w1 + cj,
            r == n1 - 1 - at.1,
    ;
    (x, y)
}

/// The part that brought item `n`.
proof fn lemma_brought_by(placed: Placed, run: RunView, layer: int, height: int, n: int, b: int) -> (k:
    int)
    requires
        0 <= b,
        placed.items.len() <= n < placed_up_to(placed, run, layer, height, b).items.len(),
    ensures
        0 <= k < b,
        placed_up_to(placed, run, layer, height, k).items.len() == n,
        placed_up_to(placed, run, layer, height, k + 1).items.len() == n + 1,
    decreases b,
{
    let r = placed_up_to(placed, run, layer, height, b - 1);
    if b == 0 {
        0
    } else if n < r.items.len() {
        lemma_brought_by(placed, run, layer, height, n, b - 1)
    } else {
        lemma_part_adds(r, run, layer, height, b - 1);
        b - 1
    }
}

/// Nothing else is drawn: every item a run is placed as is an array, and every
/// copy of every cell of its tile lies on an inked cell of the run.
pub proof fn law_arrays_draw_inked_cells_alone(
    placed: Placed,
    run: Run,
    layer: int,
    height: int,
    n: int,
    at: (int, int, int),
) -> (cell: (int, int))
    requires
        run.ok(),
        0 <= layer <= usize::MAX,
        0 <= height <= REACH,
        placed.tiles.len() + 4 < usize::MAX,
        placed.items.len() <= n < placed_run(placed, run@, layer, height).items.len(),
        ({
            let after = placed_run(placed, run@, layer, height);
            after.items[n] matches ItemView::Array(a) ==> is_copy(
                a,
                after.tiles[a.block as int],
                at.0,
                at.1,
                at.2,
            )
        }),
    ensures
        0 <= cell.0 < cells_wide(run@),
        0 <= cell.1 < cells_high(run@),
        tile_inked(run@, cell.0, cell.1),
        drawn_by(
            placed_run(placed, run@, layer, height),
            n,
            run@,
            layer,
            height,
            cell.0,
            cell.1,
            at,
        ),
{
    lemma_four_parts(placed, run@, layer, height);
    let last = placed_up_to(placed, run@, layer, height, 4);
    let k = lemma_brought_by(placed, run@, layer, height, n, 4);
    let before = placed_up_to(placed, run@, layer, height, k);
    let after = placed_up_to(placed, run@, layer, height, k + 1);
    lemma_up_to(placed, run@, layer, height, 0, k);
    lemma_up_to(placed, run@, layer, height, k + 1, 4);
    lemma_part_array(before, run, layer, height, k);
    assert(last.items[n] == after.items[n]);
    let a = after.items[n]->Array_0;
    assert(last.tiles[a.block as int] == after.tiles[a.block as int]);
    let cell = lemma_part_draws_cells(before, run, layer, height, k, at);
    lemma_drawn_stays(after, last, n, run@, layer, height, cell.0, cell.1, at);
    cell
}

/// The outline of a block's cell goes round the square whose lower-left corner
/// lies as many sides from the block's origin as the cell counts.
pub proof fn law_a_cells_outline_is_its_square(layer: int, side: int, cell: (usize, usize))
    requires
        side > 0,
        cell_ok(side, cell),
    ensures
        ({
            let o = cell_outline(layer, side, cell);
            let (x, y) = (cell.0 * side, cell.1 * side);
            &&& o.layer == layer
            &&& o.closed
            &&& o.pieces.len() == 3
            &&& o.pieces[0] is Line && o.pieces[1] is Line && o.pieces[2] is Line
            &&& o.start.x == x && o.start.y == y + side
            &&& o.pieces[0].finish().x == x + side && o.pieces[0].finish().y == y + side
            &&& o.pieces[1].finish().x == x + side && o.pieces[1].finish().y == y
            &&& o.pieces[2].finish().x == x && o.pieces[2].finish().y == y
        }),
{
    let (i, j) = (cell.0 as int, cell.1 as int);
    assert((i + 1) * side == i * side + side && (j + 1) * side == j * side + side && i * side >= 0
        && j * side >= 0) by (nonlinear_arith)
        requires
            i >= 0,
            j >= 0,
            side > 0,
    ;
}

/// The group of a code after place `from`, before place `to`: the first.
pub open spec fn group_at(groups: Seq<Group>, code: int, from: int, to: int) -> Option<Value>
    decreases to - from,
{
    if from >= to {
        None
    } else if groups[from].code == code {
        Some(groups[from].value)
    } else {
        group_at(groups, code, from + 1, to)
    }
}

/// What an insert's groups say of its array, read by their codes: the block's
/// name, the place, the counts where they are not one, and the spacing of what
/// is counted.
pub proof fn law_an_inserts_groups_read_back(array: Array, blocks: Seq<Block>)
    ensures
        ({
            let groups = array_groups(array, blocks);
            let n = groups.len() as int;
            let (columns, rows) = (array.columns as int, array.rows as int);
            &&& group_at(groups, 2, 0, n) == Some(Value::Text(blocks[array.block as int].name@))
            &&& group_at(groups, 10, 0, n) == Some(Value::Number(array.at.x as int))
            &&& group_at(groups, 20, 0, n) == Some(Value::Number(array.at.y as int))
            &&& group_at(groups, 70, 0, n) == if columns > 1 {
                Some(Value::Int(columns))
            } else {
                None
            }
            &&& group_at(groups, 71, 0, n) == if rows > 1 {
                Some(Value::Int(rows))
            } else {
                None
            }
            &&& group_at(groups, 44, 0, n) == if columns > 1 {
                Some(Value::Number(array.step.x as int))
            } else {
                None
            }
            &&& group_at(groups, 45, 0, n) == if rows > 1 {
                Some(Value::Number(array.step.y as int))
            } else {
                None
            }
        }),
{
    reveal_with_fuel(group_at, 10);
}

/// The corners that a header's extents name: the drawing reaches from the
/// origin to the page's width and height.
pub proof fn law_extents_are_the_page(width: int, height: int)
    requires
        0 <= width <= i64::MAX,
        0 <= height <= i64::MAX,
    ensures
        ({
            let groups = extents_groups(width, height);
            &&& named_point(groups, "$INSBASE"@, 0, 0, 0)
            &&& named_point(groups, "$EXTMIN"@, 4, 0, 0)
            &&& named_point(groups, "$EXTMAX"@, 8, width, height)
            &&& named_point(groups, "$LIMMIN"@, 12, 0, 0)
            &&& named_point(groups, "$LIMMAX"@, 15, width, height)
        }),
{
}

/// The header variable at `i` has the point `(x, y)`.
pub open spec fn named_point(groups: Seq<Group>, name: Seq<char>, i: int, x: int, y: int) -> bool {
    &&& i + 2 < groups.len()
    &&& groups[i].code == 9 && groups[i].value == Value::Text(name)
    &&& groups[i + 1].code == 10 && groups[i + 1].value == Value::Number(x)
    &&& groups[i + 2].code == 20 && groups[i + 2].value == Value::Number(y)
}

/// Vertex `k` of a polyline of `points`: its point, on the polyline's layer.
proof fn lemma_vertex(name: Seq<char>, points: Seq<Xy>, n: nat, k: int)
    requires
        0 <= k < n <= points.len(),
    ensures
        vertex_groups(name, points, n).len() == 5 * n,
        vertex_at(vertex_groups(name, points, n), 5 * k, name, points[k]),
    decreases n,
{
    lemma_vertices_len(name, points, (n - 1) as nat);
    let before = vertex_groups(name, points, (n - 1) as nat);
    let now = vertex_groups(name, points, n);
    if k < n - 1 {
        lemma_vertex(name, points, (n - 1) as nat, k);
        assert(now[5 * k] == before[5 * k] && now[5 * k + 1] == before[5 * k + 1]);
        assert(now[5 * k + 2] == before[5 * k + 2] && now[5 * k + 3] == before[5 * k + 3]);
    }
}

proof fn lemma_vertices_len(name: Seq<char>, points: Seq<Xy>, n: nat)
    ensures
        vertex_groups(name, points, n).len() == 5 * n,
    decreases n,
{
    if n > 0 {
        lemma_vertices_len(name, points, (n - 1) as nat);
    }
}

/// A vertex at group `i`: its kind, its layer, its x and its y.
pub open spec fn vertex_at(groups: Seq<Group>, i: int, name: Seq<char>, p: Xy) -> bool {
    &&& 0 <= i && i + 4 < groups.len()
    &&& groups[i].code == 0 && groups[i].value == Value::Text("VERTEX"@)
    &&& groups[i + 1].code == 8 && groups[i + 1].value == Value::Text(name)
    &&& groups[i + 2].code == 10 && groups[i + 2].value == Value::Number(p.x as int)
    &&& groups[i + 3].code == 20 && groups[i + 3].value == Value::Number(p.y as int)
}

/// A polyline lists its points, one vertex each and in their order, between its
/// head, which says whether it is closed, and its end.
pub proof fn law_a_polyline_lists_its_points(
    layer: Layer,
    closed: bool,
    points: Seq<Xy>,
    k: int,
)
    requires
        2 <= points.len(),
        0 <= k < points.len(),
    ensures
        ({
            let groups = polyline_groups(layer, closed, points);
            let n = points.len();
            &&& groups.len() == 8 + 5 * n + 2
            &&& groups[0].code == 0 && groups[0].value == Value::Text("POLYLINE"@)
            &&& group_at(groups, 70, 0, 8) == Some(
                Value::Int(
                    if closed {
                        1
                    } else {
                        0
                    },
                ),
            )
            &&& vertex_at(groups, 8 + 5 * k, layer.name@, points[k])
            &&& groups[8 + 5 * n as int].code == 0
            &&& groups[8 + 5 * n as int].value == Value::Text("SEQEND"@)
        }),
{
    let n = points.len();
    let groups = polyline_groups(layer, closed, points);
    lemma_vertex(layer.name@, points, n, k);
    let list = vertex_groups(layer.name@, points, n);
    assert(groups[8 + 5 * k] == list[5 * k] && groups[8 + 5 * k + 1] == list[5 * k + 1]);
    assert(groups[8 + 5 * k + 2] == list[5 * k + 2] && groups[8 + 5 * k + 3] == list[5 * k + 3]);
    reveal_with_fuel(group_at, 9);
}

/// No two blocks of a drawing have one name, so an insert's name is that of the
/// one block it places; each draws the squares of its tile.
pub proof fn law_block_names_differ(drawing: Drawing, s: Sketch, i: int, j: int)
    requires
        drawing.shows(s),
        0 <= i < j < drawing.blocks@.len(),
    ensures
        drawing.blocks@[i].name@ != drawing.blocks@[j].name@,
        outline_views(drawing.blocks@[i].outlines@).len() == s.placed.tiles[i].inked.len(),
{
    let lead = "VM_DITHER_"@;
    let (a, b) = (decimal((i + 1) as nat), decimal((j + 1) as nat));
    assert(block_of(drawing.blocks@[i], i, s.placed.tiles[i]));
    assert(block_of(drawing.blocks@[j], j, s.placed.tiles[j]));
    let (x, y) = (lead + a, lead + b);
    lemma_decimal((i + 1) as nat);
    lemma_decimal((j + 1) as nat);
    assert(x.subrange(lead.len() as int, x.len() as int) =~= a);
    assert(y.subrange(lead.len() as int, y.len() as int) =~= b);
}

proof fn lemma_run_adds(placed: Placed, run: RunView, layer: int, height: int)
    ensures
        placed.items.is_prefix_of(placed_run(placed, run, layer, height).items),
        placed.tiles.is_prefix_of(placed_run(placed, run, layer, height).tiles),
{
    lemma_four_parts(placed, run, layer, height);
    lemma_up_to(placed, run, layer, height, 0, 4);
}

proof fn lemma_runs_add(placed: Placed, runs: Seq<RunView>, layer: int, height: int, m: nat, n: nat)
    requires
        m <= n,
    ensures
        ({
            let a = placed_runs(placed, runs, layer, height, m);
            let b = placed_runs(placed, runs, layer, height, n);
            a.items.is_prefix_of(b.items) && a.tiles.is_prefix_of(b.tiles)
        }),
    decreases n,
{
    if m < n {
        lemma_runs_add(placed, runs, layer, height, m, (n - 1) as nat);
        let a = placed_runs(placed, runs, layer, height, m);
        let c = placed_runs(placed, runs, layer, height, (n - 1) as nat);
        let b = placed_runs(placed, runs, layer, height, n);
        lemma_run_adds(c, runs[n - 1], layer, height);
        assert(a.items =~= b.items.take(a.items.len() as int));
        assert(a.tiles =~= b.tiles.take(a.tiles.len() as int));
    }
}

/// What stands before a shape stays as it is, and the shape's outlines come
/// next: those of its path, or of what its runs leave of it.
pub proof fn law_a_shapes_outlines_are_drawn(
    sketch: Sketch,
    shape: Shape,
    found: Option<(Seq<Segment>, Seq<RunView>)>,
    height: int,
    c: (int, int, int),
)
    requires
        shape_colour(shape) == Some(c),
    ensures
        ({
            let after = with_shape(sketch, shape, found, height).placed;
            let setting = Setting {
                layer: colour_place(sketch.colours, c) as usize,
                filled: shape.fill is Some,
                height: height as i64,
            };
            let segments = match found {
                Some((rest, _)) => rest,
                None => shape.segments@,
            };
            let list = outlines_of(setting, segments);
            let n = sketch.placed.items.len() as int;
            &&& sketch.placed.items.is_prefix_of(after.items)
            &&& sketch.placed.tiles.is_prefix_of(after.tiles)
            &&& n + list.len() <= after.items.len()
            &&& forall|i: int|
                0 <= i < list.len() ==> after.items[n + i] == ItemView::Outline(#[trigger] list[i])
            &&& found is None ==> after.items.len() == n + list.len()
        }),
{
    let layer = colour_place(sketch.colours, c);
    let setting = Setting {
        layer: layer as usize,
        filled: shape.fill is Some,
        height: height as i64,
    };
    let segments = match found {
        Some((rest, _)) => rest,
        None => shape.segments@,
    };
    let runs = match found {
        Some((_, runs)) => runs,
        None => Seq::empty(),
    };
    let list = outlines_of(setting, segments);
    let more = list.map_values(|o: OutlineView| ItemView::Outline(o));
    let drawn = Placed { tiles: sketch.placed.tiles, items: sketch.placed.items + more };
    lemma_runs_add(drawn, runs, layer, height, 0, runs.len());
    let after = placed_runs(drawn, runs, layer, height, runs.len());
    let n = sketch.placed.items.len() as int;
    assert(sketch.placed.items =~= after.items.take(n)) by {
        assert forall|i: int| 0 <= i < n implies sketch.placed.items[i] == after.items[i] by {
            assert(drawn.items[i] == after.items[i]);
        }
    }
    assert forall|i: int| 0 <= i < list.len() implies after.items[n + i] == ItemView::Outline(
        #[trigger] list[i],
    ) by {
        assert(drawn.items[n + i] == more[i]);
    }
}

/// Every run of a shape is drawn on the shape's layer: for each inked cell of
/// it there is an array with a square on that very place of the page.
pub proof fn law_a_shapes_runs_are_drawn(
    sketch: Sketch,
    shape: Shape,
    rest: Seq<Segment>,
    runs: Seq<RunView>,
    height: int,
    c: (int, int, int),
    k: int,
    run: Run,
    x: int,
    y: int,
) -> (place: (int, (int, int, int)))
    requires
        shape_colour(shape) == Some(c),
        0 <= k < runs.len(),
        run.ok(),
        run@ == runs[k],
        0 <= height <= REACH,
        sketch.colours.len() <= usize::MAX,
        with_shape(sketch, shape, Some((rest, runs)), height).placed.tiles.len() + 4 < usize::MAX,
        0 <= x < cells_wide(run@),
        0 <= y < cells_high(run@),
        tile_inked(run@, x, y),
    ensures
        sketch.placed.items.len() <= place.0,
        drawn_by(
            with_shape(sketch, shape, Some((rest, runs)), height).placed,
            place.0,
            run@,
            colour_place(sketch.colours, c),
            height,
            x,
            y,
            place.1,
        ),
{
    let layer = colour_place(sketch.colours, c);
    if sketch.colours.contains(c) {
        sketch.colours.index_of_first_ensures(c);
    }
    let setting = Setting {
        layer: layer as usize,
        filled: shape.fill is Some,
        height: height as i64,
    };
    let more = outlines_of(setting, rest).map_values(|o: OutlineView| ItemView::Outline(o));
    let drawn = Placed { tiles: sketch.placed.tiles, items: sketch.placed.items + more };
    let before = placed_runs(drawn, runs, layer, height, k as nat);
    let after = placed_runs(drawn, runs, layer, height, (k + 1) as nat);
    let all = placed_runs(drawn, runs, layer, height, runs.len());
    lemma_runs_add(drawn, runs, layer, height, 0, k as nat);
    lemma_runs_add(drawn, runs, layer, height, k as nat, runs.len());
    lemma_runs_add(drawn, runs, layer, height, (k + 1) as nat, runs.len());
    assert(after == placed_run(before, runs[k], layer, height));
    let place = law_every_inked_cell_is_placed(before, run, layer, height, x, y);
    lemma_drawn_stays(after, all, place.0, run@, layer, height, x, y, place.1);
    place
}

/// Shapes that follow leave what is drawn as it is: whatever the first `s`
/// shapes draw is drawn by the whole page, in the same order.
pub proof fn law_later_shapes_keep_what_is_drawn(
    shapes: Seq<Shape>,
    found: Seq<Option<(Seq<Segment>, Seq<RunView>)>>,
    height: int,
    s: nat,
    n: nat,
)
    requires
        s <= n <= shapes.len(),
    ensures
        sketch(shapes, found, height, s).placed.items.is_prefix_of(
            sketch(shapes, found, height, n).placed.items,
        ),
        sketch(shapes, found, height, s).placed.tiles.is_prefix_of(
            sketch(shapes, found, height, n).placed.tiles,
        ),
    decreases n,
{
    if s < n {
        let m = (n - 1) as nat;
        law_later_shapes_keep_what_is_drawn(shapes, found, height, s, m);
        let (a, b) = (sketch(shapes, found, height, s), sketch(shapes, found, height, m));
        let c = sketch(shapes, found, height, n);
        if let Some(colour) = shape_colour(shapes[n - 1]) {
            law_a_shapes_outlines_are_drawn(b, shapes[n - 1], found[n - 1], height, colour);
            assert(a.placed.items =~= c.placed.items.take(a.placed.items.len() as int));
            assert(a.placed.tiles =~= c.placed.tiles.take(a.placed.tiles.len() as int));
        }
    }
}

} // verus!
