//! A page has one drawing, and the drawing one file of each mode.
use crate::dither::{is_split_of, is_subpaths, split_of, RunView};
use crate::dxf::colour::is_nearest;
use crate::dxf::drawing::{
    item_views, is_drawing_of, layer_of, page_splits, shape_split, sketch, Block, Drawing, ItemView,
    Layer,
};
use crate::dxf::flatten::Refusal;
use crate::dxf::lines::{
    array_groups, block_head, block_lines, item_lines, layers12, outline_lines, paint_groups,
    polyline_groups, r12_lines, with_groups, with_polyline, Lines,
};
use crate::dxf::outline::{outline_views, Outline, OutlineView, Piece};
use crate::dxf::sheet::{
    block_name, block_outlines, body, closed_pieces, entity_groups, layer_list, lemma_run_end,
    model_space, r2000_groups, record_list, run_end, tables, with_block, with_blocks, with_items,
    with_outline, with_outlines, with_run, with_runs, Place, Sheet,
};
use crate::dxf::{file_text, is_dxf_of, is_file_of, DxfMode};
use crate::geometry::{Page, Segment, Xy};
use vstd::prelude::*;

verus! {

proof fn lemma_flatten_len(parts: Seq<Seq<Segment>>)
    ensures
        parts.len() > 0 ==> parts.flatten() == parts[0] + parts.drop_first().flatten(),
        parts.len() == 0 ==> parts.flatten().len() == 0,
{
}

/// A path is cut before its moves in one way.
proof fn lemma_subpaths_unique(
    a: Seq<Seq<Segment>>,
    b: Seq<Seq<Segment>>,
    segments: Seq<Segment>,
)
    requires
        is_subpaths(a, segments),
        is_subpaths(b, segments),
    ensures
        a == b,
    decreases a.len(),
{
    lemma_flatten_len(a);
    lemma_flatten_len(b);
    if a.len() == 0 || b.len() == 0 {
        if a.len() > 0 {
            assert(a[0].len() > 0);
        }
        if b.len() > 0 {
            assert(b[0].len() > 0);
        }
        assert(a =~= b);
    } else {
        lemma_first_no_longer(a, b, segments);
        lemma_first_no_longer(b, a, segments);
        let n = a[0].len() as int;
        assert(a[0] =~= segments.subrange(0, n));
        assert(b[0] =~= segments.subrange(0, n));
        let rest = segments.subrange(n, segments.len() as int);
        let (x, y) = (a.drop_first(), b.drop_first());
        assert(x.flatten() =~= rest);
        assert(y.flatten() =~= rest);
        lemma_rest_subpaths(a, rest);
        lemma_rest_subpaths(b, rest);
        lemma_subpaths_unique(x, y, rest);
        assert(a =~= seq![a[0]] + x);
        assert(b =~= seq![b[0]] + y);
    }
}

proof fn lemma_rest_subpaths(a: Seq<Seq<Segment>>, rest: Seq<Segment>)
    requires
        a.len() > 0,
        is_subpaths(a, a.flatten()),
        a.drop_first().flatten() == rest,
    ensures
        is_subpaths(a.drop_first(), rest),
{
    let x = a.drop_first();
    assert forall|k: int| 0 <= k < x.len() implies (#[trigger] x[k]).len() > 0 by {
        assert(x[k] == a[k + 1]);
    }
    assert forall|k: int| 0 < k < x.len() implies crate::dither::is_move(
        (#[trigger] x[k])[0],
    ) by {
        assert(x[k] == a[k + 1]);
    }
    assert forall|k: int, i: int| 0 <= k < x.len() && 0 < i < x[k].len() implies
        !crate::dither::is_move(#[trigger] x[k][i]) by {
        assert(x[k][i] == a[k + 1][i]);
    }
}

proof fn lemma_first_no_longer(
    a: Seq<Seq<Segment>>,
    b: Seq<Seq<Segment>>,
    segments: Seq<Segment>,
)
    requires
        is_subpaths(a, segments),
        is_subpaths(b, segments),
        a.len() > 0,
        b.len() > 0,
    ensures
        b[0].len() <= a[0].len(),
{
    lemma_flatten_len(a);
    lemma_flatten_len(b);
    let n = a[0].len() as int;
    if n < b[0].len() {
        let x = a.drop_first();
        lemma_flatten_len(x);
        assert(segments.len() > n);
        assert(x.flatten().len() > 0);
        assert(x.len() > 0);
        assert(x[0] == a[1]);
        assert(a[1].len() > 0);
        assert(segments[n] == x.flatten()[0]);
        assert(x.flatten()[0] == a[1][0]);
        assert(crate::dither::is_move(a[1][0]));
        assert(a[0].len() > 0);
        assert(segments[n] == b[0][n]);
        assert(!crate::dither::is_move(b[0][n]));
    }
}

/// A path has one set of runs, and one rest.
pub proof fn law_a_path_splits_one_way(
    segments: Seq<Segment>,
    a: Option<(Seq<Segment>, Seq<RunView>)>,
    b: Option<(Seq<Segment>, Seq<RunView>)>,
)
    requires
        is_split_of(segments, a),
        is_split_of(segments, b),
    ensures
        a == b,
{
    let p = choose|p: Seq<Seq<Segment>>| #[trigger] split_of(segments, p, a);
    let q = choose|q: Seq<Seq<Segment>>| #[trigger] split_of(segments, q, b);
    lemma_subpaths_unique(p, q, segments);
}

/// The two say the same of a layer.
pub open spec fn same_layer(a: Layer, b: Layer) -> bool {
    a.name@ == b.name@ && a.index == b.index && a.colour == b.colour
}

pub open spec fn same_layers(a: Seq<Layer>, b: Seq<Layer>) -> bool {
    &&& a.len() == b.len()
    &&& forall|k: int| 0 <= k < a.len() ==> same_layer(#[trigger] a[k], b[k])
}

pub open spec fn same_block(a: Block, b: Block) -> bool {
    a.name@ == b.name@ && outline_views(a.outlines@) == outline_views(b.outlines@)
}

pub open spec fn same_blocks(a: Seq<Block>, b: Seq<Block>) -> bool {
    &&& a.len() == b.len()
    &&& forall|k: int| 0 <= k < a.len() ==> same_block(#[trigger] a[k], b[k])
}

/// The two draw the same on the same layers.
pub open spec fn same_drawing(a: Drawing, b: Drawing) -> bool {
    &&& same_layers(a.layers@, b.layers@)
    &&& item_views(a.items@) == item_views(b.items@)
    &&& same_blocks(a.blocks@, b.blocks@)
}

proof fn lemma_nearest_unique(c: (int, int, int), a: int, b: int)
    requires
        is_nearest(c, a),
        is_nearest(c, b),
    ensures
        a == b,
{
    let (x, y) = (
        crate::dxf::colour::index_distance(c, a),
        crate::dxf::colour::index_distance(c, b),
    );
}

/// A page has one drawing: whatever draws it has the same layers, the same
/// items and the same blocks.
pub proof fn law_a_page_has_one_drawing(page: Page, a: Drawing, b: Drawing)
    requires
        is_drawing_of(a, page),
        is_drawing_of(b, page),
    ensures
        same_drawing(a, b),
{
    let shapes = page.shapes@;
    let h = page.height as int;
    let p = choose|found: Seq<Option<(Seq<Segment>, Seq<RunView>)>>| #[trigger]
        page_splits(shapes, found) && a.shows(sketch(shapes, found, h, shapes.len()));
    let q = choose|found: Seq<Option<(Seq<Segment>, Seq<RunView>)>>| #[trigger]
        page_splits(shapes, found) && b.shows(sketch(shapes, found, h, shapes.len()));
    assert(p =~= q) by {
        assert forall|k: int| 0 <= k < shapes.len() implies p[k] == q[k] by {
            assert(shape_split(shapes[k], p[k]) && shape_split(shapes[k], q[k]));
            if shapes[k].fill is Some {
                law_a_path_splits_one_way(shapes[k].segments@, p[k], q[k]);
            }
        }
    }
    let s = sketch(shapes, p, h, shapes.len());
    assert forall|k: int| 0 <= k < a.layers@.len() implies same_layer(
        #[trigger] a.layers@[k],
        b.layers@[k],
    ) by {
        assert(layer_of(a.layers@[k], s.colours[k]) && layer_of(b.layers@[k], s.colours[k]));
        lemma_nearest_unique(
            s.colours[k],
            a.layers@[k].index as int,
            b.layers@[k].index as int,
        );
    }
    assert forall|k: int| 0 <= k < a.blocks@.len() implies same_block(
        #[trigger] a.blocks@[k],
        b.blocks@[k],
    ) by {
        assert(crate::dxf::drawing::block_of(b.blocks@[k], k, s.placed.tiles[k]));
    }
}

proof fn lemma_entity_same(
    kind: Seq<char>,
    own: int,
    owner: int,
    a: Layer,
    b: Layer,
    class: Seq<char>,
)
    requires
        same_layer(a, b),
    ensures
        entity_groups(kind, own, owner, a, class) == entity_groups(kind, own, owner, b, class),
        paint_groups(a, false) == paint_groups(b, false),
{
}

spec fn same_place(a: Place, b: Place) -> bool {
    a.owner == b.owner && same_layer(a.layer, b.layer)
}

proof fn lemma_runs_same(
    sheet: Sheet,
    p: Place,
    q: Place,
    start: Xy,
    pieces: Seq<Piece>,
    k: int,
)
    requires
        same_place(p, q),
        0 <= k,
    ensures
        with_runs(sheet, p, start, pieces, k) == with_runs(sheet, q, start, pieces, k),
    decreases pieces.len() - k,
{
    if k < pieces.len() {
        let j = run_end(pieces, k, k + 1);
        lemma_run_end(pieces, k, k + 1);
        let own = sheet.last + 1;
        lemma_entity_same("SPLINE"@, own, p.owner, p.layer, q.layer, "AcDbSpline"@);
        lemma_entity_same("LWPOLYLINE"@, own, p.owner, p.layer, q.layer, "AcDbPolyline"@);
        let next = with_run(sheet, p, start, pieces, k, j);
        assert(next == with_run(sheet, q, start, pieces, k, j));
        lemma_runs_same(next, p, q, start, pieces, j);
    }
}

proof fn lemma_outline_same(sheet: Sheet, p: Place, q: Place, outline: OutlineView)
    requires
        same_place(p, q),
    ensures
        with_outline(sheet, p, outline) == with_outline(sheet, q, outline),
{
    let own = sheet.last + 1;
    lemma_entity_same("LWPOLYLINE"@, own, p.owner, p.layer, q.layer, "AcDbPolyline"@);
    lemma_runs_same(sheet, p, q, outline.start, closed_pieces(outline), 0);
}

proof fn lemma_outlines_same(
    sheet: Sheet,
    owner: int,
    a: Seq<Layer>,
    b: Seq<Layer>,
    x: Seq<Outline>,
    y: Seq<Outline>,
    n: nat,
)
    requires
        same_layers(a, b),
        outline_views(x) == outline_views(y),
        n <= x.len(),
        forall|k: int| 0 <= k < x.len() ==> (#[trigger] x[k]).layer < a.len(),
    ensures
        with_outlines(sheet, owner, a, x, n) == with_outlines(sheet, owner, b, y, n),
    decreases n,
{
    if n > 0 {
        lemma_outlines_same(sheet, owner, a, b, x, y, (n - 1) as nat);
        assert(outline_views(x).len() == x.len() && outline_views(y).len() == y.len());
        assert(outline_views(x)[n - 1] == x[n - 1]@);
        assert(outline_views(y)[n - 1] == y[n - 1]@);
        let o = x[n - 1]@;
        assert(x[n - 1].layer < a.len());
        assert(same_layer(a[o.layer], b[o.layer]));
        lemma_outline_same(
            with_outlines(sheet, owner, a, x, (n - 1) as nat),
            Place { owner, layer: a[o.layer] },
            Place { owner, layer: b[o.layer] },
            o,
        );
    }
}

proof fn lemma_block_same(sheet: Sheet, a: Drawing, b: Drawing, k: int)
    requires
        same_drawing(a, b),
        a.ok(),
        0 <= k < 2 + a.blocks@.len(),
    ensures
        with_block(sheet, a, k) == with_block(sheet, b, k),
{
    let layers = a.layers@;
    let owner = model_space(layers.len() as int) + k;
    let own = sheet.last + 1;
    if k >= 2 {
        assert(same_block(a.blocks@[k - 2], b.blocks@[k - 2]));
        assert(crate::dxf::drawing::block_ok(a.blocks@[k - 2], layers.len() as int));
    }
    let begun = Sheet {
        groups: sheet.groups + crate::dxf::sheet::block_begin(
            own,
            owner,
            k == 1,
            block_name(a.blocks@, k),
        ),
        last: own,
    };
    let (x, y) = (block_outlines(a.blocks@, k), block_outlines(b.blocks@, k));
    assert(outline_views(x).len() == x.len() && outline_views(y).len() == y.len());
    lemma_outlines_same(begun, owner, layers, b.layers@, x, y, x.len());
}

proof fn lemma_blocks_same(sheet: Sheet, a: Drawing, b: Drawing, n: nat)
    requires
        same_drawing(a, b),
        a.ok(),
        n <= 2 + a.blocks@.len(),
    ensures
        with_blocks(sheet, a, n) == with_blocks(sheet, b, n),
    decreases n,
{
    if n > 0 {
        lemma_blocks_same(sheet, a, b, (n - 1) as nat);
        lemma_block_same(with_blocks(sheet, a, (n - 1) as nat), a, b, n - 1);
    }
}

proof fn lemma_array_same(array: crate::dxf::drawing::Array, a: Drawing, b: Drawing)
    requires
        same_drawing(a, b),
        array.block < a.blocks@.len(),
    ensures
        array_groups(array, a.blocks@) == array_groups(array, b.blocks@),
{
    assert(same_block(a.blocks@[array.block as int], b.blocks@[array.block as int]));
}

proof fn lemma_item_same(a: Drawing, b: Drawing, k: int)
    requires
        same_drawing(a, b),
        a.ok(),
        0 <= k < a.items@.len(),
    ensures
        a.items@.len() == b.items@.len(),
        a.items@[k]@ == b.items@[k]@,
        crate::dxf::drawing::item_ok(
            a.items@[k]@,
            a.layers@.len() as int,
            a.blocks@.len() as int,
        ),
{
    assert(item_views(a.items@).len() == a.items@.len());
    assert(item_views(b.items@).len() == b.items@.len());
    assert(item_views(a.items@)[k] == a.items@[k]@);
    assert(item_views(b.items@)[k] == b.items@[k]@);
}

proof fn lemma_items_same(sheet: Sheet, a: Drawing, b: Drawing, n: nat)
    requires
        same_drawing(a, b),
        a.ok(),
        n <= a.items@.len(),
    ensures
        with_items(sheet, a, n) == with_items(sheet, b, n),
    decreases n,
{
    if n > 0 {
        lemma_items_same(sheet, a, b, (n - 1) as nat);
        lemma_item_same(a, b, n - 1);
        let before = with_items(sheet, a, (n - 1) as nat);
        let owner = model_space(a.layers@.len() as int);
        match a.items@[n - 1]@ {
            ItemView::Outline(o) => {
                assert(same_layer(a.layers@[o.layer], b.layers@[o.layer]));
                lemma_outline_same(
                    before,
                    Place { owner, layer: a.layers@[o.layer] },
                    Place { owner, layer: b.layers@[o.layer] },
                    o,
                );
            },
            ItemView::Array(x) => {
                let (p, q) = (a.layers@[x.layer as int], b.layers@[x.layer as int]);
                assert(same_layer(p, q));
                lemma_array_same(x, a, b);
                lemma_entity_same("INSERT"@, before.last + 1, owner, p, q, "AcDbMInsertBlock"@);
                lemma_entity_same("INSERT"@, before.last + 1, owner, p, q, "AcDbBlockReference"@);
            },
        }
    }
}

proof fn lemma_layer_list_same(a: Seq<Layer>, b: Seq<Layer>, n: nat)
    requires
        same_layers(a, b),
        n <= a.len(),
    ensures
        layer_list(a, n) == layer_list(b, n),
        layers12(a, n) == layers12(b, n),
    decreases n,
{
    if n > 0 {
        lemma_layer_list_same(a, b, (n - 1) as nat);
        assert(same_layer(a[n - 1], b[n - 1]));
    }
}

proof fn lemma_record_list_same(a: Seq<Block>, b: Seq<Block>, layers: int, n: nat)
    requires
        same_blocks(a, b),
        n <= 2 + a.len(),
    ensures
        record_list(a, layers, n) == record_list(b, layers, n),
    decreases n,
{
    if n > 0 {
        lemma_record_list_same(a, b, layers, (n - 1) as nat);
        if n > 2 {
            assert(same_block(a[n - 3], b[n - 3]));
        }
    }
}

proof fn lemma_sheet_same(width: int, height: int, a: Drawing, b: Drawing)
    requires
        same_drawing(a, b),
        a.ok(),
    ensures
        r2000_groups(width, height, a) == r2000_groups(width, height, b),
{
    let (layers, blocks) = (a.layers@, a.blocks@);
    lemma_layer_list_same(layers, b.layers@, layers.len());
    lemma_record_list_same(blocks, b.blocks@, layers.len() as int, 2 + blocks.len());
    assert(tables(layers, blocks) == tables(b.layers@, b.blocks@));
    let start = Sheet {
        groups: tables(layers, blocks) + crate::dxf::lines::section("BLOCKS"@),
        last: crate::dxf::sheet::tables_last(layers.len() as int, blocks.len() as int),
    };
    lemma_blocks_same(start, a, b, 2 + blocks.len());
    let blocked = with_blocks(start, a, 2 + blocks.len());
    let opened = Sheet {
        groups: blocked.groups + (crate::dxf::lines::section_end() + crate::dxf::lines::section(
            "ENTITIES"@,
        )),
        last: blocked.last,
    };
    lemma_items_same(opened, a, b, a.items@.len());
    assert(a.items@.len() == b.items@.len()) by {
        assert(item_views(a.items@).len() == item_views(b.items@).len());
    }
    assert(body(a) == body(b));
}

proof fn lemma_polyline_same(
    lines: Result<Lines, Refusal>,
    a: Seq<Layer>,
    b: Seq<Layer>,
    o: OutlineView,
    tolerance: int,
)
    requires
        same_layer(a[o.layer], b[o.layer]),
    ensures
        with_polyline(lines, a, o, tolerance) == with_polyline(lines, b, o, tolerance),
{
    if let Ok(l) = lines {
        if let Ok(flat) = crate::dxf::flatten::flat_of(o, tolerance, l.left) {
            assert(polyline_groups(a[o.layer], o.closed, flat.points) =~= polyline_groups(
                b[o.layer],
                o.closed,
                flat.points,
            ));
        }
    }
}

proof fn lemma_outline_lines_same(
    lines: Result<Lines, Refusal>,
    a: Seq<Layer>,
    b: Seq<Layer>,
    x: Seq<Outline>,
    y: Seq<Outline>,
    tolerance: int,
    n: nat,
)
    requires
        same_layers(a, b),
        outline_views(x) == outline_views(y),
        n <= x.len(),
        forall|k: int| 0 <= k < x.len() ==> (#[trigger] x[k]).layer < a.len(),
    ensures
        outline_lines(lines, a, x, tolerance, n) == outline_lines(lines, b, y, tolerance, n),
    decreases n,
{
    if n > 0 {
        lemma_outline_lines_same(lines, a, b, x, y, tolerance, (n - 1) as nat);
        assert(outline_views(x).len() == x.len() && outline_views(y).len() == y.len());
        assert(outline_views(x)[n - 1] == x[n - 1]@);
        assert(outline_views(y)[n - 1] == y[n - 1]@);
        let o = x[n - 1]@;
        assert(x[n - 1].layer < a.len());
        assert(same_layer(a[o.layer], b[o.layer]));
        lemma_polyline_same(
            outline_lines(lines, a, x, tolerance, (n - 1) as nat),
            a,
            b,
            o,
            tolerance,
        );
    }
}

proof fn lemma_block_lines_same(
    lines: Result<Lines, Refusal>,
    a: Drawing,
    b: Drawing,
    tolerance: int,
    n: nat,
)
    requires
        same_drawing(a, b),
        a.ok(),
        n <= a.blocks@.len(),
    ensures
        block_lines(lines, a, tolerance, n) == block_lines(lines, b, tolerance, n),
    decreases n,
{
    if n > 0 {
        lemma_block_lines_same(lines, a, b, tolerance, (n - 1) as nat);
        let (p, q) = (a.blocks@[n - 1], b.blocks@[n - 1]);
        assert(same_block(p, q));
        assert(crate::dxf::drawing::block_ok(p, a.layers@.len() as int));
        let (x, y) = (p.outlines@, q.outlines@);
        assert(outline_views(x).len() == x.len() && outline_views(y).len() == y.len());
        let begun = with_groups(
            block_lines(lines, a, tolerance, (n - 1) as nat),
            block_head(p.name@),
        );
        lemma_outline_lines_same(begun, a.layers@, b.layers@, x, y, tolerance, x.len());
    }
}

proof fn lemma_item_lines_same(
    lines: Result<Lines, Refusal>,
    a: Drawing,
    b: Drawing,
    tolerance: int,
    n: nat,
)
    requires
        same_drawing(a, b),
        a.ok(),
        n <= a.items@.len(),
    ensures
        item_lines(lines, a, tolerance, n) == item_lines(lines, b, tolerance, n),
    decreases n,
{
    if n > 0 {
        lemma_item_lines_same(lines, a, b, tolerance, (n - 1) as nat);
        lemma_item_same(a, b, n - 1);
        let before = item_lines(lines, a, tolerance, (n - 1) as nat);
        match a.items@[n - 1]@ {
            ItemView::Outline(o) => {
                assert(same_layer(a.layers@[o.layer], b.layers@[o.layer]));
                lemma_polyline_same(before, a.layers@, b.layers@, o, tolerance);
            },
            ItemView::Array(x) => {
                assert(same_layer(a.layers@[x.layer as int], b.layers@[x.layer as int]));
                lemma_array_same(x, a, b);
                lemma_entity_same(
                    "INSERT"@,
                    0,
                    0,
                    a.layers@[x.layer as int],
                    b.layers@[x.layer as int],
                    "AcDbBlockReference"@,
                );
            },
        }
    }
}

proof fn lemma_lines_same(width: int, height: int, a: Drawing, b: Drawing, tolerance: int)
    requires
        same_drawing(a, b),
        a.ok(),
    ensures
        r12_lines(width, height, a, tolerance) == r12_lines(width, height, b, tolerance),
{
    lemma_layer_list_same(a.layers@, b.layers@, a.layers@.len());
    let start = Ok::<Lines, Refusal>(
        Lines {
            groups: crate::dxf::lines::head12(width, height, a.layers@)
                + crate::dxf::lines::section("BLOCKS"@),
            left: crate::dxf::flatten::MAX_VERTICES as int,
        },
    );
    lemma_block_lines_same(start, a, b, tolerance, a.blocks@.len());
    let opened = with_groups(
        block_lines(start, a, tolerance, a.blocks@.len()),
        crate::dxf::lines::section_end() + crate::dxf::lines::section("ENTITIES"@),
    );
    lemma_item_lines_same(opened, a, b, tolerance, a.items@.len());
    assert(a.items@.len() == b.items@.len()) by {
        assert(item_views(a.items@).len() == item_views(b.items@).len());
    }
}

/// A page has one file of each mode: what it holds, or why there is none, is
/// the same whichever of the page's drawings it is written from.
pub proof fn law_a_page_has_one_file(page: Page, a: Drawing, b: Drawing, mode: DxfMode)
    requires
        a.ok(),
        is_drawing_of(a, page),
        is_drawing_of(b, page),
    ensures
        file_text(page, a, mode) == file_text(page, b, mode),
{
    law_a_page_has_one_drawing(page, a, b);
    let (w, h) = (page.width as int, page.height as int);
    match mode {
        DxfMode::Splines => {
            lemma_sheet_same(w, h, a, b);
        },
        DxfMode::FineLines => {
            lemma_lines_same(w, h, a, b, crate::dxf::flatten::FINE_TOLERANCE as int);
        },
        DxfMode::CoarseLines => {
            lemma_lines_same(w, h, a, b, crate::dxf::flatten::COARSE_TOLERANCE as int);
        },
    }
}

/// Two files of one page show one drawing, whatever their modes; of one mode,
/// they are the same.
pub proof fn law_two_files_of_a_page_show_one_drawing(
    page: Page,
    m: DxfMode,
    n: DxfMode,
    f: Result<Vec<u8>, String>,
    g: Result<Vec<u8>, String>,
)
    requires
        is_dxf_of(page, m, f),
        is_dxf_of(page, n, g),
    ensures
        exists|drawing: Drawing| #[trigger]
            is_drawing_of(drawing, page) && drawing.ok() && is_file_of(page, drawing, m, f)
                && is_file_of(page, drawing, n, g),
        m == n ==> match f {
            Ok(bytes) => g matches Ok(others) && others@ == bytes@,
            Err(said) => g matches Err(other) && other@ == said@,
        },
{
    let a = choose|d: Drawing| #[trigger]
        is_drawing_of(d, page) && d.ok() && is_file_of(page, d, m, f);
    let b = choose|d: Drawing| #[trigger]
        is_drawing_of(d, page) && d.ok() && is_file_of(page, d, n, g);
    law_a_page_has_one_file(page, a, b, m);
    law_a_page_has_one_file(page, a, b, n);
    assert(is_drawing_of(a, page));
}

} // verus!
