//! The parts of an R2000 file: its tables, entities and objects, and the
//! handles they carry.
use crate::dxf::drawing::{Block, Drawing, ItemView, Layer};
use crate::dxf::lines::{array_groups, extents_groups, origin, paint_groups, section, section_end};
use crate::dxf::outline::{Outline, OutlineView, Piece};
use crate::dxf::pairs::{handle, int_group, point2, point3, text, Group};
use crate::geometry::Xy;
use crate::text::decimal;
use vstd::prelude::*;

verus! {

/// Groups, and the last handle made for them.
#[verifier::ext_equal]
pub struct Sheet {
    pub groups: Seq<Group>,
    pub last: int,
}

pub open spec fn end_table() -> Seq<Group> {
    seq![text(0, "ENDTAB"@)]
}

/// A symbol table's head: its name, handle and entry count.
pub open spec fn table_groups(name: Seq<char>, own: int, entries: int) -> Seq<Group> {
    seq![
        text(0, "TABLE"@),
        text(2, name),
        handle(5, own),
        handle(330, 0),
        text(100, "AcDbSymbolTable"@),
        int_group(70, entries),
    ]
}

/// A symbol table entry's head up to its name; its handle stands under
/// `code`.
pub open spec fn entry_groups(
    code: int,
    kind: Seq<char>,
    own: int,
    owner: int,
    class: Seq<char>,
    name: Seq<char>,
) -> Seq<Group> {
    seq![
        text(0, kind),
        handle(code, own),
        handle(330, owner),
        text(100, "AcDbSymbolTableRecord"@),
        text(100, class),
        text(2, name),
        int_group(70, 0),
    ]
}

/// A linetype without dashes.
pub open spec fn linetype_groups(own: int, name: Seq<char>, described: Seq<char>) -> Seq<Group> {
    entry_groups(5, "LTYPE"@, own, 2, "AcDbLinetypeTableRecord"@, name) + seq![
        text(3, described),
        int_group(72, 65),
        int_group(73, 0),
        text(40, "0.0"@),
    ]
}

pub open spec fn linetype_table() -> Seq<Group> {
    table_groups("LTYPE"@, 2, 3) + linetype_groups(12, "ByBlock"@, ""@) + linetype_groups(
        13,
        "ByLayer"@,
        ""@,
    ) + linetype_groups(14, "Continuous"@, "Solid line"@) + end_table()
}

/// A layer with the default lineweight and the `Normal` plot style.
pub open spec fn layer_groups(own: int, name: Seq<char>, index: int) -> Seq<Group> {
    entry_groups(5, "LAYER"@, own, 3, "AcDbLayerTableRecord"@, name) + seq![
        int_group(62, index),
        text(6, "Continuous"@),
        int_group(370, -3),
        handle(390, 11),
    ]
}

/// Layer 0 and the first `n` colours' layers.
pub open spec fn layer_list(layers: Seq<Layer>, n: nat) -> Seq<Group>
    decreases n,
{
    if n == 0 {
        layer_groups(15, "0"@, 7)
    } else {
        layer_list(layers, (n - 1) as nat) + layer_groups(
            15 + n as int,
            layers[n - 1].name@,
            layers[n - 1].index as int,
        )
    }
}

pub open spec fn layer_table_groups(layers: Seq<Layer>) -> Seq<Group> {
    table_groups("LAYER"@, 3, layers.len() as int + 1) + layer_list(layers, layers.len())
        + end_table()
}

pub open spec fn style_table(own: int) -> Seq<Group> {
    table_groups("STYLE"@, 4, 1) + entry_groups(
        5,
        "STYLE"@,
        own,
        4,
        "AcDbTextStyleTableRecord"@,
        "Standard"@,
    ) + seq![
        text(40, "0.0"@),
        text(41, "1.0"@),
        text(50, "0.0"@),
        text(71, "0"@),
        text(42, "2.5"@),
        text(3, "txt"@),
        text(4, ""@),
    ] + end_table()
}

pub open spec fn application_table(own: int) -> Seq<Group> {
    table_groups("APPID"@, 7, 1) + entry_groups(
        5,
        "APPID"@,
        own,
        7,
        "AcDbRegAppTableRecord"@,
        "ACAD"@,
    ) + end_table()
}

pub open spec fn dimension_table(own: int) -> Seq<Group> {
    table_groups("DIMSTYLE"@, 8, 1) + seq![
        text(100, "AcDbDimStyleTable"@),
        int_group(71, 1),
        handle(340, own),
    ] + entry_groups(
        105,
        "DIMSTYLE"@,
        own,
        8,
        "AcDbDimStyleTableRecord"@,
        "Standard"@,
    ) + end_table()
}

pub open spec fn record_groups(own: int, name: Seq<char>) -> Seq<Group> {
    seq![
        text(0, "BLOCK_RECORD"@),
        handle(5, own),
        handle(330, 9),
        text(100, "AcDbSymbolTableRecord"@),
        text(100, "AcDbBlockTableRecord"@),
        text(2, name),
    ]
}

/// Block `k` of the file: the model and paper space, then the tiles.
pub open spec fn block_name(blocks: Seq<Block>, k: int) -> Seq<char> {
    if k == 0 {
        "*Model_Space"@
    } else if k == 1 {
        "*Paper_Space"@
    } else {
        blocks[k - 2].name@
    }
}

/// The handle of the model space's block record.
pub open spec fn model_space(layers: int) -> int {
    19 + layers
}

/// The first `n` block records.
pub open spec fn record_list(blocks: Seq<Block>, layers: int, n: nat) -> Seq<Group>
    decreases n,
{
    if n == 0 {
        Seq::empty()
    } else {
        record_list(blocks, layers, (n - 1) as nat) + record_groups(
            model_space(layers) + n - 1,
            block_name(blocks, n - 1),
        )
    }
}

pub open spec fn record_table(blocks: Seq<Block>, layers: int) -> Seq<Group> {
    table_groups("BLOCK_RECORD"@, 9, 2 + blocks.len() as int) + record_list(
        blocks,
        layers,
        2 + blocks.len(),
    ) + end_table()
}

/// An empty table.
pub open spec fn empty_table(name: Seq<char>, own: int) -> Seq<Group> {
    table_groups(name, own, 0) + end_table()
}

/// The empty classes and the nine symbol tables with their standard entries.
pub open spec fn tables(layers: Seq<Layer>, blocks: Seq<Block>) -> Seq<Group> {
    let n = layers.len() as int;
    section("CLASSES"@) + section_end() + section("TABLES"@) + empty_table("VPORT"@, 1)
        + linetype_table() + layer_table_groups(layers) + style_table(16 + n) + empty_table(
        "VIEW"@,
        5,
    ) + empty_table("UCS"@, 6) + application_table(17 + n) + dimension_table(18 + n) + record_table(
        blocks,
        n,
    ) + section_end()
}

/// The last handle the tables make.
pub open spec fn tables_last(layers: int, blocks: int) -> int {
    20 + layers + blocks
}

/// An R2000 entity's head: its kind, handle, owner, paint and class.
pub open spec fn entity_groups(
    kind: Seq<char>,
    own: int,
    owner: int,
    layer: Layer,
    class: Seq<char>,
) -> Seq<Group> {
    seq![
        text(0, kind),
        handle(5, own),
        handle(330, owner),
        text(100, "AcDbEntity"@),
    ] + paint_groups(layer, true) + seq![text(100, class)]
}

/// The first `n` points under group 10.
pub open spec fn point2_list(points: Seq<Xy>, n: nat) -> Seq<Group>
    decreases n,
{
    if n == 0 {
        Seq::empty()
    } else {
        point2_list(points, (n - 1) as nat) + point2(10, points[n - 1])
    }
}

/// What follows a polyline's head.
pub open spec fn polyline_body(points: Seq<Xy>, closed: bool) -> Seq<Group> {
    seq![
        int_group(90, points.len() as int),
        int_group(
            70,
            if closed {
                1
            } else {
                0
            },
        ),
        text(43, "0.0"@),
    ] + point2_list(points, points.len())
}

pub open spec fn knot_group(knot: int) -> Group {
    text(40, decimal(knot as nat) + ".0"@)
}

/// How often a knot repeats: four times at either end, else three.
pub open spec fn knot_repeats(knot: int, pieces: int) -> nat {
    if knot == 0 || knot == pieces {
        4
    } else {
        3
    }
}

/// The first `n` knots of a spline of `pieces` cubics.
pub open spec fn knot_list(pieces: int, n: nat) -> Seq<Group>
    decreases n,
{
    if n == 0 {
        Seq::empty()
    } else {
        knot_list(pieces, (n - 1) as nat) + Seq::new(
            knot_repeats(n - 1, pieces),
            |i: int| knot_group(n - 1),
        )
    }
}

/// The control points of the first `n` of `pieces`.
pub open spec fn control_list(pieces: Seq<Piece>, n: nat) -> Seq<Group>
    decreases n,
{
    if n == 0 {
        Seq::empty()
    } else {
        control_list(pieces, (n - 1) as nat) + (match pieces[n - 1] {
            Piece::Cubic(a, b, p) => point3(10, a) + point3(10, b) + point3(10, p),
            Piece::Line(_) => Seq::empty(),
        })
    }
}

/// What follows a spline's head: planar, not rational, not periodic, degree
/// 3, the Bezier pieces' own control points under a knot vector with
/// multiplicity 3 at interior joins and 4 at the ends.
pub open spec fn spline_body(start: Xy, pieces: Seq<Piece>) -> Seq<Group> {
    let n = pieces.len() as int;
    seq![
        text(210, "0.0"@),
        text(220, "0.0"@),
        text(230, "1.0"@),
        int_group(70, 8),
        int_group(71, 3),
        int_group(72, 3 * n + 5),
        int_group(73, 3 * n + 1),
        int_group(74, 0),
    ] + seq![text(42, "0.0000001"@), text(43, "0.0000001"@)] + knot_list(n, (n + 1) as nat)
        + point3(10, start) + control_list(pieces, pieces.len())
}

pub open spec fn is_cubic(piece: Piece) -> bool {
    piece is Cubic
}

/// Where the run of alike pieces that `k` lies in ends, looking on from `m`.
pub open spec fn run_end(pieces: Seq<Piece>, k: int, m: int) -> int
    decreases pieces.len() - m,
{
    if m >= pieces.len() || is_cubic(pieces[m]) != is_cubic(pieces[k]) {
        m
    } else {
        run_end(pieces, k, m + 1)
    }
}

pub proof fn lemma_run_end(pieces: Seq<Piece>, k: int, m: int)
    requires
        0 <= k < m <= pieces.len(),
    ensures
        m <= run_end(pieces, k, m) <= pieces.len(),
    decreases pieces.len() - m,
{
    if m < pieces.len() && is_cubic(pieces[m]) == is_cubic(pieces[k]) {
        lemma_run_end(pieces, k, m + 1);
    }
}

/// The point piece `k` starts from, in an outline from `start`.
pub open spec fn from_point(start: Xy, pieces: Seq<Piece>, k: int) -> Xy {
    if k == 0 {
        start
    } else {
        pieces[k - 1].finish()
    }
}

/// `start` and the ends of `pieces`.
pub open spec fn ends(start: Xy, pieces: Seq<Piece>) -> Seq<Xy> {
    seq![start] + pieces.map_values(|p: Piece| p.finish())
}

/// Who owns the entities of an outline, and the layer they are on.
pub struct Place {
    pub owner: int,
    pub layer: Layer,
}

/// The run of pieces `k` to `j`, as one spline or one open polyline.
pub open spec fn with_run(
    sheet: Sheet,
    place: Place,
    start: Xy,
    pieces: Seq<Piece>,
    k: int,
    j: int,
) -> Sheet {
    let these = pieces.subrange(k, j);
    let at = from_point(start, pieces, k);
    let own = sheet.last + 1;
    let groups = if is_cubic(pieces[k]) {
        entity_groups("SPLINE"@, own, place.owner, place.layer, "AcDbSpline"@) + spline_body(
            at,
            these,
        )
    } else {
        entity_groups("LWPOLYLINE"@, own, place.owner, place.layer, "AcDbPolyline"@)
            + polyline_body(ends(at, these), false)
    };
    Sheet { groups: sheet.groups + groups, last: own }
}

/// The runs of pieces from `k` on, end to end.
pub open spec fn with_runs(
    sheet: Sheet,
    place: Place,
    start: Xy,
    pieces: Seq<Piece>,
    k: int,
) -> Sheet
    decreases pieces.len() - k,
{
    if k < 0 || k >= pieces.len() {
        sheet
    } else {
        let j = run_end(pieces, k, k + 1);
        proof {
            lemma_run_end(pieces, k, k + 1);
        }
        with_runs(with_run(sheet, place, start, pieces, k, j), place, start, pieces, j)
    }
}

pub open spec fn all_lines(pieces: Seq<Piece>) -> bool {
    forall|i: int| 0 <= i < pieces.len() ==> !is_cubic(#[trigger] pieces[i])
}

/// The vertices of an outline of lines alone; a closed one's last is dropped
/// when it repeats the first.
pub open spec fn straight_points(outline: OutlineView) -> Seq<Xy> {
    let points = ends(outline.start, outline.pieces);
    if outline.closed && points.len() > 2 && points[0] == outline.finish() {
        points.drop_last()
    } else {
        points
    }
}

/// The pieces of an outline with curves, its closing edge among them.
pub open spec fn closed_pieces(outline: OutlineView) -> Seq<Piece> {
    if outline.closed && outline.finish() != outline.start {
        outline.pieces.push(Piece::Line(outline.start))
    } else {
        outline.pieces
    }
}

/// One outline as the spline mode writes it: an `LWPOLYLINE` alone when it is
/// straight throughout, else runs of cubics as `SPLINE`s and runs of lines as
/// open `LWPOLYLINE`s, end to end, a closed outline's closing edge included.
pub open spec fn with_outline(sheet: Sheet, place: Place, outline: OutlineView) -> Sheet {
    if all_lines(outline.pieces) {
        let own = sheet.last + 1;
        Sheet {
            groups: sheet.groups + (entity_groups(
                "LWPOLYLINE"@,
                own,
                place.owner,
                place.layer,
                "AcDbPolyline"@,
            ) + polyline_body(straight_points(outline), outline.closed)),
            last: own,
        }
    } else {
        with_runs(sheet, place, outline.start, closed_pieces(outline), 0)
    }
}

/// The first `n` of `list` under one owner.
pub open spec fn with_outlines(
    sheet: Sheet,
    owner: int,
    layers: Seq<Layer>,
    list: Seq<Outline>,
    n: nat,
) -> Sheet
    decreases n,
{
    if n == 0 {
        sheet
    } else {
        let outline = list[n - 1]@;
        with_outline(
            with_outlines(sheet, owner, layers, list, (n - 1) as nat),
            Place { owner, layer: layers[outline.layer] },
            outline,
        )
    }
}

/// The mark of what is on the paper space.
pub open spec fn paper_mark(paper: bool) -> Seq<Group> {
    if paper {
        seq![int_group(67, 1)]
    } else {
        Seq::empty()
    }
}

pub open spec fn block_begin(own: int, owner: int, paper: bool, name: Seq<char>) -> Seq<Group> {
    seq![
        text(0, "BLOCK"@),
        handle(5, own),
        handle(330, owner),
        text(100, "AcDbEntity"@),
    ] + paper_mark(paper) + seq![
        text(8, "0"@),
        text(100, "AcDbBlockBegin"@),
        text(2, name),
        int_group(70, 0),
    ] + point3(10, origin()) + seq![text(3, name), text(1, ""@)]
}

pub open spec fn block_end(own: int, owner: int, paper: bool) -> Seq<Group> {
    seq![
        text(0, "ENDBLK"@),
        handle(5, own),
        handle(330, owner),
        text(100, "AcDbEntity"@),
    ] + paper_mark(paper) + seq![text(8, "0"@), text(100, "AcDbBlockEnd"@)]
}

/// The outlines in block `k`: the spaces hold none of their own.
pub open spec fn block_outlines(blocks: Seq<Block>, k: int) -> Seq<Outline> {
    if k < 2 {
        Seq::empty()
    } else {
        blocks[k - 2].outlines@
    }
}

/// `sheet` with block `k`.
pub open spec fn with_block(sheet: Sheet, drawing: Drawing, k: int) -> Sheet {
    let layers = drawing.layers@;
    let owner = model_space(layers.len() as int) + k;
    let own = sheet.last + 1;
    let begun = Sheet {
        groups: sheet.groups + block_begin(
            own,
            owner,
            k == 1,
            block_name(drawing.blocks@, k),
        ),
        last: own,
    };
    let list = block_outlines(drawing.blocks@, k);
    let drawn = with_outlines(begun, owner, layers, list, list.len());
    Sheet {
        groups: drawn.groups + block_end(drawn.last + 1, owner, k == 1),
        last: drawn.last + 1,
    }
}

/// The first `n` blocks.
pub open spec fn with_blocks(sheet: Sheet, drawing: Drawing, n: nat) -> Sheet
    decreases n,
{
    if n == 0 {
        sheet
    } else {
        with_block(with_blocks(sheet, drawing, (n - 1) as nat), drawing, n - 1)
    }
}

/// `sheet` with one item of the drawing.
pub open spec fn with_item(sheet: Sheet, drawing: Drawing, item: ItemView) -> Sheet {
    let layers = drawing.layers@;
    let owner = model_space(layers.len() as int);
    match item {
        ItemView::Outline(o) => with_outline(sheet, Place { owner, layer: layers[o.layer] }, o),
        ItemView::Array(a) => {
            let own = sheet.last + 1;
            let class = if a.columns > 1 || a.rows > 1 {
                "AcDbMInsertBlock"@
            } else {
                "AcDbBlockReference"@
            };
            Sheet {
                groups: sheet.groups + (entity_groups(
                    "INSERT"@,
                    own,
                    owner,
                    layers[a.layer as int],
                    class,
                ) + array_groups(a, drawing.blocks@)),
                last: own,
            }
        },
    }
}

/// The first `n` items.
pub open spec fn with_items(sheet: Sheet, drawing: Drawing, n: nat) -> Sheet
    decreases n,
{
    if n == 0 {
        sheet
    } else {
        with_item(
            with_items(sheet, drawing, (n - 1) as nat),
            drawing,
            drawing.items@[n - 1]@,
        )
    }
}

/// A dictionary's head.
pub open spec fn dictionary(kind: Seq<char>, own: int, owner: int) -> Seq<Group> {
    seq![
        text(0, kind),
        handle(5, own),
        handle(330, owner),
        text(100, "AcDbDictionary"@),
        int_group(281, 1),
    ]
}

/// The root dictionary with its groups and plot styles, and the `Normal`
/// placeholder.
pub open spec fn objects(root: int) -> Seq<Group> {
    section("OBJECTS"@) + dictionary("DICTIONARY"@, root, 0) + seq![
        text(3, "ACAD_GROUP"@),
        handle(350, root + 1),
        text(3, "ACAD_PLOTSTYLENAME"@),
        handle(350, 10),
    ] + dictionary("DICTIONARY"@, root + 1, root) + dictionary("ACDBDICTIONARYWDFLT"@, 10, root)
        + seq![
        text(3, "Normal"@),
        handle(350, 11),
        text(100, "AcDbDictionaryWithDefault"@),
        handle(340, 11),
    ] + seq![text(0, "ACDBPLACEHOLDER"@), handle(5, 11), handle(330, 10)] + section_end() + seq![
        text(0, "EOF"@),
    ]
}

/// Everything after the header, and the last handle of the file.
pub open spec fn body(drawing: Drawing) -> Sheet {
    let (layers, blocks) = (drawing.layers@, drawing.blocks@);
    let start = Sheet {
        groups: tables(layers, blocks) + section("BLOCKS"@),
        last: tables_last(layers.len() as int, blocks.len() as int),
    };
    let blocked = with_blocks(start, drawing, 2 + blocks.len());
    let opened = Sheet {
        groups: blocked.groups + (section_end() + section("ENTITIES"@)),
        last: blocked.last,
    };
    let drawn = with_items(opened, drawing, drawing.items@.len());
    Sheet {
        groups: drawn.groups + (section_end() + objects(drawn.last + 1)),
        last: drawn.last + 2,
    }
}

/// The header: the version, the handle after the last, no unit, the extents.
pub open spec fn head(seed: int, width: int, height: int) -> Seq<Group> {
    section("HEADER"@) + seq![
        text(9, "$ACADVER"@),
        text(1, "AC1015"@),
        text(9, "$HANDSEED"@),
        handle(5, seed),
        text(9, "$INSUNITS"@),
        int_group(70, 0),
    ] + extents_groups(width, height) + section_end()
}

/// The whole R2000 file.
pub open spec fn r2000_groups(width: int, height: int, drawing: Drawing) -> Seq<Group> {
    let b = body(drawing);
    head(b.last + 1, width, height) + b.groups
}

} // verus!
