//! Which drawings are not written as lines.
use crate::dxf::drawing::{is_drawing_of, Block, Drawing, Item, ItemView, Layer};
use crate::dxf::flatten::{
    flat_from, flat_of, lemma_steps, piece_start, steps_of, Curve, Refusal, COARSE_TOLERANCE,
    FINE_TOLERANCE, MAX_VERTICES,
};
use crate::dxf::lines::{
    block_head, block_lines, head12, item_lines, outline_lines, r12_lines, section,
    section_end, with_groups, with_polyline, Lines,
};
use crate::dxf::outline::{Outline, OutlineView, Piece};
use crate::dxf::{file_text, is_dxf_of, is_file_of, DxfMode};
use crate::geometry::Page;
use vstd::prelude::*;

verus! {

/// How many vertices piece `k` of an outline adds: one for a line, a cubic's
/// chords; none where a cubic takes more chords than it may.
pub open spec fn piece_steps(outline: OutlineView, k: int, tolerance: int) -> Option<int> {
    match outline.pieces[k] {
        Piece::Line(_) => Some(1),
        Piece::Cubic(a, b, p) => steps_of(
            Curve { p0: piece_start(outline, k), p1: a, p2: b, p3: p },
            tolerance,
        ),
    }
}

/// Each of the first `n` pieces takes few enough chords.
pub open spec fn pieces_cut(outline: OutlineView, tolerance: int, n: nat) -> bool {
    forall|k: int| 0 <= k < n ==> (#[trigger] piece_steps(outline, k, tolerance)) is Some
}

/// The vertices of an outline's start and its first `n` pieces, not counting
/// a cubic that takes too many chords.
pub open spec fn piece_vertices(outline: OutlineView, tolerance: int, n: nat) -> int
    decreases n,
{
    if n == 0 {
        1
    } else {
        piece_vertices(outline, tolerance, (n - 1) as nat) + (match piece_steps(
            outline,
            n - 1,
            tolerance,
        ) {
            Some(m) => m,
            None => 0,
        })
    }
}

pub open spec fn outline_cut(outline: OutlineView, tolerance: int) -> bool {
    pieces_cut(outline, tolerance, outline.pieces.len())
}

pub open spec fn outline_vertices(outline: OutlineView, tolerance: int) -> int {
    piece_vertices(outline, tolerance, outline.pieces.len())
}

/// Each of the first `n` outlines takes few enough chords.
pub open spec fn list_cut(list: Seq<Outline>, tolerance: int, n: nat) -> bool {
    forall|k: int| 0 <= k < n ==> outline_cut((#[trigger] list[k])@, tolerance)
}

pub open spec fn list_vertices(list: Seq<Outline>, tolerance: int, n: nat) -> int
    decreases n,
{
    if n == 0 {
        0
    } else {
        list_vertices(list, tolerance, (n - 1) as nat) + outline_vertices(list[n - 1]@, tolerance)
    }
}

pub open spec fn blocks_cut(blocks: Seq<Block>, tolerance: int, n: nat) -> bool {
    forall|k: int|
        0 <= k < n ==> list_cut(
            (#[trigger] blocks[k]).outlines@,
            tolerance,
            blocks[k].outlines@.len(),
        )
}

pub open spec fn block_vertices(blocks: Seq<Block>, tolerance: int, n: nat) -> int
    decreases n,
{
    if n == 0 {
        0
    } else {
        let list = blocks[n - 1].outlines@;
        block_vertices(blocks, tolerance, (n - 1) as nat) + list_vertices(
            list,
            tolerance,
            list.len(),
        )
    }
}

pub open spec fn items_cut(items: Seq<Item>, tolerance: int, n: nat) -> bool {
    forall|k: int|
        0 <= k < n ==> ((#[trigger] items[k])@ matches ItemView::Outline(o) ==> outline_cut(
            o,
            tolerance,
        ))
}

pub open spec fn item_vertices(items: Seq<Item>, tolerance: int, n: nat) -> int
    decreases n,
{
    if n == 0 {
        0
    } else {
        item_vertices(items, tolerance, (n - 1) as nat) + (match items[n - 1]@ {
            ItemView::Outline(o) => outline_vertices(o, tolerance),
            ItemView::Array(_) => 0,
        })
    }
}

/// No cubic of the drawing takes more than `MAX_STEPS` chords.
pub open spec fn all_cut(drawing: Drawing, tolerance: int) -> bool {
    &&& blocks_cut(drawing.blocks@, tolerance, drawing.blocks@.len())
    &&& items_cut(drawing.items@, tolerance, drawing.items@.len())
}

/// How many vertices the drawing takes as lines.
pub open spec fn vertices(drawing: Drawing, tolerance: int) -> int {
    block_vertices(drawing.blocks@, tolerance, drawing.blocks@.len()) + item_vertices(
        drawing.items@,
        tolerance,
        drawing.items@.len(),
    )
}

/// What lines, or a refusal to write them, say of what was cut so far.
spec fn tells(lines: Result<Lines, Refusal>, cut: bool, spent: int) -> bool {
    match lines {
        Ok(lines) => cut && lines.left == MAX_VERTICES - spent && lines.left >= 0,
        Err(Refusal::TooLarge) => !cut,
        Err(Refusal::TooManyVertices) => spent > MAX_VERTICES,
    }
}

proof fn lemma_steps_positive(outline: OutlineView, k: int, tolerance: int)
    ensures
        piece_steps(outline, k, tolerance) matches Some(m) ==> m >= 1,
{
    if let Piece::Cubic(a, b, p) = outline.pieces[k] {
        lemma_steps(Curve { p0: piece_start(outline, k), p1: a, p2: b, p3: p }, tolerance);
    }
}

proof fn lemma_vertices_positive(outline: OutlineView, tolerance: int, n: nat)
    ensures
        piece_vertices(outline, tolerance, n) >= 1,
    decreases n,
{
    if n > 0 {
        lemma_vertices_positive(outline, tolerance, (n - 1) as nat);
        lemma_steps_positive(outline, n - 1, tolerance);
    }
}

proof fn lemma_flat(outline: OutlineView, tolerance: int, budget: int, n: nat)
    requires
        budget >= 0,
    ensures
        match flat_from(outline, tolerance, budget, n) {
            Ok(flat) => pieces_cut(outline, tolerance, n) && flat.left == budget - piece_vertices(
                outline,
                tolerance,
                n,
            ) && flat.left >= 0,
            Err(Refusal::TooLarge) => !pieces_cut(outline, tolerance, n),
            Err(Refusal::TooManyVertices) => piece_vertices(outline, tolerance, n) > budget,
        },
    decreases n,
{
    if n > 0 {
        lemma_flat(outline, tolerance, budget, (n - 1) as nat);
        lemma_steps_positive(outline, n - 1, tolerance);
        let before = flat_from(outline, tolerance, budget, (n - 1) as nat);
        if before is Err {
            if before->Err_0 is TooLarge {
                let k = choose|k: int|
                    0 <= k < n - 1 && !((#[trigger] piece_steps(outline, k, tolerance)) is Some);
                assert(piece_steps(outline, k, tolerance) is None);
            }
        } else {
            assert(flat_from(outline, tolerance, budget, n) is Ok ==> pieces_cut(
                outline,
                tolerance,
                n,
            )) by {
                assert forall|k: int|
                    0 <= k < n && flat_from(outline, tolerance, budget, n) is Ok implies (
                #[trigger] piece_steps(outline, k, tolerance)) is Some by {}
            }
            assert(piece_steps(outline, n - 1, tolerance) is None ==> !pieces_cut(
                outline,
                tolerance,
                n,
            ));
        }
    }
}

proof fn lemma_polyline(
    lines: Result<Lines, Refusal>,
    cut: bool,
    spent: int,
    layers: Seq<Layer>,
    outline: OutlineView,
    tolerance: int,
)
    requires
        tells(lines, cut, spent),
    ensures
        tells(
            with_polyline(lines, layers, outline, tolerance),
            cut && outline_cut(outline, tolerance),
            spent + outline_vertices(outline, tolerance),
        ),
{
    lemma_vertices_positive(outline, tolerance, outline.pieces.len());
    if let Ok(l) = lines {
        lemma_flat(outline, tolerance, l.left, outline.pieces.len());
        assert(flat_of(outline, tolerance, l.left) is Ok == flat_from(
            outline,
            tolerance,
            l.left,
            outline.pieces.len(),
        ) is Ok);
    }
}

proof fn lemma_list(
    lines: Result<Lines, Refusal>,
    cut: bool,
    spent: int,
    layers: Seq<Layer>,
    list: Seq<Outline>,
    tolerance: int,
    n: nat,
)
    requires
        tells(lines, cut, spent),
    ensures
        tells(
            outline_lines(lines, layers, list, tolerance, n),
            cut && list_cut(list, tolerance, n),
            spent + list_vertices(list, tolerance, n),
        ),
    decreases n,
{
    if n > 0 {
        let m = (n - 1) as nat;
        lemma_list(lines, cut, spent, layers, list, tolerance, m);
        let c = cut && list_cut(list, tolerance, m);
        lemma_polyline(
            outline_lines(lines, layers, list, tolerance, m),
            c,
            spent + list_vertices(list, tolerance, m),
            layers,
            list[n - 1]@,
            tolerance,
        );
        assert(list_cut(list, tolerance, n) == (list_cut(list, tolerance, m) && outline_cut(
            list[n - 1]@,
            tolerance,
        ))) by {
            if list_cut(list, tolerance, m) && outline_cut(list[n - 1]@, tolerance) {
                assert forall|k: int| 0 <= k < n implies outline_cut(
                    (#[trigger] list[k])@,
                    tolerance,
                ) by {}
            }
        }
    }
}

proof fn lemma_blocks(
    lines: Result<Lines, Refusal>,
    spent: int,
    drawing: Drawing,
    tolerance: int,
    n: nat,
)
    requires
        tells(lines, true, spent),
    ensures
        tells(
            block_lines(lines, drawing, tolerance, n),
            blocks_cut(drawing.blocks@, tolerance, n),
            spent + block_vertices(drawing.blocks@, tolerance, n),
        ),
    decreases n,
{
    let blocks = drawing.blocks@;
    if n > 0 {
        let m = (n - 1) as nat;
        lemma_blocks(lines, spent, drawing, tolerance, m);
        let list = blocks[n - 1].outlines@;
        lemma_list(
            with_groups(
                block_lines(lines, drawing, tolerance, m),
                block_head(blocks[n - 1].name@),
            ),
            blocks_cut(blocks, tolerance, m),
            spent + block_vertices(blocks, tolerance, m),
            drawing.layers@,
            list,
            tolerance,
            list.len(),
        );
        assert(blocks_cut(blocks, tolerance, n) == (blocks_cut(blocks, tolerance, m) && list_cut(
            list,
            tolerance,
            list.len(),
        ))) by {
            if blocks_cut(blocks, tolerance, m) && list_cut(list, tolerance, list.len()) {
                assert forall|k: int| 0 <= k < n implies list_cut(
                    (#[trigger] blocks[k]).outlines@,
                    tolerance,
                    blocks[k].outlines@.len(),
                ) by {}
            }
        }
    }
}

proof fn lemma_items(
    lines: Result<Lines, Refusal>,
    cut: bool,
    spent: int,
    drawing: Drawing,
    tolerance: int,
    n: nat,
)
    requires
        tells(lines, cut, spent),
    ensures
        tells(
            item_lines(lines, drawing, tolerance, n),
            cut && items_cut(drawing.items@, tolerance, n),
            spent + item_vertices(drawing.items@, tolerance, n),
        ),
    decreases n,
{
    let items = drawing.items@;
    if n > 0 {
        let m = (n - 1) as nat;
        lemma_items(lines, cut, spent, drawing, tolerance, m);
        let last = items[n - 1]@;
        if let ItemView::Outline(o) = last {
            lemma_polyline(
                item_lines(lines, drawing, tolerance, m),
                cut && items_cut(items, tolerance, m),
                spent + item_vertices(items, tolerance, m),
                drawing.layers@,
                o,
                tolerance,
            );
        }
        let here = last matches ItemView::Outline(o) ==> outline_cut(o, tolerance);
        assert(items_cut(items, tolerance, n) == (items_cut(items, tolerance, m) && here)) by {
            if items_cut(items, tolerance, m) && here {
                assert forall|k: int| 0 <= k < n implies ((
                #[trigger] items[k])@ matches ItemView::Outline(o) ==> outline_cut(
                    o,
                    tolerance,
                )) by {}
            }
        }
    }
}

proof fn lemma_r12_refusals(width: int, height: int, drawing: Drawing, tolerance: int)
    ensures
        match r12_lines(width, height, drawing, tolerance) {
            Ok(_) => all_cut(drawing, tolerance) && vertices(drawing, tolerance) <= MAX_VERTICES,
            Err(Refusal::TooLarge) => !all_cut(drawing, tolerance),
            Err(Refusal::TooManyVertices) => vertices(drawing, tolerance) > MAX_VERTICES,
        },
{
    let start = Ok::<Lines, Refusal>(
        Lines {
            groups: head12(width, height, drawing.layers@) + section("BLOCKS"@),
            left: MAX_VERTICES as int,
        },
    );
    assert(tells(start, true, 0));
    lemma_blocks(start, 0, drawing, tolerance, drawing.blocks@.len());
    let blocks = with_groups(
        block_lines(start, drawing, tolerance, drawing.blocks@.len()),
        section_end() + section("ENTITIES"@),
    );
    lemma_items(
        blocks,
        blocks_cut(drawing.blocks@, tolerance, drawing.blocks@.len()),
        block_vertices(drawing.blocks@, tolerance, drawing.blocks@.len()),
        drawing,
        tolerance,
        drawing.items@.len(),
    );
}

/// How far from its curve a chord may lie; a spline file has no chords.
pub open spec fn tolerance_of(mode: DxfMode) -> int {
    match mode {
        DxfMode::FineLines => FINE_TOLERANCE as int,
        _ => COARSE_TOLERANCE as int,
    }
}

/// Only a drawing out of all bounds is refused. A spline file is written
/// whatever is drawn. A line file is written exactly where no cubic takes
/// more than `MAX_STEPS` chords and the vertices are at most `MAX_VERTICES`;
/// and each refusal names its reason.
pub proof fn law_only_boundless_drawings_are_refused(page: Page, drawing: Drawing, mode: DxfMode)
    ensures
        mode is Splines ==> file_text(page, drawing, mode) is Ok,
        !(mode is Splines) ==> {
            let t = tolerance_of(mode);
            &&& file_text(page, drawing, mode) is Ok <==> all_cut(drawing, t) && vertices(
                drawing,
                t,
            ) <= MAX_VERTICES
            &&& file_text(page, drawing, mode) matches Err(e) ==> match e {
                Refusal::TooLarge => !all_cut(drawing, t),
                Refusal::TooManyVertices => vertices(drawing, t) > MAX_VERTICES,
            }
        },
{
    if !(mode is Splines) {
        lemma_r12_refusals(
            page.width as int,
            page.height as int,
            drawing,
            tolerance_of(mode),
        );
    }
}

/// Of a page that was read, the spline file is always there, and a line file
/// exactly where the page's drawing is within the bounds.
pub proof fn law_a_page_within_bounds_is_written(
    page: Page,
    mode: DxfMode,
    file: Result<Vec<u8>, String>,
)
    requires
        is_dxf_of(page, mode, file),
    ensures
        mode is Splines ==> file is Ok,
        !(mode is Splines) ==> exists|drawing: Drawing| #[trigger]
            is_drawing_of(drawing, page) && (file is Ok <==> all_cut(drawing, tolerance_of(mode))
                && vertices(drawing, tolerance_of(mode)) <= MAX_VERTICES),
{
    let drawing = choose|d: Drawing| #[trigger]
        is_drawing_of(d, page) && d.ok() && is_file_of(page, d, mode, file);
    law_only_boundless_drawings_are_refused(page, drawing, mode);
    assert(is_drawing_of(drawing, page));
}

} // verus!
