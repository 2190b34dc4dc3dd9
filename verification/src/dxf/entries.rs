//! A file's entries: every block and every item of a drawing is in it, each
//! once and in its order.
use crate::dxf::curves::{law_runs_follow_the_outline, parts_from, run_entities};
use crate::dxf::drawing::{Block, Drawing, ItemView, Layer};
use crate::dxf::flatten::{flat_of, Refusal};
use crate::dxf::lines::{
    array_groups, block_head, block_lines, block_tail, head12, item_lines, outline_lines,
    paint_groups, polyline_groups, r12_lines, section, section_end, with_groups, Lines,
};
use crate::dxf::outline::{Outline, OutlineView};
use crate::dxf::pairs::{text, Group};
use crate::dxf::sheet::{
    all_lines, block_begin, block_end, block_name, block_outlines, body, closed_pieces,
    entity_groups, model_space, objects, polyline_body, straight_points, tables, with_blocks,
    with_item, with_items, with_outline, with_outlines, Place, Sheet,
};
use vstd::prelude::*;

verus! {

/// The parts, one behind the other.
pub open spec fn joined(parts: Seq<Seq<Group>>) -> Seq<Group>
    decreases parts.len(),
{
    if parts.len() == 0 {
        Seq::empty()
    } else {
        joined(parts.drop_last()) + parts.last()
    }
}

proof fn lemma_joined_more(before: Seq<Group>, parts: Seq<Seq<Group>>, part: Seq<Group>)
    ensures
        before + joined(parts.push(part)) == before + joined(parts) + part,
{
    assert(parts.push(part).drop_last() =~= parts);
    assert(before + (joined(parts) + part) =~= before + joined(parts) + part);
}

/// `part` is a polyline through the outline cut into lines, on its layer.
pub open spec fn is_polyline(
    layers: Seq<Layer>,
    o: OutlineView,
    tolerance: int,
    part: Seq<Group>,
) -> bool {
    exists|budget: int| #[trigger]
        flat_of(o, tolerance, budget) is Ok && part == polyline_groups(
            layers[o.layer],
            o.closed,
            flat_of(o, tolerance, budget)->Ok_0.points,
        )
}

/// The outlines of `list`, one polyline each.
pub open spec fn are_polylines(
    layers: Seq<Layer>,
    list: Seq<Outline>,
    tolerance: int,
    parts: Seq<Seq<Group>>,
    n: int,
) -> bool {
    &&& parts.len() == n
    &&& forall|k: int|
        0 <= k < n ==> is_polyline(layers, (#[trigger] list[k])@, tolerance, parts[k])
}

proof fn lemma_polylines(
    so_far: Result<Lines, Refusal>,
    layers: Seq<Layer>,
    list: Seq<Outline>,
    tolerance: int,
    n: nat,
) -> (parts: Seq<Seq<Group>>)
    requires
        n <= list.len(),
        outline_lines(so_far, layers, list, tolerance, n) is Ok,
    ensures
        so_far is Ok,
        outline_lines(so_far, layers, list, tolerance, n)->Ok_0.groups == so_far->Ok_0.groups
            + joined(parts),
        are_polylines(layers, list, tolerance, parts, n as int),
    decreases n,
{
    if n == 0 {
        let groups = so_far->Ok_0.groups;
        assert(groups + Seq::<Group>::empty() =~= groups);
        Seq::empty()
    } else {
        let m = (n - 1) as nat;
        let before = outline_lines(so_far, layers, list, tolerance, m);
        let o = list[n - 1]@;
        assert(before is Ok);
        let parts = lemma_polylines(so_far, layers, list, tolerance, m);
        let flat = flat_of(o, tolerance, before->Ok_0.left)->Ok_0;
        let part = polyline_groups(layers[o.layer], o.closed, flat.points);
        lemma_joined_more(so_far->Ok_0.groups, parts, part);
        let all = parts.push(part);
        assert(is_polyline(layers, o, tolerance, part));
        assert forall|k: int| 0 <= k < n implies is_polyline(
            layers,
            (#[trigger] list[k])@,
            tolerance,
            all[k],
        ) by {
            if k < m {
                assert(all[k] == parts[k]);
            }
        }
        all
    }
}

/// `part` is an R12 block: its name, its outlines as polylines, its end.
pub open spec fn is_block12(
    layers: Seq<Layer>,
    block: Block,
    tolerance: int,
    part: Seq<Group>,
) -> bool {
    exists|inner: Seq<Seq<Group>>| #[trigger]
        are_polylines(layers, block.outlines@, tolerance, inner, block.outlines@.len() as int)
            && part == block_head(block.name@) + joined(inner) + block_tail()
}

proof fn lemma_blocks12(
    so_far: Result<Lines, Refusal>,
    drawing: Drawing,
    tolerance: int,
    n: nat,
) -> (parts: Seq<Seq<Group>>)
    requires
        n <= drawing.blocks@.len(),
        block_lines(so_far, drawing, tolerance, n) is Ok,
    ensures
        so_far is Ok,
        block_lines(so_far, drawing, tolerance, n)->Ok_0.groups == so_far->Ok_0.groups + joined(
            parts,
        ),
        parts.len() == n,
        forall|k: int|
            0 <= k < n ==> is_block12(
                drawing.layers@,
                #[trigger] drawing.blocks@[k],
                tolerance,
                parts[k],
            ),
    decreases n,
{
    if n == 0 {
        let groups = so_far->Ok_0.groups;
        assert(groups + Seq::<Group>::empty() =~= groups);
        Seq::empty()
    } else {
        let m = (n - 1) as nat;
        let before = block_lines(so_far, drawing, tolerance, m);
        let block = drawing.blocks@[n - 1];
        let list = block.outlines@;
        let head = with_groups(before, block_head(block.name@));
        assert(outline_lines(head, drawing.layers@, list, tolerance, list.len()) is Ok);
        let inner = lemma_polylines(head, drawing.layers@, list, tolerance, list.len());
        assert(before is Ok);
        let parts = lemma_blocks12(so_far, drawing, tolerance, m);
        let part = block_head(block.name@) + joined(inner) + block_tail();
        let groups = before->Ok_0.groups;
        assert(groups + block_head(block.name@) + joined(inner) + block_tail() =~= groups + part);
        lemma_joined_more(so_far->Ok_0.groups, parts, part);
        let all = parts.push(part);
        assert(is_block12(drawing.layers@, block, tolerance, part));
        assert forall|k: int| 0 <= k < n implies is_block12(
            drawing.layers@,
            #[trigger] drawing.blocks@[k],
            tolerance,
            all[k],
        ) by {
            if k < m {
                assert(all[k] == parts[k]);
            }
        }
        all
    }
}

/// `part` is what an R12 file says of an item: an outline's polyline, or the
/// insert of an array, on the item's layer.
pub open spec fn is_item12(
    drawing: Drawing,
    item: ItemView,
    tolerance: int,
    part: Seq<Group>,
) -> bool {
    match item {
        ItemView::Outline(o) => is_polyline(drawing.layers@, o, tolerance, part),
        ItemView::Array(a) => part == seq![text(0, "INSERT"@)] + paint_groups(
            drawing.layers@[a.layer as int],
            false,
        ) + array_groups(a, drawing.blocks@),
    }
}

proof fn lemma_items12(
    so_far: Result<Lines, Refusal>,
    drawing: Drawing,
    tolerance: int,
    n: nat,
) -> (parts: Seq<Seq<Group>>)
    requires
        n <= drawing.items@.len(),
        item_lines(so_far, drawing, tolerance, n) is Ok,
    ensures
        so_far is Ok,
        item_lines(so_far, drawing, tolerance, n)->Ok_0.groups == so_far->Ok_0.groups + joined(
            parts,
        ),
        parts.len() == n,
        forall|k: int|
            0 <= k < n ==> is_item12(
                drawing,
                (#[trigger] drawing.items@[k])@,
                tolerance,
                parts[k],
            ),
    decreases n,
{
    if n == 0 {
        let groups = so_far->Ok_0.groups;
        assert(groups + Seq::<Group>::empty() =~= groups);
        Seq::empty()
    } else {
        let m = (n - 1) as nat;
        let before = item_lines(so_far, drawing, tolerance, m);
        let item = drawing.items@[n - 1]@;
        assert(before is Ok);
        let parts = lemma_items12(so_far, drawing, tolerance, m);
        let part = match item {
            ItemView::Outline(o) => polyline_groups(
                drawing.layers@[o.layer],
                o.closed,
                flat_of(o, tolerance, before->Ok_0.left)->Ok_0.points,
            ),
            ItemView::Array(a) => seq![text(0, "INSERT"@)] + paint_groups(
                drawing.layers@[a.layer as int],
                false,
            ) + array_groups(a, drawing.blocks@),
        };
        assert(is_item12(drawing, item, tolerance, part));
        lemma_joined_more(so_far->Ok_0.groups, parts, part);
        let all = parts.push(part);
        assert forall|k: int| 0 <= k < n implies is_item12(
            drawing,
            (#[trigger] drawing.items@[k])@,
            tolerance,
            all[k],
        ) by {
            if k < m {
                assert(all[k] == parts[k]);
            }
        }
        all
    }
}

/// A line file holds the whole drawing: every block, in their order, in its
/// BLOCKS section, and every item, in their order, in its ENTITIES section, and
/// nothing else there.
pub proof fn law_a_line_file_holds_the_drawing(
    width: int,
    height: int,
    drawing: Drawing,
    tolerance: int,
) -> (found: (Seq<Seq<Group>>, Seq<Seq<Group>>))
    requires
        r12_lines(width, height, drawing, tolerance) is Ok,
    ensures
        ({
            let (blocks, items) = found;
            &&& r12_lines(width, height, drawing, tolerance)->Ok_0.groups == head12(
                width,
                height,
                drawing.layers@,
            ) + section("BLOCKS"@) + joined(blocks) + (section_end() + section("ENTITIES"@))
                + joined(items) + (section_end() + seq![text(0, "EOF"@)])
            &&& blocks.len() == drawing.blocks@.len()
            &&& forall|k: int|
                0 <= k < blocks.len() ==> is_block12(
                    drawing.layers@,
                    #[trigger] drawing.blocks@[k],
                    tolerance,
                    blocks[k],
                )
            &&& items.len() == drawing.items@.len()
            &&& forall|k: int|
                0 <= k < items.len() ==> is_item12(
                    drawing,
                    (#[trigger] drawing.items@[k])@,
                    tolerance,
                    items[k],
                )
        }),
{
    let start = Ok::<Lines, Refusal>(
        Lines {
            groups: head12(width, height, drawing.layers@) + section("BLOCKS"@),
            left: crate::dxf::flatten::MAX_VERTICES as int,
        },
    );
    let done = block_lines(start, drawing, tolerance, drawing.blocks@.len());
    let opened = with_groups(done, section_end() + section("ENTITIES"@));
    let drawn = item_lines(opened, drawing, tolerance, drawing.items@.len());
    assert(drawn is Ok);
    let items = lemma_items12(opened, drawing, tolerance, drawing.items@.len());
    assert(done is Ok);
    let blocks = lemma_blocks12(start, drawing, tolerance, drawing.blocks@.len());
    (blocks, items)
}

/// `part` is what a spline file says of an outline, under `owner`: a polyline
/// alone where it is straight, else its runs of lines and cubics end to end.
pub open spec fn is_drawn(place: Place, o: OutlineView, part: Seq<Group>) -> bool {
    if all_lines(o.pieces) {
        exists|own: int|
            part == #[trigger] entity_groups(
                "LWPOLYLINE"@,
                own,
                place.owner,
                place.layer,
                "AcDbPolyline"@,
            ) + polyline_body(straight_points(o), o.closed)
    } else {
        exists|list: Seq<(int, int)>, own: int|
            parts_from(list, closed_pieces(o), 0) && part == #[trigger] run_entities(
                place,
                o.start,
                closed_pieces(o),
                list,
                own,
            )
    }
}

proof fn lemma_drawn(sheet: Sheet, place: Place, o: OutlineView) -> (part: Seq<Group>)
    ensures
        with_outline(sheet, place, o).groups == sheet.groups + part,
        is_drawn(place, o, part),
{
    let own = sheet.last + 1;
    if all_lines(o.pieces) {
        let entity = entity_groups(
            "LWPOLYLINE"@,
            own,
            place.owner,
            place.layer,
            "AcDbPolyline"@,
        );
        entity + polyline_body(straight_points(o), o.closed)
    } else {
        let list = law_runs_follow_the_outline(sheet, place, o.start, closed_pieces(o), 0);
        run_entities(place, o.start, closed_pieces(o), list, own)
    }
}

/// The outlines of `list`, drawn one behind the other under `owner`.
pub open spec fn are_drawn(
    owner: int,
    layers: Seq<Layer>,
    list: Seq<Outline>,
    parts: Seq<Seq<Group>>,
    n: int,
) -> bool {
    &&& parts.len() == n
    &&& forall|k: int|
        0 <= k < n ==> is_drawn(
            Place { owner, layer: layers[(#[trigger] list[k])@.layer] },
            list[k]@,
            parts[k],
        )
}

proof fn lemma_drawn_list(
    sheet: Sheet,
    owner: int,
    layers: Seq<Layer>,
    list: Seq<Outline>,
    n: nat,
) -> (parts: Seq<Seq<Group>>)
    requires
        n <= list.len(),
    ensures
        with_outlines(sheet, owner, layers, list, n).groups == sheet.groups + joined(parts),
        are_drawn(owner, layers, list, parts, n as int),
    decreases n,
{
    if n == 0 {
        assert(sheet.groups + Seq::<Group>::empty() =~= sheet.groups);
        Seq::empty()
    } else {
        let m = (n - 1) as nat;
        let before = with_outlines(sheet, owner, layers, list, m);
        let parts = lemma_drawn_list(sheet, owner, layers, list, m);
        let o = list[n - 1]@;
        let place = Place { owner, layer: layers[o.layer] };
        let part = lemma_drawn(before, place, o);
        lemma_joined_more(sheet.groups, parts, part);
        let all = parts.push(part);
        assert forall|k: int| 0 <= k < n implies is_drawn(
            Place { owner, layer: layers[(#[trigger] list[k])@.layer] },
            list[k]@,
            all[k],
        ) by {
            if k < m {
                assert(all[k] == parts[k]);
            }
        }
        all
    }
}

/// `part` is block `k` of a spline file: the spaces, which hold nothing of
/// their own, then the drawing's blocks with their outlines.
pub open spec fn is_block(drawing: Drawing, k: int, part: Seq<Group>) -> bool {
    exists|inner: Seq<Seq<Group>>, first: int, last: int| #[trigger]
        block_between(drawing, k, part, inner, first, last)
}

pub open spec fn block_between(
    drawing: Drawing,
    k: int,
    part: Seq<Group>,
    inner: Seq<Seq<Group>>,
    first: int,
    last: int,
) -> bool {
    let owner = model_space(drawing.layers@.len() as int) + k;
    let list = if k < 2 {
        Seq::empty()
    } else {
        drawing.blocks@[k - 2].outlines@
    };
    &&& are_drawn(owner, drawing.layers@, list, inner, list.len() as int)
    &&& part == block_begin(first, owner, k == 1, block_name(drawing.blocks@, k)) + joined(inner)
        + block_end(last, owner, k == 1)
}

proof fn lemma_blocks(sheet: Sheet, drawing: Drawing, n: nat) -> (parts: Seq<Seq<Group>>)
    ensures
        with_blocks(sheet, drawing, n).groups == sheet.groups + joined(parts),
        parts.len() == n,
        forall|k: int| 0 <= k < n ==> is_block(drawing, k, #[trigger] parts[k]),
    decreases n,
{
    if n == 0 {
        assert(sheet.groups + Seq::<Group>::empty() =~= sheet.groups);
        Seq::empty()
    } else {
        let k = n - 1;
        let before = with_blocks(sheet, drawing, k as nat);
        let parts = lemma_blocks(sheet, drawing, k as nat);
        let owner = model_space(drawing.layers@.len() as int) + k;
        let own = before.last + 1;
        let begin = block_begin(own, owner, k == 1, block_name(drawing.blocks@, k));
        let begun = Sheet { groups: before.groups + begin, last: own };
        let list = block_outlines(drawing.blocks@, k);
        let drawn = with_outlines(begun, owner, drawing.layers@, list, list.len());
        let inner = lemma_drawn_list(begun, owner, drawing.layers@, list, list.len());
        let end = block_end(drawn.last + 1, owner, k == 1);
        let part = begin + joined(inner) + end;
        assert(before.groups + begin + joined(inner) + end =~= before.groups + part);
        assert(block_between(drawing, k, part, inner, own, drawn.last + 1));
        lemma_joined_more(sheet.groups, parts, part);
        parts.push(part)
    }
}

/// `part` is what a spline file says of an item: an outline, or the insert of
/// an array, on the item's layer and in the model space.
pub open spec fn is_item(drawing: Drawing, item: ItemView, part: Seq<Group>) -> bool {
    let owner = model_space(drawing.layers@.len() as int);
    match item {
        ItemView::Outline(o) => is_drawn(Place { owner, layer: drawing.layers@[o.layer] }, o, part),
        ItemView::Array(a) => exists|own: int, class: Seq<char>|
            part == #[trigger] entity_groups(
                "INSERT"@,
                own,
                owner,
                drawing.layers@[a.layer as int],
                class,
            ) + array_groups(a, drawing.blocks@),
    }
}

proof fn lemma_items(sheet: Sheet, drawing: Drawing, n: nat) -> (parts: Seq<Seq<Group>>)
    requires
        n <= drawing.items@.len(),
    ensures
        with_items(sheet, drawing, n).groups == sheet.groups + joined(parts),
        parts.len() == n,
        forall|k: int|
            0 <= k < n ==> is_item(drawing, (#[trigger] drawing.items@[k])@, parts[k]),
    decreases n,
{
    if n == 0 {
        assert(sheet.groups + Seq::<Group>::empty() =~= sheet.groups);
        Seq::empty()
    } else {
        let m = (n - 1) as nat;
        let before = with_items(sheet, drawing, m);
        let parts = lemma_items(sheet, drawing, m);
        let item = drawing.items@[n - 1]@;
        let part = lemma_item(before, drawing, item);
        lemma_joined_more(sheet.groups, parts, part);
        let all = parts.push(part);
        assert forall|k: int| 0 <= k < n implies is_item(
            drawing,
            (#[trigger] drawing.items@[k])@,
            all[k],
        ) by {
            if k < m {
                assert(all[k] == parts[k]);
            }
        }
        all
    }
}

proof fn lemma_item(sheet: Sheet, drawing: Drawing, item: ItemView) -> (part: Seq<Group>)
    ensures
        with_item(sheet, drawing, item).groups == sheet.groups + part,
        is_item(drawing, item, part),
{
    let owner = model_space(drawing.layers@.len() as int);
    match item {
        ItemView::Outline(o) => lemma_drawn(
            sheet,
            Place { owner, layer: drawing.layers@[o.layer] },
            o,
        ),
        ItemView::Array(a) => {
            let class = if a.columns > 1 || a.rows > 1 {
                "AcDbMInsertBlock"@
            } else {
                "AcDbBlockReference"@
            };
            let entity = entity_groups(
                "INSERT"@,
                sheet.last + 1,
                owner,
                drawing.layers@[a.layer as int],
                class,
            );
            entity + array_groups(a, drawing.blocks@)
        },
    }
}

/// A spline file holds the whole drawing: behind its tables the two spaces and
/// every block, in their order, and every item, in their order, and nothing
/// else there.
pub proof fn law_a_spline_file_holds_the_drawing(drawing: Drawing) -> (found: (
    Seq<Seq<Group>>,
    Seq<Seq<Group>>,
    int,
))
    ensures
        ({
            let (blocks, items, root) = found;
            &&& body(drawing).groups == tables(drawing.layers@, drawing.blocks@) + section(
                "BLOCKS"@,
            ) + joined(blocks) + (section_end() + section("ENTITIES"@)) + joined(items) + (
            section_end() + objects(root))
            &&& blocks.len() == 2 + drawing.blocks@.len()
            &&& forall|k: int| 0 <= k < blocks.len() ==> is_block(drawing, k, #[trigger] blocks[k])
            &&& items.len() == drawing.items@.len()
            &&& forall|k: int|
                0 <= k < items.len() ==> is_item(
                    drawing,
                    (#[trigger] drawing.items@[k])@,
                    items[k],
                )
        }),
{
    let (layers, list) = (drawing.layers@, drawing.blocks@);
    let start = Sheet {
        groups: tables(layers, list) + section("BLOCKS"@),
        last: crate::dxf::sheet::tables_last(layers.len() as int, list.len() as int),
    };
    let blocked = with_blocks(start, drawing, 2 + list.len());
    let blocks = lemma_blocks(start, drawing, 2 + list.len());
    let opened = Sheet {
        groups: blocked.groups + (section_end() + section("ENTITIES"@)),
        last: blocked.last,
    };
    let drawn = with_items(opened, drawing, drawing.items@.len());
    let items = lemma_items(opened, drawing, drawing.items@.len());
    (blocks, items, drawn.last + 1)
}

} // verus!
