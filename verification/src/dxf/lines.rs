//! The R12 file of the line modes: every outline a `POLYLINE` with its
//! `VERTEX`es and `SEQEND`, the oldest and most widely read form, which needs
//! no handles or object tree.
use crate::dxf::drawing::{block_ok, item_ok, Array, Block, Drawing, Item, ItemView, Layer};
use crate::dxf::flatten::{
    flat_of, flattened, Refusal, COARSE_TOLERANCE, MAX_VERTICES,
};
use crate::dxf::outline::{drawn_ok, Outline, OutlineView};
use crate::dxf::pairs::{coordinate, int_group, point2, point3, render, text, Dxf, Group};
use crate::geometry::{Page, Xy};
use vstd::prelude::*;

verus! {

pub open spec fn origin() -> Xy {
    Xy { x: 0, y: 0 }
}

/// The layer and colours every entity carries: the exact colour too when the
/// version has a code for it.
pub open spec fn paint_groups(layer: Layer, true_colour: bool) -> Seq<Group> {
    let both = seq![text(8, layer.name@), int_group(62, layer.index as int)];
    if true_colour {
        both.push(int_group(420, layer.colour as int))
    } else {
        both
    }
}

/// An `INSERT`'s block, place and array after its head; a count of one and
/// its spacing are left to their defaults.
pub open spec fn array_groups(array: Array, blocks: Seq<Block>) -> Seq<Group> {
    let place = seq![text(2, blocks[array.block as int].name@)] + point3(10, array.at);
    let columns = if array.columns > 1 {
        seq![int_group(70, array.columns as int)]
    } else {
        Seq::empty()
    };
    let rows = if array.rows > 1 {
        seq![int_group(71, array.rows as int)]
    } else {
        Seq::empty()
    };
    let across = if array.columns > 1 {
        seq![coordinate(44, array.step.x as int)]
    } else {
        Seq::empty()
    };
    let down = if array.rows > 1 {
        seq![coordinate(45, array.step.y as int)]
    } else {
        Seq::empty()
    };
    place + columns + rows + across + down
}

/// The header's extents: the page, y up.
pub open spec fn extents_groups(width: int, height: int) -> Seq<Group> {
    let corner = Xy { x: width as i64, y: height as i64 };
    seq![text(9, "$INSBASE"@)] + point3(10, origin()) + seq![text(9, "$EXTMIN"@)] + point3(
        10,
        origin(),
    ) + seq![text(9, "$EXTMAX"@)] + point3(10, corner) + seq![text(9, "$LIMMIN"@)] + point2(
        10,
        origin(),
    ) + seq![text(9, "$LIMMAX"@)] + point2(10, corner)
}

impl Dxf {
    /// The layer and colours every entity carries: the exact colour too when
    /// the version has a code for it.
    pub fn paint(&mut self, layer: &Layer, true_colour: bool)
        requires
            old(self).wf(),
        ensures
            final(self).wf(),
            final(self).groups@ == old(self).groups@ + paint_groups(*layer, true_colour),
    {
        self.pair(8, layer.name.as_str());
        self.pair_count(62, layer.index as usize);
        if true_colour {
            self.pair_int(420, layer.colour as i64);
        }
        assert(self.groups@ =~= old(self).groups@ + paint_groups(*layer, true_colour));
    }

    /// An `INSERT`'s block, place and array after its head; a count of one
    /// and its spacing are left to their defaults.
    pub fn array(&mut self, array: &Array, blocks: &Vec<Block>)
        requires
            old(self).wf(),
            array.block < blocks@.len(),
            drawn_ok(array.at),
            drawn_ok(array.step),
        ensures
            final(self).wf(),
            final(self).groups@ == old(self).groups@ + array_groups(*array, blocks@),
    {
        self.pair(2, blocks[array.block].name.as_str());
        self.xyz(10, array.at);
        if array.columns > 1 {
            self.pair_count(70, array.columns);
        }
        if array.rows > 1 {
            self.pair_count(71, array.rows);
        }
        if array.columns > 1 {
            self.pair_number(44, array.step.x);
        }
        if array.rows > 1 {
            self.pair_number(45, array.step.y);
        }
        assert(self.groups@ =~= old(self).groups@ + array_groups(*array, blocks@));
    }
}

/// The header's extents: the page, y up.
pub fn extents(dxf: &mut Dxf, page: &Page)
    requires
        old(dxf).wf(),
        page.ok(),
    ensures
        final(dxf).wf(),
        final(dxf).groups@ == old(dxf).groups@ + extents_groups(
            page.width as int,
            page.height as int,
        ),
{
    let zero = Xy { x: 0, y: 0 };
    let corner = Xy { x: page.width, y: page.height };
    dxf.pair(9, "$INSBASE");
    dxf.xyz(10, zero);
    dxf.pair(9, "$EXTMIN");
    dxf.xyz(10, zero);
    dxf.pair(9, "$EXTMAX");
    dxf.xyz(10, corner);
    dxf.pair(9, "$LIMMIN");
    dxf.xy(10, zero);
    dxf.pair(9, "$LIMMAX");
    dxf.xy(10, corner);
    assert(dxf.groups@ =~= old(dxf).groups@ + extents_groups(
        page.width as int,
        page.height as int,
    ));
}

/// The first `n` vertices of a polyline.
pub open spec fn vertex_groups(name: Seq<char>, points: Seq<Xy>, n: nat) -> Seq<Group>
    decreases n,
{
    if n == 0 {
        Seq::empty()
    } else {
        vertex_groups(name, points, (n - 1) as nat) + (seq![text(0, "VERTEX"@), text(8, name)]
            + point3(10, points[n - 1]))
    }
}

/// One outline as an R12 `POLYLINE`; a single point draws nothing.
pub open spec fn polyline_groups(layer: Layer, closed: bool, points: Seq<Xy>) -> Seq<Group> {
    if points.len() < 2 {
        Seq::empty()
    } else {
        seq![text(0, "POLYLINE"@)] + paint_groups(layer, false) + seq![int_group(66, 1)] + point3(
            10,
            origin(),
        ) + seq![
            int_group(
                70,
                if closed {
                    1
                } else {
                    0
                },
            ),
        ] + vertex_groups(layer.name@, points, points.len()) + seq![
            text(0, "SEQEND"@),
            text(8, layer.name@),
        ]
    }
}

/// Groups, and how many vertices the file may still take after them.
#[verifier::ext_equal]
pub struct Lines {
    pub groups: Seq<Group>,
    pub left: int,
}

/// `so_far` with one more outline.
pub open spec fn with_polyline(
    so_far: Result<Lines, Refusal>,
    layers: Seq<Layer>,
    outline: OutlineView,
    tolerance: int,
) -> Result<Lines, Refusal> {
    match so_far {
        Err(e) => Err(e),
        Ok(lines) => match flat_of(outline, tolerance, lines.left) {
            Err(e) => Err(e),
            Ok(flat) => Ok(
                Lines {
                    groups: lines.groups + polyline_groups(
                        layers[outline.layer],
                        outline.closed,
                        flat.points,
                    ),
                    left: flat.left,
                },
            ),
        },
    }
}

/// `so_far` with more groups.
pub open spec fn with_groups(so_far: Result<Lines, Refusal>, groups: Seq<Group>) -> Result<
    Lines,
    Refusal,
> {
    match so_far {
        Err(e) => Err(e),
        Ok(lines) => Ok(Lines { groups: lines.groups + groups, left: lines.left }),
    }
}

/// The first `n` of `list`, one after the other.
pub open spec fn outline_lines(
    so_far: Result<Lines, Refusal>,
    layers: Seq<Layer>,
    list: Seq<Outline>,
    tolerance: int,
    n: nat,
) -> Result<Lines, Refusal>
    decreases n,
{
    if n == 0 {
        so_far
    } else {
        with_polyline(
            outline_lines(so_far, layers, list, tolerance, (n - 1) as nat),
            layers,
            list[n - 1]@,
            tolerance,
        )
    }
}

pub open spec fn block_head(name: Seq<char>) -> Seq<Group> {
    seq![text(0, "BLOCK"@), text(8, "0"@), text(2, name), int_group(70, 0)] + point3(
        10,
        origin(),
    ) + seq![text(3, name)]
}

pub open spec fn block_tail() -> Seq<Group> {
    seq![text(0, "ENDBLK"@), text(8, "0"@)]
}

/// The first `n` blocks.
pub open spec fn block_lines(
    so_far: Result<Lines, Refusal>,
    drawing: Drawing,
    tolerance: int,
    n: nat,
) -> Result<Lines, Refusal>
    decreases n,
{
    if n == 0 {
        so_far
    } else {
        let before = block_lines(so_far, drawing, tolerance, (n - 1) as nat);
        let block = drawing.blocks@[n - 1];
        let list = block.outlines@;
        with_groups(
            outline_lines(
                with_groups(before, block_head(block.name@)),
                drawing.layers@,
                list,
                tolerance,
                list.len(),
            ),
            block_tail(),
        )
    }
}

/// The layer of an item.
pub open spec fn item_layer(item: ItemView) -> int {
    match item {
        ItemView::Outline(o) => o.layer,
        ItemView::Array(a) => a.layer as int,
    }
}

/// `so_far` with one item more: an outline as a polyline, an array as an
/// insert.
pub open spec fn with_item_lines(
    so_far: Result<Lines, Refusal>,
    drawing: Drawing,
    tolerance: int,
    item: ItemView,
) -> Result<Lines, Refusal> {
    match item {
        ItemView::Outline(o) => with_polyline(so_far, drawing.layers@, o, tolerance),
        ItemView::Array(a) => with_groups(
            so_far,
            seq![text(0, "INSERT"@)] + paint_groups(drawing.layers@[a.layer as int], false)
                + array_groups(a, drawing.blocks@),
        ),
    }
}

/// The first `n` items.
pub open spec fn item_lines(
    so_far: Result<Lines, Refusal>,
    drawing: Drawing,
    tolerance: int,
    n: nat,
) -> Result<Lines, Refusal>
    decreases n,
{
    if n == 0 {
        so_far
    } else {
        with_item_lines(
            item_lines(so_far, drawing, tolerance, (n - 1) as nat),
            drawing,
            tolerance,
            drawing.items@[n - 1]@,
        )
    }
}

/// A layer of the R12 layer table.
pub open spec fn layer12(name: Seq<char>, index: int) -> Seq<Group> {
    seq![
        text(0, "LAYER"@),
        text(2, name),
        int_group(70, 0),
        int_group(62, index),
        text(6, "CONTINUOUS"@),
    ]
}

/// Layer 0 and the first `n` colours' layers.
pub open spec fn layers12(layers: Seq<Layer>, n: nat) -> Seq<Group>
    decreases n,
{
    if n == 0 {
        layer12("0"@, 7)
    } else {
        layers12(layers, (n - 1) as nat) + layer12(
            layers[n - 1].name@,
            layers[n - 1].index as int,
        )
    }
}

/// The header of an R12 file.
pub open spec fn header12(width: int, height: int) -> Seq<Group> {
    section("HEADER"@) + seq![text(9, "$ACADVER"@), text(1, "AC1009"@)] + extents_groups(
        width,
        height,
    ) + section_end()
}

/// The linetypes of an R12 file: solid lines alone.
pub open spec fn linetypes12() -> Seq<Group> {
    seq![
        text(0, "TABLE"@),
        text(2, "LTYPE"@),
        int_group(70, 1),
        text(0, "LTYPE"@),
        text(2, "CONTINUOUS"@),
        int_group(70, 0),
    ] + seq![
        text(3, "Solid line"@),
        int_group(72, 65),
        int_group(73, 0),
        text(40, "0.0"@),
        text(0, "ENDTAB"@),
    ]
}

/// The layer table of an R12 file.
pub open spec fn layer_table12(layers: Seq<Layer>) -> Seq<Group> {
    seq![text(0, "TABLE"@), text(2, "LAYER"@), int_group(70, layers.len() as int + 1)] + layers12(
        layers,
        layers.len(),
    ) + seq![text(0, "ENDTAB"@)]
}

/// The header and tables of an R12 file.
pub open spec fn head12(width: int, height: int, layers: Seq<Layer>) -> Seq<Group> {
    header12(width, height) + section("TABLES"@) + linetypes12() + layer_table12(layers)
        + section_end()
}

pub open spec fn section(name: Seq<char>) -> Seq<Group> {
    seq![text(0, "SECTION"@), text(2, name)]
}

pub open spec fn section_end() -> Seq<Group> {
    seq![text(0, "ENDSEC"@)]
}

/// The whole R12 file: header and tables, the blocks, the entities.
pub open spec fn r12_lines(width: int, height: int, drawing: Drawing, tolerance: int) -> Result<
    Lines,
    Refusal,
> {
    let start = Ok(
        Lines {
            groups: head12(width, height, drawing.layers@) + section("BLOCKS"@),
            left: MAX_VERTICES as int,
        },
    );
    let blocks = with_groups(
        block_lines(start, drawing, tolerance, drawing.blocks@.len()),
        section_end() + section("ENTITIES"@),
    );
    with_groups(
        item_lines(blocks, drawing, tolerance, drawing.items@.len()),
        section_end() + seq![text(0, "EOF"@)],
    )
}

/// One outline as an R12 `POLYLINE` within `tolerance` of its curves.
fn polyline12(
    dxf: &mut Dxf,
    layers: &Vec<Layer>,
    outline: &Outline,
    tolerance: u64,
    budget: &mut usize,
) -> (done: Result<(), Refusal>)
    requires
        old(dxf).wf(),
        outline@.ok(),
        outline.layer < layers@.len(),
        0 < tolerance <= COARSE_TOLERANCE,
    ensures
        ({
            let so_far = Ok::<Lines, Refusal>(
                Lines { groups: old(dxf).groups@, left: *old(budget) as int },
            );
            match with_polyline(so_far, layers@, outline@, tolerance as int) {
                Ok(lines) => done is Ok && final(dxf).wf() && final(dxf).groups@ == lines.groups
                    && *final(budget) == lines.left,
                Err(e) => done == Err::<(), Refusal>(e),
            }
        }),
{
    let points = match flattened(outline, tolerance, budget) {
        Ok(points) => points,
        Err(e) => {
            return Err(e);
        },
    };
    let layer = &layers[outline.layer];
    if points.len() < 2 {
        assert(dxf.groups@ + Seq::<Group>::empty() =~= dxf.groups@);
        return Ok(());
    }
    let ghost before = dxf.groups@;
    dxf.pair(0, "POLYLINE");
    dxf.paint(layer, false);
    dxf.pair_int(66, 1);
    dxf.xyz(10, Xy { x: 0, y: 0 });
    dxf.pair_int(
        70,
        if outline.closed {
            1
        } else {
            0
        },
    );
    let ghost head = dxf.groups@;
    let mut k: usize = 0;
    assert(dxf.groups@ =~= head + vertex_groups(layer.name@, points@, 0));
    while k < points.len()
        invariant
            k <= points@.len(),
            dxf.wf(),
            forall|i: int| 0 <= i < points@.len() ==> drawn_ok(#[trigger] points@[i]),
            dxf.groups@ == head + vertex_groups(layer.name@, points@, k as nat),
        decreases points@.len() - k,
    {
        let ghost so_far = dxf.groups@;
        assert(drawn_ok(points@[k as int]));
        dxf.pair(0, "VERTEX");
        dxf.pair(8, layer.name.as_str());
        dxf.xyz(10, points[k]);
        assert(dxf.groups@ =~= head + vertex_groups(layer.name@, points@, (k + 1) as nat));
        k = k + 1;
    }
    dxf.pair(0, "SEQEND");
    dxf.pair(8, layer.name.as_str());
    assert(dxf.groups@ =~= before + polyline_groups(*layer, outline.closed, points@));
    Ok(())
}

/// Starts the section `name`.
pub fn start_section(dxf: &mut Dxf, name: &str)
    requires
        old(dxf).wf(),
    ensures
        final(dxf).wf(),
        final(dxf).groups@ == old(dxf).groups@ + section(name@),
{
    dxf.pair(0, "SECTION");
    dxf.pair(2, name);
    assert(dxf.groups@ =~= old(dxf).groups@ + section(name@));
}

pub fn end_section(dxf: &mut Dxf)
    requires
        old(dxf).wf(),
    ensures
        final(dxf).wf(),
        final(dxf).groups@ == old(dxf).groups@ + section_end(),
{
    dxf.pair(0, "ENDSEC");
    assert(dxf.groups@ =~= old(dxf).groups@ + section_end());
}

fn header(dxf: &mut Dxf, page: &Page)
    requires
        old(dxf).wf(),
        page.ok(),
    ensures
        final(dxf).wf(),
        final(dxf).groups@ == old(dxf).groups@ + header12(page.width as int, page.height as int),
{
    start_section(dxf, "HEADER");
    dxf.pair(9, "$ACADVER");
    dxf.pair(1, "AC1009");
    extents(dxf, page);
    end_section(dxf);
    assert(dxf.groups@ =~= old(dxf).groups@ + header12(page.width as int, page.height as int));
}

fn linetypes(dxf: &mut Dxf)
    requires
        old(dxf).wf(),
    ensures
        final(dxf).wf(),
        final(dxf).groups@ == old(dxf).groups@ + linetypes12(),
{
    dxf.pair(0, "TABLE");
    dxf.pair(2, "LTYPE");
    dxf.pair_int(70, 1);
    dxf.pair(0, "LTYPE");
    dxf.pair(2, "CONTINUOUS");
    dxf.pair_int(70, 0);
    dxf.pair(3, "Solid line");
    dxf.pair_int(72, 65);
    dxf.pair_int(73, 0);
    dxf.pair(40, "0.0");
    dxf.pair(0, "ENDTAB");
    assert(dxf.groups@ =~= old(dxf).groups@ + linetypes12());
}

fn layer_entry(dxf: &mut Dxf, name: &str, index: u8)
    requires
        old(dxf).wf(),
    ensures
        final(dxf).wf(),
        final(dxf).groups@ == old(dxf).groups@ + layer12(name@, index as int),
{
    dxf.pair(0, "LAYER");
    dxf.pair(2, name);
    dxf.pair_int(70, 0);
    dxf.pair_count(62, index as usize);
    dxf.pair(6, "CONTINUOUS");
    assert(dxf.groups@ =~= old(dxf).groups@ + layer12(name@, index as int));
}

fn layer_table(dxf: &mut Dxf, layers: &Vec<Layer>)
    requires
        old(dxf).wf(),
    ensures
        final(dxf).wf(),
        final(dxf).groups@ == old(dxf).groups@ + layer_table12(layers@),
{
    dxf.pair(0, "TABLE");
    dxf.pair(2, "LAYER");
    dxf.pair_wide(70, layers.len() as u128 + 1);
    let ghost tables = dxf.groups@;
    layer_entry(dxf, "0", 7);
    let mut k: usize = 0;
    while k < layers.len()
        invariant
            k <= layers@.len(),
            dxf.wf(),
            dxf.groups@ == tables + layers12(layers@, k as nat),
        decreases layers@.len() - k,
    {
        let layer = &layers[k];
        layer_entry(dxf, layer.name.as_str(), layer.index);
        assert(dxf.groups@ =~= tables + layers12(layers@, (k + 1) as nat));
        k = k + 1;
    }
    dxf.pair(0, "ENDTAB");
    assert(dxf.groups@ =~= old(dxf).groups@ + layer_table12(layers@));
}

/// What has been written so far.
spec fn lines_of(dxf: Dxf, budget: usize) -> Result<Lines, Refusal> {
    Ok(Lines { groups: dxf.groups@, left: budget as int })
}

proof fn lemma_outlines_stop(
    so_far: Result<Lines, Refusal>,
    layers: Seq<Layer>,
    list: Seq<Outline>,
    tolerance: int,
    n: nat,
    m: nat,
)
    requires
        n <= m,
        outline_lines(so_far, layers, list, tolerance, n) is Err,
    ensures
        outline_lines(so_far, layers, list, tolerance, m) == outline_lines(
            so_far,
            layers,
            list,
            tolerance,
            n,
        ),
    decreases m,
{
    if n < m {
        lemma_outlines_stop(so_far, layers, list, tolerance, n, (m - 1) as nat);
    }
}

proof fn lemma_blocks_stop(
    so_far: Result<Lines, Refusal>,
    drawing: Drawing,
    tolerance: int,
    n: nat,
    m: nat,
)
    requires
        n <= m,
        block_lines(so_far, drawing, tolerance, n) is Err,
    ensures
        block_lines(so_far, drawing, tolerance, m) == block_lines(so_far, drawing, tolerance, n),
    decreases m,
{
    if n < m {
        lemma_blocks_stop(so_far, drawing, tolerance, n, (m - 1) as nat);
        let block = drawing.blocks@[m - 1];
        let before = with_groups(
            block_lines(so_far, drawing, tolerance, (m - 1) as nat),
            block_head(block.name@),
        );
        lemma_outlines_stop(
            before,
            drawing.layers@,
            block.outlines@,
            tolerance,
            0,
            block.outlines@.len(),
        );
    }
}

proof fn lemma_items_stop(
    so_far: Result<Lines, Refusal>,
    drawing: Drawing,
    tolerance: int,
    n: nat,
    m: nat,
)
    requires
        n <= m,
        item_lines(so_far, drawing, tolerance, n) is Err,
    ensures
        item_lines(so_far, drawing, tolerance, m) == item_lines(so_far, drawing, tolerance, n),
    decreases m,
{
    if n < m {
        lemma_items_stop(so_far, drawing, tolerance, n, (m - 1) as nat);
    }
}

/// One block: its head, its outlines, its end.
fn block12(
    dxf: &mut Dxf,
    layers: &Vec<Layer>,
    block: &Block,
    tolerance: u64,
    budget: &mut usize,
) -> (done: Result<(), Refusal>)
    requires
        old(dxf).wf(),
        block_ok(*block, layers@.len() as int),
        0 < tolerance <= COARSE_TOLERANCE,
    ensures
        ({
            let list = block.outlines@;
            let so_far = lines_of(*old(dxf), *old(budget));
            match with_groups(
                outline_lines(
                    with_groups(so_far, block_head(block.name@)),
                    layers@,
                    list,
                    tolerance as int,
                    list.len(),
                ),
                block_tail(),
            ) {
                Ok(lines) => done is Ok && final(dxf).wf() && lines_of(
                    *final(dxf),
                    *final(budget),
                ) == Ok::<Lines, Refusal>(lines),
                Err(e) => done == Err::<(), Refusal>(e),
            }
        }),
{
    let ghost so_far = lines_of(*dxf, *budget);
    dxf.pair(0, "BLOCK");
    dxf.pair(8, "0");
    dxf.pair(2, block.name.as_str());
    dxf.pair_int(70, 0);
    dxf.xyz(10, Xy { x: 0, y: 0 });
    dxf.pair(3, block.name.as_str());
    assert(dxf.groups@ =~= old(dxf).groups@ + block_head(block.name@));
    let ghost start = with_groups(so_far, block_head(block.name@));
    let mut k: usize = 0;
    while k < block.outlines.len()
        invariant
            k <= block.outlines@.len(),
            dxf.wf(),
            block_ok(*block, layers@.len() as int),
            0 < tolerance <= COARSE_TOLERANCE,
            start == with_groups(
                lines_of(*old(dxf), *old(budget)),
                block_head(block.name@),
            ),
            lines_of(*dxf, *budget) == outline_lines(
                start,
                layers@,
                block.outlines@,
                tolerance as int,
                k as nat,
            ),
        decreases block.outlines@.len() - k,
    {
        let outline = &block.outlines[k];
        assert(block.outlines@[k as int].layer < layers@.len());
        match polyline12(dxf, layers, outline, tolerance, budget) {
            Ok(_) => {},
            Err(e) => {
                proof {
                    lemma_outlines_stop(
                        start,
                        layers@,
                        block.outlines@,
                        tolerance as int,
                        (k + 1) as nat,
                        block.outlines@.len(),
                    );
                }
                return Err(e);
            },
        }
        k = k + 1;
    }
    let ghost before = dxf.groups@;
    dxf.pair(0, "ENDBLK");
    dxf.pair(8, "0");
    assert(dxf.groups@ =~= before + block_tail());
    Ok(())
}

/// Item `k` of a drawing in an R12 file.
fn item12(
    dxf: &mut Dxf,
    drawing: &Drawing,
    k: usize,
    tolerance: u64,
    budget: &mut usize,
) -> (done: Result<(), Refusal>)
    requires
        old(dxf).wf(),
        drawing.ok(),
        k < drawing.items@.len(),
        0 < tolerance <= COARSE_TOLERANCE,
    ensures
        match with_item_lines(
            lines_of(*old(dxf), *old(budget)),
            *drawing,
            tolerance as int,
            drawing.items@[k as int]@,
        ) {
            Ok(lines) => done is Ok && final(dxf).wf() && lines_of(*final(dxf), *final(budget))
                == Ok::<Lines, Refusal>(lines),
            Err(e) => done == Err::<(), Refusal>(e),
        },
{
    let layers = &drawing.layers;
    assert(item_ok(
        drawing.items@[k as int]@,
        drawing.layers@.len() as int,
        drawing.blocks@.len() as int,
    ));
    match &drawing.items[k] {
        Item::Outline(outline) => polyline12(dxf, layers, outline, tolerance, budget),
        Item::Array(array) => {
            let ghost was = dxf.groups@;
            dxf.pair(0, "INSERT");
            dxf.paint(&layers[array.layer], false);
            dxf.array(array, &drawing.blocks);
            assert(dxf.groups@ =~= was + (seq![text(0, "INSERT"@)] + paint_groups(
                layers@[array.layer as int],
                false,
            ) + array_groups(*array, drawing.blocks@)));
            Ok(())
        },
    }
}

/// The R12 file of the line modes.
pub fn r12(page: &Page, drawing: &Drawing, tolerance: u64) -> (file: Result<String, Refusal>)
    requires
        page.ok(),
        drawing.ok(),
        0 < tolerance <= COARSE_TOLERANCE,
    ensures
        match r12_lines(page.width as int, page.height as int, *drawing, tolerance as int) {
            Ok(lines) => file matches Ok(t) && t@ == render(lines.groups),
            Err(e) => file == Err::<String, Refusal>(e),
        },
{
    let layers = &drawing.layers;
    let mut dxf = Dxf::new();
    header(&mut dxf, page);
    start_section(&mut dxf, "TABLES");
    linetypes(&mut dxf);
    layer_table(&mut dxf, layers);
    end_section(&mut dxf);
    assert(dxf.groups@ =~= head12(page.width as int, page.height as int, layers@));
    start_section(&mut dxf, "BLOCKS");
    let mut budget: usize = MAX_VERTICES;
    let ghost start = lines_of(dxf, budget);
    let mut k: usize = 0;
    while k < drawing.blocks.len()
        invariant
            k <= drawing.blocks@.len(),
            dxf.wf(),
            drawing.ok(),
            layers == &drawing.layers,
            0 < tolerance <= COARSE_TOLERANCE,
            lines_of(dxf, budget) == block_lines(start, *drawing, tolerance as int, k as nat),
            start == Ok::<Lines, Refusal>(
                Lines {
                    groups: head12(page.width as int, page.height as int, drawing.layers@)
                        + section("BLOCKS"@),
                    left: MAX_VERTICES as int,
                },
            ),
        decreases drawing.blocks@.len() - k,
    {
        assert(block_ok(drawing.blocks@[k as int], layers@.len() as int));
        match block12(&mut dxf, layers, &drawing.blocks[k], tolerance, &mut budget) {
            Ok(_) => {},
            Err(e) => {
                proof {
                    lemma_blocks_stop(
                        start,
                        *drawing,
                        tolerance as int,
                        (k + 1) as nat,
                        drawing.blocks@.len(),
                    );
                    let blocks = with_groups(
                        block_lines(start, *drawing, tolerance as int, drawing.blocks@.len()),
                        section_end() + section("ENTITIES"@),
                    );
                    lemma_items_stop(
                        blocks,
                        *drawing,
                        tolerance as int,
                        0,
                        drawing.items@.len(),
                    );
                }
                return Err(e);
            },
        }
        k = k + 1;
    }
    let ghost before = dxf.groups@;
    end_section(&mut dxf);
    start_section(&mut dxf, "ENTITIES");
    assert(dxf.groups@ =~= before + (section_end() + section("ENTITIES"@)));
    let ghost blocks = lines_of(dxf, budget);
    let mut k: usize = 0;
    while k < drawing.items.len()
        invariant
            k <= drawing.items@.len(),
            dxf.wf(),
            drawing.ok(),
            layers == &drawing.layers,
            0 < tolerance <= COARSE_TOLERANCE,
            lines_of(dxf, budget) == item_lines(blocks, *drawing, tolerance as int, k as nat),
            blocks == with_groups(
                block_lines(start, *drawing, tolerance as int, drawing.blocks@.len()),
                section_end() + section("ENTITIES"@),
            ),
            start == Ok::<Lines, Refusal>(
                Lines {
                    groups: head12(page.width as int, page.height as int, drawing.layers@)
                        + section("BLOCKS"@),
                    left: MAX_VERTICES as int,
                },
            ),
        decreases drawing.items@.len() - k,
    {
        match item12(&mut dxf, drawing, k, tolerance, &mut budget) {
            Ok(_) => {},
            Err(e) => {
                proof {
                    lemma_items_stop(
                        blocks,
                        *drawing,
                        tolerance as int,
                        (k + 1) as nat,
                        drawing.items@.len(),
                    );
                }
                return Err(e);
            },
        }
        k = k + 1;
    }
    let ghost before = dxf.groups@;
    end_section(&mut dxf);
    dxf.pair(0, "EOF");
    assert(dxf.groups@ =~= before + (section_end() + seq![text(0, "EOF"@)]));
    Ok(dxf.text)
}

} // verus!
