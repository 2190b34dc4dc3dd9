//! The R2000 file of the spline mode.
use crate::dxf::drawing::{block_ok, item_ok, Array, Block, Drawing, Item, Layer};
use crate::dxf::lines::{array_groups, end_section, extents, section, section_end, start_section};
use crate::dxf::outline::{drawn_ok, Outline, Piece};
use crate::dxf::pairs::{handle, int_group, lemma_render_adds, point3, render, text, Dxf, Group};
use crate::dxf::sheet::{
    all_lines, application_table, block_begin, block_end, block_name, block_outlines, body,
    closed_pieces, control_list, dictionary, dimension_table, empty_table, end_table, ends,
    entity_groups, entry_groups, from_point, head, is_cubic, knot_group, knot_list, knot_repeats,
    layer_groups, layer_list, layer_table_groups, lemma_run_end, linetype_groups, linetype_table,
    model_space, objects, paper_mark, point2_list, polyline_body, r2000_groups, record_groups,
    record_list, record_table, run_end, spline_body, straight_points, style_table, table_groups,
    tables, with_block, with_blocks, with_item, with_items, with_outline,
    with_outlines, with_run, with_runs, Place, Sheet,
};
use crate::geometry::{Page, Xy};
use crate::text::{decimal, push_decimal};
use vstd::prelude::*;

verus! {

/// Handles in the order objects are made.
pub struct Handles {
    pub last: u64,
}

impl Handles {
    /// The next handle.
    pub fn next(&mut self) -> (h: u64)
        requires
            old(self).last < u64::MAX,
        ensures
            h == old(self).last + 1,
            final(self).last == h,
    {
        self.last = self.last + 1;
        self.last
    }
}

/// Besides the twenty of the standard objects, no more handles were made than
/// groups were written. So they are machine words whatever is drawn: the
/// groups are in memory.
pub open spec fn numbered(dxf: Dxf, h: Handles) -> bool {
    h.last <= dxf.groups@.len() + 20
}

/// A symbol table's head: its name, handle and entry count.
pub fn table(dxf: &mut Dxf, name: &str, own: u64, entries: i64)
    requires
        old(dxf).wf(),
        entries > i64::MIN,
    ensures
        final(dxf).wf(),
        final(dxf).groups@ == old(dxf).groups@ + table_groups(name@, own as int, entries as int),
{
    dxf.pair(0, "TABLE");
    dxf.pair(2, name);
    dxf.pair_handle(5, own);
    dxf.pair_handle(330, 0);
    dxf.pair(100, "AcDbSymbolTable");
    dxf.pair_int(70, entries);
    assert(dxf.groups@ =~= old(dxf).groups@ + table_groups(name@, own as int, entries as int));
}

fn table_end(dxf: &mut Dxf)
    requires
        old(dxf).wf(),
    ensures
        final(dxf).wf(),
        final(dxf).groups@ == old(dxf).groups@ + end_table(),
{
    dxf.pair(0, "ENDTAB");
    assert(dxf.groups@ =~= old(dxf).groups@ + end_table());
}

/// A symbol table entry's head up to its name.
pub fn entry(
    dxf: &mut Dxf,
    code: u16,
    kind: &str,
    own: u64,
    owner: u64,
    class: &str,
    name: &str,
)
    requires
        old(dxf).wf(),
    ensures
        final(dxf).wf(),
        final(dxf).groups@ == old(dxf).groups@ + entry_groups(
            code as int,
            kind@,
            own as int,
            owner as int,
            class@,
            name@,
        ),
{
    dxf.pair(0, kind);
    dxf.pair_handle(code, own);
    dxf.pair_handle(330, owner);
    dxf.pair(100, "AcDbSymbolTableRecord");
    dxf.pair(100, class);
    dxf.pair(2, name);
    dxf.pair_int(70, 0);
    assert(dxf.groups@ =~= old(dxf).groups@ + entry_groups(
        code as int,
        kind@,
        own as int,
        owner as int,
        class@,
        name@,
    ));
}

fn no_entries(dxf: &mut Dxf, name: &str, own: u64)
    requires
        old(dxf).wf(),
    ensures
        final(dxf).wf(),
        final(dxf).groups@ == old(dxf).groups@ + empty_table(name@, own as int),
{
    table(dxf, name, own, 0);
    table_end(dxf);
    assert(dxf.groups@ =~= old(dxf).groups@ + empty_table(name@, own as int));
}

fn linetype(dxf: &mut Dxf, own: u64, name: &str, described: &str)
    requires
        old(dxf).wf(),
    ensures
        final(dxf).wf(),
        final(dxf).groups@ == old(dxf).groups@ + linetype_groups(own as int, name@, described@),
{
    entry(dxf, 5, "LTYPE", own, 2, "AcDbLinetypeTableRecord", name);
    dxf.pair(3, described);
    dxf.pair_int(72, 65);
    dxf.pair_int(73, 0);
    dxf.pair(40, "0.0");
    assert(dxf.groups@ =~= old(dxf).groups@ + linetype_groups(own as int, name@, described@));
}

fn linetypes(dxf: &mut Dxf)
    requires
        old(dxf).wf(),
    ensures
        final(dxf).wf(),
        final(dxf).groups@ == old(dxf).groups@ + linetype_table(),
{
    table(dxf, "LTYPE", 2, 3);
    linetype(dxf, 12, "ByBlock", "");
    linetype(dxf, 13, "ByLayer", "");
    linetype(dxf, 14, "Continuous", "Solid line");
    table_end(dxf);
    assert(dxf.groups@ =~= old(dxf).groups@ + linetype_table());
}

fn layer_entry(dxf: &mut Dxf, own: u64, name: &str, index: u8)
    requires
        old(dxf).wf(),
    ensures
        final(dxf).wf(),
        final(dxf).groups@ == old(dxf).groups@ + layer_groups(own as int, name@, index as int),
{
    entry(dxf, 5, "LAYER", own, 3, "AcDbLayerTableRecord", name);
    dxf.pair_count(62, index as usize);
    dxf.pair(6, "Continuous");
    dxf.pair_int(370, -3);
    dxf.pair_handle(390, 11);
    assert(dxf.groups@ =~= old(dxf).groups@ + layer_groups(own as int, name@, index as int));
}

/// Every layer takes eleven groups.
proof fn lemma_layer_list_len(layers: Seq<Layer>, n: nat)
    ensures
        layer_list(layers, n).len() == 11 * (n + 1),
    decreases n,
{
    if n > 0 {
        lemma_layer_list_len(layers, (n - 1) as nat);
    }
}

/// Every block record takes six groups.
proof fn lemma_record_list_len(blocks: Seq<Block>, layers: int, n: nat)
    ensures
        record_list(blocks, layers, n).len() == 6 * n,
    decreases n,
{
    if n > 0 {
        lemma_record_list_len(blocks, layers, (n - 1) as nat);
    }
}

fn layer_table(dxf: &mut Dxf, layers: &Vec<Layer>)
    requires
        old(dxf).wf(),
    ensures
        final(dxf).wf(),
        final(dxf).groups@ == old(dxf).groups@ + layer_table_groups(layers@),
{
    dxf.pair(0, "TABLE");
    dxf.pair(2, "LAYER");
    dxf.pair_handle(5, 3);
    dxf.pair_handle(330, 0);
    dxf.pair(100, "AcDbSymbolTable");
    dxf.pair_wide(70, layers.len() as u128 + 1);
    assert(dxf.groups@ =~= old(dxf).groups@ + table_groups(
        "LAYER"@,
        3,
        layers@.len() as int + 1,
    ));
    let ghost start = dxf.groups@;
    layer_entry(dxf, 15, "0", 7);
    let mut k: usize = 0;
    while k < layers.len()
        invariant
            k <= layers@.len(),
            dxf.wf(),
            dxf.groups@ == start + layer_list(layers@, k as nat),
        decreases layers@.len() - k,
    {
        let layer = &layers[k];
        proof {
            lemma_layer_list_len(layers@, k as nat);
        }
        let size: usize = dxf.size();
        assert(k <= size / 4);
        layer_entry(dxf, 16 + k as u64, layer.name.as_str(), layer.index);
        assert(dxf.groups@ =~= start + layer_list(layers@, (k + 1) as nat));
        k = k + 1;
    }
    table_end(dxf);
    assert(dxf.groups@ =~= old(dxf).groups@ + layer_table_groups(layers@));
}

fn style(dxf: &mut Dxf, own: u64)
    requires
        old(dxf).wf(),
    ensures
        final(dxf).wf(),
        final(dxf).groups@ == old(dxf).groups@ + style_table(own as int),
{
    table(dxf, "STYLE", 4, 1);
    entry(dxf, 5, "STYLE", own, 4, "AcDbTextStyleTableRecord", "Standard");
    dxf.pair(40, "0.0");
    dxf.pair(41, "1.0");
    dxf.pair(50, "0.0");
    dxf.pair(71, "0");
    dxf.pair(42, "2.5");
    dxf.pair(3, "txt");
    dxf.pair(4, "");
    table_end(dxf);
    assert(dxf.groups@ =~= old(dxf).groups@ + style_table(own as int));
}

fn applications(dxf: &mut Dxf, own: u64)
    requires
        old(dxf).wf(),
    ensures
        final(dxf).wf(),
        final(dxf).groups@ == old(dxf).groups@ + application_table(own as int),
{
    table(dxf, "APPID", 7, 1);
    entry(dxf, 5, "APPID", own, 7, "AcDbRegAppTableRecord", "ACAD");
    table_end(dxf);
    assert(dxf.groups@ =~= old(dxf).groups@ + application_table(own as int));
}

fn dimensions(dxf: &mut Dxf, own: u64)
    requires
        old(dxf).wf(),
    ensures
        final(dxf).wf(),
        final(dxf).groups@ == old(dxf).groups@ + dimension_table(own as int),
{
    table(dxf, "DIMSTYLE", 8, 1);
    dxf.pair(100, "AcDbDimStyleTable");
    dxf.pair_int(71, 1);
    dxf.pair_handle(340, own);
    entry(dxf, 105, "DIMSTYLE", own, 8, "AcDbDimStyleTableRecord", "Standard");
    table_end(dxf);
    assert(dxf.groups@ =~= old(dxf).groups@ + dimension_table(own as int));
}

fn record(dxf: &mut Dxf, own: u64, name: &str)
    requires
        old(dxf).wf(),
    ensures
        final(dxf).wf(),
        final(dxf).groups@ == old(dxf).groups@ + record_groups(own as int, name@),
{
    dxf.pair(0, "BLOCK_RECORD");
    dxf.pair_handle(5, own);
    dxf.pair_handle(330, 9);
    dxf.pair(100, "AcDbSymbolTableRecord");
    dxf.pair(100, "AcDbBlockTableRecord");
    dxf.pair(2, name);
    assert(dxf.groups@ =~= old(dxf).groups@ + record_groups(own as int, name@));
}

/// The name of block `k` of the file.
fn name_of(blocks: &Vec<Block>, k: u64) -> (name: &str)
    requires
        k < blocks@.len() + 2,
    ensures
        name@ == block_name(blocks@, k as int),
{
    let count: usize = blocks.len();
    assert(k >= 2 ==> k - 2 < count);
    if k == 0 {
        "*Model_Space"
    } else if k == 1 {
        "*Paper_Space"
    } else {
        blocks[(k - 2) as usize].name.as_str()
    }
}

fn records(dxf: &mut Dxf, blocks: &Vec<Block>, layers: usize)
    requires
        old(dxf).wf(),
        layers <= old(dxf).groups@.len(),
    ensures
        final(dxf).wf(),
        final(dxf).groups@ == old(dxf).groups@ + record_table(blocks@, layers as int),
{
    dxf.pair(0, "TABLE");
    dxf.pair(2, "BLOCK_RECORD");
    dxf.pair_handle(5, 9);
    dxf.pair_handle(330, 0);
    dxf.pair(100, "AcDbSymbolTable");
    dxf.pair_wide(70, 2 + blocks.len() as u128);
    assert(dxf.groups@ =~= old(dxf).groups@ + table_groups(
        "BLOCK_RECORD"@,
        9,
        2 + blocks@.len() as int,
    ));
    let ghost start = dxf.groups@;
    assert(start =~= start + record_list(blocks@, layers as int, 0));
    let size: usize = dxf.size();
    assert(layers <= size / 4);
    let model: u64 = 19 + layers as u64;
    let count: usize = blocks.len();
    let mut k: u64 = 0;
    while k < 2 || k - 2 < count as u64
        invariant
            count == blocks@.len(),
            k <= count + 2,
            layers <= start.len(),
            model == model_space(layers as int),
            dxf.wf(),
            dxf.groups@ == start + record_list(blocks@, layers as int, k as nat),
        decreases count + 2 - k,
    {
        proof {
            lemma_record_list_len(blocks@, layers as int, k as nat);
        }
        let size: usize = dxf.size();
        assert(layers + k <= size / 4);
        record(dxf, model + k, name_of(blocks, k));
        assert(dxf.groups@ =~= start + record_list(blocks@, layers as int, (k + 1) as nat));
        k = k + 1;
    }
    table_end(dxf);
    assert(dxf.groups@ =~= old(dxf).groups@ + record_table(blocks@, layers as int));
}

/// The empty classes and the nine symbol tables with their standard entries.
fn symbol_tables(dxf: &mut Dxf, layers: &Vec<Layer>, blocks: &Vec<Block>)
    requires
        old(dxf).wf(),
        old(dxf).groups@.len() == 0,
    ensures
        final(dxf).wf(),
        final(dxf).groups@ == tables(layers@, blocks@),
{
    let n: u64 = layers.len() as u64;
    start_section(dxf, "CLASSES");
    end_section(dxf);
    start_section(dxf, "TABLES");
    no_entries(dxf, "VPORT", 1);
    linetypes(dxf);
    layer_table(dxf, layers);
    proof {
        lemma_layer_list_len(layers@, layers@.len());
    }
    let size: usize = dxf.size();
    assert(n <= size / 4);
    style(dxf, 16 + n);
    no_entries(dxf, "VIEW", 5);
    no_entries(dxf, "UCS", 6);
    applications(dxf, 17 + n);
    dimensions(dxf, 18 + n);
    records(dxf, blocks, layers.len());
    end_section(dxf);
    assert(dxf.groups@ =~= tables(layers@, blocks@));
}

/// An R2000 entity's head: its kind, handle, owner, paint and class.
pub fn entity_head(
    dxf: &mut Dxf,
    h: &mut Handles,
    kind: &str,
    owner: u64,
    layer: &Layer,
    class: &str,
)
    requires
        old(dxf).wf(),
        numbered(*old(dxf), *old(h)),
    ensures
        final(dxf).wf(),
        numbered(*final(dxf), *final(h)),
        final(h).last == old(h).last + 1,
        final(dxf).groups@ == old(dxf).groups@ + entity_groups(
            kind@,
            final(h).last as int,
            owner as int,
            *layer,
            class@,
        ),
{
    let size: usize = dxf.size();
    assert(h.last <= size / 4 + 20);
    let own = h.next();
    dxf.pair(0, kind);
    dxf.pair_handle(5, own);
    dxf.pair_handle(330, owner);
    dxf.pair(100, "AcDbEntity");
    dxf.paint(layer, true);
    dxf.pair(100, class);
    assert(dxf.groups@ =~= old(dxf).groups@ + entity_groups(
        kind@,
        own as int,
        owner as int,
        *layer,
        class@,
    ));
}

fn polyline(dxf: &mut Dxf, points: &Vec<Xy>, closed: bool)
    requires
        old(dxf).wf(),
        forall|i: int| 0 <= i < points@.len() ==> drawn_ok(#[trigger] points@[i]),
    ensures
        final(dxf).wf(),
        final(dxf).groups@ == old(dxf).groups@ + polyline_body(points@, closed),
{
    dxf.pair_count(90, points.len());
    dxf.pair_int(
        70,
        if closed {
            1
        } else {
            0
        },
    );
    dxf.pair(43, "0.0");
    let ghost start = dxf.groups@;
    assert(start =~= start + point2_list(points@, 0));
    let mut k: usize = 0;
    while k < points.len()
        invariant
            k <= points@.len(),
            dxf.wf(),
            forall|i: int| 0 <= i < points@.len() ==> drawn_ok(#[trigger] points@[i]),
            dxf.groups@ == start + point2_list(points@, k as nat),
        decreases points@.len() - k,
    {
        assert(drawn_ok(points@[k as int]));
        dxf.xy(10, points[k]);
        assert(dxf.groups@ =~= start + point2_list(points@, (k + 1) as nat));
        k = k + 1;
    }
    assert(dxf.groups@ =~= old(dxf).groups@ + polyline_body(points@, closed));
}

/// The knots of a spline of `pieces` cubics.
fn knots(dxf: &mut Dxf, pieces: usize)
    requires
        old(dxf).wf(),
    ensures
        final(dxf).wf(),
        final(dxf).groups@ == old(dxf).groups@ + knot_list(pieces as int, (pieces + 1) as nat),
{
    let ghost start = dxf.groups@;
    assert(start =~= start + knot_list(pieces as int, 0));
    let count: u128 = pieces as u128;
    let mut knot: u128 = 0;
    while knot <= count
        invariant
            count == pieces,
            knot <= pieces + 1,
            dxf.wf(),
            dxf.groups@ == start + knot_list(pieces as int, knot as nat),
        decreases pieces + 1 - knot,
    {
        let repeats: usize = if knot == 0 || knot == count {
            4
        } else {
            3
        };
        let mut value = String::new();
        push_decimal(&mut value, knot as u64);
        value.append(".0");
        assert(value@ =~= decimal(knot as nat) + ".0"@);
        let ghost before = dxf.groups@;
        let ghost all = Seq::new(
            knot_repeats(knot as int, pieces as int),
            |i: int| knot_group(knot as int),
        );
        let mut i: usize = 0;
        assert(before =~= before + all.take(0));
        while i < repeats
            invariant
                i <= repeats,
                repeats == knot_repeats(knot as int, pieces as int),
                value@ == decimal(knot as nat) + ".0"@,
                all == Seq::new(
                    knot_repeats(knot as int, pieces as int),
                    |i: int| knot_group(knot as int),
                ),
                dxf.wf(),
                dxf.groups@ == before + all.take(i as int),
            decreases repeats - i,
        {
            dxf.pair(40, value.as_str());
            assert(dxf.groups@ =~= before + all.take(i + 1));
            i = i + 1;
        }
        assert(all.take(repeats as int) =~= all);
        assert(dxf.groups@ =~= start + knot_list(pieces as int, (knot + 1) as nat));
        knot = knot + 1;
    }
}

/// The control points of the cubics `from` to `to` of `pieces`.
fn controls(dxf: &mut Dxf, pieces: &Vec<Piece>, from: usize, to: usize)
    requires
        old(dxf).wf(),
        from <= to <= pieces@.len(),
        forall|i: int| 0 <= i < pieces@.len() ==> (#[trigger] pieces@[i]).ok(),
    ensures
        final(dxf).wf(),
        final(dxf).groups@ == old(dxf).groups@ + control_list(
            pieces@.subrange(from as int, to as int),
            (to - from) as nat,
        ),
{
    let ghost these = pieces@.subrange(from as int, to as int);
    let ghost start = dxf.groups@;
    assert(start =~= start + control_list(these, 0));
    let mut k: usize = from;
    while k < to
        invariant
            from <= k <= to <= pieces@.len(),
            these == pieces@.subrange(from as int, to as int),
            forall|i: int| 0 <= i < pieces@.len() ==> (#[trigger] pieces@[i]).ok(),
            dxf.wf(),
            dxf.groups@ == start + control_list(these, (k - from) as nat),
        decreases to - k,
    {
        let ghost before = dxf.groups@;
        assert(pieces@[k as int].ok());
        assert(these[k - from] == pieces@[k as int]);
        match pieces[k] {
            Piece::Cubic(a, b, p) => {
                dxf.xyz(10, a);
                dxf.xyz(10, b);
                dxf.xyz(10, p);
                assert(dxf.groups@ =~= before + (point3(10, a) + point3(10, b) + point3(10, p)));
            },
            Piece::Line(_) => {
                assert(before =~= before + Seq::<Group>::empty());
            },
        }
        assert(dxf.groups@ =~= start + control_list(these, (k + 1 - from) as nat));
        k = k + 1;
    }
}

/// What has been written and the last handle made.
pub open spec fn sheet_of(dxf: Dxf, h: Handles) -> Sheet {
    Sheet { groups: dxf.groups@, last: h.last as int }
}

fn spline(dxf: &mut Dxf, start: Xy, pieces: &Vec<Piece>, from: usize, to: usize)
    requires
        old(dxf).wf(),
        drawn_ok(start),
        from <= to <= pieces@.len(),
        forall|i: int| 0 <= i < pieces@.len() ==> (#[trigger] pieces@[i]).ok(),
    ensures
        final(dxf).wf(),
        final(dxf).groups@ == old(dxf).groups@ + spline_body(
            start,
            pieces@.subrange(from as int, to as int),
        ),
{
    let n: usize = to - from;
    let ghost these = pieces@.subrange(from as int, to as int);
    let ghost base = dxf.groups@;
    dxf.pair(210, "0.0");
    dxf.pair(220, "0.0");
    dxf.pair(230, "1.0");
    dxf.pair_int(70, 8);
    dxf.pair_int(71, 3);
    dxf.pair_wide(72, 3 * n as u128 + 5);
    dxf.pair_wide(73, 3 * n as u128 + 1);
    dxf.pair_int(74, 0);
    let ghost counts = seq![
        text(210, "0.0"@),
        text(220, "0.0"@),
        text(230, "1.0"@),
        int_group(70, 8),
        int_group(71, 3),
        int_group(72, 3 * (n as int) + 5),
        int_group(73, 3 * (n as int) + 1),
        int_group(74, 0),
    ];
    assert(dxf.groups@ =~= base + counts);
    dxf.pair(42, "0.0000001");
    dxf.pair(43, "0.0000001");
    let ghost fits = seq![text(42, "0.0000001"@), text(43, "0.0000001"@)];
    assert(dxf.groups@ =~= base + (counts + fits));
    knots(dxf, n);
    dxf.xyz(10, start);
    controls(dxf, pieces, from, to);
    assert(dxf.groups@ =~= base + spline_body(start, these));
}

/// `start` and the ends of the pieces `from` to `to`.
fn end_points(start: Xy, pieces: &Vec<Piece>, from: usize, to: usize) -> (points: Vec<Xy>)
    requires
        drawn_ok(start),
        from <= to <= pieces@.len(),
        forall|i: int| 0 <= i < pieces@.len() ==> (#[trigger] pieces@[i]).ok(),
    ensures
        points@ == ends(start, pieces@.subrange(from as int, to as int)),
        forall|i: int| 0 <= i < points@.len() ==> drawn_ok(#[trigger] points@[i]),
{
    let ghost these = pieces@.subrange(from as int, to as int);
    let mut points: Vec<Xy> = Vec::new();
    points.push(start);
    let mut k: usize = from;
    while k < to
        invariant
            from <= k <= to <= pieces@.len(),
            these == pieces@.subrange(from as int, to as int),
            forall|i: int| 0 <= i < pieces@.len() ==> (#[trigger] pieces@[i]).ok(),
            points@ =~= ends(start, these.take(k - from)),
            forall|i: int| 0 <= i < points@.len() ==> drawn_ok(#[trigger] points@[i]),
        decreases to - k,
    {
        assert(pieces@[k as int].ok());
        assert(these[k - from] == pieces@[k as int]);
        points.push(pieces[k].end());
        k = k + 1;
    }
    assert(these.take(to - from) =~= these);
    points
}

fn kind_cubic(piece: Piece) -> (cubic: bool)
    ensures
        cubic == is_cubic(piece),
{
    match piece {
        Piece::Cubic(_, _, _) => true,
        Piece::Line(_) => false,
    }
}

/// One outline as the spline mode writes it.
pub fn spline_outline(
    dxf: &mut Dxf,
    h: &mut Handles,
    owner: u64,
    layer: &Layer,
    outline: &Outline,
)
    requires
        old(dxf).wf(),
        outline@.ok(),
        numbered(*old(dxf), *old(h)),
    ensures
        final(dxf).wf(),
        numbered(*final(dxf), *final(h)),
        sheet_of(*final(dxf), *final(h)) == with_outline(
            sheet_of(*old(dxf), *old(h)),
            (Place { owner: owner as int, layer: *layer }),
            outline@,
        ),
{
    let ghost place = Place { owner: owner as int, layer: *layer };
    let ghost sheet = sheet_of(*dxf, *h);
    let ghost o = outline@;
    let n: usize = outline.pieces.len();
    let mut straight = true;
    let mut k: usize = 0;
    while k < n && straight
        invariant
            n == o.pieces.len(),
            o == outline@,
            k <= n,
            straight ==> forall|i: int| 0 <= i < k ==> !is_cubic(#[trigger] o.pieces[i]),
            !straight ==> !all_lines(o.pieces),
        decreases n - k,
    {
        if kind_cubic(outline.pieces[k]) {
            assert(is_cubic(o.pieces[k as int]));
            straight = false;
        }
        k = k + 1;
    }
    assert(straight == all_lines(o.pieces));
    let finish: Xy = if n == 0 {
        outline.start
    } else {
        outline.pieces[n - 1].end()
    };
    assert(finish == o.finish());
    if straight {
        let mut points = end_points(outline.start, &outline.pieces, 0, n);
        assert(o.pieces.subrange(0, n as int) =~= o.pieces);
        if outline.closed && points.len() > 2 && points[0] == finish {
            points.pop();
        }
        assert(points@ =~= straight_points(o));
        entity_head(dxf, h, "LWPOLYLINE", owner, layer, "AcDbPolyline");
        polyline(dxf, &points, outline.closed);
        assert(sheet_of(*dxf, *h).groups =~= with_outline(sheet, place, o).groups);
        return;
    }
    let mut pieces: Vec<Piece> = Vec::new();
    let mut k: usize = 0;
    while k < n
        invariant
            n == o.pieces.len(),
            o == outline@,
            k <= n,
            pieces@ =~= o.pieces.take(k as int),
        decreases n - k,
    {
        pieces.push(outline.pieces[k]);
        k = k + 1;
    }
    if outline.closed && finish != outline.start {
        pieces.push(Piece::Line(outline.start));
    }
    proof {
        assert(pieces@ =~= closed_pieces(o));
        assert forall|i: int| 0 <= i < pieces@.len() implies (#[trigger] pieces@[i]).ok() by {
            assert(i < o.pieces.len() ==> o.pieces[i].ok());
        }
    }
    let mut at: Xy = outline.start;
    let mut k: usize = 0;
    while k < pieces.len()
        invariant
            k <= pieces@.len(),
            dxf.wf(),
            o == outline@,
            drawn_ok(at),
            at == from_point(o.start, pieces@, k as int),
            forall|i: int| 0 <= i < pieces@.len() ==> (#[trigger] pieces@[i]).ok(),
            place == (Place { owner: owner as int, layer: *layer }),
            numbered(*dxf, *h),
            with_runs(sheet_of(*dxf, *h), place, o.start, pieces@, k as int) == with_runs(
                sheet,
                place,
                o.start,
                pieces@,
                0,
            ),
        decreases pieces@.len() - k,
    {
        let ghost now = sheet_of(*dxf, *h);
        proof {
            lemma_run_end(pieces@, k as int, k + 1);
        }
        let cubic = kind_cubic(pieces[k]);
        let mut j: usize = k + 1;
        while j < pieces.len() && kind_cubic(pieces[j]) == cubic
            invariant
                k < j <= pieces@.len(),
                cubic == is_cubic(pieces@[k as int]),
                run_end(pieces@, k as int, k + 1) == run_end(pieces@, k as int, j as int),
            decreases pieces@.len() - j,
        {
            j = j + 1;
        }
        let ghost these = pieces@.subrange(k as int, j as int);
        if cubic {
            entity_head(dxf, h, "SPLINE", owner, layer, "AcDbSpline");
            spline(dxf, at, &pieces, k, j);
        } else {
            let points = end_points(at, &pieces, k, j);
            entity_head(dxf, h, "LWPOLYLINE", owner, layer, "AcDbPolyline");
            polyline(dxf, &points, false);
        }
        proof {
            let next = with_run(now, place, o.start, pieces@, k as int, j as int);
            assert(sheet_of(*dxf, *h).groups =~= next.groups);
            assert(sheet_of(*dxf, *h) == next);
            assert(pieces@[j - 1].ok());
        }
        at = pieces[j - 1].end();
        k = j;
    }
}

/// Block `k` of the file.
#[verifier::spinoff_prover]
#[verifier::rlimit(60)]
fn write_block(dxf: &mut Dxf, h: &mut Handles, drawing: &Drawing, k: u64)
    requires
        old(dxf).wf(),
        drawing.ok(),
        k < drawing.blocks@.len() + 2,
        model_space(drawing.layers@.len() as int) + k <= u64::MAX,
        numbered(*old(dxf), *old(h)),
    ensures
        final(dxf).wf(),
        numbered(*final(dxf), *final(h)),
        sheet_of(*final(dxf), *final(h)) == with_block(
            sheet_of(*old(dxf), *old(h)),
            *drawing,
            k as int,
        ),
{
    let ghost sheet = sheet_of(*dxf, *h);
    let layers = &drawing.layers;
    let owner: u64 = 19 + layers.len() as u64 + k;
    let paper = k == 1;
    let name = name_of(&drawing.blocks, k);
    let size: usize = dxf.size();
    assert(h.last <= size / 4 + 20);
    let own = h.next();
    dxf.pair(0, "BLOCK");
    dxf.pair_handle(5, own);
    dxf.pair_handle(330, owner);
    dxf.pair(100, "AcDbEntity");
    if paper {
        dxf.pair_int(67, 1);
    }
    let ghost first = dxf.groups@;
    assert(first =~= sheet.groups + (seq![
        text(0, "BLOCK"@),
        handle(5, own as int),
        handle(330, owner as int),
        text(100, "AcDbEntity"@),
    ] + paper_mark(paper)));
    dxf.pair(8, "0");
    dxf.pair(100, "AcDbBlockBegin");
    dxf.pair(2, name);
    dxf.pair_int(70, 0);
    dxf.xyz(10, Xy { x: 0, y: 0 });
    dxf.pair(3, name);
    dxf.pair(1, "");
    assert(dxf.groups@ =~= sheet.groups + block_begin(
        own as int,
        owner as int,
        paper,
        name@,
    ));
    let ghost begun = sheet_of(*dxf, *h);
    let ghost list = block_outlines(drawing.blocks@, k as int);
    let ghost drawn = with_outlines(begun, owner as int, layers@, list, list.len());
    assert(begun == (Sheet {
        groups: sheet.groups + block_begin(
            sheet.last + 1,
            owner as int,
            k == 1,
            block_name(drawing.blocks@, k as int),
        ),
        last: sheet.last + 1,
    }));
    if k >= 2 {
        let blocks: usize = drawing.blocks.len();
        assert(k - 2 < blocks);
        let tile = &drawing.blocks[(k - 2) as usize];
        assert(block_ok(*tile, layers@.len() as int));
        let mut i: usize = 0;
        while i < tile.outlines.len()
            invariant
                i <= tile.outlines@.len(),
                list == tile.outlines@,
                block_ok(*tile, layers@.len() as int),
                dxf.wf(),
                drawn == with_outlines(begun, owner as int, layers@, list, list.len()),
                numbered(*dxf, *h),
                sheet_of(*dxf, *h) == with_outlines(
                    begun,
                    owner as int,
                    layers@,
                    list,
                    i as nat,
                ),
            decreases tile.outlines@.len() - i,
        {
            let outline = &tile.outlines[i];
            assert(tile.outlines@[i as int].layer < layers@.len());
            spline_outline(dxf, h, owner, &layers[outline.layer], outline);
            i = i + 1;
        }
    }
    assert(sheet_of(*dxf, *h) == drawn);
    let size: usize = dxf.size();
    assert(h.last <= size / 4 + 20);
    let own = h.next();
    dxf.pair(0, "ENDBLK");
    dxf.pair_handle(5, own);
    dxf.pair_handle(330, owner);
    dxf.pair(100, "AcDbEntity");
    if paper {
        dxf.pair_int(67, 1);
    }
    dxf.pair(8, "0");
    dxf.pair(100, "AcDbBlockEnd");
    assert(dxf.groups@ =~= drawn.groups + block_end(own as int, owner as int, paper));
}

/// One item of the drawing.
fn write_item(dxf: &mut Dxf, h: &mut Handles, drawing: &Drawing, k: usize)
    requires
        old(dxf).wf(),
        drawing.ok(),
        k < drawing.items@.len(),
        model_space(drawing.layers@.len() as int) <= u64::MAX,
        numbered(*old(dxf), *old(h)),
    ensures
        final(dxf).wf(),
        numbered(*final(dxf), *final(h)),
        sheet_of(*final(dxf), *final(h)) == with_item(
            sheet_of(*old(dxf), *old(h)),
            *drawing,
            drawing.items@[k as int]@,
        ),
{
    let ghost sheet = sheet_of(*dxf, *h);
    let layers = &drawing.layers;
    let owner: u64 = 19 + layers.len() as u64;
    assert(item_ok(
        drawing.items@[k as int]@,
        drawing.layers@.len() as int,
        drawing.blocks@.len() as int,
    ));
    match &drawing.items[k] {
        Item::Outline(outline) => {
            spline_outline(dxf, h, owner, &layers[outline.layer], outline);
        },
        Item::Array(array) => {
            let class = if array.columns > 1 || array.rows > 1 {
                "AcDbMInsertBlock"
            } else {
                "AcDbBlockReference"
            };
            entity_head(dxf, h, "INSERT", owner, &layers[array.layer], class);
            dxf.array(array, &drawing.blocks);
            assert(dxf.groups@ =~= sheet.groups + (entity_groups(
                "INSERT"@,
                h.last as int,
                owner as int,
                layers@[array.layer as int],
                class@,
            ) + array_groups(*array, drawing.blocks@)));
        },
    }
}

fn write_dictionary(dxf: &mut Dxf, kind: &str, own: u64, owner: u64)
    requires
        old(dxf).wf(),
    ensures
        final(dxf).wf(),
        final(dxf).groups@ == old(dxf).groups@ + dictionary(kind@, own as int, owner as int),
{
    dxf.pair(0, kind);
    dxf.pair_handle(5, own);
    dxf.pair_handle(330, owner);
    dxf.pair(100, "AcDbDictionary");
    dxf.pair_int(281, 1);
    assert(dxf.groups@ =~= old(dxf).groups@ + dictionary(kind@, own as int, owner as int));
}

/// The objects section and the end of the file.
fn write_objects(dxf: &mut Dxf, root: u64)
    requires
        old(dxf).wf(),
        root < u64::MAX,
    ensures
        final(dxf).wf(),
        final(dxf).groups@ == old(dxf).groups@ + objects(root as int),
{
    let ghost base = dxf.groups@;
    start_section(dxf, "OBJECTS");
    write_dictionary(dxf, "DICTIONARY", root, 0);
    dxf.pair(3, "ACAD_GROUP");
    dxf.pair_handle(350, root + 1);
    dxf.pair(3, "ACAD_PLOTSTYLENAME");
    dxf.pair_handle(350, 10);
    let ghost first = section("OBJECTS"@) + dictionary("DICTIONARY"@, root as int, 0) + seq![
        text(3, "ACAD_GROUP"@),
        handle(350, root + 1),
        text(3, "ACAD_PLOTSTYLENAME"@),
        handle(350, 10),
    ];
    assert(dxf.groups@ =~= base + first);
    write_dictionary(dxf, "DICTIONARY", root + 1, root);
    write_dictionary(dxf, "ACDBDICTIONARYWDFLT", 10, root);
    let ghost second = first + dictionary("DICTIONARY"@, root + 1, root as int) + dictionary(
        "ACDBDICTIONARYWDFLT"@,
        10,
        root as int,
    );
    assert(dxf.groups@ =~= base + second);
    dxf.pair(3, "Normal");
    dxf.pair_handle(350, 11);
    dxf.pair(100, "AcDbDictionaryWithDefault");
    dxf.pair_handle(340, 11);
    let ghost third = second + seq![
        text(3, "Normal"@),
        handle(350, 11),
        text(100, "AcDbDictionaryWithDefault"@),
        handle(340, 11),
    ];
    assert(dxf.groups@ =~= base + third);
    dxf.pair(0, "ACDBPLACEHOLDER");
    dxf.pair_handle(5, 11);
    dxf.pair_handle(330, 10);
    end_section(dxf);
    dxf.pair(0, "EOF");
    assert(dxf.groups@ =~= base + objects(root as int));
}

/// The section that comes first, with the first handle not taken.
fn write_head(page: &Page, seed: u64) -> (first: Dxf)
    requires
        page.ok(),
    ensures
        first.wf(),
        first.groups@ == head(seed as int, page.width as int, page.height as int),
{
    let mut first = Dxf::new();
    start_section(&mut first, "HEADER");
    first.pair(9, "$ACADVER");
    first.pair(1, "AC1015");
    first.pair(9, "$HANDSEED");
    first.pair_handle(5, seed);
    first.pair(9, "$INSUNITS");
    first.pair_int(70, 0);
    extents(&mut first, page);
    end_section(&mut first);
    assert(first.groups@ =~= head(seed as int, page.width as int, page.height as int));
    first
}

/// The R2000 file of the spline mode.
#[verifier::spinoff_prover]
#[verifier::rlimit(60)]
pub fn r2000(page: &Page, drawing: &Drawing) -> (file: String)
    requires
        page.ok(),
        drawing.ok(),
    ensures
        file@ == render(r2000_groups(page.width as int, page.height as int, *drawing)),
{
    let ghost goal = body(*drawing);
    let layers: u64 = drawing.layers.len() as u64;
    let blocks: u64 = drawing.blocks.len() as u64;
    let mut dxf = Dxf::new();
    symbol_tables(&mut dxf, &drawing.layers, &drawing.blocks);
    start_section(&mut dxf, "BLOCKS");
    proof {
        lemma_layer_list_len(drawing.layers@, drawing.layers@.len());
        lemma_record_list_len(
            drawing.blocks@,
            drawing.layers@.len() as int,
            2 + drawing.blocks@.len(),
        );
    }
    let size: usize = dxf.size();
    assert(layers + blocks <= size / 4);
    let mut h = Handles { last: 20 + layers + blocks };
    let ghost start = sheet_of(dxf, h);
    let ghost blocked = with_blocks(start, *drawing, 2 + drawing.blocks@.len());
    let ghost opened = Sheet {
        groups: blocked.groups + (section_end() + section("ENTITIES"@)),
        last: blocked.last,
    };
    let ghost drawn = with_items(opened, *drawing, drawing.items@.len());
    assert(goal.last == drawn.last + 2);
    let mut k: u64 = 0;
    while k < 2 + blocks
        invariant
            blocks == drawing.blocks@.len(),
            layers == drawing.layers@.len(),
            layers + blocks + 30 <= u64::MAX,
            k <= 2 + blocks,
            drawing.ok(),
            dxf.wf(),
            numbered(dxf, h),
            blocked == with_blocks(start, *drawing, 2 + drawing.blocks@.len()),
            sheet_of(dxf, h) == with_blocks(start, *drawing, k as nat),
        decreases 2 + blocks - k,
    {
        write_block(&mut dxf, &mut h, drawing, k);
        k = k + 1;
    }
    let ghost before = dxf.groups@;
    end_section(&mut dxf);
    start_section(&mut dxf, "ENTITIES");
    assert(dxf.groups@ =~= before + (section_end() + section("ENTITIES"@)));
    assert(sheet_of(dxf, h) == opened);
    let mut k: usize = 0;
    while k < drawing.items.len()
        invariant
            layers == drawing.layers@.len(),
            layers + 30 <= u64::MAX,
            k <= drawing.items@.len(),
            drawing.ok(),
            dxf.wf(),
            numbered(dxf, h),
            drawn == with_items(opened, *drawing, drawing.items@.len()),
            sheet_of(dxf, h) == with_items(opened, *drawing, k as nat),
        decreases drawing.items@.len() - k,
    {
        write_item(&mut dxf, &mut h, drawing, k);
        k = k + 1;
    }
    let ghost before = dxf.groups@;
    end_section(&mut dxf);
    let size: usize = dxf.size();
    assert(h.last <= size / 4 + 20);
    let root = h.next();
    let groups = h.next();
    write_objects(&mut dxf, root);
    assert(dxf.groups@ =~= before + (section_end() + objects(root as int)));
    assert(sheet_of(dxf, h) == goal);
    let seed = h.next();
    let first = write_head(page, seed);
    proof {
        lemma_render_adds(first.groups@, dxf.groups@);
    }
    let mut file = first.text;
    file.append(dxf.text.as_str());
    file
}

} // verus!
