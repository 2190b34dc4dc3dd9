//! What every entity of a file carries, and the layers a file lists: both
//! versions show one drawing.
use crate::dxf::drawing::{Block, Drawing, ItemView, Layer};
use crate::dxf::flatten::Refusal;
use crate::dxf::lines::{
    array_groups, block_head, block_lines, block_tail, extents_groups, head12, header12,
    item_layer, item_lines, layer12, layers12, linetypes12, outline_lines, paint_groups,
    polyline_groups, r12_lines, section, section_end, vertex_groups, with_groups,
    with_item_lines, with_polyline, Lines,
};
use crate::dxf::outline::{Outline, OutlineView, Piece};
use crate::dxf::pairs::{int_group, point2, point3, text, Group, Value};
use crate::dxf::sheet::{
    application_table, block_begin, block_end, block_outlines, body, closed_pieces, control_list,
    dimension_table, empty_table, end_table, ends, entity_groups, from_point, head, is_cubic,
    knot_list, knot_repeats, layer_groups, layer_list, lemma_run_end, linetype_table, objects, point2_list, polyline_body, r2000_groups, record_list, record_table,
    run_end, spline_body, straight_points, style_table, table_groups, tables, with_block,
    with_blocks, with_item, with_items, with_outline, with_outlines, with_run, with_runs, Place,
    Sheet,
};
use crate::geometry::Xy;
use vstd::prelude::*;

verus! {

/// Where a version of the format says what: how many groups behind its kind an
/// entity's layer stands, whether it has the exact colour, and how many
/// groups behind its kind a listed layer's name and index stand.
pub struct Version {
    pub lead: int,
    pub exact: bool,
    pub name: int,
    pub index: int,
}

pub open spec fn r12_version() -> Version {
    Version { lead: 1, exact: false, name: 1, index: 3 }
}

pub open spec fn r2000_version() -> Version {
    Version { lead: 4, exact: true, name: 5, index: 7 }
}

/// The group starts something of this kind.
pub open spec fn starts(g: Group, kind: Seq<char>) -> bool {
    g.code == 0 && g.value == Value::Text(kind)
}

/// The group starts an entity that draws.
pub open spec fn is_entity(g: Group) -> bool {
    ||| starts(g, "POLYLINE"@)
    ||| starts(g, "LWPOLYLINE"@)
    ||| starts(g, "SPLINE"@)
    ||| starts(g, "INSERT"@)
}

/// The group starts a layer of the layer table.
pub open spec fn is_layer(g: Group) -> bool {
    starts(g, "LAYER"@)
}

/// The entity that starts at `i` carries the layer's name and index and, where
/// the version has it, its exact colour.
pub open spec fn carries(groups: Seq<Group>, i: int, layer: Layer, v: Version) -> bool {
    let at = i + v.lead;
    &&& at + 1 < groups.len()
    &&& groups[at] == text(8, layer.name@)
    &&& groups[at + 1] == int_group(62, layer.index as int)
    &&& v.exact ==> at + 2 < groups.len() && groups[at + 2] == int_group(
        420,
        layer.colour as int,
    )
}

pub open spec fn carries_one(groups: Seq<Group>, i: int, layers: Seq<Layer>, v: Version) -> bool {
    exists|k: int| 0 <= k < layers.len() && carries(groups, i, #[trigger] layers[k], v)
}

/// Every entity carries one of `layers`, and exact colours are there only
/// where the version has them.
pub open spec fn paints(groups: Seq<Group>, layers: Seq<Layer>, v: Version) -> bool {
    forall|i: int|
        0 <= i < groups.len() ==> {
            &&& (#[trigger] groups[i]).code == 420 ==> v.exact
            &&& is_entity(groups[i]) ==> carries_one(groups, i, layers, v)
        }
}

pub open spec fn no_layer(groups: Seq<Group>) -> bool {
    forall|i: int| 0 <= i < groups.len() ==> !is_layer(#[trigger] groups[i])
}

/// `after` is `before` with more behind it: painted entities, no layers.
pub open spec fn adds_painted(
    before: Seq<Group>,
    after: Seq<Group>,
    layers: Seq<Layer>,
    v: Version,
) -> bool {
    let added = after.subrange(before.len() as int, after.len() as int);
    &&& before.len() <= after.len()
    &&& after == before + added
    &&& paints(added, layers, v)
    &&& no_layer(added)
}

/// The layers that the first `n` groups list, in their order: each its name
/// and its index.
pub open spec fn listed(groups: Seq<Group>, v: Version, n: nat) -> Seq<(Value, Value)>
    decreases n,
{
    if n == 0 {
        Seq::empty()
    } else {
        let before = listed(groups, v, (n - 1) as nat);
        if is_layer(groups[n - 1]) {
            before.push((groups[n - 1 + v.name].value, groups[n - 1 + v.index].value))
        } else {
            before
        }
    }
}

/// Layer 0, which every file has, and the first `n` of `layers`.
pub open spec fn layer_values(layers: Seq<Layer>, n: nat) -> Seq<(Value, Value)>
    decreases n,
{
    if n == 0 {
        seq![(Value::Text("0"@), Value::Int(7))]
    } else {
        layer_values(layers, (n - 1) as nat).push(
            (Value::Text(layers[n - 1].name@), Value::Int(layers[n - 1].index as int)),
        )
    }
}

/// The last layer is listed whole.
spec fn whole(groups: Seq<Group>, v: Version) -> bool {
    forall|i: int|
        0 <= i < groups.len() && is_layer(#[trigger] groups[i]) ==> i + v.index < groups.len()
}

spec fn fits(v: Version) -> bool {
    v == r12_version() || v == r2000_version()
}

/// The group starts no entity and no layer, and is no exact colour.
spec fn calm(g: Group) -> bool {
    !is_entity(g) && !is_layer(g) && g.code != 420
}

spec fn all_calm(groups: Seq<Group>) -> bool {
    forall|i: int| 0 <= i < groups.len() ==> calm(#[trigger] groups[i])
}

spec fn good(groups: Seq<Group>, layers: Seq<Layer>, v: Version) -> bool {
    &&& paints(groups, layers, v)
    &&& whole(groups, v)
    &&& listed(groups, v, groups.len()) == layer_values(layers, layers.len())
}

proof fn lemma_kinds()
    ensures
        calm(text(0, "SECTION"@)),
        calm(text(0, "ENDSEC"@)),
        calm(text(0, "TABLE"@)),
        calm(text(0, "ENDTAB"@)),
        calm(text(0, "LTYPE"@)),
        calm(text(0, "STYLE"@)),
        calm(text(0, "APPID"@)),
        calm(text(0, "DIMSTYLE"@)),
        calm(text(0, "BLOCK_RECORD"@)),
        calm(text(0, "BLOCK"@)),
        calm(text(0, "ENDBLK"@)),
        calm(text(0, "VERTEX"@)),
        calm(text(0, "SEQEND"@)),
        calm(text(0, "DICTIONARY"@)),
        calm(text(0, "ACDBDICTIONARYWDFLT"@)),
        calm(text(0, "ACDBPLACEHOLDER"@)),
        calm(text(0, "EOF"@)),
        !is_entity(text(0, "LAYER"@)),
        !is_layer(text(0, "POLYLINE"@)),
        !is_layer(text(0, "LWPOLYLINE"@)),
        !is_layer(text(0, "SPLINE"@)),
        !is_layer(text(0, "INSERT"@)),
{
    reveal_strlit("POLYLINE");
    reveal_strlit("LWPOLYLINE");
    reveal_strlit("SPLINE");
    reveal_strlit("INSERT");
    reveal_strlit("LAYER");
    reveal_strlit("SECTION");
    reveal_strlit("ENDSEC");
    reveal_strlit("TABLE");
    reveal_strlit("ENDTAB");
    reveal_strlit("LTYPE");
    reveal_strlit("STYLE");
    reveal_strlit("APPID");
    reveal_strlit("DIMSTYLE");
    reveal_strlit("BLOCK_RECORD");
    reveal_strlit("BLOCK");
    reveal_strlit("ENDBLK");
    reveal_strlit("VERTEX");
    reveal_strlit("SEQEND");
    reveal_strlit("DICTIONARY");
    reveal_strlit("ACDBDICTIONARYWDFLT");
    reveal_strlit("ACDBPLACEHOLDER");
    reveal_strlit("EOF");
    assert("POLYLINE"@.len() == 8 && "POLYLINE"@[0] == 'P');
    assert("LWPOLYLINE"@.len() == 10 && "LWPOLYLINE"@[0] == 'L');
    assert("SPLINE"@.len() == 6 && "SPLINE"@[1] == 'P');
    assert("INSERT"@.len() == 6 && "INSERT"@[1] == 'N' && "INSERT"@[0] == 'I');
    assert("LAYER"@.len() == 5 && "LAYER"@[1] == 'A' && "LAYER"@[0] == 'L');
    assert("SECTION"@.len() == 7);
    assert("ENDSEC"@.len() == 6 && "ENDSEC"@[0] == 'E' && "ENDSEC"@[1] == 'N');
    assert("TABLE"@.len() == 5 && "TABLE"@[0] == 'T');
    assert("ENDTAB"@.len() == 6 && "ENDTAB"@[0] == 'E' && "ENDTAB"@[1] == 'N');
    assert("LTYPE"@.len() == 5 && "LTYPE"@[1] == 'T');
    assert("STYLE"@.len() == 5 && "STYLE"@[0] == 'S');
    assert("APPID"@.len() == 5 && "APPID"@[0] == 'A');
    assert("DIMSTYLE"@.len() == 8 && "DIMSTYLE"@[0] == 'D');
    assert("BLOCK_RECORD"@.len() == 12);
    assert("BLOCK"@.len() == 5 && "BLOCK"@[0] == 'B');
    assert("ENDBLK"@.len() == 6 && "ENDBLK"@[0] == 'E' && "ENDBLK"@[1] == 'N');
    assert("VERTEX"@.len() == 6 && "VERTEX"@[0] == 'V' && "VERTEX"@[1] == 'E');
    assert("SEQEND"@.len() == 6 && "SEQEND"@[1] == 'E');
    assert("DICTIONARY"@.len() == 10 && "DICTIONARY"@[0] == 'D');
    assert("ACDBDICTIONARYWDFLT"@.len() == 19);
    assert("ACDBPLACEHOLDER"@.len() == 15);
    assert("EOF"@.len() == 3);
}

proof fn lemma_calm_adds(a: Seq<Group>, b: Seq<Group>)
    requires
        all_calm(a),
        all_calm(b),
    ensures
        all_calm(a + b),
{
    assert forall|i: int| 0 <= i < (a + b).len() implies calm(#[trigger] (a + b)[i]) by {
        if i < a.len() {
            assert((a + b)[i] == a[i]);
        } else {
            assert((a + b)[i] == b[i - a.len()]);
        }
    }
}

proof fn lemma_calm_paints(a: Seq<Group>, layers: Seq<Layer>, v: Version)
    requires
        all_calm(a),
    ensures
        paints(a, layers, v),
        no_layer(a),
{
}

proof fn lemma_carries_moved(
    part: Seq<Group>,
    all: Seq<Group>,
    by: int,
    i: int,
    layers: Seq<Layer>,
    v: Version,
)
    requires
        fits(v),
        0 <= i,
        0 <= by,
        by + part.len() <= all.len(),
        forall|j: int| 0 <= j < part.len() ==> #[trigger] part[j] == all[j + by],
        carries_one(part, i, layers, v),
    ensures
        carries_one(all, i + by, layers, v),
{
    let k = choose|k: int| 0 <= k < layers.len() && carries(part, i, #[trigger] layers[k], v);
    let at = i + v.lead;
    assert(part[at] == all[at + by]);
    assert(part[at + 1] == all[at + 1 + by]);
    if v.exact {
        assert(part[at + 2] == all[at + 2 + by]);
    }
    assert(carries(all, i + by, layers[k], v));
}

proof fn lemma_paints_adds(a: Seq<Group>, b: Seq<Group>, layers: Seq<Layer>, v: Version)
    requires
        fits(v),
        paints(a, layers, v),
        paints(b, layers, v),
    ensures
        paints(a + b, layers, v),
{
    let all = a + b;
    assert forall|i: int| 0 <= i < all.len() implies {
        &&& (#[trigger] all[i]).code == 420 ==> v.exact
        &&& is_entity(all[i]) ==> carries_one(all, i, layers, v)
    } by {
        if i < a.len() {
            assert(all[i] == a[i]);
            if is_entity(all[i]) {
                lemma_carries_moved(a, all, 0, i, layers, v);
            }
        } else {
            assert(all[i] == b[i - a.len()]);
            if is_entity(all[i]) {
                assert forall|j: int| 0 <= j < b.len() implies #[trigger] b[j] == all[j
                    + a.len()] by {}
                lemma_carries_moved(b, all, a.len() as int, i - a.len(), layers, v);
            }
        }
    }
}

proof fn lemma_no_layer_adds(a: Seq<Group>, b: Seq<Group>)
    requires
        no_layer(a),
        no_layer(b),
    ensures
        no_layer(a + b),
{
    assert forall|i: int| 0 <= i < (a + b).len() implies !is_layer(#[trigger] (a + b)[i]) by {
        if i < a.len() {
            assert((a + b)[i] == a[i]);
        } else {
            assert((a + b)[i] == b[i - a.len()]);
        }
    }
}

/// A layer of some is one of more.
proof fn lemma_paints_among(
    groups: Seq<Group>,
    few: Seq<Layer>,
    layers: Seq<Layer>,
    v: Version,
)
    requires
        paints(groups, few, v),
        forall|k: int| 0 <= k < few.len() ==> layers.contains(#[trigger] few[k]),
    ensures
        paints(groups, layers, v),
{
    assert forall|i: int| 0 <= i < groups.len() && is_entity(#[trigger] groups[i]) implies
        carries_one(groups, i, layers, v) by {
        let k = choose|k: int| 0 <= k < few.len() && carries(groups, i, #[trigger] few[k], v);
        let m = choose|m: int| 0 <= m < layers.len() && layers[m] == few[k];
        assert(carries(groups, i, layers[m], v));
    }
}

proof fn lemma_step(before: Seq<Group>, added: Seq<Group>, layers: Seq<Layer>, v: Version)
    requires
        paints(added, layers, v),
        no_layer(added),
    ensures
        adds_painted(before, before + added, layers, v),
{
    let after = before + added;
    assert(after.subrange(before.len() as int, after.len() as int) =~= added);
}

proof fn lemma_stay(groups: Seq<Group>, layers: Seq<Layer>, v: Version)
    ensures
        adds_painted(groups, groups, layers, v),
{
    let none = groups.subrange(groups.len() as int, groups.len() as int);
    assert(none.len() == 0);
    assert(groups =~= groups + none);
}

proof fn lemma_chain(
    a: Seq<Group>,
    b: Seq<Group>,
    c: Seq<Group>,
    layers: Seq<Layer>,
    v: Version,
)
    requires
        fits(v),
        adds_painted(a, b, layers, v),
        adds_painted(b, c, layers, v),
    ensures
        adds_painted(a, c, layers, v),
{
    let x = b.subrange(a.len() as int, b.len() as int);
    let y = c.subrange(b.len() as int, c.len() as int);
    lemma_paints_adds(x, y, layers, v);
    lemma_no_layer_adds(x, y);
    assert(c.subrange(a.len() as int, c.len() as int) =~= x + y);
    assert(c =~= a + (x + y));
}

proof fn lemma_adds_among(
    a: Seq<Group>,
    b: Seq<Group>,
    few: Seq<Layer>,
    layers: Seq<Layer>,
    v: Version,
)
    requires
        adds_painted(a, b, few, v),
        forall|k: int| 0 <= k < few.len() ==> layers.contains(#[trigger] few[k]),
    ensures
        adds_painted(a, b, layers, v),
{
    lemma_paints_among(b.subrange(a.len() as int, b.len() as int), few, layers, v);
}

proof fn lemma_listed_adds(a: Seq<Group>, b: Seq<Group>, v: Version, m: nat)
    requires
        fits(v),
        whole(a, v),
        whole(b, v),
        m <= b.len(),
    ensures
        listed(a + b, v, a.len() + m) == listed(a, v, a.len()) + listed(b, v, m),
        whole(a + b, v),
    decreases m,
{
    let all = a + b;
    assert forall|i: int| 0 <= i < all.len() && is_layer(#[trigger] all[i]) implies i + v.index
        < all.len() by {
        if i < a.len() {
            assert(all[i] == a[i]);
        } else {
            assert(all[i] == b[i - a.len()]);
        }
    }
    if m > 0 {
        lemma_listed_adds(a, b, v, (m - 1) as nat);
        assert(all[a.len() + m - 1] == b[m - 1]);
        if is_layer(b[m - 1]) {
            assert(all[a.len() + m - 1 + v.name] == b[m - 1 + v.name]);
            assert(all[a.len() + m - 1 + v.index] == b[m - 1 + v.index]);
        }
        assert(listed(all, v, a.len() + m) =~= listed(a, v, a.len()) + listed(b, v, m));
    } else {
        lemma_listed_front(a, b, v, a.len());
        assert(listed(a, v, a.len()) + listed(b, v, 0) =~= listed(a, v, a.len()));
    }
}

proof fn lemma_listed_front(a: Seq<Group>, b: Seq<Group>, v: Version, n: nat)
    requires
        fits(v),
        whole(a, v),
        n <= a.len(),
    ensures
        listed(a + b, v, n) == listed(a, v, n),
    decreases n,
{
    if n > 0 {
        lemma_listed_front(a, b, v, (n - 1) as nat);
        assert((a + b)[n - 1] == a[n - 1]);
        if is_layer(a[n - 1]) {
            assert((a + b)[n - 1 + v.name] == a[n - 1 + v.name]);
            assert((a + b)[n - 1 + v.index] == a[n - 1 + v.index]);
        }
    }
}

proof fn lemma_listed_none(a: Seq<Group>, v: Version, n: nat)
    requires
        no_layer(a),
        n <= a.len(),
    ensures
        listed(a, v, n) == Seq::<(Value, Value)>::empty(),
        whole(a, v),
    decreases n,
{
    if n > 0 {
        lemma_listed_none(a, v, (n - 1) as nat);
    }
}

/// Of groups of which the first alone starts a layer.
proof fn lemma_listed_one(a: Seq<Group>, v: Version, n: nat)
    requires
        fits(v),
        v.index < a.len(),
        0 < n <= a.len(),
        is_layer(a[0]),
        forall|i: int| 0 < i < a.len() ==> !is_layer(#[trigger] a[i]),
    ensures
        listed(a, v, n) == seq![(a[v.name].value, a[v.index].value)],
        whole(a, v),
    decreases n,
{
    if n > 1 {
        lemma_listed_one(a, v, (n - 1) as nat);
    } else {
        assert(listed(a, v, 0) == Seq::<(Value, Value)>::empty());
        assert(listed(a, v, 1) =~= seq![(a[v.name].value, a[v.index].value)]);
    }
}

/// Painted entities behind a good file leave it good.
proof fn lemma_good_grows(a: Seq<Group>, b: Seq<Group>, layers: Seq<Layer>, v: Version)
    requires
        fits(v),
        good(a, layers, v),
        adds_painted(a, b, layers, v),
    ensures
        good(b, layers, v),
{
    let added = b.subrange(a.len() as int, b.len() as int);
    lemma_listed_none(added, v, added.len());
    lemma_listed_adds(a, added, v, added.len());
    assert(listed(a, v, a.len()) + listed(added, v, added.len()) =~= listed(a, v, a.len()));
    lemma_paints_adds(a, added, layers, v);
}

/// Calm groups before and behind a list of layers leave its layers.
proof fn lemma_good_around(
    front: Seq<Group>,
    list: Seq<Group>,
    back: Seq<Group>,
    layers: Seq<Layer>,
    v: Version,
)
    requires
        fits(v),
        all_calm(front),
        all_calm(back),
        good(list, layers, v),
    ensures
        good(front + list + back, layers, v),
{
    lemma_calm_paints(front, layers, v);
    lemma_calm_paints(back, layers, v);
    lemma_listed_none(front, v, front.len());
    lemma_listed_adds(front, list, v, list.len());
    lemma_paints_adds(front, list, layers, v);
    assert(listed(front, v, front.len()) + listed(list, v, list.len()) =~= listed(
        list,
        v,
        list.len(),
    ));
    lemma_step(front + list, back, layers, v);
    lemma_good_grows(front + list, front + list + back, layers, v);
}

/// One layer more at the end of a list.
proof fn lemma_good_layer(
    list: Seq<Group>,
    entry: Seq<Group>,
    values: Seq<(Value, Value)>,
    name: Seq<char>,
    index: int,
    layers: Seq<Layer>,
    v: Version,
)
    requires
        fits(v),
        paints(list, layers, v),
        whole(list, v),
        listed(list, v, list.len()) == values,
        v.index < entry.len(),
        entry[0] == text(0, "LAYER"@),
        entry[v.name] == text(2, name),
        entry[v.index] == int_group(62, index),
        forall|i: int| 0 < i < entry.len() ==> calm(#[trigger] entry[i]),
    ensures
        paints(list + entry, layers, v),
        whole(list + entry, v),
        listed(list + entry, v, (list + entry).len()) == values.push(
            (Value::Text(name), Value::Int(index)),
        ),
{
    lemma_kinds();
    assert(is_layer(entry[0]));
    lemma_listed_one(entry, v, entry.len());
    lemma_listed_adds(list, entry, v, entry.len());
    assert(paints(entry, layers, v)) by {
        assert forall|i: int| 0 <= i < entry.len() implies {
            &&& (#[trigger] entry[i]).code == 420 ==> v.exact
            &&& is_entity(entry[i]) ==> carries_one(entry, i, layers, v)
        } by {
            if i > 0 {
                assert(calm(entry[i]));
            }
        }
    }
    lemma_paints_adds(list, entry, layers, v);
    assert(values + seq![(Value::Text(name), Value::Int(index))] =~= values.push(
        (Value::Text(name), Value::Int(index)),
    ));
}

proof fn lemma_points(code: int, p: Xy)
    requires
        0 < code < 100,
    ensures
        all_calm(point2(code, p)),
        all_calm(point3(code, p)),
{
}

proof fn lemma_extents(width: int, height: int)
    ensures
        all_calm(extents_groups(width, height)),
{
    let corner = Xy { x: width as i64, y: height as i64 };
    let zero = crate::dxf::lines::origin();
    lemma_points(10, corner);
    lemma_points(10, zero);
    let a = seq![text(9, "$INSBASE"@)] + point3(10, zero);
    let b = a + seq![text(9, "$EXTMIN"@)] + point3(10, zero);
    let c = b + seq![text(9, "$EXTMAX"@)] + point3(10, corner);
    let d = c + seq![text(9, "$LIMMIN"@)] + point2(10, zero);
    assert(all_calm(a));
    assert(all_calm(b));
    assert(all_calm(c));
    assert(all_calm(d));
    lemma_calm_adds(d, seq![text(9, "$LIMMAX"@)]);
    lemma_calm_adds(d + seq![text(9, "$LIMMAX"@)], point2(10, corner));
}

proof fn lemma_sections(name: Seq<char>)
    ensures
        all_calm(section(name)),
        all_calm(section_end()),
{
    lemma_kinds();
}

proof fn lemma_array(array: crate::dxf::drawing::Array, blocks: Seq<Block>)
    ensures
        all_calm(array_groups(array, blocks)),
{
    lemma_points(10, array.at);
}

// The older version.

proof fn lemma_layers12(layers: Seq<Layer>, n: nat)
    requires
        n <= layers.len(),
    ensures
        paints(layers12(layers, n), layers, r12_version()),
        whole(layers12(layers, n), r12_version()),
        listed(layers12(layers, n), r12_version(), layers12(layers, n).len()) == layer_values(
            layers,
            n,
        ),
    decreases n,
{
    let v = r12_version();
    if n == 0 {
        let none = Seq::<Group>::empty();
        lemma_good_layer(none, layer12("0"@, 7), Seq::empty(), "0"@, 7, layers, v);
        assert(none + layer12("0"@, 7) =~= layer12("0"@, 7));
        assert(Seq::<(Value, Value)>::empty().push((Value::Text("0"@), Value::Int(7)))
            =~= seq![(Value::Text("0"@), Value::Int(7))]);
    } else {
        lemma_layers12(layers, (n - 1) as nat);
        let layer = layers[n - 1];
        lemma_good_layer(
            layers12(layers, (n - 1) as nat),
            layer12(layer.name@, layer.index as int),
            layer_values(layers, (n - 1) as nat),
            layer.name@,
            layer.index as int,
            layers,
            v,
        );
    }
}

proof fn lemma_head12(width: int, height: int, layers: Seq<Layer>)
    ensures
        good(head12(width, height, layers) + section("BLOCKS"@), layers, r12_version()),
{
    let v = r12_version();
    lemma_kinds();
    lemma_extents(width, height);
    lemma_sections("HEADER"@);
    lemma_sections("TABLES"@);
    lemma_sections("BLOCKS"@);
    lemma_layers12(layers, layers.len());
    let mark = seq![text(9, "$ACADVER"@), text(1, "AC1009"@)];
    assert(all_calm(mark));
    lemma_calm_adds(section("HEADER"@), mark);
    lemma_calm_adds(section("HEADER"@) + mark, extents_groups(width, height));
    lemma_calm_adds(
        section("HEADER"@) + mark + extents_groups(width, height),
        section_end(),
    );
    lemma_calm_adds(header12(width, height), section("TABLES"@));
    assert(all_calm(linetypes12()));
    lemma_calm_adds(header12(width, height) + section("TABLES"@), linetypes12());
    let first = header12(width, height) + section("TABLES"@) + linetypes12();
    let table = seq![
        text(0, "TABLE"@),
        text(2, "LAYER"@),
        int_group(70, layers.len() as int + 1),
    ];
    assert(all_calm(table));
    lemma_calm_adds(first, table);
    let list = layers12(layers, layers.len());
    let end = seq![text(0, "ENDTAB"@)];
    assert(all_calm(end));
    lemma_calm_adds(end, section_end());
    lemma_calm_adds(end + section_end(), section("BLOCKS"@));
    let back = end + section_end() + section("BLOCKS"@);
    lemma_good_around(first + table, list, back, layers, v);
    assert(head12(width, height, layers) + section("BLOCKS"@) =~= (first + table) + list + back);
}

proof fn lemma_vertices(name: Seq<char>, points: Seq<Xy>, n: nat)
    ensures
        all_calm(vertex_groups(name, points, n)),
    decreases n,
{
    if n > 0 {
        lemma_vertices(name, points, (n - 1) as nat);
        lemma_kinds();
        lemma_points(10, points[n - 1]);
        let start = seq![text(0, "VERTEX"@), text(8, name)];
        assert(all_calm(start));
        lemma_calm_adds(start, point3(10, points[n - 1]));
        lemma_calm_adds(
            vertex_groups(name, points, (n - 1) as nat),
            start + point3(10, points[n - 1]),
        );
    }
}

/// An entity whose paint stands where the version has it, with calm groups
/// around.
proof fn lemma_entity(groups: Seq<Group>, layer: Layer, v: Version)
    requires
        fits(v),
        groups.len() > 0,
        carries(groups, 0, layer, v),
        !is_layer(groups[0]),
        groups[0].code == 0,
        forall|i: int|
            0 < i < groups.len() ==> !is_entity(#[trigger] groups[i]) && !is_layer(groups[i]) && (
            groups[i].code == 420 ==> v.exact),
    ensures
        paints(groups, seq![layer], v),
        no_layer(groups),
{
    let one = seq![layer];
    assert(carries(groups, 0, one[0], v));
    assert(carries_one(groups, 0, one, v));
}

proof fn lemma_polyline12(layer: Layer, closed: bool, points: Seq<Xy>)
    ensures
        paints(polyline_groups(layer, closed, points), seq![layer], r12_version()),
        no_layer(polyline_groups(layer, closed, points)),
{
    if points.len() >= 2 {
        lemma_kinds();
        lemma_points(10, crate::dxf::lines::origin());
        lemma_vertices(layer.name@, points, points.len());
        let kind = seq![text(0, "POLYLINE"@)];
        let paint = paint_groups(layer, false);
        let origin = point3(10, crate::dxf::lines::origin());
        let flag = seq![
            int_group(
                70,
                if closed {
                    1
                } else {
                    0
                },
            ),
        ];
        let end = seq![text(0, "SEQEND"@), text(8, layer.name@)];
        let rest = seq![int_group(66, 1)] + origin + flag + vertex_groups(
            layer.name@,
            points,
            points.len(),
        ) + end;
        assert(all_calm(seq![int_group(66, 1)]));
        assert(all_calm(flag));
        assert(all_calm(end));
        assert(all_calm(paint));
        lemma_calm_adds(seq![int_group(66, 1)], origin);
        lemma_calm_adds(seq![int_group(66, 1)] + origin, flag);
        lemma_calm_adds(
            seq![int_group(66, 1)] + origin + flag,
            vertex_groups(layer.name@, points, points.len()),
        );
        lemma_calm_adds(
            seq![int_group(66, 1)] + origin + flag + vertex_groups(
                layer.name@,
                points,
                points.len(),
            ),
            end,
        );
        lemma_calm_adds(paint, rest);
        let groups = polyline_groups(layer, closed, points);
        assert(groups =~= kind + (paint + rest));
        assert forall|i: int| 0 < i < groups.len() implies calm(#[trigger] groups[i]) by {
            assert(groups[i] == (paint + rest)[i - 1]);
        }
        assert(groups[1] == paint[0] && groups[2] == paint[1]);
        lemma_entity(groups, layer, r12_version());
    }
}

/// What lines, where there are any, have grown by.
spec fn lines_grow(
    before: Result<Lines, Refusal>,
    after: Result<Lines, Refusal>,
    layers: Seq<Layer>,
) -> bool {
    after matches Ok(b) ==> (before matches Ok(a) && adds_painted(
        a.groups,
        b.groups,
        layers,
        r12_version(),
    ))
}

proof fn lemma_lines_chain(
    a: Result<Lines, Refusal>,
    b: Result<Lines, Refusal>,
    c: Result<Lines, Refusal>,
    layers: Seq<Layer>,
)
    requires
        lines_grow(a, b, layers),
        lines_grow(b, c, layers),
    ensures
        lines_grow(a, c, layers),
{
    if c is Ok {
        lemma_chain(a->Ok_0.groups, b->Ok_0.groups, c->Ok_0.groups, layers, r12_version());
    }
}

proof fn lemma_lines_calm(lines: Result<Lines, Refusal>, more: Seq<Group>, layers: Seq<Layer>)
    requires
        all_calm(more),
    ensures
        lines_grow(lines, with_groups(lines, more), layers),
{
    lemma_calm_paints(more, layers, r12_version());
    if let Ok(l) = lines {
        lemma_step(l.groups, more, layers, r12_version());
    }
}

/// An outline's lines are painted with its layer.
proof fn lemma_lines_outline(
    lines: Result<Lines, Refusal>,
    layers: Seq<Layer>,
    outline: OutlineView,
    tolerance: int,
)
    ensures
        lines_grow(
            lines,
            with_polyline(lines, layers, outline, tolerance),
            seq![layers[outline.layer]],
        ),
{
    let after = with_polyline(lines, layers, outline, tolerance);
    if let Ok(l) = lines {
        if let Ok(flat) = crate::dxf::flatten::flat_of(outline, tolerance, l.left) {
            let layer = layers[outline.layer];
            lemma_polyline12(layer, outline.closed, flat.points);
            lemma_step(
                l.groups,
                polyline_groups(layer, outline.closed, flat.points),
                seq![layer],
                r12_version(),
            );
        }
    }
}

proof fn lemma_lines_among(
    before: Result<Lines, Refusal>,
    after: Result<Lines, Refusal>,
    layer: int,
    layers: Seq<Layer>,
)
    requires
        0 <= layer < layers.len(),
        lines_grow(before, after, seq![layers[layer]]),
    ensures
        lines_grow(before, after, layers),
{
    if after is Ok {
        assert(layers.contains(layers[layer]));
        lemma_adds_among(
            before->Ok_0.groups,
            after->Ok_0.groups,
            seq![layers[layer]],
            layers,
            r12_version(),
        );
    }
}

proof fn lemma_lines_same(lines: Result<Lines, Refusal>, layers: Seq<Layer>)
    ensures
        lines_grow(lines, lines, layers),
{
    if let Ok(l) = lines {
        lemma_stay(l.groups, layers, r12_version());
    }
}

proof fn lemma_lines_list(
    lines: Result<Lines, Refusal>,
    layers: Seq<Layer>,
    list: Seq<Outline>,
    tolerance: int,
    n: nat,
)
    requires
        n <= list.len(),
        forall|k: int| 0 <= k < list.len() ==> (#[trigger] list[k]).layer < layers.len(),
    ensures
        lines_grow(lines, outline_lines(lines, layers, list, tolerance, n), layers),
    decreases n,
{
    if n == 0 {
        lemma_lines_same(lines, layers);
    } else {
        let before = outline_lines(lines, layers, list, tolerance, (n - 1) as nat);
        lemma_lines_list(lines, layers, list, tolerance, (n - 1) as nat);
        let o = list[n - 1]@;
        assert(list[n - 1].layer < layers.len());
        lemma_lines_outline(before, layers, o, tolerance);
        let after = with_polyline(before, layers, o, tolerance);
        lemma_lines_among(before, after, o.layer, layers);
        lemma_lines_chain(lines, before, after, layers);
    }
}

proof fn lemma_lines_blocks(
    lines: Result<Lines, Refusal>,
    drawing: Drawing,
    tolerance: int,
    n: nat,
)
    requires
        drawing.ok(),
        n <= drawing.blocks@.len(),
    ensures
        lines_grow(lines, block_lines(lines, drawing, tolerance, n), drawing.layers@),
    decreases n,
{
    let layers = drawing.layers@;
    if n == 0 {
        lemma_lines_same(lines, layers);
    } else {
        lemma_kinds();
        lemma_points(10, crate::dxf::lines::origin());
        let before = block_lines(lines, drawing, tolerance, (n - 1) as nat);
        lemma_lines_blocks(lines, drawing, tolerance, (n - 1) as nat);
        let block = drawing.blocks@[n - 1];
        let list = block.outlines@;
        assert(crate::dxf::drawing::block_ok(block, layers.len() as int));
        let first = seq![text(0, "BLOCK"@), text(8, "0"@), text(2, block.name@), int_group(70, 0)];
        assert(all_calm(first));
        lemma_calm_adds(first, point3(10, crate::dxf::lines::origin()));
        lemma_calm_adds(
            first + point3(10, crate::dxf::lines::origin()),
            seq![text(3, block.name@)],
        );
        assert(all_calm(block_tail()));
        let a = with_groups(before, block_head(block.name@));
        lemma_lines_calm(before, block_head(block.name@), layers);
        lemma_lines_list(a, layers, list, tolerance, list.len());
        let b = outline_lines(a, layers, list, tolerance, list.len());
        lemma_lines_calm(b, block_tail(), layers);
        lemma_lines_chain(before, a, b, layers);
        lemma_lines_chain(before, b, with_groups(b, block_tail()), layers);
        lemma_lines_chain(lines, before, with_groups(b, block_tail()), layers);
    }
}

proof fn lemma_lines_item(
    lines: Result<Lines, Refusal>,
    drawing: Drawing,
    tolerance: int,
    item: ItemView,
)
    ensures
        lines_grow(
            lines,
            with_item_lines(lines, drawing, tolerance, item),
            seq![drawing.layers@[item_layer(item)]],
        ),
{
    match item {
        ItemView::Outline(o) => {
            lemma_lines_outline(lines, drawing.layers@, o, tolerance);
        },
        ItemView::Array(a) => {
            lemma_kinds();
            let layer = drawing.layers@[a.layer as int];
            let paint = paint_groups(layer, false);
            let rest = array_groups(a, drawing.blocks@);
            let groups = seq![text(0, "INSERT"@)] + paint + rest;
            lemma_array(a, drawing.blocks@);
            assert(all_calm(paint));
            lemma_calm_adds(paint, rest);
            assert forall|i: int| 0 < i < groups.len() implies calm(#[trigger] groups[i]) by {
                assert(groups[i] == (paint + rest)[i - 1]);
            }
            assert(groups[1] == paint[0] && groups[2] == paint[1]);
            lemma_entity(groups, layer, r12_version());
            if let Ok(l) = lines {
                lemma_step(l.groups, groups, seq![layer], r12_version());
            }
        },
    }
}

proof fn lemma_lines_items(
    lines: Result<Lines, Refusal>,
    drawing: Drawing,
    tolerance: int,
    n: nat,
)
    requires
        drawing.ok(),
        n <= drawing.items@.len(),
    ensures
        lines_grow(lines, item_lines(lines, drawing, tolerance, n), drawing.layers@),
    decreases n,
{
    let layers = drawing.layers@;
    if n == 0 {
        lemma_lines_same(lines, layers);
    } else {
        let before = item_lines(lines, drawing, tolerance, (n - 1) as nat);
        lemma_lines_items(lines, drawing, tolerance, (n - 1) as nat);
        let item = drawing.items@[n - 1]@;
        assert(crate::dxf::drawing::item_ok(
            item,
            layers.len() as int,
            drawing.blocks@.len() as int,
        ));
        lemma_lines_item(before, drawing, tolerance, item);
        let after = with_item_lines(before, drawing, tolerance, item);
        lemma_lines_among(before, after, item_layer(item), layers);
        lemma_lines_chain(lines, before, after, layers);
    }
}

// The newer version.

proof fn lemma_layer_list(layers: Seq<Layer>, n: nat)
    requires
        n <= layers.len(),
    ensures
        paints(layer_list(layers, n), layers, r2000_version()),
        whole(layer_list(layers, n), r2000_version()),
        listed(layer_list(layers, n), r2000_version(), layer_list(layers, n).len())
            == layer_values(layers, n),
    decreases n,
{
    let v = r2000_version();
    if n == 0 {
        let none = Seq::<Group>::empty();
        let entry = layer_groups(15, "0"@, 7);
        lemma_good_layer(none, entry, Seq::empty(), "0"@, 7, layers, v);
        assert(none + entry =~= entry);
        assert(Seq::<(Value, Value)>::empty().push((Value::Text("0"@), Value::Int(7)))
            =~= seq![(Value::Text("0"@), Value::Int(7))]);
    } else {
        lemma_layer_list(layers, (n - 1) as nat);
        let layer = layers[n - 1];
        lemma_good_layer(
            layer_list(layers, (n - 1) as nat),
            layer_groups(15 + n as int, layer.name@, layer.index as int),
            layer_values(layers, (n - 1) as nat),
            layer.name@,
            layer.index as int,
            layers,
            v,
        );
    }
}

proof fn lemma_table(name: Seq<char>, own: int, entries: int)
    ensures
        all_calm(table_groups(name, own, entries)),
        all_calm(end_table()),
        all_calm(empty_table(name, own)),
{
    lemma_kinds();
    lemma_calm_adds(table_groups(name, own, 0), end_table());
}

proof fn lemma_entry(
    code: int,
    kind: Seq<char>,
    own: int,
    owner: int,
    class: Seq<char>,
    name: Seq<char>,
)
    requires
        0 < code < 400,
        calm(text(0, kind)),
    ensures
        all_calm(crate::dxf::sheet::entry_groups(code, kind, own, owner, class, name)),
{
}

proof fn lemma_linetype(own: int, name: Seq<char>, described: Seq<char>)
    ensures
        all_calm(crate::dxf::sheet::linetype_groups(own, name, described)),
{
    lemma_kinds();
    lemma_entry(5, "LTYPE"@, own, 2, "AcDbLinetypeTableRecord"@, name);
    let rest = seq![text(3, described), int_group(72, 65), int_group(73, 0), text(40, "0.0"@)];
    assert(all_calm(rest));
    lemma_calm_adds(
        crate::dxf::sheet::entry_groups(
            5,
            "LTYPE"@,
            own,
            2,
            "AcDbLinetypeTableRecord"@,
            name,
        ),
        rest,
    );
}

proof fn lemma_linetypes()
    ensures
        all_calm(linetype_table()),
{
    lemma_table("LTYPE"@, 2, 3);
    lemma_linetype(12, "ByBlock"@, ""@);
    lemma_linetype(13, "ByLayer"@, ""@);
    lemma_linetype(14, "Continuous"@, "Solid line"@);
    let t = table_groups("LTYPE"@, 2, 3);
    let a = crate::dxf::sheet::linetype_groups(12, "ByBlock"@, ""@);
    let b = crate::dxf::sheet::linetype_groups(13, "ByLayer"@, ""@);
    let c = crate::dxf::sheet::linetype_groups(14, "Continuous"@, "Solid line"@);
    lemma_calm_adds(t, a);
    lemma_calm_adds(t + a, b);
    lemma_calm_adds(t + a + b, c);
    lemma_calm_adds(t + a + b + c, end_table());
}

proof fn lemma_styles(own: int)
    ensures
        all_calm(style_table(own)),
{
    lemma_kinds();
    lemma_table("STYLE"@, 4, 1);
    lemma_entry(5, "STYLE"@, own, 4, "AcDbTextStyleTableRecord"@, "Standard"@);
    let t = table_groups("STYLE"@, 4, 1);
    let e = crate::dxf::sheet::entry_groups(
        5,
        "STYLE"@,
        own,
        4,
        "AcDbTextStyleTableRecord"@,
        "Standard"@,
    );
    let r = seq![
        text(40, "0.0"@),
        text(41, "1.0"@),
        text(50, "0.0"@),
        text(71, "0"@),
        text(42, "2.5"@),
        text(3, "txt"@),
        text(4, ""@),
    ];
    assert(all_calm(r));
    lemma_calm_adds(t, e);
    lemma_calm_adds(t + e, r);
    lemma_calm_adds(t + e + r, end_table());
}

proof fn lemma_applications(own: int)
    ensures
        all_calm(application_table(own)),
{
    lemma_kinds();
    lemma_table("APPID"@, 7, 1);
    lemma_entry(5, "APPID"@, own, 7, "AcDbRegAppTableRecord"@, "ACAD"@);
    let t = table_groups("APPID"@, 7, 1);
    let e = crate::dxf::sheet::entry_groups(
        5,
        "APPID"@,
        own,
        7,
        "AcDbRegAppTableRecord"@,
        "ACAD"@,
    );
    lemma_calm_adds(t, e);
    lemma_calm_adds(t + e, end_table());
}

proof fn lemma_dimensions(own: int)
    ensures
        all_calm(dimension_table(own)),
{
    lemma_kinds();
    lemma_table("DIMSTYLE"@, 8, 1);
    lemma_entry(105, "DIMSTYLE"@, own, 8, "AcDbDimStyleTableRecord"@, "Standard"@);
    let t = table_groups("DIMSTYLE"@, 8, 1);
    let r = seq![
        text(100, "AcDbDimStyleTable"@),
        int_group(71, 1),
        crate::dxf::pairs::handle(340, own),
    ];
    let e = crate::dxf::sheet::entry_groups(
        105,
        "DIMSTYLE"@,
        own,
        8,
        "AcDbDimStyleTableRecord"@,
        "Standard"@,
    );
    assert(all_calm(r));
    lemma_calm_adds(t, r);
    lemma_calm_adds(t + r, e);
    lemma_calm_adds(t + r + e, end_table());
}

proof fn lemma_records(blocks: Seq<Block>, layers: int, n: nat)
    ensures
        all_calm(record_list(blocks, layers, n)),
    decreases n,
{
    if n > 0 {
        lemma_kinds();
        lemma_records(blocks, layers, (n - 1) as nat);
        let r = crate::dxf::sheet::record_groups(
            crate::dxf::sheet::model_space(layers) + n - 1,
            crate::dxf::sheet::block_name(blocks, n - 1),
        );
        assert(all_calm(r));
        lemma_calm_adds(record_list(blocks, layers, (n - 1) as nat), r);
    }
}

proof fn lemma_record_table(blocks: Seq<Block>, layers: int)
    ensures
        all_calm(record_table(blocks, layers)),
{
    let t = table_groups("BLOCK_RECORD"@, 9, 2 + blocks.len() as int);
    let r = record_list(blocks, layers, 2 + blocks.len());
    lemma_table("BLOCK_RECORD"@, 9, 2 + blocks.len() as int);
    lemma_records(blocks, layers, 2 + blocks.len());
    lemma_calm_adds(t, r);
    lemma_calm_adds(t + r, end_table());
}

proof fn lemma_tables_good(layers: Seq<Layer>, blocks: Seq<Block>)
    ensures
        good(tables(layers, blocks), layers, r2000_version()),
{
    let n = layers.len() as int;
    let v = r2000_version();
    lemma_sections("CLASSES"@);
    lemma_sections("TABLES"@);
    lemma_table("VPORT"@, 1, 0);
    lemma_table("VIEW"@, 5, 0);
    lemma_table("UCS"@, 6, 0);
    lemma_linetypes();
    lemma_styles(16 + n);
    lemma_applications(17 + n);
    lemma_dimensions(18 + n);
    lemma_record_table(blocks, n);
    lemma_table("LAYER"@, 3, n + 1);
    lemma_layer_list(layers, layers.len());
    let f1 = section("CLASSES"@) + section_end();
    let f2 = f1 + section("TABLES"@);
    let f3 = f2 + empty_table("VPORT"@, 1);
    let f4 = f3 + linetype_table();
    let head = table_groups("LAYER"@, 3, n + 1);
    lemma_calm_adds(section("CLASSES"@), section_end());
    lemma_calm_adds(f1, section("TABLES"@));
    lemma_calm_adds(f2, empty_table("VPORT"@, 1));
    lemma_calm_adds(f3, linetype_table());
    lemma_calm_adds(f4, head);
    let list = layer_list(layers, layers.len());
    let b1 = end_table() + style_table(16 + n);
    let b2 = b1 + empty_table("VIEW"@, 5);
    let b3 = b2 + empty_table("UCS"@, 6);
    let b4 = b3 + application_table(17 + n);
    let b5 = b4 + dimension_table(18 + n);
    let b6 = b5 + record_table(blocks, n);
    let b7 = b6 + section_end();
    lemma_calm_adds(end_table(), style_table(16 + n));
    lemma_calm_adds(b1, empty_table("VIEW"@, 5));
    lemma_calm_adds(b2, empty_table("UCS"@, 6));
    lemma_calm_adds(b3, application_table(17 + n));
    lemma_calm_adds(b4, dimension_table(18 + n));
    lemma_calm_adds(b5, record_table(blocks, n));
    lemma_calm_adds(b6, section_end());
    lemma_good_around(f4 + head, list, b7, layers, v);
    assert(tables(layers, blocks) =~= (f4 + head) + list + b7);
}

proof fn lemma_point_list(points: Seq<Xy>, n: nat)
    ensures
        all_calm(point2_list(points, n)),
    decreases n,
{
    if n > 0 {
        lemma_point_list(points, (n - 1) as nat);
        lemma_points(10, points[n - 1]);
        lemma_calm_adds(point2_list(points, (n - 1) as nat), point2(10, points[n - 1]));
    }
}

proof fn lemma_polyline_body(points: Seq<Xy>, closed: bool)
    ensures
        all_calm(polyline_body(points, closed)),
{
    lemma_point_list(points, points.len());
    let first = seq![
        int_group(90, points.len() as int),
        int_group(
            70,
            if closed {
                1
            } else {
                0
            },
        ),
        text(43, "0.0"@),
    ];
    assert(all_calm(first));
    lemma_calm_adds(first, point2_list(points, points.len()));
}

proof fn lemma_knots(pieces: int, n: nat)
    ensures
        all_calm(knot_list(pieces, n)),
    decreases n,
{
    if n > 0 {
        lemma_knots(pieces, (n - 1) as nat);
        let more = Seq::new(
            knot_repeats(n - 1, pieces),
            |i: int| crate::dxf::sheet::knot_group(n - 1),
        );
        assert(all_calm(more));
        lemma_calm_adds(knot_list(pieces, (n - 1) as nat), more);
    }
}

proof fn lemma_controls(pieces: Seq<Piece>, n: nat)
    ensures
        all_calm(control_list(pieces, n)),
    decreases n,
{
    if n > 0 {
        lemma_controls(pieces, (n - 1) as nat);
        if let Piece::Cubic(a, b, p) = pieces[n - 1] {
            lemma_points(10, a);
            lemma_points(10, b);
            lemma_points(10, p);
            lemma_calm_adds(point3(10, a), point3(10, b));
            lemma_calm_adds(point3(10, a) + point3(10, b), point3(10, p));
            lemma_calm_adds(
                control_list(pieces, (n - 1) as nat),
                point3(10, a) + point3(10, b) + point3(10, p),
            );
        } else {
            assert(control_list(pieces, n) =~= control_list(pieces, (n - 1) as nat));
        }
    }
}

proof fn lemma_spline_body(start: Xy, pieces: Seq<Piece>)
    ensures
        all_calm(spline_body(start, pieces)),
{
    let n = pieces.len() as int;
    lemma_knots(n, (n + 1) as nat);
    lemma_points(10, start);
    lemma_controls(pieces, pieces.len());
    let a = seq![
        text(210, "0.0"@),
        text(220, "0.0"@),
        text(230, "1.0"@),
        int_group(70, 8),
        int_group(71, 3),
        int_group(72, 3 * n + 5),
        int_group(73, 3 * n + 1),
        int_group(74, 0),
    ];
    let b = seq![text(42, "0.0000001"@), text(43, "0.0000001"@)];
    assert(all_calm(a));
    assert(all_calm(b));
    lemma_calm_adds(a, b);
    lemma_calm_adds(a + b, knot_list(n, (n + 1) as nat));
    lemma_calm_adds(a + b + knot_list(n, (n + 1) as nat), point3(10, start));
    lemma_calm_adds(
        a + b + knot_list(n, (n + 1) as nat) + point3(10, start),
        control_list(pieces, pieces.len()),
    );
}

/// An entity and what follows its head.
proof fn lemma_entity_added(
    before: Seq<Group>,
    kind: Seq<char>,
    own: int,
    owner: int,
    layer: Layer,
    class: Seq<char>,
    rest: Seq<Group>,
)
    requires
        is_entity(text(0, kind)),
        !is_layer(text(0, kind)),
        all_calm(rest),
    ensures
        adds_painted(
            before,
            before + (entity_groups(kind, own, owner, layer, class) + rest),
            seq![layer],
            r2000_version(),
        ),
{
    let v = r2000_version();
    let e = entity_groups(kind, own, owner, layer, class);
    let groups = e + rest;
    assert(e.len() == 8);
    assert(e[0] == text(0, kind));
    assert(e[4] == text(8, layer.name@));
    assert(e[5] == int_group(62, layer.index as int));
    assert(e[6] == int_group(420, layer.colour as int));
    assert forall|i: int| 0 < i < groups.len() implies !is_entity(#[trigger] groups[i])
        && !is_layer(groups[i]) && (groups[i].code == 420 ==> v.exact) by {
        if i < 8 {
            assert(groups[i] == e[i]);
            assert(e[i].code != 0);
        } else {
            assert(groups[i] == rest[i - 8]);
            assert(calm(rest[i - 8]));
        }
    }
    assert(groups[4] == e[4] && groups[5] == e[5] && groups[6] == e[6]);
    lemma_entity(groups, layer, v);
    lemma_step(before, groups, seq![layer], v);
}

proof fn lemma_run(sheet: Sheet, place: Place, start: Xy, pieces: Seq<Piece>, k: int, j: int)
    ensures
        adds_painted(
            sheet.groups,
            with_run(sheet, place, start, pieces, k, j).groups,
            seq![place.layer],
            r2000_version(),
        ),
{
    lemma_kinds();
    let these = pieces.subrange(k, j);
    let at = from_point(start, pieces, k);
    let own = sheet.last + 1;
    if is_cubic(pieces[k]) {
        lemma_spline_body(at, these);
        lemma_entity_added(
            sheet.groups,
            "SPLINE"@,
            own,
            place.owner,
            place.layer,
            "AcDbSpline"@,
            spline_body(at, these),
        );
    } else {
        lemma_polyline_body(ends(at, these), false);
        lemma_entity_added(
            sheet.groups,
            "LWPOLYLINE"@,
            own,
            place.owner,
            place.layer,
            "AcDbPolyline"@,
            polyline_body(ends(at, these), false),
        );
    }
}

proof fn lemma_runs(sheet: Sheet, place: Place, start: Xy, pieces: Seq<Piece>, k: int)
    requires
        0 <= k,
    ensures
        adds_painted(
            sheet.groups,
            with_runs(sheet, place, start, pieces, k).groups,
            seq![place.layer],
            r2000_version(),
        ),
    decreases pieces.len() - k,
{
    if k >= pieces.len() {
        lemma_stay(sheet.groups, seq![place.layer], r2000_version());
    } else {
        let j = run_end(pieces, k, k + 1);
        lemma_run_end(pieces, k, k + 1);
        let next = with_run(sheet, place, start, pieces, k, j);
        lemma_run(sheet, place, start, pieces, k, j);
        lemma_runs(next, place, start, pieces, j);
        lemma_chain(
            sheet.groups,
            next.groups,
            with_runs(next, place, start, pieces, j).groups,
            seq![place.layer],
            r2000_version(),
        );
    }
}

proof fn lemma_outline(sheet: Sheet, place: Place, outline: OutlineView)
    ensures
        adds_painted(
            sheet.groups,
            with_outline(sheet, place, outline).groups,
            seq![place.layer],
            r2000_version(),
        ),
{
    if crate::dxf::sheet::all_lines(outline.pieces) {
        lemma_kinds();
        lemma_polyline_body(straight_points(outline), outline.closed);
        lemma_entity_added(
            sheet.groups,
            "LWPOLYLINE"@,
            sheet.last + 1,
            place.owner,
            place.layer,
            "AcDbPolyline"@,
            polyline_body(straight_points(outline), outline.closed),
        );
    } else {
        lemma_runs(sheet, place, outline.start, closed_pieces(outline), 0);
    }
}

proof fn lemma_outlines(
    sheet: Sheet,
    owner: int,
    layers: Seq<Layer>,
    list: Seq<Outline>,
    n: nat,
)
    requires
        n <= list.len(),
        forall|k: int| 0 <= k < list.len() ==> (#[trigger] list[k]).layer < layers.len(),
    ensures
        adds_painted(
            sheet.groups,
            with_outlines(sheet, owner, layers, list, n).groups,
            layers,
            r2000_version(),
        ),
    decreases n,
{
    let v = r2000_version();
    if n == 0 {
        lemma_stay(sheet.groups, layers, v);
    } else {
        let before = with_outlines(sheet, owner, layers, list, (n - 1) as nat);
        lemma_outlines(sheet, owner, layers, list, (n - 1) as nat);
        let o = list[n - 1]@;
        assert(list[n - 1].layer < layers.len());
        let place = Place { owner, layer: layers[o.layer] };
        lemma_outline(before, place, o);
        let after = with_outline(before, place, o);
        assert(layers.contains(layers[o.layer]));
        lemma_adds_among(before.groups, after.groups, seq![place.layer], layers, v);
        lemma_chain(sheet.groups, before.groups, after.groups, layers, v);
    }
}

proof fn lemma_calm_step(before: Seq<Group>, more: Seq<Group>, layers: Seq<Layer>)
    requires
        all_calm(more),
    ensures
        adds_painted(before, before + more, layers, r2000_version()),
{
    lemma_calm_paints(more, layers, r2000_version());
    lemma_step(before, more, layers, r2000_version());
}

proof fn lemma_block_ends(own: int, owner: int, paper: bool, name: Seq<char>)
    ensures
        all_calm(block_begin(own, owner, paper, name)),
        all_calm(block_end(own, owner, paper)),
{
    lemma_kinds();
    lemma_points(10, crate::dxf::lines::origin());
    let mark = crate::dxf::sheet::paper_mark(paper);
    assert(all_calm(mark));
    let a = seq![
        text(0, "BLOCK"@),
        crate::dxf::pairs::handle(5, own),
        crate::dxf::pairs::handle(330, owner),
        text(100, "AcDbEntity"@),
    ];
    let b = seq![
        text(8, "0"@),
        text(100, "AcDbBlockBegin"@),
        text(2, name),
        int_group(70, 0),
    ];
    let c = point3(10, crate::dxf::lines::origin());
    let d = seq![text(3, name), text(1, ""@)];
    assert(all_calm(a));
    assert(all_calm(b));
    assert(all_calm(d));
    lemma_calm_adds(a, mark);
    lemma_calm_adds(a + mark, b);
    lemma_calm_adds(a + mark + b, c);
    lemma_calm_adds(a + mark + b + c, d);
    let e = seq![
        text(0, "ENDBLK"@),
        crate::dxf::pairs::handle(5, own),
        crate::dxf::pairs::handle(330, owner),
        text(100, "AcDbEntity"@),
    ];
    let f = seq![text(8, "0"@), text(100, "AcDbBlockEnd"@)];
    assert(all_calm(e));
    assert(all_calm(f));
    lemma_calm_adds(e, mark);
    lemma_calm_adds(e + mark, f);
}

proof fn lemma_block(sheet: Sheet, drawing: Drawing, k: int)
    requires
        drawing.ok(),
        0 <= k < 2 + drawing.blocks@.len(),
    ensures
        adds_painted(
            sheet.groups,
            with_block(sheet, drawing, k).groups,
            drawing.layers@,
            r2000_version(),
        ),
{
    let v = r2000_version();
    let layers = drawing.layers@;
    let owner = crate::dxf::sheet::model_space(layers.len() as int) + k;
    let own = sheet.last + 1;
    let name = crate::dxf::sheet::block_name(drawing.blocks@, k);
    let begun = Sheet { groups: sheet.groups + block_begin(own, owner, k == 1, name), last: own };
    let list = block_outlines(drawing.blocks@, k);
    if k >= 2 {
        assert(crate::dxf::drawing::block_ok(drawing.blocks@[k - 2], layers.len() as int));
    }
    let drawn = with_outlines(begun, owner, layers, list, list.len());
    lemma_block_ends(own, owner, k == 1, name);
    lemma_block_ends(drawn.last + 1, owner, k == 1, name);
    lemma_calm_step(sheet.groups, block_begin(own, owner, k == 1, name), layers);
    lemma_outlines(begun, owner, layers, list, list.len());
    lemma_chain(sheet.groups, begun.groups, drawn.groups, layers, v);
    lemma_calm_step(drawn.groups, block_end(drawn.last + 1, owner, k == 1), layers);
    lemma_chain(
        sheet.groups,
        drawn.groups,
        drawn.groups + block_end(drawn.last + 1, owner, k == 1),
        layers,
        v,
    );
}

proof fn lemma_blocks(sheet: Sheet, drawing: Drawing, n: nat)
    requires
        drawing.ok(),
        n <= 2 + drawing.blocks@.len(),
    ensures
        adds_painted(
            sheet.groups,
            with_blocks(sheet, drawing, n).groups,
            drawing.layers@,
            r2000_version(),
        ),
    decreases n,
{
    let v = r2000_version();
    if n == 0 {
        lemma_stay(sheet.groups, drawing.layers@, v);
    } else {
        let before = with_blocks(sheet, drawing, (n - 1) as nat);
        lemma_blocks(sheet, drawing, (n - 1) as nat);
        lemma_block(before, drawing, n - 1);
        lemma_chain(
            sheet.groups,
            before.groups,
            with_block(before, drawing, n - 1).groups,
            drawing.layers@,
            v,
        );
    }
}

proof fn lemma_item(sheet: Sheet, drawing: Drawing, item: ItemView)
    ensures
        adds_painted(
            sheet.groups,
            with_item(sheet, drawing, item).groups,
            seq![drawing.layers@[item_layer(item)]],
            r2000_version(),
        ),
{
    let layers = drawing.layers@;
    let owner = crate::dxf::sheet::model_space(layers.len() as int);
    match item {
        ItemView::Outline(o) => {
            lemma_outline(sheet, Place { owner, layer: layers[o.layer] }, o);
        },
        ItemView::Array(a) => {
            lemma_kinds();
            lemma_array(a, drawing.blocks@);
            let class = if a.columns > 1 || a.rows > 1 {
                "AcDbMInsertBlock"@
            } else {
                "AcDbBlockReference"@
            };
            lemma_entity_added(
                sheet.groups,
                "INSERT"@,
                sheet.last + 1,
                owner,
                layers[a.layer as int],
                class,
                array_groups(a, drawing.blocks@),
            );
        },
    }
}

proof fn lemma_items(sheet: Sheet, drawing: Drawing, n: nat)
    requires
        drawing.ok(),
        n <= drawing.items@.len(),
    ensures
        adds_painted(
            sheet.groups,
            with_items(sheet, drawing, n).groups,
            drawing.layers@,
            r2000_version(),
        ),
    decreases n,
{
    let v = r2000_version();
    let layers = drawing.layers@;
    if n == 0 {
        lemma_stay(sheet.groups, layers, v);
    } else {
        let before = with_items(sheet, drawing, (n - 1) as nat);
        lemma_items(sheet, drawing, (n - 1) as nat);
        let item = drawing.items@[n - 1]@;
        assert(crate::dxf::drawing::item_ok(
            item,
            layers.len() as int,
            drawing.blocks@.len() as int,
        ));
        lemma_item(before, drawing, item);
        let after = with_item(before, drawing, item);
        assert(layers.contains(layers[item_layer(item)]));
        lemma_adds_among(
            before.groups,
            after.groups,
            seq![layers[item_layer(item)]],
            layers,
            v,
        );
        lemma_chain(sheet.groups, before.groups, after.groups, layers, v);
    }
}

proof fn lemma_dictionary(kind: Seq<char>, own: int, owner: int)
    requires
        calm(text(0, kind)),
    ensures
        all_calm(crate::dxf::sheet::dictionary(kind, own, owner)),
{
}

proof fn lemma_objects(root: int)
    ensures
        all_calm(objects(root)),
{
    lemma_kinds();
    lemma_sections("OBJECTS"@);
    lemma_dictionary("DICTIONARY"@, root, 0);
    lemma_dictionary("DICTIONARY"@, root + 1, root);
    lemma_dictionary("ACDBDICTIONARYWDFLT"@, 10, root);
    let d1 = crate::dxf::sheet::dictionary("DICTIONARY"@, root, 0);
    let d2 = crate::dxf::sheet::dictionary("DICTIONARY"@, root + 1, root);
    let d3 = crate::dxf::sheet::dictionary("ACDBDICTIONARYWDFLT"@, 10, root);
    let m1 = seq![
        text(3, "ACAD_GROUP"@),
        crate::dxf::pairs::handle(350, root + 1),
        text(3, "ACAD_PLOTSTYLENAME"@),
        crate::dxf::pairs::handle(350, 10),
    ];
    let m2 = seq![
        text(3, "Normal"@),
        crate::dxf::pairs::handle(350, 11),
        text(100, "AcDbDictionaryWithDefault"@),
        crate::dxf::pairs::handle(340, 11),
    ];
    let m3 = seq![
        text(0, "ACDBPLACEHOLDER"@),
        crate::dxf::pairs::handle(5, 11),
        crate::dxf::pairs::handle(330, 10),
    ];
    let m4 = seq![text(0, "EOF"@)];
    assert(all_calm(m1));
    assert(all_calm(m2));
    assert(all_calm(m3));
    assert(all_calm(m4));
    let a1 = section("OBJECTS"@) + d1;
    let a2 = a1 + m1;
    let a3 = a2 + d2;
    let a4 = a3 + d3;
    let a5 = a4 + m2;
    let a6 = a5 + m3;
    let a7 = a6 + section_end();
    lemma_calm_adds(section("OBJECTS"@), d1);
    lemma_calm_adds(a1, m1);
    lemma_calm_adds(a2, d2);
    lemma_calm_adds(a3, d3);
    lemma_calm_adds(a4, m2);
    lemma_calm_adds(a5, m3);
    lemma_calm_adds(a6, section_end());
    lemma_calm_adds(a7, m4);
}

proof fn lemma_body(drawing: Drawing)
    requires
        drawing.ok(),
    ensures
        good(body(drawing).groups, drawing.layers@, r2000_version()),
{
    let v = r2000_version();
    let (layers, blocks) = (drawing.layers@, drawing.blocks@);
    lemma_tables_good(layers, blocks);
    lemma_sections("BLOCKS"@);
    lemma_sections("ENTITIES"@);
    let t = tables(layers, blocks);
    lemma_calm_step(t, section("BLOCKS"@), layers);
    let start = Sheet {
        groups: t + section("BLOCKS"@),
        last: crate::dxf::sheet::tables_last(layers.len() as int, blocks.len() as int),
    };
    let blocked = with_blocks(start, drawing, 2 + blocks.len());
    lemma_blocks(start, drawing, 2 + blocks.len());
    lemma_chain(t, start.groups, blocked.groups, layers, v);
    let between = section_end() + section("ENTITIES"@);
    lemma_calm_adds(section_end(), section("ENTITIES"@));
    lemma_calm_step(blocked.groups, between, layers);
    let opened = Sheet { groups: blocked.groups + between, last: blocked.last };
    lemma_chain(t, blocked.groups, opened.groups, layers, v);
    let drawn = with_items(opened, drawing, drawing.items@.len());
    lemma_items(opened, drawing, drawing.items@.len());
    lemma_chain(t, opened.groups, drawn.groups, layers, v);
    let end = section_end() + objects(drawn.last + 1);
    lemma_objects(drawn.last + 1);
    lemma_calm_adds(section_end(), objects(drawn.last + 1));
    lemma_calm_step(drawn.groups, end, layers);
    lemma_chain(t, drawn.groups, drawn.groups + end, layers, v);
    lemma_good_grows(t, drawn.groups + end, layers, v);
}

proof fn lemma_head(seed: int, width: int, height: int)
    ensures
        all_calm(head(seed, width, height)),
{
    lemma_sections("HEADER"@);
    lemma_extents(width, height);
    let mark = seq![
        text(9, "$ACADVER"@),
        text(1, "AC1015"@),
        text(9, "$HANDSEED"@),
        crate::dxf::pairs::handle(5, seed),
        text(9, "$INSUNITS"@),
        int_group(70, 0),
    ];
    assert(all_calm(mark));
    lemma_calm_adds(section("HEADER"@), mark);
    lemma_calm_adds(section("HEADER"@) + mark, extents_groups(width, height));
    lemma_calm_adds(
        section("HEADER"@) + mark + extents_groups(width, height),
        section_end(),
    );
}

/// The version a file says it is written in.
pub open spec fn says_version(groups: Seq<Group>, version: Seq<char>) -> bool {
    &&& groups.len() > 3
    &&& groups[2] == text(9, "$ACADVER"@)
    &&& groups[3] == text(1, version)
}

/// The spline file and the line files show one drawing. Both list the same
/// layers, a colour's each, in the drawing's order. Every entity carries one
/// of them, by its name and index; in the spline file, an AC1015 one, with the
/// exact colour too, which no group of a line file, an AC1009 one, says.
pub proof fn law_every_mode_shows_one_drawing(
    width: int,
    height: int,
    drawing: Drawing,
    tolerance: int,
)
    requires
        drawing.ok(),
    ensures
        ({
            let layers = drawing.layers@;
            let groups = r2000_groups(width, height, drawing);
            &&& says_version(groups, "AC1015"@)
            &&& paints(groups, layers, r2000_version())
            &&& listed(groups, r2000_version(), groups.len()) == layer_values(
                layers,
                layers.len(),
            )
        }),
        r12_lines(width, height, drawing, tolerance) matches Ok(lines) ==> {
            let layers = drawing.layers@;
            let groups = lines.groups;
            &&& says_version(groups, "AC1009"@)
            &&& paints(groups, layers, r12_version())
            &&& listed(groups, r12_version(), groups.len()) == layer_values(layers, layers.len())
            &&& forall|i: int| 0 <= i < groups.len() ==> (#[trigger] groups[i]).code != 420
        },
{
    let layers = drawing.layers@;
    let b = body(drawing);
    let h = head(b.last + 1, width, height);
    lemma_body(drawing);
    lemma_head(b.last + 1, width, height);
    let none = Seq::<Group>::empty();
    lemma_good_around(h, b.groups, none, layers, r2000_version());
    assert(h + b.groups + none =~= h + b.groups);
    assert(says_version(h, "AC1015"@));
    if let Ok(lines) = r12_lines(width, height, drawing, tolerance) {
        let first = head12(width, height, layers) + section("BLOCKS"@);
        let start = Ok::<Lines, Refusal>(
            Lines { groups: first, left: crate::dxf::flatten::MAX_VERTICES as int },
        );
        lemma_head12(width, height, layers);
        lemma_sections("ENTITIES"@);
        lemma_kinds();
        let blocks = block_lines(start, drawing, tolerance, drawing.blocks@.len());
        lemma_lines_blocks(start, drawing, tolerance, drawing.blocks@.len());
        let between = section_end() + section("ENTITIES"@);
        lemma_calm_adds(section_end(), section("ENTITIES"@));
        lemma_lines_calm(blocks, between, layers);
        let opened = with_groups(blocks, between);
        let items = item_lines(opened, drawing, tolerance, drawing.items@.len());
        lemma_lines_items(opened, drawing, tolerance, drawing.items@.len());
        let end = section_end() + seq![text(0, "EOF"@)];
        assert(all_calm(seq![text(0, "EOF"@)]));
        lemma_calm_adds(section_end(), seq![text(0, "EOF"@)]);
        lemma_lines_calm(items, end, layers);
        let file = with_groups(items, end);
        lemma_lines_chain(start, blocks, opened, layers);
        lemma_lines_chain(start, opened, items, layers);
        lemma_lines_chain(start, items, file, layers);
        lemma_good_grows(first, lines.groups, layers, r12_version());
        assert(header12(width, height)[2] == text(9, "$ACADVER"@));
        assert(header12(width, height)[3] == text(1, "AC1009"@));
        assert(says_version(first, "AC1009"@));
        assert(says_version(lines.groups, "AC1009"@)) by {
            assert(lines.groups[2] == first[2] && lines.groups[3] == first[3]);
        }
    }
}

/// Whatever an item adds to a file of either version is painted with the
/// item's own layer.
pub proof fn law_an_item_is_painted_with_its_layer(
    sheet: Sheet,
    lines: Result<Lines, Refusal>,
    drawing: Drawing,
    tolerance: int,
    item: ItemView,
)
    ensures
        adds_painted(
            sheet.groups,
            with_item(sheet, drawing, item).groups,
            seq![drawing.layers@[item_layer(item)]],
            r2000_version(),
        ),
        with_item_lines(lines, drawing, tolerance, item) matches Ok(after) ==> (
        lines matches Ok(before) && adds_painted(
            before.groups,
            after.groups,
            seq![drawing.layers@[item_layer(item)]],
            r12_version(),
        )),
{
    lemma_item(sheet, drawing, item);
    lemma_lines_item(lines, drawing, tolerance, item);
}

} // verus!
