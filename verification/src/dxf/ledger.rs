//! The handles of an R2000 file: each made once, and every pointer to one
//! that is made.
use crate::dxf::drawing::{Block, Drawing, ItemView, Layer};
use crate::dxf::lines::{array_groups, section, section_end};
use crate::dxf::outline::{Outline, OutlineView, Piece};
use crate::dxf::pairs::{point2, point3, Group, Value};
use crate::dxf::sheet::{
    all_lines, application_table, block_begin, block_end, block_name, block_outlines, body,
    closed_pieces, control_list, dictionary, dimension_table, empty_table, end_table, ends,
    entity_groups, entry_groups, from_point, is_cubic, knot_group, knot_list, knot_repeats,
    layer_groups, layer_list, layer_table_groups, lemma_run_end, linetype_groups, linetype_table,
    model_space, objects, point2_list, polyline_body, record_groups, record_list, record_table,
    run_end, spline_body, straight_points, style_table, table_groups, tables, tables_last,
    with_block, with_blocks, with_items, with_outline, with_outlines, with_run, with_runs, Place,
    Sheet,
};
use crate::geometry::Xy;
use vstd::prelude::*;

verus! {

/// The group gives an object its handle.
pub open spec fn declares(g: Group) -> bool {
    (g.code == 5 || g.code == 105) && g.value is Handle
}

/// The group points to another object: an owner or a reference.
pub open spec fn points(g: Group) -> bool {
    (g.code == 330 || g.code == 340 || g.code == 350 || g.code == 390) && g.value is Handle
}

pub open spec fn number_of(g: Group) -> int {
    match g.value {
        Value::Handle(n) => n as int,
        _ => 0,
    }
}

/// The groups give exactly the handles of `s`, each once.
pub open spec fn made(groups: Seq<Group>, s: Set<int>) -> bool {
    &&& forall|i: int|
        0 <= i < groups.len() && declares(#[trigger] groups[i]) ==> s.contains(
            number_of(groups[i]),
        )
    &&& forall|i: int, j: int|
        #![trigger groups[i], groups[j]]
        0 <= i < j < groups.len() && declares(groups[i]) && declares(groups[j]) ==> number_of(
            groups[i],
        ) != number_of(groups[j])
    &&& forall|n: int| #[trigger] s.contains(n) ==> is_made(groups, n)
}

/// One of the groups gives handle `n`.
pub open spec fn is_made(groups: Seq<Group>, n: int) -> bool {
    exists|i: int|
        0 <= i < groups.len() && declares(#[trigger] groups[i]) && number_of(groups[i]) == n
}

/// Every pointer is at most `limit`, and none but an owner is 0, the file
/// itself.
pub open spec fn resolves(groups: Seq<Group>, limit: int) -> bool {
    forall|i: int|
        0 <= i < groups.len() && points(#[trigger] groups[i]) ==> number_of(groups[i]) <= limit && (
        number_of(groups[i]) >= 1 || groups[i].code == 330)
}

/// The groups neither give a handle nor point to one.
pub open spec fn plain(groups: Seq<Group>) -> bool {
    forall|i: int|
        0 <= i < groups.len() ==> !declares(#[trigger] groups[i]) && !points(groups[i])
}

proof fn lemma_made_adds(a: Seq<Group>, s: Set<int>, b: Seq<Group>, t: Set<int>, limit: int)
    requires
        made(a, s),
        made(b, t),
        s.disjoint(t),
        resolves(a, limit),
        resolves(b, limit),
    ensures
        made(a + b, s.union(t)),
        resolves(a + b, limit),
{
    let (all, u) = (a + b, s.union(t));
    assert forall|i: int| 0 <= i < all.len() && declares(#[trigger] all[i]) implies u.contains(
        number_of(all[i]),
    ) by {
        if i < a.len() {
            assert(all[i] == a[i]);
        } else {
            assert(all[i] == b[i - a.len()]);
        }
    }
    assert forall|i: int, j: int|
        #![trigger all[i], all[j]]
        0 <= i < j < all.len() && declares(all[i]) && declares(all[j]) implies number_of(all[i])
        != number_of(all[j]) by {
        if j < a.len() {
            assert(all[i] == a[i] && all[j] == a[j]);
        } else if i >= a.len() {
            assert(all[i] == b[i - a.len()] && all[j] == b[j - a.len()]);
        } else {
            assert(all[i] == a[i] && all[j] == b[j - a.len()]);
            assert(s.contains(number_of(a[i])) && t.contains(number_of(b[j - a.len()])));
        }
    }
    assert forall|n: int| #[trigger] u.contains(n) implies is_made(all, n) by {
        if s.contains(n) {
            let i = choose|i: int|
                0 <= i < a.len() && declares(#[trigger] a[i]) && number_of(a[i]) == n;
            assert(all[i] == a[i]);
        } else {
            assert(t.contains(n));
            let i = choose|i: int|
                0 <= i < b.len() && declares(#[trigger] b[i]) && number_of(b[i]) == n;
            assert(all[a.len() + i] == b[i]);
        }
    }
    assert forall|i: int| 0 <= i < all.len() && points(#[trigger] all[i]) implies number_of(all[i])
        <= limit && (number_of(all[i]) >= 1 || all[i].code == 330) by {
        if i < a.len() {
            assert(all[i] == a[i]);
        } else {
            assert(all[i] == b[i - a.len()]);
        }
    }
}

/// Plain groups change nothing.
proof fn lemma_plain_adds(a: Seq<Group>, s: Set<int>, b: Seq<Group>, limit: int)
    requires
        made(a, s),
        resolves(a, limit),
        plain(b),
    ensures
        made(a + b, s),
        resolves(a + b, limit),
{
    assert(made(b, Set::empty()));
    assert(resolves(b, limit));
    lemma_made_adds(a, s, b, Set::empty(), limit);
    assert(s.union(Set::empty()) =~= s);
}

proof fn lemma_plain_first(a: Seq<Group>, b: Seq<Group>, s: Set<int>, limit: int)
    requires
        plain(a),
        made(b, s),
        resolves(b, limit),
    ensures
        made(a + b, s),
        resolves(a + b, limit),
{
    assert(made(a, Set::empty()));
    assert(resolves(a, limit));
    lemma_made_adds(a, Set::empty(), b, s, limit);
    assert(Set::<int>::empty().union(s) =~= s);
}

proof fn lemma_plain_both(a: Seq<Group>, b: Seq<Group>)
    requires
        plain(a),
        plain(b),
    ensures
        plain(a + b),
{
    assert forall|i: int| 0 <= i < (a + b).len() implies !declares(#[trigger] (a + b)[i])
        && !points((a + b)[i]) by {
        if i < a.len() {
            assert((a + b)[i] == a[i]);
        } else {
            assert((a + b)[i] == b[i - a.len()]);
        }
    }
}

/// A pointer stays good when the limit grows.
proof fn lemma_resolves_more(a: Seq<Group>, few: int, more: int)
    requires
        resolves(a, few),
        few <= more,
    ensures
        resolves(a, more),
{
}

/// Groups of which one, at `at`, gives handle `own`, and the others none.
proof fn lemma_one(groups: Seq<Group>, at: int, own: int)
    requires
        0 <= at < groups.len(),
        declares(groups[at]),
        number_of(groups[at]) == own,
        forall|i: int| 0 <= i < groups.len() && i != at ==> !declares(#[trigger] groups[i]),
    ensures
        made(groups, set![own]),
{
    assert(is_made(groups, own));
}

proof fn lemma_table(name: Seq<char>, own: int, entries: int, limit: int)
    requires
        0 <= own,
        0 <= limit,
    ensures
        made(table_groups(name, own, entries), set![own]),
        resolves(table_groups(name, own, entries), limit),
{
    lemma_one(table_groups(name, own, entries), 2, own);
}

proof fn lemma_entry(
    code: int,
    kind: Seq<char>,
    own: int,
    owner: int,
    class: Seq<char>,
    name: Seq<char>,
    limit: int,
)
    requires
        code == 5 || code == 105,
        0 <= own,
        1 <= owner <= limit,
    ensures
        made(entry_groups(code, kind, own, owner, class, name), set![own]),
        resolves(entry_groups(code, kind, own, owner, class, name), limit),
{
    lemma_one(entry_groups(code, kind, own, owner, class, name), 1, own);
}

proof fn lemma_end_table()
    ensures
        plain(end_table()),
        plain(section_end()),
{
}

proof fn lemma_empty_table(name: Seq<char>, own: int, limit: int)
    requires
        0 <= own,
        0 <= limit,
    ensures
        made(empty_table(name, own), set![own]),
        resolves(empty_table(name, own), limit),
{
    lemma_table(name, own, 0, limit);
    lemma_end_table();
    lemma_plain_adds(table_groups(name, own, 0), set![own], end_table(), limit);
}

proof fn lemma_linetype(own: int, name: Seq<char>, described: Seq<char>, limit: int)
    requires
        0 <= own,
        2 <= limit,
    ensures
        made(linetype_groups(own, name, described), set![own]),
        resolves(linetype_groups(own, name, described), limit),
{
    let first = entry_groups(5, "LTYPE"@, own, 2, "AcDbLinetypeTableRecord"@, name);
    lemma_entry(5, "LTYPE"@, own, 2, "AcDbLinetypeTableRecord"@, name, limit);
    let rest = linetype_groups(own, name, described).skip(first.len() as int);
    assert(linetype_groups(own, name, described) =~= first + rest);
    assert(plain(rest));
    lemma_plain_adds(first, set![own], rest, limit);
}

proof fn lemma_linetype_table(limit: int)
    requires
        2 <= limit,
    ensures
        made(linetype_table(), set![2int, 12, 13, 14]),
        resolves(linetype_table(), limit),
{
    let t = table_groups("LTYPE"@, 2, 3);
    let (a, b, c) = (
        linetype_groups(12, "ByBlock"@, ""@),
        linetype_groups(13, "ByLayer"@, ""@),
        linetype_groups(14, "Continuous"@, "Solid line"@),
    );
    lemma_table("LTYPE"@, 2, 3, limit);
    lemma_linetype(12, "ByBlock"@, ""@, limit);
    lemma_linetype(13, "ByLayer"@, ""@, limit);
    lemma_linetype(14, "Continuous"@, "Solid line"@, limit);
    let (s0, s1, s2) = (set![2int], set![2int, 12], set![2int, 12, 13]);
    lemma_made_adds(t, s0, a, set![12int], limit);
    assert(s0.union(set![12int]) =~= s1);
    lemma_made_adds(t + a, s1, b, set![13int], limit);
    assert(s1.union(set![13int]) =~= s2);
    lemma_made_adds(t + a + b, s2, c, set![14int], limit);
    assert(s2.union(set![14int]) =~= set![2int, 12, 13, 14]);
    lemma_end_table();
    lemma_plain_adds(t + a + b + c, set![2int, 12, 13, 14], end_table(), limit);
}

/// The handles from `low` to `high`.
pub open spec fn span(low: int, high: int) -> Set<int> {
    Set::new(|n: int| low <= n <= high)
}

proof fn lemma_layer(own: int, name: Seq<char>, index: int, limit: int)
    requires
        0 <= own,
        11 <= limit,
    ensures
        made(layer_groups(own, name, index), set![own]),
        resolves(layer_groups(own, name, index), limit),
{
    let first = entry_groups(5, "LAYER"@, own, 3, "AcDbLayerTableRecord"@, name);
    lemma_entry(5, "LAYER"@, own, 3, "AcDbLayerTableRecord"@, name, limit);
    let rest = layer_groups(own, name, index).skip(first.len() as int);
    assert(layer_groups(own, name, index) =~= first + rest);
    assert(made(rest, Set::empty()));
    assert(resolves(rest, limit));
    lemma_made_adds(first, set![own], rest, Set::empty(), limit);
    assert(set![own].union(Set::empty()) =~= set![own]);
}

proof fn lemma_layer_list(layers: Seq<Layer>, n: nat, limit: int)
    requires
        11 <= limit,
    ensures
        made(layer_list(layers, n), span(15, 15 + n as int)),
        resolves(layer_list(layers, n), limit),
    decreases n,
{
    if n == 0 {
        lemma_layer(15, "0"@, 7, limit);
        assert(span(15, 15) =~= set![15int]);
    } else {
        let m = (n - 1) as nat;
        let own = 15 + n as int;
        lemma_layer_list(layers, m, limit);
        lemma_layer(own, layers[n - 1].name@, layers[n - 1].index as int, limit);
        lemma_made_adds(
            layer_list(layers, m),
            span(15, 15 + m as int),
            layer_groups(own, layers[n - 1].name@, layers[n - 1].index as int),
            set![own],
            limit,
        );
        assert(span(15, 15 + m as int).union(set![own]) =~= span(15, 15 + n as int));
    }
}

proof fn lemma_layer_table(layers: Seq<Layer>, limit: int)
    requires
        11 <= limit,
    ensures
        made(layer_table_groups(layers), span(15, 15 + layers.len() as int).insert(3)),
        resolves(layer_table_groups(layers), limit),
{
    let n = layers.len();
    let t = table_groups("LAYER"@, 3, n as int + 1);
    lemma_table("LAYER"@, 3, n as int + 1, limit);
    lemma_layer_list(layers, n, limit);
    lemma_made_adds(t, set![3int], layer_list(layers, n), span(15, 15 + n as int), limit);
    assert(set![3int].union(span(15, 15 + n as int)) =~= span(15, 15 + n as int).insert(3));
    lemma_end_table();
    lemma_plain_adds(
        t + layer_list(layers, n),
        span(15, 15 + n as int).insert(3),
        end_table(),
        limit,
    );
}

proof fn lemma_style_table(own: int, limit: int)
    requires
        15 <= own,
        11 <= limit,
    ensures
        made(style_table(own), set![4int, own]),
        resolves(style_table(own), limit),
{
    let t = table_groups("STYLE"@, 4, 1);
    let class = "AcDbTextStyleTableRecord"@;
    let e = entry_groups(5, "STYLE"@, own, 4, class, "Standard"@);
    lemma_table("STYLE"@, 4, 1, limit);
    lemma_entry(5, "STYLE"@, own, 4, class, "Standard"@, limit);
    lemma_made_adds(t, set![4int], e, set![own], limit);
    assert(set![4int].union(set![own]) =~= set![4int, own]);
    let rest = style_table(own).skip((t + e).len() as int);
    assert(style_table(own) =~= (t + e) + rest);
    assert(plain(rest));
    lemma_plain_adds(t + e, set![4int, own], rest, limit);
}

proof fn lemma_application_table(own: int, limit: int)
    requires
        15 <= own,
        11 <= limit,
    ensures
        made(application_table(own), set![7int, own]),
        resolves(application_table(own), limit),
{
    let t = table_groups("APPID"@, 7, 1);
    let e = entry_groups(5, "APPID"@, own, 7, "AcDbRegAppTableRecord"@, "ACAD"@);
    lemma_table("APPID"@, 7, 1, limit);
    lemma_entry(5, "APPID"@, own, 7, "AcDbRegAppTableRecord"@, "ACAD"@, limit);
    lemma_made_adds(t, set![7int], e, set![own], limit);
    assert(set![7int].union(set![own]) =~= set![7int, own]);
    lemma_end_table();
    lemma_plain_adds(t + e, set![7int, own], end_table(), limit);
}

proof fn lemma_dimension_table(own: int, limit: int)
    requires
        15 <= own <= limit,
    ensures
        made(dimension_table(own), set![8int, own]),
        resolves(dimension_table(own), limit),
{
    let t = table_groups("DIMSTYLE"@, 8, 1);
    let class = "AcDbDimStyleTableRecord"@;
    let e = entry_groups(105, "DIMSTYLE"@, own, 8, class, "Standard"@);
    let middle = dimension_table(own).subrange(6, 9);
    assert(dimension_table(own) =~= t + middle + e + end_table());
    lemma_table("DIMSTYLE"@, 8, 1, limit);
    lemma_entry(105, "DIMSTYLE"@, own, 8, class, "Standard"@, limit);
    assert(made(middle, Set::empty()));
    assert(resolves(middle, limit));
    lemma_made_adds(t, set![8int], middle, Set::empty(), limit);
    assert(set![8int].union(Set::empty()) =~= set![8int]);
    lemma_made_adds(t + middle, set![8int], e, set![own], limit);
    assert(set![8int].union(set![own]) =~= set![8int, own]);
    lemma_end_table();
    lemma_plain_adds(t + middle + e, set![8int, own], end_table(), limit);
}

proof fn lemma_record_list(blocks: Seq<Block>, layers: int, n: nat, limit: int)
    requires
        0 <= layers,
        9 <= limit,
    ensures
        made(
            record_list(blocks, layers, n),
            span(model_space(layers), model_space(layers) + n - 1),
        ),
        resolves(record_list(blocks, layers, n), limit),
    decreases n,
{
    let model = model_space(layers);
    if n == 0 {
        assert(span(model, model - 1) =~= Set::empty());
    } else {
        let m = (n - 1) as nat;
        let own = model + n - 1;
        let r = record_groups(own, block_name(blocks, n - 1));
        lemma_record_list(blocks, layers, m, limit);
        lemma_one(r, 1, own);
        assert(resolves(r, limit));
        lemma_made_adds(
            record_list(blocks, layers, m),
            span(model, model + m - 1),
            r,
            set![own],
            limit,
        );
        assert(span(model, model + m - 1).union(set![own]) =~= span(model, model + n - 1));
    }
}

proof fn lemma_record_table(blocks: Seq<Block>, layers: int, limit: int)
    requires
        0 <= layers,
        9 <= limit,
    ensures
        made(
            record_table(blocks, layers),
            span(model_space(layers), tables_last(layers, blocks.len() as int)).insert(9),
        ),
        resolves(record_table(blocks, layers), limit),
{
    let n = 2 + blocks.len();
    let all = span(model_space(layers), tables_last(layers, blocks.len() as int));
    let t = table_groups("BLOCK_RECORD"@, 9, 2 + blocks.len() as int);
    lemma_table("BLOCK_RECORD"@, 9, 2 + blocks.len() as int, limit);
    lemma_record_list(blocks, layers, n, limit);
    assert(span(model_space(layers), model_space(layers) + n - 1) =~= all);
    lemma_made_adds(t, set![9int], record_list(blocks, layers, n), all, limit);
    assert(set![9int].union(all) =~= all.insert(9));
    lemma_end_table();
    lemma_plain_adds(t + record_list(blocks, layers, n), all.insert(9), end_table(), limit);
}

/// Every handle up to `last`, but the two of the plot styles, which the
/// objects give.
pub open spec fn numbers(last: int) -> Set<int> {
    Set::new(|n: int| 1 <= n <= last && n != 10 && n != 11)
}

#[verifier::rlimit(30)]
proof fn lemma_tables(layers: Seq<Layer>, blocks: Seq<Block>)
    ensures
        made(
            tables(layers, blocks),
            numbers(tables_last(layers.len() as int, blocks.len() as int)),
        ),
        resolves(
            tables(layers, blocks),
            tables_last(layers.len() as int, blocks.len() as int),
        ),
{
    let n = layers.len() as int;
    let last = tables_last(n, blocks.len() as int);
    let c0 = section("CLASSES"@) + section_end() + section("TABLES"@);
    assert(plain(c0));
    let p1 = empty_table("VPORT"@, 1);
    lemma_empty_table("VPORT"@, 1, last);
    lemma_plain_first(c0, p1, set![1int], last);
    let g1 = c0 + p1;
    let s1 = set![1int];
    lemma_linetype_table(last);
    let s2 = set![1int, 2, 12, 13, 14];
    lemma_made_adds(g1, s1, linetype_table(), set![2int, 12, 13, 14], last);
    assert(s1.union(set![2int, 12, 13, 14]) =~= s2);
    let g2 = g1 + linetype_table();
    lemma_layer_table(layers, last);
    let t3 = span(15, 15 + n).insert(3);
    let s3 = s2.union(t3);
    lemma_made_adds(g2, s2, layer_table_groups(layers), t3, last);
    let g3 = g2 + layer_table_groups(layers);
    lemma_style_table(16 + n, last);
    let s4 = s3.union(set![4int, 16 + n]);
    lemma_made_adds(g3, s3, style_table(16 + n), set![4int, 16 + n], last);
    let g4 = g3 + style_table(16 + n);
    lemma_empty_table("VIEW"@, 5, last);
    let s5 = s4.union(set![5int]);
    lemma_made_adds(g4, s4, empty_table("VIEW"@, 5), set![5int], last);
    let g5 = g4 + empty_table("VIEW"@, 5);
    lemma_empty_table("UCS"@, 6, last);
    let s6 = s5.union(set![6int]);
    lemma_made_adds(g5, s5, empty_table("UCS"@, 6), set![6int], last);
    let g6 = g5 + empty_table("UCS"@, 6);
    lemma_application_table(17 + n, last);
    let s7 = s6.union(set![7int, 17 + n]);
    lemma_made_adds(g6, s6, application_table(17 + n), set![7int, 17 + n], last);
    let g7 = g6 + application_table(17 + n);
    lemma_dimension_table(18 + n, last);
    let s8 = s7.union(set![8int, 18 + n]);
    lemma_made_adds(g7, s7, dimension_table(18 + n), set![8int, 18 + n], last);
    let g8 = g7 + dimension_table(18 + n);
    lemma_record_table(blocks, n, last);
    let t9 = span(19 + n, last).insert(9);
    let s9 = s8.union(t9);
    lemma_made_adds(g8, s8, record_table(blocks, n), t9, last);
    let g9 = g8 + record_table(blocks, n);
    lemma_end_table();
    lemma_plain_adds(g9, s9, section_end(), last);
    assert(s9 =~= numbers(last));
    assert(tables(layers, blocks) =~= g9 + section_end());
}

/// The sheet gives every handle up to its last, but the plot styles', each
/// once, and points to none past it.
pub open spec fn kept_up(sheet: Sheet) -> bool {
    &&& sheet.last >= 20
    &&& made(sheet.groups, numbers(sheet.last))
    &&& resolves(sheet.groups, sheet.last)
}

/// One more object, numbered next, owned by something already numbered.
proof fn lemma_object(sheet: Sheet, groups: Seq<Group>)
    requires
        kept_up(sheet),
        made(groups, set![sheet.last + 1]),
        resolves(groups, sheet.last),
    ensures
        kept_up(Sheet { groups: sheet.groups + groups, last: sheet.last + 1 }),
{
    let own = sheet.last + 1;
    lemma_resolves_more(sheet.groups, sheet.last, own);
    lemma_resolves_more(groups, sheet.last, own);
    lemma_made_adds(sheet.groups, numbers(sheet.last), groups, set![own], own);
    assert(numbers(sheet.last).union(set![own]) =~= numbers(own));
}

proof fn lemma_plain_object(sheet: Sheet, groups: Seq<Group>)
    requires
        kept_up(sheet),
        plain(groups),
    ensures
        kept_up(Sheet { groups: sheet.groups + groups, last: sheet.last }),
{
    lemma_plain_adds(sheet.groups, numbers(sheet.last), groups, sheet.last);
}

proof fn lemma_entity(
    kind: Seq<char>,
    own: int,
    owner: int,
    layer: Layer,
    class: Seq<char>,
    rest: Seq<Group>,
    limit: int,
)
    requires
        0 <= own,
        1 <= owner <= limit,
        plain(rest),
    ensures
        made(entity_groups(kind, own, owner, layer, class) + rest, set![own]),
        resolves(entity_groups(kind, own, owner, layer, class) + rest, limit),
{
    let e = entity_groups(kind, own, owner, layer, class);
    lemma_one(e, 1, own);
    assert(resolves(e, limit));
    lemma_plain_adds(e, set![own], rest, limit);
}

proof fn lemma_points_plain(p: Xy)
    ensures
        plain(point2(10, p)),
        plain(point3(10, p)),
{
}

proof fn lemma_point2_list_plain(points: Seq<Xy>, n: nat)
    ensures
        plain(point2_list(points, n)),
    decreases n,
{
    if n > 0 {
        lemma_point2_list_plain(points, (n - 1) as nat);
        lemma_points_plain(points[n - 1]);
        lemma_plain_both(point2_list(points, (n - 1) as nat), point2(10, points[n - 1]));
    }
}

proof fn lemma_polyline_plain(points: Seq<Xy>, closed: bool)
    ensures
        plain(polyline_body(points, closed)),
{
    lemma_point2_list_plain(points, points.len());
    let first = polyline_body(points, closed).take(3);
    assert(polyline_body(points, closed) =~= first + point2_list(points, points.len()));
    assert(plain(first));
    lemma_plain_both(first, point2_list(points, points.len()));
}

proof fn lemma_knots_plain(pieces: int, n: nat)
    ensures
        plain(knot_list(pieces, n)),
    decreases n,
{
    if n > 0 {
        lemma_knots_plain(pieces, (n - 1) as nat);
        let same = Seq::new(knot_repeats(n - 1, pieces), |i: int| knot_group(n - 1));
        assert(plain(same));
        lemma_plain_both(knot_list(pieces, (n - 1) as nat), same);
    }
}

proof fn lemma_controls_plain(pieces: Seq<Piece>, n: nat)
    ensures
        plain(control_list(pieces, n)),
    decreases n,
{
    if n > 0 {
        lemma_controls_plain(pieces, (n - 1) as nat);
        let before = control_list(pieces, (n - 1) as nat);
        match pieces[n - 1] {
            Piece::Cubic(a, b, p) => {
                lemma_points_plain(a);
                lemma_points_plain(b);
                lemma_points_plain(p);
                lemma_plain_both(point3(10, a), point3(10, b));
                lemma_plain_both(point3(10, a) + point3(10, b), point3(10, p));
                lemma_plain_both(before, point3(10, a) + point3(10, b) + point3(10, p));
            },
            Piece::Line(_) => {
                lemma_plain_both(before, Seq::empty());
            },
        }
    }
}

proof fn lemma_spline_plain(start: Xy, pieces: Seq<Piece>)
    ensures
        plain(spline_body(start, pieces)),
{
    let n = pieces.len() as int;
    let whole = spline_body(start, pieces);
    let first = whole.take(10);
    let (k, p, c) = (
        knot_list(n, (n + 1) as nat),
        point3(10, start),
        control_list(pieces, pieces.len()),
    );
    assert(whole =~= first + k + p + c);
    assert(plain(first));
    lemma_knots_plain(n, (n + 1) as nat);
    lemma_points_plain(start);
    lemma_controls_plain(pieces, pieces.len());
    lemma_plain_both(first, k);
    lemma_plain_both(first + k, p);
    lemma_plain_both(first + k + p, c);
}

proof fn lemma_runs(sheet: Sheet, place: Place, start: Xy, pieces: Seq<Piece>, k: int)
    requires
        kept_up(sheet),
        1 <= place.owner <= sheet.last,
        0 <= k <= pieces.len(),
    ensures
        kept_up(with_runs(sheet, place, start, pieces, k)),
        sheet.last <= with_runs(sheet, place, start, pieces, k).last,
    decreases pieces.len() - k,
{
    if k < pieces.len() {
        let j = run_end(pieces, k, k + 1);
        lemma_run_end(pieces, k, k + 1);
        let these = pieces.subrange(k, j);
        let at = from_point(start, pieces, k);
        let own = sheet.last + 1;
        if is_cubic(pieces[k]) {
            lemma_spline_plain(at, these);
            lemma_entity(
                "SPLINE"@,
                own,
                place.owner,
                place.layer,
                "AcDbSpline"@,
                spline_body(at, these),
                sheet.last,
            );
            lemma_object(
                sheet,
                entity_groups("SPLINE"@, own, place.owner, place.layer, "AcDbSpline"@)
                    + spline_body(at, these),
            );
        } else {
            let body = polyline_body(ends(at, these), false);
            lemma_polyline_plain(ends(at, these), false);
            lemma_entity(
                "LWPOLYLINE"@,
                own,
                place.owner,
                place.layer,
                "AcDbPolyline"@,
                body,
                sheet.last,
            );
            lemma_object(
                sheet,
                entity_groups("LWPOLYLINE"@, own, place.owner, place.layer, "AcDbPolyline"@) + body,
            );
        }
        lemma_runs(with_run(sheet, place, start, pieces, k, j), place, start, pieces, j);
    }
}

proof fn lemma_outline(sheet: Sheet, place: Place, outline: OutlineView)
    requires
        kept_up(sheet),
        1 <= place.owner <= sheet.last,
    ensures
        kept_up(with_outline(sheet, place, outline)),
        sheet.last <= with_outline(sheet, place, outline).last,
{
    if all_lines(outline.pieces) {
        let own = sheet.last + 1;
        let body = polyline_body(straight_points(outline), outline.closed);
        lemma_polyline_plain(straight_points(outline), outline.closed);
        lemma_entity(
            "LWPOLYLINE"@,
            own,
            place.owner,
            place.layer,
            "AcDbPolyline"@,
            body,
            sheet.last,
        );
        lemma_object(
            sheet,
            entity_groups("LWPOLYLINE"@, own, place.owner, place.layer, "AcDbPolyline"@) + body,
        );
    } else {
        lemma_runs(sheet, place, outline.start, closed_pieces(outline), 0);
    }
}

proof fn lemma_outlines(
    sheet: Sheet,
    owner: int,
    layers: Seq<Layer>,
    list: Seq<Outline>,
    n: nat,
)
    requires
        kept_up(sheet),
        1 <= owner <= sheet.last,
    ensures
        kept_up(with_outlines(sheet, owner, layers, list, n)),
        sheet.last <= with_outlines(sheet, owner, layers, list, n).last,
    decreases n,
{
    if n > 0 {
        lemma_outlines(sheet, owner, layers, list, (n - 1) as nat);
        let o = list[n - 1]@;
        lemma_outline(
            with_outlines(sheet, owner, layers, list, (n - 1) as nat),
            Place { owner, layer: layers[o.layer] },
            o,
        );
    }
}

proof fn lemma_block(sheet: Sheet, drawing: Drawing, k: int)
    requires
        kept_up(sheet),
        0 <= k,
        model_space(drawing.layers@.len() as int) + k <= sheet.last,
    ensures
        kept_up(with_block(sheet, drawing, k)),
        sheet.last <= with_block(sheet, drawing, k).last,
{
    let layers = drawing.layers@;
    let owner = model_space(layers.len() as int) + k;
    let own = sheet.last + 1;
    let name = block_name(drawing.blocks@, k);
    let b = block_begin(own, owner, k == 1, name);
    lemma_one(b, 1, own);
    assert(resolves(b, sheet.last));
    lemma_object(sheet, b);
    let begun = Sheet { groups: sheet.groups + b, last: own };
    let list = block_outlines(drawing.blocks@, k);
    lemma_outlines(begun, owner, layers, list, list.len());
    let drawn = with_outlines(begun, owner, layers, list, list.len());
    let e = block_end(drawn.last + 1, owner, k == 1);
    lemma_one(e, 1, drawn.last + 1);
    assert(resolves(e, drawn.last));
    lemma_object(drawn, e);
}

proof fn lemma_blocks(sheet: Sheet, drawing: Drawing, n: nat)
    requires
        kept_up(sheet),
        n <= drawing.blocks@.len() + 2,
        sheet.last >= tables_last(drawing.layers@.len() as int, drawing.blocks@.len() as int),
    ensures
        kept_up(with_blocks(sheet, drawing, n)),
        sheet.last <= with_blocks(sheet, drawing, n).last,
    decreases n,
{
    if n > 0 {
        lemma_blocks(sheet, drawing, (n - 1) as nat);
        lemma_block(with_blocks(sheet, drawing, (n - 1) as nat), drawing, n - 1);
    }
}

proof fn lemma_items(sheet: Sheet, drawing: Drawing, n: nat)
    requires
        kept_up(sheet),
        n <= drawing.items@.len(),
        sheet.last >= tables_last(drawing.layers@.len() as int, drawing.blocks@.len() as int),
    ensures
        kept_up(with_items(sheet, drawing, n)),
        sheet.last <= with_items(sheet, drawing, n).last,
    decreases n,
{
    if n > 0 {
        lemma_items(sheet, drawing, (n - 1) as nat);
        let before = with_items(sheet, drawing, (n - 1) as nat);
        let layers = drawing.layers@;
        let owner = model_space(layers.len() as int);
        match drawing.items@[n - 1]@ {
            ItemView::Outline(o) => {
                lemma_outline(before, Place { owner, layer: layers[o.layer] }, o);
            },
            ItemView::Array(a) => {
                let class = if a.columns > 1 || a.rows > 1 {
                    "AcDbMInsertBlock"@
                } else {
                    "AcDbBlockReference"@
                };
                let body = array_groups(a, drawing.blocks@);
                assert(plain(body));
                let layer = layers[a.layer as int];
                lemma_entity("INSERT"@, before.last + 1, owner, layer, class, body, before.last);
                lemma_object(
                    before,
                    entity_groups("INSERT"@, before.last + 1, owner, layer, class) + body,
                );
            },
        }
    }
}

proof fn lemma_dictionary(kind: Seq<char>, own: int, owner: int, limit: int)
    requires
        0 <= own,
        0 <= owner <= limit,
    ensures
        made(dictionary(kind, own, owner), set![own]),
        resolves(dictionary(kind, own, owner), limit),
{
    lemma_one(dictionary(kind, own, owner), 1, own);
}

#[verifier::rlimit(30)]
proof fn lemma_objects(root: int)
    requires
        root > 20,
    ensures
        made(objects(root), set![10int, 11, root, root + 1]),
        resolves(objects(root), root + 1),
{
    let limit = root + 1;
    let all = objects(root);
    let c = section("OBJECTS"@);
    let d1 = dictionary("DICTIONARY"@, root, 0);
    let m1 = all.subrange(7, 11);
    let d2 = dictionary("DICTIONARY"@, root + 1, root);
    let d3 = dictionary("ACDBDICTIONARYWDFLT"@, 10, root);
    let m2 = all.subrange(21, 25);
    let d4 = all.subrange(25, 28);
    let e = all.subrange(28, 30);
    assert(all =~= c + d1 + m1 + d2 + d3 + m2 + d4 + e);
    assert(plain(c));
    lemma_dictionary("DICTIONARY"@, root, 0, limit);
    lemma_plain_first(c, d1, set![root], limit);
    assert(made(m1, Set::empty()));
    assert(resolves(m1, limit));
    let s1 = set![root];
    lemma_made_adds(c + d1, s1, m1, Set::empty(), limit);
    assert(s1.union(Set::empty()) =~= s1);
    lemma_dictionary("DICTIONARY"@, root + 1, root, limit);
    let s2 = set![root, root + 1];
    lemma_made_adds(c + d1 + m1, s1, d2, set![root + 1], limit);
    assert(s1.union(set![root + 1]) =~= s2);
    lemma_dictionary("ACDBDICTIONARYWDFLT"@, 10, root, limit);
    let s3 = set![root, root + 1, 10int];
    lemma_made_adds(c + d1 + m1 + d2, s2, d3, set![10int], limit);
    assert(s2.union(set![10int]) =~= s3);
    assert(made(m2, Set::empty()));
    assert(resolves(m2, limit));
    lemma_made_adds(c + d1 + m1 + d2 + d3, s3, m2, Set::empty(), limit);
    assert(s3.union(Set::empty()) =~= s3);
    lemma_one(d4, 1, 11);
    assert(resolves(d4, limit));
    let s4 = set![10int, 11, root, root + 1];
    lemma_made_adds(c + d1 + m1 + d2 + d3 + m2, s3, d4, set![11int], limit);
    assert(s3.union(set![11int]) =~= s4);
    assert(plain(e));
    lemma_plain_adds(c + d1 + m1 + d2 + d3 + m2 + d4, s4, e, limit);
}

/// Every handle of the file is given once and lies below the seed, and every
/// owner and pointer is a handle that is given, or 0, the file itself, which
/// only an owner may be.
pub proof fn law_every_handle_resolves(drawing: Drawing)
    ensures
        made(body(drawing).groups, span(1, body(drawing).last)),
        forall|i: int|
            0 <= i < body(drawing).groups.len() && points(#[trigger] body(drawing).groups[i])
                ==> is_made(body(drawing).groups, number_of(body(drawing).groups[i])) || (body(
                drawing,
            ).groups[i].code == 330 && number_of(body(drawing).groups[i]) == 0),
{
    let (layers, blocks) = (drawing.layers@, drawing.blocks@);
    let last = tables_last(layers.len() as int, blocks.len() as int);
    lemma_tables(layers, blocks);
    let first = Sheet { groups: tables(layers, blocks), last };
    assert(plain(section("BLOCKS"@)));
    lemma_plain_object(first, section("BLOCKS"@));
    let start = Sheet { groups: tables(layers, blocks) + section("BLOCKS"@), last };
    lemma_blocks(start, drawing, 2 + blocks.len());
    let blocked = with_blocks(start, drawing, 2 + blocks.len());
    let between = section_end() + section("ENTITIES"@);
    assert(plain(between));
    lemma_plain_object(blocked, between);
    let opened = Sheet { groups: blocked.groups + between, last: blocked.last };
    lemma_items(opened, drawing, drawing.items@.len());
    let drawn = with_items(opened, drawing, drawing.items@.len());
    let root = drawn.last + 1;
    lemma_objects(root);
    let s = set![10int, 11, root, root + 1];
    lemma_end_table();
    lemma_plain_first(section_end(), objects(root), s, root + 1);
    lemma_resolves_more(drawn.groups, drawn.last, root + 1);
    lemma_made_adds(
        drawn.groups,
        numbers(drawn.last),
        section_end() + objects(root),
        s,
        root + 1,
    );
    let all = body(drawing);
    assert(numbers(drawn.last).union(s) =~= span(1, all.last));
    assert forall|i: int| 0 <= i < all.groups.len() && points(
        #[trigger] all.groups[i],
    ) implies is_made(all.groups, number_of(all.groups[i])) || (all.groups[i].code == 330
        && number_of(all.groups[i]) == 0) by {
        let n = number_of(all.groups[i]);
        if n >= 1 {
            assert(span(1, all.last).contains(n));
        }
    }
}

/// A spline's knots are as many as its group 72 says, and its control points
/// as many as its group 73 says.
pub proof fn law_spline_counts(pieces: Seq<Piece>)
    requires
        pieces.len() > 0,
        forall|i: int| 0 <= i < pieces.len() ==> is_cubic(#[trigger] pieces[i]),
    ensures
        knot_list(pieces.len() as int, pieces.len() + 1).len() == 3 * pieces.len() + 5,
        control_list(pieces, pieces.len()).len() == 3 * (3 * pieces.len()),
{
    lemma_knot_count(pieces.len() as int, pieces.len() + 1);
    lemma_control_count(pieces, pieces.len());
}

proof fn lemma_knot_count(pieces: int, n: nat)
    requires
        pieces >= 1,
        n <= pieces + 1,
    ensures
        knot_list(pieces, n).len() == (if n == 0 {
            0
        } else if n <= pieces {
            3 * n + 1
        } else {
            3 * n + 2
        }),
    decreases n,
{
    if n > 0 {
        lemma_knot_count(pieces, (n - 1) as nat);
    }
}

proof fn lemma_control_count(pieces: Seq<Piece>, n: nat)
    requires
        n <= pieces.len(),
        forall|i: int| 0 <= i < pieces.len() ==> is_cubic(#[trigger] pieces[i]),
    ensures
        control_list(pieces, n).len() == 9 * n,
    decreases n,
{
    if n > 0 {
        lemma_control_count(pieces, (n - 1) as nat);
        assert(is_cubic(pieces[n - 1]));
    }
}

} // verus!
