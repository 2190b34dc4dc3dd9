//! What the cards' commands come to: which shapes are still there, what is
//! counted, and when the document is drawn again.
use crate::desktop::{Bow, DesktopView};
use crate::desktop::convert::{ConvertedView, Tick};
use crate::desktop::panels::{others_of, NodeChoice};
use crate::desktop::shapes::present_of;
use crate::edits::lemma_rounding_index;
use crate::hand::{move_to_index, other_points, rounding_index, HandView, Point, RemovalView};
use crate::picture::Raster;
use crate::reach::Reach;
use crate::recolor::{edge_count, row_edge, same_word};
use crate::settings::Sliders;
use vstd::prelude::*;

verus! {

/// The pixels of the first `n` columns of row `y` that lie in the picture's
/// first or last row or column, where `opaque` asks for it the opaque ones.
pub open spec fn edge_of_row(r: Raster, y: int, n: int, opaque: bool) -> Set<(int, int)> {
    Set::new(
        |p: (int, int)|
            p.1 == y && 0 <= p.0 < n && (p.0 == 0 || p.0 == r.width - 1 || y == 0 || y == r.height
                - 1) && (opaque ==> r.pixels@[y * r.width + p.0]@[3] == 255),
    )
}

/// The same of the first `n` rows.
pub open spec fn edge_of(r: Raster, n: int, opaque: bool) -> Set<(int, int)> {
    Set::new(
        |p: (int, int)|
            0 <= p.1 < n && 0 <= p.0 < r.width && (p.0 == 0 || p.0 == r.width - 1 || p.1 == 0
                || p.1 == r.height - 1) && (opaque ==> r.pixels@[p.1 * r.width + p.0]@[3] == 255),
    )
}

proof fn lemma_row_edge(r: Raster, y: int, n: nat, opaque: bool)
    ensures
        edge_of_row(r, y, n as int, opaque).finite(),
        row_edge(r, y, n, opaque) == edge_of_row(r, y, n as int, opaque).len(),
    decreases n,
{
    let now = edge_of_row(r, y, n as int, opaque);
    if n == 0 {
        assert(now =~= Set::empty());
    } else {
        lemma_row_edge(r, y, (n - 1) as nat, opaque);
        let before = edge_of_row(r, y, n - 1, opaque);
        if crate::recolor::edge_pixel(r, n - 1, y, opaque) {
            assert(now =~= before.insert((n - 1, y)));
        } else {
            assert(now =~= before);
        }
    }
}

/// The border is counted pixel by pixel: each pixel of the first and last rows
/// and columns once.
pub proof fn law_the_border_is_counted_once(r: Raster, n: nat, opaque: bool)
    ensures
        edge_of(r, n as int, opaque).finite(),
        edge_count(r, n, opaque) == edge_of(r, n as int, opaque).len(),
    decreases n,
{
    let now = edge_of(r, n as int, opaque);
    if n == 0 {
        assert(now =~= Set::empty());
    } else {
        law_the_border_is_counted_once(r, (n - 1) as nat, opaque);
        lemma_row_edge(r, n - 1, r.width as nat, opaque);
        let (a, b) = (edge_of(r, n - 1, opaque), edge_of_row(r, n - 1, r.width as int, opaque));
        assert(now =~= a.union(b));
        assert(a.disjoint(b));
        vstd::set_lib::lemma_set_disjoint_lens(a, b);
    }
}

/// The shapes that are kept are those that are still there, in their order.
pub proof fn law_shapes_still_there_are_kept(
    list: Seq<RemovalView>,
    present: Seq<bool>,
    n: nat,
) -> (from: Seq<int>)
    requires
        n <= list.len(),
        n <= present.len(),
    ensures
        from.len() == present_of(list, present, n).len(),
        forall|k: int|
            0 <= k < from.len() ==> {
                &&& 0 <= #[trigger] from[k] < n
                &&& present[from[k]]
                &&& present_of(list, present, n)[k] == list[from[k]]
            },
        forall|j: int, k: int| 0 <= j < k < from.len() ==> #[trigger] from[j] < #[trigger] from[k],
        forall|i: int| 0 <= i < n && #[trigger] present[i] ==> from.contains(i),
    decreases n,
{
    if n == 0 {
        Seq::empty()
    } else {
        let m = (n - 1) as nat;
        let before = law_shapes_still_there_are_kept(list, present, m);
        if !present[n - 1] {
            before
        } else {
            let from = before.push(n - 1);
            assert forall|i: int| 0 <= i < n && #[trigger] present[i] implies from.contains(i) by {
                if i < m {
                    assert(before.contains(i));
                    let k = choose|k: int| 0 <= k < before.len() && before[k] == i;
                    assert(from[k] == i);
                } else {
                    assert(from[before.len() as int] == i);
                }
            }
            from
        }
    }
}

/// Which of the first `n` selected shapes have another colour.
pub open spec fn of_other_colours(selected: Seq<RemovalView>, color: Seq<char>, n: int) -> Set<int> {
    Set::new(|i: int| 0 <= i < n && !same_word(selected[i].color, color))
}

/// The others are the selected shapes of another colour, each once.
pub proof fn law_others_have_another_colour(selected: Seq<RemovalView>, color: Seq<char>, n: nat)
    requires
        n <= selected.len(),
    ensures
        of_other_colours(selected, color, n as int).finite(),
        others_of(selected, color, n) == of_other_colours(selected, color, n as int).len(),
    decreases n,
{
    let now = of_other_colours(selected, color, n as int);
    if n == 0 {
        assert(now =~= Set::empty());
    } else {
        law_others_have_another_colour(selected, color, (n - 1) as nat);
        let before = of_other_colours(selected, color, n - 1);
        if same_word(selected[n - 1].color, color) {
            assert(now =~= before);
        } else {
            assert(now =~= before.insert(n - 1));
        }
    }
}

/// A choice in a node's menu that changes nothing asks for nothing; one that
/// changes the edits draws the document again, where there is one.
pub proof fn law_a_changed_node_is_drawn_again(s: DesktopView, node: Point, reach: Reach)
    ensures
        ({
            let (after, request) = s.choose_node(node, NodeChoice::Round(reach));
            request is Some <==> s.result is Some && after.hand != s.hand
        }),
        ({
            let (after, request) = s.choose_node(node, NodeChoice::Restore);
            request is Some <==> s.result is Some && after.hand != s.hand
        }),
        ({
            let (after, request) = s.choose_node(node, NodeChoice::PutBack);
            request is Some <==> s.result is Some && after.hand != s.hand
        }),
        ({
            let (after, request) = s.choose_node(node, NodeChoice::Close);
            request is None && after.hand == s.hand
        }),
{
    let h = s.hand;
    let i = rounding_index(h.rounded, node, 0);
    lemma_rounding_index(h.rounded, node, 0);
    let rounded = h.round_node(node, reach);
    if i < h.rounded.len() {
        assert(rounded.rounded[i].reach == reach);
        if h.rounded[i].reach == reach {
            assert(rounded.rounded =~= h.rounded);
            assert(rounded == h);
        }
    } else {
        assert(rounded.rounded.len() == h.rounded.len() + 1);
    }
    let restored = h.restore_node(node);
    if i < h.rounded.len() {
        assert(restored.rounded.len() == h.rounded.len() - 1);
    }
    lemma_move_index(h, node, 0);
    let back = h.put_back(node);
    if h.moved_from(node) is Some {
        assert(back.moved.len() == h.moved.len() - 1);
    }
}

proof fn lemma_move_index(hand: HandView, node: Point, i: int)
    requires
        0 <= i <= hand.moved.len(),
    ensures
        i <= move_to_index(hand.moved, node, i) <= hand.moved.len(),
    decreases hand.moved.len() - i,
{
    if i < hand.moved.len() && hand.moved[i].to != node {
        lemma_move_index(hand, node, i + 1);
    }
}

/// A corner squared is known by where the trace had its node, and every other
/// one stays as it was; squared no longer, it is gone from the list.
pub proof fn law_squaring_is_about_one_node(s: DesktopView, node: Point, from: Point, other: Point)
    requires
        s.hand.moved_from(node) == Some(from) || (s.hand.moved_from(node) is None && from == node),
        other != from,
    ensures
        s.squared(node, true).straightened.contains(from),
        !s.squared(node, false).straightened.contains(from),
        s.squared(node, true).straightened.contains(other) <==> s.hand.straightened.contains(other),
        s.squared(node, false).straightened.contains(other) <==> s.hand.straightened.contains(
            other,
        ),
        s.squared(node, true).moved == s.hand.moved,
        s.squared(node, false).moved == s.hand.moved,
        s.squared(node, true).rounded == s.hand.rounded,
        s.squared(node, false).rounded == s.hand.rounded,
{
    let list = s.hand.straightened;
    let more = list.push(from);
    assert(more[list.len() as int] == from);
    if list.contains(other) {
        let k = choose|k: int| 0 <= k < list.len() && list[k] == other;
        assert(more[k] == other);
    }
    if more.contains(other) {
        let k = choose|k: int| 0 <= k < more.len() && more[k] == other;
        assert(list[k] == other);
    }
    lemma_other_points(list, from, list.len(), other);
    lemma_other_points(list, from, list.len(), from);
    assert(list.take(list.len() as int) =~= list);
}

proof fn lemma_other_points(list: Seq<Point>, node: Point, n: nat, p: Point)
    requires
        n <= list.len(),
    ensures
        other_points(list, node, n).contains(p) <==> list.take(n as int).contains(p) && p != node,
    decreases n,
{
    let now = other_points(list, node, n);
    if n == 0 {
        assert(list.take(0) =~= Seq::empty());
    } else {
        let m = (n - 1) as nat;
        lemma_other_points(list, node, m, p);
        let before = other_points(list, node, m);
        let (a, b) = (list.take(m as int), list.take(n as int));
        assert(b =~= a.push(list[n - 1]));
        if a.contains(p) {
            let k = choose|k: int| 0 <= k < a.len() && a[k] == p;
            assert(b[k] == p);
        }
        if b.contains(p) {
            let k = choose|k: int| 0 <= k < b.len() && b[k] == p;
            assert(k < m ==> a[k] == p);
        }
        if list[n - 1] == p {
            assert(b[n - 1] == p);
        }
        if before.contains(p) {
            let k = choose|k: int| 0 <= k < before.len() && before[k] == p;
            assert(now[k] == p);
        }
        if now.contains(p) {
            let k = choose|k: int| 0 <= k < now.len() && now[k] == p;
            assert(k < before.len() ==> before[k] == p);
        }
        if list[n - 1] != node {
            assert(now[before.len() as int] == list[n - 1]);
        }
    }
}

/// Changed settings convert by themselves only with the switch on and the
/// picture on screen loaded, once converted; only if they are neither those it
/// was converted with nor those that were put aside; only while no pointer
/// button is down; and only after they stood unchanged for four tenths
/// of a second.
pub proof fn law_settings_convert_when_they_have_rested(
    s: DesktopView,
    now: u64,
    pointer_down: bool,
    next: Option<Option<Sliders>>,
)
    ensures
        ({
            let (after, tick, _) = s.auto_convert_tick(now, pointer_down, next);
            let inputs = s.conversion_inputs();
            &&& tick == Tick::Start ==> {
                &&& s.auto.on
                &&& s.picture.size is Some
                &&& s.picture.path == s.picture.loaded_path
                &&& !pointer_down
                &&& s.auto.converted is Some
                &&& s.auto.converted != Some(inputs)
                &&& s.auto.held != Some(inputs)
                &&& s.auto.changed == Some(inputs)
                &&& s.auto.since + 400 <= now
                &&& after.work.worker
                &&& after.result is None
            }
            &&& tick matches Tick::Wait(ms) ==> 30 <= ms <= 400
            &&& (s.auto.changed != Some(inputs) ==> tick != Tick::Start)
            &&& (tick matches Tick::Wait(ms) && !pointer_down && s.auto.changed == Some(inputs)
                && s.auto.since <= now && now < s.auto.since + 400) ==> (tick matches Tick::Wait(ms)
                && now + ms >= s.auto.since + 400)
        }),
{
}

/// Settings that have rested are converted: with nothing else running and a
/// result they make stale, the look that finds them so starts a conversion.
pub proof fn law_rested_settings_are_converted(
    s: DesktopView,
    now: u64,
    next: Option<Option<Sliders>>,
)
    requires
        s.auto.on,
        s.picture.size is Some,
        s.picture.path == s.picture.loaded_path,
        s.auto.converted is Some,
        s.auto.converted != Some(s.conversion_inputs()),
        s.auto.held != Some(s.conversion_inputs()),
        s.auto.changed == Some(s.conversion_inputs()),
        s.auto.since + 400 <= now,
        s.idle(),
        s.result is None || s.conversion_stale() || s.advanced_stale(next),
    ensures
        s.auto_convert_tick(now, false, next).1 == Tick::Start,
        s.auto_convert_tick(now, false, next).0.work.worker,
{
}

/// What a conversion brings is shown, and where the edits changed while it ran
/// the document is drawn again: if nothing is asked for, the edits in force are
/// those that the result was drawn with.
pub proof fn law_a_conversion_shows_the_edits_in_force(
    s: DesktopView,
    c: ConvertedView,
    start: u32,
)
    ensures
        ({
            let (after, request) = s.accept(c, start);
            let asked = after.derive_settings(start);
            &&& after.result == Some(c.result)
            &&& !after.work.worker
            &&& after.replaced is None
            &&& after.hand == s.hand
            &&& request is None ==> {
                &&& asked.deleted == c.derived_with.deleted
                &&& asked.moved == c.derived_with.moved
                &&& asked.deleted_nodes == c.derived_with.deleted_nodes
                &&& asked.rounded == c.derived_with.rounded
                &&& asked.straightened == c.derived_with.straightened
                &&& asked.straighten == c.derived_with.straighten
                &&& asked.regularize == c.derived_with.regularize
                &&& asked.primitives == c.derived_with.primitives
                &&& asked.sticker == c.derived_with.sticker
            }
        }),
{
}

/// Every edit by hand is in what the document is drawn with, and every setting
/// of the curves: whatever is rounded, squared, moved or deleted is drawn so.
pub proof fn law_every_edit_is_drawn(s: DesktopView, start: u32)
    ensures
        ({
            let d = s.derive_settings(start);
            let c = s.settings.curves;
            &&& d.rounded == s.hand.rounded
            &&& d.straightened == s.hand.straightened
            &&& d.moved == s.hand.moved
            &&& d.deleted_nodes == s.hand.deleted_nodes
            &&& d.deleted == s.hand.deleted
            &&& d.regularize == c.regularize
            &&& d.primitives == c.primitives
            &&& d.straighten is Some <==> c.straighten
            &&& d.straighten == Some(Bow::Auto) <==> c.straighten && c.straighten_auto
            &&& c.straighten && !c.straighten_auto ==> d.straighten == Some(
                Bow::Pixels(c.straighten_tolerance),
            )
            &&& d.simplify is Some <==> c.simplify
            &&& d.sticker is Some <==> s.settings.sticker.on && s.settings.sticker.drawable
            &&& d.sticker is Some ==> d.sticker == Some(s.settings.sticker)
        }),
{
}

/// A step of Undo holds every edit: those by hand, the picture's preparation,
/// the curves and the sticker, so that two states with one step differ in none.
pub proof fn law_a_step_holds_every_edit(s: DesktopView, t: DesktopView)
    requires
        s.edits() == t.edits(),
    ensures
        s.hand.rounded == t.hand.rounded,
        s.hand.straightened == t.hand.straightened,
        s.hand.moved == t.hand.moved,
        s.hand.deleted_nodes == t.hand.deleted_nodes,
        s.hand.deleted == t.hand.deleted,
        s.settings.prep == t.settings.prep,
        s.settings.curves == t.settings.curves,
        s.settings.sticker == t.settings.sticker,
        s.settings.conversion.automatic == t.settings.conversion.automatic,
        !s.settings.conversion.automatic ==> s.settings.conversion.category
            == t.settings.conversion.category && s.settings.conversion.quality
            == t.settings.conversion.quality,
        s.settings.conversion.optional_optimizer == t.settings.conversion.optional_optimizer,
        s.settings.conversion.overlap_opaque_photos == t.settings.conversion.overlap_opaque_photos,
        s.settings.conversion.advanced_on == t.settings.conversion.advanced_on,
        s.settings.conversion.advanced_on ==> s.settings.conversion.sliders
            == t.settings.conversion.sliders,
{
    assert(s.edits().rounded == t.edits().rounded);
    assert(s.edits().conversion == t.edits().conversion);
}

/// The background shapes that are cut out are deleted, behind those that were,
/// and nothing is selected then. Where the border is not opaque, or no shape
/// touches it, nothing is deleted.
pub proof fn law_the_background_is_deleted(s: DesktopView, removals: Seq<RemovalView>, i: int)
    requires
        0 <= i < removals.len(),
    ensures
        ({
            let (after, request) = s.cut_background(removals);
            let cut = s.picture.working && s.picture.border_opaque;
            &&& cut ==> after.hand.deleted.len() == s.hand.deleted.len() + removals.len()
            &&& cut ==> after.hand.deleted[s.hand.deleted.len() + i] == removals[i]
            &&& cut ==> after.hand.selected.len() == 0
            &&& cut ==> (request is Some <==> s.result is Some)
            &&& !cut ==> after.hand == s.hand && request is None
            &&& after.hand.rounded == s.hand.rounded
            &&& after.hand.moved == s.hand.moved
            &&& after.hand.deleted_nodes == s.hand.deleted_nodes
            &&& after.settings == s.settings
        }),
        s.cut_background(Seq::empty()).0.hand == s.hand,
        s.cut_background(Seq::empty()).1 is None,
{
}

} // verus!
