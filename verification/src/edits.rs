//! What an edit by hand does to what it is about, and that it leaves the rest.
use crate::hand::{
    carried, carried_back, move_from_index, move_to_index, moves_of, one_shape, other_roundings,
    other_shapes, rounding_index, shape_index, HandView, NodeMove, Point, RemovalView, Rounded,
};
use crate::reach::Reach;
use vstd::prelude::*;

verus! {

/// What `rounding_index` finds is the first.
pub proof fn lemma_rounding_index(rounded: Seq<Rounded>, node: Point, i: int)
    requires
        0 <= i <= rounded.len(),
    ensures
        i <= rounding_index(rounded, node, i) <= rounded.len(),
        rounding_index(rounded, node, i) < rounded.len() ==> rounded[rounding_index(
            rounded,
            node,
            i,
        )].at == node,
        forall|j: int|
            i <= j < rounding_index(rounded, node, i) ==> (#[trigger] rounded[j]).at != node,
    decreases rounded.len() - i,
{
    if i < rounded.len() && rounded[i].at != node {
        lemma_rounding_index(rounded, node, i + 1);
    }
}

proof fn lemma_rounding_is(rounded: Seq<Rounded>, node: Point, i: int, at: int)
    requires
        0 <= i <= at <= rounded.len(),
        at < rounded.len() ==> rounded[at].at == node,
        forall|j: int| i <= j < at ==> (#[trigger] rounded[j]).at != node,
    ensures
        rounding_index(rounded, node, i) == at,
    decreases at - i,
{
    if i < at {
        lemma_rounding_is(rounded, node, i + 1, at);
    }
}

/// No node is rounded twice.
pub open spec fn rounded_once(rounded: Seq<Rounded>) -> bool {
    forall|i: int, j: int|
        0 <= i < j < rounded.len() ==> (#[trigger] rounded[i]).at != (#[trigger] rounded[j]).at
}

/// Rounding a node gives it that reach, takes no other node's and rounds none
/// twice.
pub proof fn law_rounding_is_about_one_node(
    hand: HandView,
    node: Point,
    reach: Reach,
    other: Point,
)
    requires
        rounded_once(hand.rounded),
    ensures
        hand.round_node(node, reach).rounding_of(node) == Some(reach),
        other != node ==> hand.round_node(node, reach).rounding_of(other) == hand.rounding_of(
            other,
        ),
        rounded_once(hand.round_node(node, reach).rounded),
        hand.round_node(node, reach) == (HandView {
            rounded: hand.round_node(node, reach).rounded,
            ..hand
        }),
{
    let i = rounding_index(hand.rounded, node, 0);
    let k = rounding_index(hand.rounded, other, 0);
    lemma_rounding_index(hand.rounded, node, 0);
    lemma_rounding_index(hand.rounded, other, 0);
    let after = hand.round_node(node, reach);
    let n = hand.rounded.len();
    assert forall|j: int| 0 <= j < n implies (#[trigger] after.rounded[j]).at
        == hand.rounded[j].at by {}
    lemma_rounding_is(after.rounded, node, 0, i);
    if other != node {
        lemma_rounding_is(
            after.rounded,
            other,
            0,
            if k < n {
                k
            } else {
                after.rounded.len() as int
            },
        );
    }
    assert forall|a: int, b: int| 0 <= a < b < after.rounded.len() implies (
    #[trigger] after.rounded[a]).at != (#[trigger] after.rounded[b]).at by {
        if b < n {
            assert(hand.rounded[a].at != hand.rounded[b].at);
        }
    }
}

/// Restoring a corner takes its rounding and no other.
pub proof fn law_restoring_is_about_one_node(hand: HandView, node: Point, other: Point)
    requires
        rounded_once(hand.rounded),
    ensures
        hand.restore_node(node).rounding_of(node) is None,
        other != node ==> hand.restore_node(node).rounding_of(other) == hand.rounding_of(other),
        hand.restore_node(node) == (HandView {
            rounded: hand.restore_node(node).rounded,
            ..hand
        }),
{
    let i = rounding_index(hand.rounded, node, 0);
    let k = rounding_index(hand.rounded, other, 0);
    lemma_rounding_index(hand.rounded, node, 0);
    lemma_rounding_index(hand.rounded, other, 0);
    let after = hand.restore_node(node);
    let n = hand.rounded.len() as int;
    if i < n {
        assert forall|j: int| 0 <= j < n - 1 implies #[trigger] after.rounded[j] == hand.rounded[if j
            < i {
            j
        } else {
            j + 1
        }] by {}
        assert forall|j: int| 0 <= j < n - 1 implies (#[trigger] after.rounded[j]).at != node by {
            let m = if j < i {
                j
            } else {
                j + 1
            };
            assert(after.rounded[j] == hand.rounded[m]);
            if m < i {
                assert(hand.rounded[m].at != hand.rounded[i].at);
            } else {
                assert(hand.rounded[i].at != hand.rounded[m].at);
            }
        }
        lemma_rounding_is(after.rounded, node, 0, n - 1);
        if other != node {
            let want = if k >= n {
                n - 1
            } else if k < i {
                k
            } else {
                k - 1
            };
            assert forall|j: int| 0 <= j < want implies (#[trigger] after.rounded[j]).at != other by {
                let m = if j < i {
                    j
                } else {
                    j + 1
                };
                assert(after.rounded[j] == hand.rounded[m]);
                assert(m < k);
            }
            if k < n {
                assert(after.rounded[want] == hand.rounded[k]);
            }
            lemma_rounding_is(after.rounded, other, 0, want);
        }
    }
}

/// Roundings of other nodes, each in its place.
proof fn lemma_other_roundings(list: Seq<Rounded>, node: Point, n: nat)
    requires
        n <= list.len(),
    ensures
        forall|r: Rounded| #[trigger]
            other_roundings(list, node, n).contains(r) <==> r.at != node && list.take(
                n as int,
            ).contains(r),
    decreases n,
{
    let now = other_roundings(list, node, n);
    if n == 0 {
        assert(list.take(0) =~= Seq::empty());
    } else {
        let m = (n - 1) as nat;
        lemma_other_roundings(list, node, m);
        let before = other_roundings(list, node, m);
        let last = list[n - 1];
        assert(list.take(n as int) =~= list.take(m as int).push(last));
        assert forall|r: Rounded| #[trigger] now.contains(r) <==> r.at != node && list.take(
            n as int,
        ).contains(r) by {
            lemma_push_contains(list.take(m as int), last, r);
            lemma_push_contains(before, last, r);
            assert(before.contains(r) <==> r.at != node && list.take(m as int).contains(r));
        }
    }
}

proof fn lemma_push_contains<A>(list: Seq<A>, last: A, v: A)
    ensures
        list.push(last).contains(v) <==> list.contains(v) || v == last,
{
    let all = list.push(last);
    if list.contains(v) {
        let k = choose|k: int| 0 <= k < list.len() && list[k] == v;
        assert(all[k] == v);
    }
    if v == last {
        assert(all[list.len() as int] == v);
    }
    if all.contains(v) {
        let k = choose|k: int| 0 <= k < all.len() && all[k] == v;
        assert(k < list.len() ==> list[k] == v);
    }
}

/// Deleting a node deletes that one and takes its roundings: those of other
/// nodes stay, and so do the moves and the shapes.
pub proof fn law_deleting_a_node_takes_its_rounding(hand: HandView, node: Point, r: Rounded, p: Point)
    requires
        !hand.deleted_nodes.contains(node),
    ensures
        ({
            let after = hand.delete_node(node);
            &&& after.rounded.contains(r) <==> hand.rounded.contains(r) && r.at != node
            &&& after.deleted_nodes.contains(p) <==> hand.deleted_nodes.contains(p) || p == node
            &&& after.moved == hand.moved
            &&& after.straightened == hand.straightened
            &&& after.deleted == hand.deleted
            &&& after.selected == hand.selected
        }),
{
    lemma_other_roundings(hand.rounded, node, hand.rounded.len());
    assert(hand.rounded.take(hand.rounded.len() as int) =~= hand.rounded);
    assert(other_roundings(hand.rounded, node, hand.rounded.len()).contains(r) <==> r.at != node
        && hand.rounded.contains(r));
    lemma_push_contains(hand.deleted_nodes, node, p);
}

proof fn lemma_move_to(moved: Seq<NodeMove>, node: Point, i: int)
    requires
        0 <= i <= moved.len(),
    ensures
        i <= move_to_index(moved, node, i) <= moved.len(),
        move_to_index(moved, node, i) < moved.len() ==> moved[move_to_index(moved, node, i)].to
            == node,
        forall|j: int| i <= j < move_to_index(moved, node, i) ==> (#[trigger] moved[j]).to != node,
    decreases moved.len() - i,
{
    if i < moved.len() && moved[i].to != node {
        lemma_move_to(moved, node, i + 1);
    }
}

proof fn lemma_move_from(moved: Seq<NodeMove>, node: Point, i: int)
    requires
        0 <= i <= moved.len(),
    ensures
        i <= move_from_index(moved, node, i) <= moved.len(),
        move_from_index(moved, node, i) < moved.len() ==> moved[move_from_index(
            moved,
            node,
            i,
        )].from == node,
        forall|j: int|
            i <= j < move_from_index(moved, node, i) ==> (#[trigger] moved[j]).from != node,
    decreases moved.len() - i,
{
    if i < moved.len() && moved[i].from != node {
        lemma_move_from(moved, node, i + 1);
    }
}

/// Moving a node is about one move. All others stay as they are, in their
/// order; the one that took the node to where it is shown, or else from there,
/// now goes on to the new place, or is gone where that is where it started; a
/// node not moved before has one more. Roundings keep their reach and their
/// order: those at the node go along, and no other.
pub proof fn law_moving_is_about_one_node(hand: HandView, at: Point, to: Point, m: NodeMove)
    requires
        at != to,
        m.to != at,
        m.from != at,
    ensures
        ({
            let after = hand.move_node(at, to);
            &&& hand.moved.contains(m) ==> after.moved.contains(m)
            &&& after.moved.contains(m) && !hand.moved.contains(m) ==> m.to == to && exists|k: int|
                0 <= k < hand.moved.len() && (#[trigger] hand.moved[k]).from == m.from && (
                hand.moved[k].to == at || hand.moved[k].from == at)
            &&& after.rounded.len() == hand.rounded.len()
            &&& forall|i: int|
                0 <= i < hand.rounded.len() ==> {
                    &&& (#[trigger] after.rounded[i]).reach == hand.rounded[i].reach
                    &&& hand.rounded[i].at == at ==> after.rounded[i].at == to
                    &&& after.rounded[i].at == hand.rounded[i].at || after.rounded[i].at == to
                }
            &&& after.straightened == hand.straightened
            &&& after.deleted_nodes == hand.deleted_nodes
            &&& after.deleted == hand.deleted
            &&& after.selected == hand.selected
        }),
{
    let after = hand.move_node(at, to);
    lemma_move_to(hand.moved, at, 0);
    lemma_move_from(hand.moved, at, 0);
    match hand.move_index(at) {
        Some(i) => {
            let was = hand.moved[i];
            assert(was != m);
            if hand.moved.contains(m) {
                let k = choose|k: int| 0 <= k < hand.moved.len() && hand.moved[k] == m;
                if was.from == to {
                    let j = if k < i {
                        k
                    } else {
                        k - 1
                    };
                    assert(after.moved[j] == m);
                } else {
                    assert(after.moved[k] == m);
                }
            }
            if after.moved.contains(m) {
                let k = choose|k: int| 0 <= k < after.moved.len() && after.moved[k] == m;
                if was.from == to {
                    let j = if k < i {
                        k
                    } else {
                        k + 1
                    };
                    assert(hand.moved[j] == m);
                } else if k != i {
                    assert(hand.moved[k] == m);
                } else {
                    assert(hand.moved[i].from == m.from);
                }
            }
        },
        None => {
            lemma_push_contains(hand.moved, NodeMove { from: at, to }, m);
        },
    }
}

/// What is left after everything is put back: the moves of nodes that were
/// deleted where they were taken, in their order, and no other.
pub proof fn law_put_all_back_leaves_deleted_nodes(hand: HandView, m: NodeMove)
    ensures
        ({
            let after = hand.put_all_back();
            &&& after.moved.contains(m) <==> hand.moved.contains(m) && hand.deleted_nodes.contains(
                m.to,
            )
            &&& after.straightened == hand.straightened
            &&& after.deleted_nodes == hand.deleted_nodes
            &&& after.deleted == hand.deleted
            &&& after.selected == hand.selected
        }),
{
    lemma_moves_of(hand.moved, hand.deleted_nodes, true, hand.moved.len(), m);
    assert(hand.moved.take(hand.moved.len() as int) =~= hand.moved);
}

proof fn lemma_moves_of(
    moved: Seq<NodeMove>,
    deleted_nodes: Seq<Point>,
    deleted: bool,
    n: nat,
    m: NodeMove,
)
    requires
        n <= moved.len(),
    ensures
        moves_of(moved, deleted_nodes, deleted, n).contains(m) <==> moved.take(n as int).contains(m)
            && deleted_nodes.contains(m.to) == deleted,
    decreases n,
{
    if n == 0 {
        assert(moved.take(0) =~= Seq::empty());
    } else {
        let k = (n - 1) as nat;
        lemma_moves_of(moved, deleted_nodes, deleted, k, m);
        assert(moved.take(n as int) =~= moved.take(k as int).push(moved[n - 1]));
        lemma_push_contains(moved.take(k as int), moved[n - 1], m);
        lemma_push_contains(
            moves_of(moved, deleted_nodes, deleted, k),
            moved[n - 1],
            m,
        );
    }
}

proof fn lemma_shape_index(list: Seq<RemovalView>, shape: RemovalView, i: int)
    requires
        0 <= i <= list.len(),
    ensures
        i <= shape_index(list, shape, i) <= list.len(),
        shape_index(list, shape, i) < list.len() ==> one_shape(
            list[shape_index(list, shape, i)],
            shape,
        ),
        forall|j: int|
            i <= j < shape_index(list, shape, i) ==> !one_shape(#[trigger] list[j], shape),
    decreases list.len() - i,
{
    if i < list.len() && !one_shape(list[i], shape) {
        lemma_shape_index(list, shape, i + 1);
    }
}

/// A shape is selected when one of the selected references stands for it. One
/// that is not joins the selection behind the others; of one that is, the first
/// reference leaves it, and the others stay in their order.
pub proof fn law_a_shape_joins_or_leaves_the_selection(hand: HandView, shape: RemovalView)
    ensures
        ({
            let after = hand.toggle_selected(shape);
            let n = hand.selected.len() as int;
            &&& hand.is_selected(shape) <==> exists|k: int|
                0 <= k < n && one_shape(#[trigger] hand.selected[k], shape)
            &&& !hand.is_selected(shape) ==> after.selected == hand.selected.push(shape)
            &&& hand.is_selected(shape) ==> exists|k: int|
                0 <= k < n && one_shape(#[trigger] hand.selected[k], shape) && after.selected
                    == hand.selected.subrange(0, k) + hand.selected.subrange(k + 1, n) && forall|
                    j: int,
                |
                    0 <= j < k ==> !one_shape(#[trigger] hand.selected[j], shape)
            &&& after == (HandView { selected: after.selected, ..hand })
        }),
{
    let i = shape_index(hand.selected, shape, 0);
    lemma_shape_index(hand.selected, shape, 0);
    let n = hand.selected.len() as int;
    let after = hand.toggle_selected(shape);
    if i < n {
        assert(after.selected =~= hand.selected.subrange(0, i) + hand.selected.subrange(i + 1, n));
        assert(one_shape(hand.selected[i], shape));
    }
}

/// A shape that is deleted is among the deleted, behind the others, and no
/// longer among the selected; every other selected shape stays selected.
pub proof fn law_a_deleted_shape_is_not_selected(hand: HandView, shape: RemovalView, other: RemovalView)
    ensures
        ({
            let after = hand.delete_shape(shape);
            &&& after.deleted == hand.deleted.push(shape)
            &&& after.selected.contains(other) <==> hand.selected.contains(other) && !one_shape(
                other,
                shape,
            )
            &&& after == (HandView { selected: after.selected, deleted: after.deleted, ..hand })
        }),
{
    lemma_other_shapes(hand.selected, shape, hand.selected.len(), other);
    assert(hand.selected.take(hand.selected.len() as int) =~= hand.selected);
}

proof fn lemma_other_shapes(list: Seq<RemovalView>, shape: RemovalView, n: nat, other: RemovalView)
    requires
        n <= list.len(),
    ensures
        other_shapes(list, shape, n).contains(other) <==> list.take(n as int).contains(other)
            && !one_shape(other, shape),
    decreases n,
{
    if n == 0 {
        assert(list.take(0) =~= Seq::empty());
    } else {
        let k = (n - 1) as nat;
        lemma_other_shapes(list, shape, k, other);
        assert(list.take(n as int) =~= list.take(k as int).push(list[n - 1]));
        lemma_push_contains(list.take(k as int), list[n - 1], other);
        lemma_push_contains(other_shapes(list, shape, k), list[n - 1], other);
    }
}

/// Deleting the selected shapes deletes every one of them and no other, and
/// leaves none selected.
pub proof fn law_all_selected_shapes_are_deleted(hand: HandView, shape: RemovalView)
    ensures
        hand.delete_selected().deleted.contains(shape) <==> hand.deleted.contains(shape)
            || hand.selected.contains(shape),
        hand.delete_selected().deleted.len() == hand.deleted.len() + hand.selected.len(),
        hand.delete_selected().selected.len() == 0,
        !hand.delete_selected().is_selected(shape),
        hand.delete_selected().moved == hand.moved,
        hand.delete_selected().rounded == hand.rounded,
        hand.delete_selected().deleted_nodes == hand.deleted_nodes,
        hand.delete_selected().straightened == hand.straightened,
{
    let (a, b) = (hand.deleted, hand.selected);
    let all = a + b;
    if all.contains(shape) {
        let k = choose|k: int| 0 <= k < all.len() && all[k] == shape;
        if k < a.len() {
            assert(a[k] == shape);
        } else {
            assert(b[k - a.len()] == shape);
        }
    }
    if a.contains(shape) {
        let k = choose|k: int| 0 <= k < a.len() && a[k] == shape;
        assert(all[k] == shape);
    }
    if b.contains(shape) {
        let k = choose|k: int| 0 <= k < b.len() && b[k] == shape;
        assert(all[a.len() + k] == shape);
    }
}

/// No two moves end at one place, and none starts where one ends.
pub open spec fn moved_apart(list: Seq<NodeMove>) -> bool {
    &&& forall|i: int, j: int|
        0 <= i < j < list.len() ==> (#[trigger] list[i]).to != (#[trigger] list[j]).to
    &&& forall|i: int, j: int|
        0 <= i < list.len() && 0 <= j < list.len() ==> (#[trigger] list[i]).from != (
        #[trigger] list[j]).to
}

proof fn lemma_carried_back(rounded: Seq<Rounded>, back: Seq<NodeMove>, n: nat, i: int)
    requires
        moved_apart(back),
        n <= back.len(),
        0 <= i < rounded.len(),
    ensures
        carried_back(rounded, back, n).len() == rounded.len(),
        carried_back(rounded, back, n)[i].reach == rounded[i].reach,
        forall|k: int|
            0 <= k < n && (#[trigger] back[k]).to == rounded[i].at ==> carried_back(
                rounded,
                back,
                n,
            )[i].at == back[k].from,
        (forall|k: int| 0 <= k < n ==> (#[trigger] back[k]).to != rounded[i].at) ==> carried_back(
            rounded,
            back,
            n,
        )[i] == rounded[i],
    decreases n,
{
    if n > 0 {
        let m = (n - 1) as nat;
        lemma_carried_back(rounded, back, m, i);
        let before = carried_back(rounded, back, m);
        let last = back[n - 1];
        let now = carried_back(rounded, back, n);
        assert(now == carried(before, last.to, last.to, last.from));
        assert forall|k: int| 0 <= k < n && (#[trigger] back[k]).to == rounded[i].at implies
            now[i].at == back[k].from by {
            if k < m {
                assert(before[i].at == back[k].from);
                assert(back[k].from != back[n - 1].to);
            } else {
                assert forall|j: int| 0 <= j < m implies (#[trigger] back[j]).to
                    != rounded[i].at by {
                    assert(back[j].to != back[n - 1].to);
                }
                assert(before[i] == rounded[i]);
            }
        }
        if forall|k: int| 0 <= k < n ==> (#[trigger] back[k]).to != rounded[i].at {
            assert(before[i] == rounded[i]);
            assert(back[n - 1].to != rounded[i].at);
        }
    }
}

/// A node that goes back takes its rounding along: where the trace had the node
/// is where it is rounded then, with the same reach. Roundings of nodes that
/// stay, moved or not, stay too.
pub proof fn law_put_all_back_takes_roundings_along(hand: HandView, m: NodeMove, i: int)
    requires
        moved_apart(hand.moved),
        0 <= i < hand.rounded.len(),
    ensures
        ({
            let after = hand.put_all_back();
            &&& after.rounded.len() == hand.rounded.len()
            &&& after.rounded[i].reach == hand.rounded[i].reach
            &&& hand.moved.contains(m) && !hand.deleted_nodes.contains(m.to) && m.to
                == hand.rounded[i].at ==> after.rounded[i].at == m.from
            &&& (forall|k: int|
                0 <= k < hand.moved.len() ==> (#[trigger] hand.moved[k]).to != hand.rounded[i].at
                    || hand.deleted_nodes.contains(hand.moved[k].to)) ==> after.rounded[i]
                == hand.rounded[i]
        }),
{
    let n = hand.moved.len();
    let back = moves_of(hand.moved, hand.deleted_nodes, false, n);
    let from = lemma_moves_from(hand.moved, hand.deleted_nodes, n);
    assert(moved_apart(back)) by {
        assert forall|a: int, b: int| 0 <= a < b < back.len() implies (#[trigger] back[a]).to != (
        #[trigger] back[b]).to by {
            assert(hand.moved[from[a]].to != hand.moved[from[b]].to);
        }
        assert forall|a: int, b: int| 0 <= a < back.len() && 0 <= b < back.len() implies (
        #[trigger] back[a]).from != (#[trigger] back[b]).to by {
            assert(hand.moved[from[a]].from != hand.moved[from[b]].to);
        }
    }
    lemma_carried_back(hand.rounded, back, back.len(), i);
    if hand.moved.contains(m) && !hand.deleted_nodes.contains(m.to) {
        lemma_moves_of(hand.moved, hand.deleted_nodes, false, n, m);
        assert(hand.moved.take(n as int) =~= hand.moved);
        let k = choose|k: int| 0 <= k < back.len() && back[k] == m;
        assert(back[k].to == m.to);
    }
    if forall|k: int|
        0 <= k < hand.moved.len() ==> (#[trigger] hand.moved[k]).to != hand.rounded[i].at
            || hand.deleted_nodes.contains(hand.moved[k].to) {
        assert forall|k: int| 0 <= k < back.len() implies (#[trigger] back[k]).to
            != hand.rounded[i].at by {
            assert(hand.moved[from[k]] == back[k]);
        }
    }
}

proof fn lemma_moves_from(moved: Seq<NodeMove>, deleted_nodes: Seq<Point>, n: nat) -> (from: Seq<
    int,
>)
    requires
        n <= moved.len(),
    ensures
        from.len() == moves_of(moved, deleted_nodes, false, n).len(),
        forall|k: int|
            0 <= k < from.len() ==> {
                &&& 0 <= #[trigger] from[k] < n
                &&& moves_of(moved, deleted_nodes, false, n)[k] == moved[from[k]]
                &&& !deleted_nodes.contains(moved[from[k]].to)
            },
        forall|a: int, b: int| 0 <= a < b < from.len() ==> #[trigger] from[a] < #[trigger] from[b],
    decreases n,
{
    if n == 0 {
        Seq::empty()
    } else {
        let before = lemma_moves_from(moved, deleted_nodes, (n - 1) as nat);
        if deleted_nodes.contains(moved[n - 1].to) {
            before
        } else {
            before.push(n - 1)
        }
    }
}

/// Clearing the edits leaves none of them, and the selection as it was.
pub proof fn law_cleared_edits_are_gone(hand: HandView)
    ensures
        hand.cleared().rounded.len() == 0,
        hand.cleared().straightened.len() == 0,
        hand.cleared().moved.len() == 0,
        hand.cleared().deleted_nodes.len() == 0,
        hand.cleared().deleted.len() == 0,
        hand.cleared().selected == hand.selected,
{
}

} // verus!
