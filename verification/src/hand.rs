//! Edits by hand: corners rounded, nodes moved, squared and deleted, shapes
//! selected and deleted.
use crate::reach::Reach;
use crate::recolor::{is_same_word, same_word};
use vstd::prelude::*;

verus! {

/// A place on the drawing, by the bits of its two coordinates: two places are
/// the same when the numbers are, bit for bit.
#[derive(Clone, Copy, Debug, PartialEq, Eq, Structural)]
pub struct Point {
    pub x: u64,
    pub y: u64,
}

/// A node the user rounded, with the reach chosen for it.
#[derive(Clone, Copy, Debug, PartialEq, Eq, Structural)]
pub struct Rounded {
    pub at: Point,
    pub reach: Reach,
}

/// A node the user moved: where the trace had it, and where it is.
#[derive(Clone, Copy, Debug, PartialEq, Eq, Structural)]
pub struct NodeMove {
    pub from: Point,
    pub to: Point,
}

/// A shape, by its colour and a point inside it.
#[derive(Debug)]
pub struct Removal {
    pub color: String,
    pub at: Point,
}

#[verifier::ext_equal]
pub struct RemovalView {
    pub color: Seq<char>,
    pub at: Point,
}

impl View for Removal {
    type V = RemovalView;

    open spec fn view(&self) -> RemovalView {
        RemovalView { color: self.color@, at: self.at }
    }
}

/// The edits by hand, and the shapes selected for one.
#[derive(Debug)]
pub struct Hand {
    pub rounded: Vec<Rounded>,
    pub straightened: Vec<Point>,
    pub moved: Vec<NodeMove>,
    pub deleted_nodes: Vec<Point>,
    pub deleted: Vec<Removal>,
    pub selected: Vec<Removal>,
}

#[verifier::ext_equal]
pub struct HandView {
    pub rounded: Seq<Rounded>,
    pub straightened: Seq<Point>,
    pub moved: Seq<NodeMove>,
    pub deleted_nodes: Seq<Point>,
    pub deleted: Seq<RemovalView>,
    pub selected: Seq<RemovalView>,
}

pub open spec fn removal_views(list: Seq<Removal>) -> Seq<RemovalView> {
    Seq::new(list.len(), |i: int| list[i]@)
}

impl View for Hand {
    type V = HandView;

    open spec fn view(&self) -> HandView {
        HandView {
            rounded: self.rounded@,
            straightened: self.straightened@,
            moved: self.moved@,
            deleted_nodes: self.deleted_nodes@,
            deleted: removal_views(self.deleted@),
            selected: removal_views(self.selected@),
        }
    }
}

/// Two places are the same.
pub fn same_point(a: &Point, b: &Point) -> (same: bool)
    ensures
        same == (*a == *b),
{
    a.x == b.x && a.y == b.y
}

/// Two references stand for the same shape: the same colour, but for the case
/// of its letters, picked at the same point.
pub open spec fn one_shape(a: RemovalView, b: RemovalView) -> bool {
    same_word(a.color, b.color) && a.at == b.at
}

pub fn same_shape(a: &Removal, b: &Removal) -> (same: bool)
    ensures
        same == one_shape(a@, b@),
{
    is_same_word(a.color.as_str(), b.color.as_str()) && same_point(&a.at, &b.at)
}

/// A reference to the same shape.
pub fn copy_removal(r: &Removal) -> (copy: Removal)
    ensures
        copy@ == r@,
{
    Removal { color: r.color.as_str().to_owned(), at: r.at }
}

/// The place of the first rounding at `node` from `i` on; the length when
/// there is none.
pub open spec fn rounding_index(rounded: Seq<Rounded>, node: Point, i: int) -> int
    decreases rounded.len() - i,
{
    if i < 0 || i >= rounded.len() || rounded[i].at == node {
        i
    } else {
        rounding_index(rounded, node, i + 1)
    }
}

/// The place of the first move to `node` from `i` on.
pub open spec fn move_to_index(moved: Seq<NodeMove>, node: Point, i: int) -> int
    decreases moved.len() - i,
{
    if i < 0 || i >= moved.len() || moved[i].to == node {
        i
    } else {
        move_to_index(moved, node, i + 1)
    }
}

/// The place of the first move from `node` from `i` on.
pub open spec fn move_from_index(moved: Seq<NodeMove>, node: Point, i: int) -> int
    decreases moved.len() - i,
{
    if i < 0 || i >= moved.len() || moved[i].from == node {
        i
    } else {
        move_from_index(moved, node, i + 1)
    }
}

/// The place of the first reference to `shape` from `i` on.
pub open spec fn shape_index(list: Seq<RemovalView>, shape: RemovalView, i: int) -> int
    decreases list.len() - i,
{
    if i < 0 || i >= list.len() || one_shape(list[i], shape) {
        i
    } else {
        shape_index(list, shape, i + 1)
    }
}

/// The references among the first `n` that stand for other shapes.
pub open spec fn other_shapes(list: Seq<RemovalView>, shape: RemovalView, n: nat) -> Seq<
    RemovalView,
>
    decreases n,
{
    if n == 0 {
        Seq::empty()
    } else if one_shape(list[n - 1], shape) {
        other_shapes(list, shape, (n - 1) as nat)
    } else {
        other_shapes(list, shape, (n - 1) as nat).push(list[n - 1])
    }
}

/// The places among the first `n` that are not `node`.
pub open spec fn other_points(list: Seq<Point>, node: Point, n: nat) -> Seq<Point>
    decreases n,
{
    if n == 0 {
        Seq::empty()
    } else if list[n - 1] == node {
        other_points(list, node, (n - 1) as nat)
    } else {
        other_points(list, node, (n - 1) as nat).push(list[n - 1])
    }
}

/// The roundings among the first `n` that are not at `node`.
pub open spec fn other_roundings(list: Seq<Rounded>, node: Point, n: nat) -> Seq<Rounded>
    decreases n,
{
    if n == 0 {
        Seq::empty()
    } else if list[n - 1].at == node {
        other_roundings(list, node, (n - 1) as nat)
    } else {
        other_roundings(list, node, (n - 1) as nat).push(list[n - 1])
    }
}

/// The roundings with those at `a` or `b` at `to` instead.
pub open spec fn carried(rounded: Seq<Rounded>, a: Point, b: Point, to: Point) -> Seq<Rounded> {
    Seq::new(
        rounded.len(),
        |i: int|
            if rounded[i].at == a || rounded[i].at == b {
                Rounded { at: to, reach: rounded[i].reach }
            } else {
                rounded[i]
            },
    )
}

/// The moves among the first `n` of nodes that were deleted (or, with
/// `deleted` off, of nodes that were not).
pub open spec fn moves_of(
    moved: Seq<NodeMove>,
    deleted_nodes: Seq<Point>,
    deleted: bool,
    n: nat,
) -> Seq<NodeMove>
    decreases n,
{
    if n == 0 {
        Seq::empty()
    } else if deleted_nodes.contains(moved[n - 1].to) == deleted {
        moves_of(moved, deleted_nodes, deleted, (n - 1) as nat).push(moved[n - 1])
    } else {
        moves_of(moved, deleted_nodes, deleted, (n - 1) as nat)
    }
}

/// The roundings after the first `n` of `back` took theirs along.
pub open spec fn carried_back(rounded: Seq<Rounded>, back: Seq<NodeMove>, n: nat) -> Seq<Rounded>
    decreases n,
{
    if n == 0 {
        rounded
    } else {
        let m = back[n - 1];
        carried(carried_back(rounded, back, (n - 1) as nat), m.to, m.to, m.from)
    }
}

impl HandView {
    pub open spec fn rounding_of(self, node: Point) -> Option<Reach> {
        let i = rounding_index(self.rounded, node, 0);
        if i < self.rounded.len() {
            Some(self.rounded[i].reach)
        } else {
            None
        }
    }

    pub open spec fn with_rounded(self, rounded: Seq<Rounded>) -> HandView {
        HandView { rounded, ..self }
    }

    /// Where the node shown at `node` was before it was moved.
    pub open spec fn moved_from(self, node: Point) -> Option<Point> {
        let i = move_to_index(self.moved, node, 0);
        if i < self.moved.len() {
            Some(self.moved[i].from)
        } else {
            None
        }
    }

    /// After `node` is rounded with `reach`, or its reach changed.
    pub open spec fn round_node(self, node: Point, reach: Reach) -> HandView {
        let i = rounding_index(self.rounded, node, 0);
        if i < self.rounded.len() {
            self.with_rounded(self.rounded.update(i, Rounded { at: self.rounded[i].at, reach }))
        } else {
            self.with_rounded(self.rounded.push(Rounded { at: node, reach }))
        }
    }

    /// After the corner at `node` is restored.
    pub open spec fn restore_node(self, node: Point) -> HandView {
        let i = rounding_index(self.rounded, node, 0);
        if i < self.rounded.len() {
            self.with_rounded(self.rounded.remove(i))
        } else {
            self
        }
    }

    /// The move of the node shown at `at`: the one that took it there, else
    /// the one that took it from there.
    pub open spec fn move_index(self, at: Point) -> Option<int> {
        let to = move_to_index(self.moved, at, 0);
        let from = move_from_index(self.moved, at, 0);
        if to < self.moved.len() {
            Some(to)
        } else if from < self.moved.len() {
            Some(from)
        } else {
            None
        }
    }

    /// After the node shown at `at` is moved to `to`.
    pub open spec fn move_node(self, at: Point, to: Point) -> HandView {
        if at == to {
            self
        } else {
            let (moved, was) = match self.move_index(at) {
                Some(i) => (
                    if self.moved[i].from == to {
                        self.moved.remove(i)
                    } else {
                        self.moved.update(i, NodeMove { from: self.moved[i].from, to })
                    },
                    self.moved[i].to,
                ),
                None => (self.moved.push(NodeMove { from: at, to }), at),
            };
            HandView { moved, rounded: carried(self.rounded, at, was, to), ..self }
        }
    }

    /// After the node shown at `node` is back where the trace had it.
    pub open spec fn put_back(self, node: Point) -> HandView {
        let i = move_to_index(self.moved, node, 0);
        if i < self.moved.len() {
            HandView {
                moved: self.moved.remove(i),
                rounded: carried(self.rounded, node, node, self.moved[i].from),
                ..self
            }
        } else {
            self
        }
    }

    /// After every moved node is back, but for those deleted where the move
    /// took them.
    pub open spec fn put_all_back(self) -> HandView {
        let back = moves_of(self.moved, self.deleted_nodes, false, self.moved.len());
        HandView {
            moved: moves_of(self.moved, self.deleted_nodes, true, self.moved.len()),
            rounded: carried_back(self.rounded, back, back.len()),
            ..self
        }
    }

    /// After the node shown at `node` is deleted.
    pub open spec fn delete_node(self, node: Point) -> HandView {
        if self.deleted_nodes.contains(node) {
            self
        } else {
            HandView {
                rounded: other_roundings(self.rounded, node, self.rounded.len()),
                deleted_nodes: self.deleted_nodes.push(node),
                ..self
            }
        }
    }

    pub open spec fn is_selected(self, shape: RemovalView) -> bool {
        shape_index(self.selected, shape, 0) < self.selected.len()
    }

    /// After `shape` joined the selection, or left it.
    pub open spec fn toggle_selected(self, shape: RemovalView) -> HandView {
        let i = shape_index(self.selected, shape, 0);
        HandView {
            selected: if i < self.selected.len() {
                self.selected.remove(i)
            } else {
                self.selected.push(shape)
            },
            ..self
        }
    }

    /// After `shape` is deleted.
    pub open spec fn delete_shape(self, shape: RemovalView) -> HandView {
        HandView {
            selected: other_shapes(self.selected, shape, self.selected.len()),
            deleted: self.deleted.push(shape),
            ..self
        }
    }

    /// After the selected shapes are deleted.
    pub open spec fn delete_selected(self) -> HandView {
        HandView { selected: Seq::empty(), deleted: self.deleted + self.selected, ..self }
    }

    /// After every edit is forgotten.
    pub open spec fn cleared(self) -> HandView {
        HandView {
            rounded: Seq::empty(),
            straightened: Seq::empty(),
            moved: Seq::empty(),
            deleted_nodes: Seq::empty(),
            deleted: Seq::empty(),
            selected: self.selected,
        }
    }
}

fn find_rounding(rounded: &Vec<Rounded>, node: Point) -> (i: usize)
    ensures
        i == rounding_index(rounded@, node, 0),
        i <= rounded@.len(),
        i < rounded@.len() ==> rounded@[i as int].at == node,
{
    let mut i: usize = 0;
    while i < rounded.len() && !same_point(&rounded[i].at, &node)
        invariant
            i <= rounded@.len(),
            rounding_index(rounded@, node, 0) == rounding_index(rounded@, node, i as int),
        decreases rounded@.len() - i,
    {
        i = i + 1;
    }
    i
}

fn find_move_to(moved: &Vec<NodeMove>, node: Point) -> (i: usize)
    ensures
        i == move_to_index(moved@, node, 0),
        i <= moved@.len(),
        i < moved@.len() ==> moved@[i as int].to == node,
{
    let mut i: usize = 0;
    while i < moved.len() && !same_point(&moved[i].to, &node)
        invariant
            i <= moved@.len(),
            move_to_index(moved@, node, 0) == move_to_index(moved@, node, i as int),
        decreases moved@.len() - i,
    {
        i = i + 1;
    }
    i
}

fn find_move_from(moved: &Vec<NodeMove>, node: Point) -> (i: usize)
    ensures
        i == move_from_index(moved@, node, 0),
        i <= moved@.len(),
{
    let mut i: usize = 0;
    while i < moved.len() && !same_point(&moved[i].from, &node)
        invariant
            i <= moved@.len(),
            move_from_index(moved@, node, 0) == move_from_index(moved@, node, i as int),
        decreases moved@.len() - i,
    {
        i = i + 1;
    }
    i
}

fn find_selected(list: &Vec<Removal>, shape: &Removal) -> (i: usize)
    ensures
        i == shape_index(removal_views(list@), shape@, 0),
        i <= list@.len(),
{
    let mut i: usize = 0;
    while i < list.len() && !same_shape(&list[i], shape)
        invariant
            i <= list@.len(),
            shape_index(removal_views(list@), shape@, 0) == shape_index(
                removal_views(list@),
                shape@,
                i as int,
            ),
        decreases list@.len() - i,
    {
        i = i + 1;
    }
    i
}

/// Takes the roundings at `a` or `b` to `to`.
fn carry(rounded: &mut Vec<Rounded>, a: Point, b: Point, to: Point)
    ensures
        final(rounded)@ == carried(old(rounded)@, a, b, to),
{
    let mut i: usize = 0;
    while i < rounded.len()
        invariant
            i <= rounded@.len(),
            rounded@.len() == old(rounded)@.len(),
            forall|j: int|
                0 <= j < i ==> #[trigger] rounded@[j] == carried(old(rounded)@, a, b, to)[j],
            forall|j: int| i <= j < rounded@.len() ==> #[trigger] rounded@[j] == old(rounded)@[j],
        decreases rounded@.len() - i,
    {
        let r: Rounded = rounded[i];
        if same_point(&r.at, &a) || same_point(&r.at, &b) {
            rounded.set(i, Rounded { at: to, reach: r.reach });
        }
        i = i + 1;
    }
    assert(rounded@ =~= carried(old(rounded)@, a, b, to));
}

impl Hand {
    pub fn new() -> (hand: Hand)
        ensures
            hand@ == (HandView {
                rounded: Seq::empty(),
                straightened: Seq::empty(),
                moved: Seq::empty(),
                deleted_nodes: Seq::empty(),
                deleted: Seq::empty(),
                selected: Seq::empty(),
            }),
    {
        let hand = Hand {
            rounded: Vec::new(),
            straightened: Vec::new(),
            moved: Vec::new(),
            deleted_nodes: Vec::new(),
            deleted: Vec::new(),
            selected: Vec::new(),
        };
        assert(removal_views(hand.deleted@) =~= Seq::<RemovalView>::empty());
        assert(removal_views(hand.selected@) =~= Seq::<RemovalView>::empty());
        hand
    }

    /// The reach that the node at `node` was rounded with.
    pub fn rounding_of(&self, node: &Point) -> (reach: Option<Reach>)
        ensures
            reach == self@.rounding_of(*node),
    {
        let i: usize = find_rounding(&self.rounded, *node);
        if i < self.rounded.len() {
            Some(self.rounded[i].reach)
        } else {
            None
        }
    }

    /// Rounds `node` with `reach`, or changes the reach of a rounded one;
    /// whether anything changed.
    pub fn round_node(&mut self, node: Point, reach: Reach) -> (changed: bool)
        ensures
            final(self)@ == old(self)@.round_node(node, reach),
            changed == (old(self)@.rounding_of(node) != Some(reach)),
    {
        let i: usize = find_rounding(&self.rounded, node);
        if i < self.rounded.len() {
            let r: Rounded = self.rounded[i];
            self.rounded.set(i, Rounded { at: r.at, reach });
            r.reach != reach
        } else {
            self.rounded.push(Rounded { at: node, reach });
            true
        }
    }

    /// Restores the corner at `node`; whether it was rounded.
    pub fn restore_node(&mut self, node: Point) -> (changed: bool)
        ensures
            final(self)@ == old(self)@.restore_node(node),
            changed == (old(self)@.rounding_of(node) is Some),
    {
        let i: usize = find_rounding(&self.rounded, node);
        if i < self.rounded.len() {
            self.rounded.remove(i);
            true
        } else {
            false
        }
    }

    /// A click rounds tightly; a second click restores the corner.
    pub fn toggle_node(&mut self, node: Point)
        ensures
            final(self)@ == (if old(self)@.rounding_of(node) is Some {
                old(self)@.restore_node(node)
            } else {
                old(self)@.round_node(node, Reach::Tight)
            }),
    {
        if self.rounding_of(&node).is_some() {
            self.restore_node(node);
        } else {
            self.round_node(node, Reach::Tight);
        }
    }

    /// Where the node shown at `node` was before the user moved it.
    pub fn moved_from(&self, node: &Point) -> (from: Option<Point>)
        ensures
            from == self@.moved_from(*node),
    {
        let i: usize = find_move_to(&self.moved, *node);
        if i < self.moved.len() {
            Some(self.moved[i].from)
        } else {
            None
        }
    }

    /// Where the trace had the node shown at `node`.
    pub fn base_position(&self, node: &Point) -> (base: Point)
        ensures
            base == (match self@.moved_from(*node) {
                Some(from) => from,
                None => *node,
            }),
    {
        match self.moved_from(node) {
            Some(from) => from,
            None => *node,
        }
    }

    /// Moves the node shown at `at` to `to`. A node moved before keeps where
    /// it first came from, and a node carried back onto that spot is simply
    /// not moved any more. Its rounding goes with it. A node dragged again
    /// before its last move shows is found by where it came from. Whether
    /// anything changed.
    pub fn move_node(&mut self, at: Point, to: Point) -> (changed: bool)
        ensures
            final(self)@ == old(self)@.move_node(at, to),
            changed == (at != to),
    {
        if same_point(&at, &to) {
            return false;
        }
        let shown: usize = find_move_to(&self.moved, at);
        let first: usize = find_move_from(&self.moved, at);
        let i: usize = if shown < self.moved.len() {
            shown
        } else {
            first
        };
        let mut was: Point = at;
        if i < self.moved.len() {
            let m: NodeMove = self.moved[i];
            was = m.to;
            if same_point(&m.from, &to) {
                self.moved.remove(i);
            } else {
                self.moved.set(i, NodeMove { from: m.from, to });
            }
        } else {
            self.moved.push(NodeMove { from: at, to });
        }
        carry(&mut self.rounded, at, was, to);
        true
    }

    /// Puts the node shown at `node` back where the trace had it; whether it
    /// was moved.
    pub fn put_back(&mut self, node: Point) -> (changed: bool)
        ensures
            final(self)@ == old(self)@.put_back(node),
            changed == (old(self)@.moved_from(node) is Some),
    {
        let i: usize = find_move_to(&self.moved, node);
        if i < self.moved.len() {
            let from: Point = self.moved[i].from;
            self.moved.remove(i);
            carry(&mut self.rounded, node, node, from);
            true
        } else {
            false
        }
    }

    /// Whether the node at `node` was deleted.
    pub fn is_deleted(&self, node: &Point) -> (yes: bool)
        ensures
            yes == self@.deleted_nodes.contains(*node),
    {
        let mut i: usize = 0;
        while i < self.deleted_nodes.len()
            invariant
                i <= self.deleted_nodes@.len(),
                forall|j: int| 0 <= j < i ==> #[trigger] self.deleted_nodes@[j] != *node,
            decreases self.deleted_nodes@.len() - i,
        {
            if same_point(&self.deleted_nodes[i], node) {
                assert(self.deleted_nodes@[i as int] == *node);
                return true;
            }
            i = i + 1;
        }
        false
    }

    fn moves_where(&self, deleted: bool) -> (list: Vec<NodeMove>)
        ensures
            list@ == moves_of(self@.moved, self@.deleted_nodes, deleted, self@.moved.len()),
    {
        let mut list: Vec<NodeMove> = Vec::new();
        let mut i: usize = 0;
        assert(list@ =~= moves_of(self@.moved, self@.deleted_nodes, deleted, 0));
        while i < self.moved.len()
            invariant
                i <= self.moved@.len(),
                list@ == moves_of(self@.moved, self@.deleted_nodes, deleted, i as nat),
            decreases self.moved@.len() - i,
        {
            let m: NodeMove = self.moved[i];
            if self.is_deleted(&m.to) == deleted {
                list.push(m);
            }
            i = i + 1;
        }
        list
    }

    /// Puts every moved node back. A node moved and then deleted stays moved:
    /// its deletion is keyed where the move took it.
    pub fn put_all_back(&mut self)
        ensures
            final(self)@ == old(self)@.put_all_back(),
    {
        let stay = self.moves_where(true);
        let back = self.moves_where(false);
        self.moved = stay;
        let ghost start = self.rounded@;
        let mut n: usize = 0;
        while n < back.len()
            invariant
                n <= back@.len(),
                self.rounded@ == carried_back(start, back@, n as nat),
                self.moved@ == stay@,
                self.straightened@ == old(self)@.straightened,
                self.deleted_nodes@ == old(self)@.deleted_nodes,
                self.deleted == old(self).deleted,
                self.selected == old(self).selected,
            decreases back@.len() - n,
        {
            let m: NodeMove = back[n];
            carry(&mut self.rounded, m.to, m.to, m.from);
            n = n + 1;
        }
    }

    /// The moved nodes still in the drawing, which can be put back.
    pub fn moves_shown(&self) -> (count: usize)
        ensures
            count == moves_of(self@.moved, self@.deleted_nodes, false, self@.moved.len()).len(),
    {
        self.moves_where(false).len()
    }

    /// Deletes the node shown at `node`; a rounded corner's rounding goes
    /// with it. Whether it was there to delete.
    pub fn delete_node(&mut self, node: Point) -> (changed: bool)
        ensures
            final(self)@ == old(self)@.delete_node(node),
            changed == !old(self)@.deleted_nodes.contains(node),
    {
        if self.is_deleted(&node) {
            return false;
        }
        let mut kept: Vec<Rounded> = Vec::new();
        let mut i: usize = 0;
        assert(kept@ =~= other_roundings(self.rounded@, node, 0));
        while i < self.rounded.len()
            invariant
                i <= self.rounded@.len(),
                *self == *old(self),
                kept@ == other_roundings(self.rounded@, node, i as nat),
            decreases self.rounded@.len() - i,
        {
            let r: Rounded = self.rounded[i];
            if !same_point(&r.at, &node) {
                kept.push(r);
            }
            i = i + 1;
        }
        self.rounded = kept;
        self.deleted_nodes.push(node);
        true
    }

    /// Brings every deleted node back; whether there was one.
    pub fn restore_deleted_nodes(&mut self) -> (changed: bool)
        ensures
            final(self)@ == (HandView { deleted_nodes: Seq::empty(), ..old(self)@ }),
            changed == (old(self)@.deleted_nodes.len() > 0),
    {
        let changed = self.deleted_nodes.len() > 0;
        self.deleted_nodes = Vec::new();
        changed
    }

    /// Straightens and squares the corner whose trace is at `base`, or stops.
    pub fn square(&mut self, base: Point, on: bool)
        ensures
            final(self)@ == (HandView {
                straightened: if on {
                    old(self)@.straightened.push(base)
                } else {
                    other_points(old(self)@.straightened, base, old(self)@.straightened.len())
                },
                ..old(self)@
            }),
    {
        if on {
            self.straightened.push(base);
            return ;
        }
        let mut kept: Vec<Point> = Vec::new();
        let mut i: usize = 0;
        assert(kept@ =~= other_points(self.straightened@, base, 0));
        while i < self.straightened.len()
            invariant
                i <= self.straightened@.len(),
                *self == *old(self),
                kept@ == other_points(self.straightened@, base, i as nat),
            decreases self.straightened@.len() - i,
        {
            let p: Point = self.straightened[i];
            if !same_point(&p, &base) {
                kept.push(p);
            }
            i = i + 1;
        }
        self.straightened = kept;
    }

    /// Whether `shape` is selected.
    pub fn is_selected(&self, shape: &Removal) -> (yes: bool)
        ensures
            yes == self@.is_selected(shape@),
    {
        find_selected(&self.selected, shape) < self.selected.len()
    }

    /// Selects `shape`, or takes it out of the selection.
    pub fn toggle_selected(&mut self, shape: Removal)
        ensures
            final(self)@ == old(self)@.toggle_selected(shape@),
    {
        let i: usize = find_selected(&self.selected, &shape);
        let ghost before = removal_views(self.selected@);
        if i < self.selected.len() {
            self.selected.remove(i);
            assert(removal_views(self.selected@) =~= before.remove(i as int));
        } else {
            self.selected.push(shape);
            assert(removal_views(self.selected@) =~= before.push(shape@));
        }
    }

    /// Deletes `shape`, which leaves the selection.
    pub fn delete_shape(&mut self, shape: Removal)
        ensures
            final(self)@ == old(self)@.delete_shape(shape@),
    {
        let mut kept: Vec<Removal> = Vec::new();
        let ghost before = removal_views(self.selected@);
        let ghost gone = removal_views(self.deleted@);
        let mut i: usize = 0;
        assert(removal_views(kept@) =~= other_shapes(before, shape@, 0));
        while i < self.selected.len()
            invariant
                i <= self.selected@.len(),
                *self == *old(self),
                before == removal_views(self.selected@),
                removal_views(kept@) == other_shapes(before, shape@, i as nat),
            decreases self.selected@.len() - i,
        {
            let ghost so_far = removal_views(kept@);
            if !same_shape(&self.selected[i], &shape) {
                kept.push(copy_removal(&self.selected[i]));
                assert(removal_views(kept@) =~= so_far.push(before[i as int]));
            }
            i = i + 1;
        }
        self.selected = kept;
        self.deleted.push(shape);
        assert(removal_views(self.deleted@) =~= gone.push(shape@));
    }

    /// Deletes the selected shapes; whether there was one.
    pub fn delete_selected(&mut self) -> (changed: bool)
        ensures
            final(self)@ == old(self)@.delete_selected(),
            changed == (old(self)@.selected.len() > 0),
    {
        let ghost (gone, taken) = (removal_views(self.deleted@), removal_views(self.selected@));
        let mut taken_shapes: Vec<Removal> = Vec::new();
        std::mem::swap(&mut taken_shapes, &mut self.selected);
        let changed = taken_shapes.len() > 0;
        let ghost before = self.deleted@;
        let ghost list = taken_shapes@;
        self.deleted.append(&mut taken_shapes);
        assert(removal_views(self.deleted@) =~= gone + taken);
        assert(removal_views(self.selected@) =~= Seq::<RemovalView>::empty());
        changed
    }

    /// Empties the selection.
    pub fn deselect(&mut self)
        ensures
            final(self)@ == (HandView { selected: Seq::empty(), ..old(self)@ }),
    {
        self.selected = Vec::new();
        assert(removal_views(self.selected@) =~= Seq::<RemovalView>::empty());
    }

    /// Brings every deleted shape back.
    pub fn undelete(&mut self)
        ensures
            final(self)@ == (HandView { deleted: Seq::empty(), ..old(self)@ }),
    {
        self.deleted = Vec::new();
        assert(removal_views(self.deleted@) =~= Seq::<RemovalView>::empty());
    }

    /// Forgets every edit.
    pub fn clear(&mut self)
        ensures
            final(self)@ == old(self)@.cleared(),
    {
        self.rounded = Vec::new();
        self.straightened = Vec::new();
        self.moved = Vec::new();
        self.deleted_nodes = Vec::new();
        self.deleted = Vec::new();
        assert(removal_views(self.deleted@) =~= Seq::<RemovalView>::empty());
    }
}

proof fn lemma_no_move_to(moved: Seq<NodeMove>, node: Point, i: int)
    requires
        0 <= i <= moved.len(),
        forall|j: int| i <= j < moved.len() ==> (#[trigger] moved[j]).to != node,
    ensures
        move_to_index(moved, node, i) == moved.len(),
    decreases moved.len() - i,
{
    if i < moved.len() {
        lemma_no_move_to(moved, node, i + 1);
    }
}

proof fn lemma_no_move_from(moved: Seq<NodeMove>, node: Point, i: int)
    requires
        0 <= i <= moved.len(),
        forall|j: int| i <= j < moved.len() ==> (#[trigger] moved[j]).from != node,
    ensures
        move_from_index(moved, node, i) == moved.len(),
    decreases moved.len() - i,
{
    if i < moved.len() {
        lemma_no_move_from(moved, node, i + 1);
    }
}

proof fn lemma_last_move_to(moved: Seq<NodeMove>, m: NodeMove, i: int)
    requires
        0 <= i <= moved.len(),
        forall|j: int| i <= j < moved.len() ==> (#[trigger] moved[j]).to != m.to,
    ensures
        move_to_index(moved.push(m), m.to, i) == moved.len(),
    decreases moved.len() - i,
{
    let all = moved.push(m);
    if i < moved.len() {
        assert(all[i] == moved[i]);
        lemma_last_move_to(moved, m, i + 1);
    } else {
        assert(all[i] == m);
    }
}

proof fn lemma_last_move_from(moved: Seq<NodeMove>, m: NodeMove, i: int)
    requires
        0 <= i <= moved.len(),
        forall|j: int| i <= j < moved.len() ==> (#[trigger] moved[j]).from != m.from,
    ensures
        move_from_index(moved.push(m), m.from, i) == moved.len(),
    decreases moved.len() - i,
{
    let all = moved.push(m);
    if i < moved.len() {
        assert(all[i] == moved[i]);
        lemma_last_move_from(moved, m, i + 1);
    } else {
        assert(all[i] == m);
    }
}

/// `at` is no end of a move, and nothing is at `to` yet.
pub open spec fn fresh(hand: HandView, at: Point, to: Point) -> bool {
    &&& at != to
    &&& forall|j: int|
        0 <= j < hand.moved.len() ==> (#[trigger] hand.moved[j]).to != at && hand.moved[j].from
            != at && hand.moved[j].to != to
    &&& forall|j: int| 0 <= j < hand.rounded.len() ==> (#[trigger] hand.rounded[j]).at != to
}

/// Put back undoes a move: the node is where the trace had it, and so is its
/// rounding.
pub proof fn law_put_back_undoes_a_move(hand: HandView, at: Point, to: Point)
    requires
        fresh(hand, at, to),
    ensures
        hand.move_node(at, to).moved_from(to) == Some(at),
        hand.move_node(at, to).put_back(to) == hand,
{
    lemma_no_move_to(hand.moved, at, 0);
    lemma_no_move_from(hand.moved, at, 0);
    let m = NodeMove { from: at, to };
    lemma_last_move_to(hand.moved, m, 0);
    let there = hand.move_node(at, to);
    assert(there.moved == hand.moved.push(m));
    let back = there.put_back(to);
    assert(back.moved =~= hand.moved);
    assert(back.rounded =~= hand.rounded);
}

/// A node carried back onto its own place is not moved any more.
pub proof fn law_carried_back_is_not_moved(hand: HandView, at: Point, to: Point)
    requires
        fresh(hand, at, to),
    ensures
        hand.move_node(at, to).move_node(to, at) == hand,
{
    lemma_no_move_to(hand.moved, at, 0);
    lemma_no_move_from(hand.moved, at, 0);
    let m = NodeMove { from: at, to };
    lemma_last_move_to(hand.moved, m, 0);
    let there = hand.move_node(at, to);
    assert(there.moved == hand.moved.push(m));
    let back = there.move_node(to, at);
    assert(back.moved =~= hand.moved);
    assert(back.rounded =~= hand.rounded);
}

/// A node dragged twice is moved once, from where it first was: also when
/// the second drag takes it from its old place, before the first shows.
pub proof fn law_dragged_again_moves_once(
    hand: HandView,
    at: Point,
    to: Point,
    next: Point,
)
    requires
        fresh(hand, at, to),
        next != at,
        next != to,
    ensures
        hand.move_node(at, to).move_node(to, next).moved == hand.moved.push(
            NodeMove { from: at, to: next },
        ),
        hand.move_node(at, to).move_node(at, next).moved == hand.moved.push(
            NodeMove { from: at, to: next },
        ),
        hand.move_node(at, to).move_node(to, next).rounded == hand.move_node(
            at,
            to,
        ).move_node(at, next).rounded,
{
    lemma_no_move_to(hand.moved, at, 0);
    lemma_no_move_from(hand.moved, at, 0);
    let m = NodeMove { from: at, to };
    lemma_last_move_to(hand.moved, m, 0);
    lemma_last_move_from(hand.moved, m, 0);
    let there = hand.move_node(at, to);
    assert(there.moved == hand.moved.push(m));
    assert forall|j: int| 0 <= j < there.moved.len() implies (#[trigger] there.moved[j]).to
        != at by {
        if j < hand.moved.len() {
            assert(there.moved[j] == hand.moved[j]);
        }
    }
    lemma_no_move_to(there.moved, at, 0);
    let want = hand.moved.push(NodeMove { from: at, to: next });
    assert(there.move_node(to, next).moved =~= want);
    assert(there.move_node(at, next).moved =~= want);
    assert(there.move_node(to, next).rounded =~= there.move_node(at, next).rounded);
}

/// A second click on a corner takes back the first.
pub proof fn law_second_click_restores(hand: HandView, node: Point)
    requires
        hand.rounding_of(node) is None,
    ensures
        hand.round_node(node, Reach::Tight).rounding_of(node) == Some(Reach::Tight),
        hand.round_node(node, Reach::Tight).restore_node(node) == hand,
{
    let r = Rounded { at: node, reach: Reach::Tight };
    lemma_last_rounding(hand.rounded, r, 0);
    assert(hand.rounded.push(r).remove(hand.rounded.len() as int) =~= hand.rounded);
}

proof fn lemma_last_rounding(rounded: Seq<Rounded>, r: Rounded, i: int)
    requires
        0 <= i <= rounded.len(),
        rounding_index(rounded, r.at, i) >= rounded.len(),
    ensures
        rounding_index(rounded.push(r), r.at, i) == rounded.len(),
    decreases rounded.len() - i,
{
    let all = rounded.push(r);
    if i < rounded.len() {
        assert(all[i] == rounded[i]);
        lemma_last_rounding(rounded, r, i + 1);
    } else {
        assert(all[i] == r);
    }
}

} // verus!
