//! Nodes and shapes edited by hand, and shapes merged or dropped before the
//! picture is traced again.
use crate::desktop::{DeriveRequest, Desktop, DesktopView, PopupsView, StatusKind};
use crate::hand::{removal_views, HandView, Point, Removal, RemovalView};
use crate::reach::Reach;
use crate::recolor::{is_same_word, same_word, Island, Recolor};
use crate::settings::{copied, recolor_views, RecolorView};
use crate::text::{decimal, push_decimal};
use vstd::prelude::*;

verus! {

/// What the drawing says about deleting one of its nodes.
#[derive(Debug)]
pub enum Deletable {
    Yes,
    /// It cannot be deleted, for this reason.
    No(String),
    /// The drawing before the rounding has no node there.
    Absent(String),
    Unreadable,
}

/// What a node is dragged with: its rounding, and whether its pieces are those
/// the drawing had before the rounding.
#[derive(Clone, Copy, Debug, PartialEq, Eq, Structural)]
pub struct Drag {
    pub rounding: Option<Reach>,
    pub before_rounding: bool,
}

/// The colour shapes are merged into: as it is written, and its channels where
/// they can be read.
#[derive(Debug)]
pub struct Merge {
    pub color: String,
    pub rgb: Option<[u8; 3]>,
}

/// Why the node cannot be deleted. A node that is shown but was not there
/// before the rounding is an end of a rounded corner's arc.
pub open spec fn refusal_of(
    drawn: bool,
    answer: Deletable,
    rounded: bool,
    shown: bool,
) -> Option<Seq<char>> {
    if !drawn {
        Some("Wait for the conversion to finish."@)
    } else {
        match answer {
            Deletable::Yes => None,
            Deletable::No(reason) => Some(reason@),
            Deletable::Absent(reason) => if rounded && shown {
                Some(
                    "This node ends a rounded corner's arc: restore the corner to delete nodes there."@,
                )
            } else {
                Some(reason@)
            },
            Deletable::Unreadable => Some("The drawing could not be read."@),
        }
    }
}

/// The shapes of another colour than `target` that cover pixels, each a
/// recolouring of its pixels and its edge's to `rgb`.
pub open spec fn merges(
    shapes: Seq<Island>,
    target: Seq<char>,
    rgb: Seq<u8>,
    n: nat,
) -> Seq<RecolorView>
    decreases n,
{
    if n == 0 {
        Seq::empty()
    } else {
        let before = merges(shapes, target, rgb, (n - 1) as nat);
        let shape = shapes[n - 1];
        if !same_word(shape.color@, target) && shape.edged@.len() > 0 {
            before.push(RecolorView { pixels: shape.edged@, rgb, alpha: None })
        } else {
            before
        }
    }
}

/// The colour that a merge of `shapes` goes into: `target`, or the first
/// shape's.
pub open spec fn merge_target(shapes: Seq<Island>, target: Option<Merge>) -> Option<
    (Seq<char>, Option<[u8; 3]>),
> {
    match target {
        Some(t) => Some((t.color@, t.rgb)),
        None => if shapes.len() > 0 {
            Some((shapes[0].color@, shapes[0].rgb))
        } else {
            None
        },
    }
}

pub open spec fn merging_text(merged: nat, target: Seq<char>) -> Seq<char> {
    "Merging "@ + decimal(merged) + (if merged == 1 {
        " shape into "@
    } else {
        " shapes into "@
    }) + target + " and converting again…"@
}

pub open spec fn has_colour(shapes: Seq<Island>, hex: Seq<char>) -> bool {
    exists|i: int| 0 <= i < shapes.len() && same_word(#[trigger] shapes[i].color@, hex)
}

/// The shapes of `list` that are still there.
pub open spec fn present_of(list: Seq<RemovalView>, present: Seq<bool>, n: nat) -> Seq<RemovalView>
    decreases n,
{
    if n == 0 {
        Seq::empty()
    } else {
        let before = present_of(list, present, (n - 1) as nat);
        if present[n - 1] {
            before.push(list[n - 1])
        } else {
            before
        }
    }
}

pub open spec fn cut_text(count: nat) -> Seq<char> {
    if count == 1 {
        "Cut out 1 background shape. Restore deleted brings it back."@
    } else {
        "Cut out "@ + decimal(count)
            + " background shapes. Restore deleted brings them back."@
    }
}

impl DesktopView {
    /// After the edits by hand became `hand`; the document is drawn again if
    /// that changed anything.
    pub open spec fn edited(self, hand: HandView, changed: bool) -> (
        DesktopView,
        Option<DeriveRequest>,
    ) {
        if changed {
            self.with_hand(hand).request_derive(false)
        } else {
            (self.with_hand(hand), None)
        }
    }

    pub open spec fn without_node_menu(self) -> DesktopView {
        DesktopView { popups: PopupsView { node_menu: None, ..self.popups }, ..self }
    }

    /// After Delete was asked for the node shown at `node`.
    pub open spec fn delete_node(self, node: Point, refusal: Option<Seq<char>>) -> (
        DesktopView,
        Option<DeriveRequest>,
    ) {
        match refusal {
            Some(reason) => (self.with_status(StatusKind::Info, reason), None),
            None => if self.hand.deleted_nodes.contains(node) {
                (self, None)
            } else {
                let (drawn, request) = self.with_hand(
                    self.hand.delete_node(node),
                ).without_node_menu().request_derive(false);
                (
                    drawn.with_status(
                        StatusKind::Info,
                        "Node deleted, its curve refitted. Ctrl+Z brings it back."@,
                    ),
                    request,
                )
            },
        }
    }

    pub open spec fn recoloured(self, more: Seq<RecolorView>) -> DesktopView {
        DesktopView {
            settings: self.settings.with_recolors(self.settings.prep.recolors + more),
            ..self
        }
    }

    pub open spec fn deselected(self) -> DesktopView {
        self.with_hand(HandView { selected: Seq::empty(), ..self.hand })
    }

    /// After the selected `shapes` were merged; whether a conversion started
    /// for it.
    pub open spec fn merge_selected(self, shapes: Seq<Island>, target: Option<Merge>) -> (
        DesktopView,
        bool,
    ) {
        match merge_target(shapes, target) {
            None => (self, false),
            Some((color, None)) => (
                self.with_status(StatusKind::Error, "Cannot merge into "@ + color),
                false,
            ),
            Some((color, Some(rgb))) => if !self.picture.working {
                (self, false)
            } else {
                let more = merges(shapes, color, rgb@, shapes.len());
                if more.len() == 0 {
                    (
                        self.deselected().with_status(
                            StatusKind::Info,
                            "Select shapes of two colors to merge them."@,
                        ),
                        false,
                    )
                } else {
                    (
                        self.recoloured(more).deselected().start().with_status(
                            StatusKind::Busy,
                            merging_text(more.len(), color),
                        ),
                        self.picture.size is Some,
                    )
                }
            },
        }
    }

    /// The fill colours on screen.
    pub open spec fn colours(self) -> nat {
        match self.result {
            Some(shown) => shown.counts.colors as nat,
            None => 0,
        }
    }

    /// After the colour `hex` was dropped from the picture; whether a
    /// conversion started for it.
    pub open spec fn remove_color(self, hex: Seq<char>, shapes: Seq<Island>) -> (
        DesktopView,
        bool,
    ) {
        if self.colours() < 2 {
            (self.with_status(StatusKind::Info, "The last color stays."@), false)
        } else if !self.picture.working {
            (self, false)
        } else if !has_colour(shapes, hex) {
            (
                self.with_status(StatusKind::Info, "No shape of "@ + hex + " to drop."@),
                false,
            )
        } else {
            (
                self.start().with_status(
                    StatusKind::Busy,
                    "Dropping "@ + hex
                        + ": its shapes take their neighbours' colors and the image converts again…"@,
                ),
                self.picture.size is Some,
            )
        }
    }

    /// After the background shapes `removals` were cut out. A picture whose
    /// border is not opaque has none.
    pub open spec fn cut_background(self, removals: Seq<RemovalView>) -> (
        DesktopView,
        Option<DeriveRequest>,
    ) {
        if !self.picture.working || !self.picture.border_opaque || removals.len() == 0 {
            (
                self.with_status(
                    StatusKind::Info,
                    "No background shape touches the edge of the picture."@,
                ),
                None,
            )
        } else {
            let (drawn, request) = self.with_hand(
                HandView {
                    selected: Seq::empty(),
                    deleted: self.hand.deleted + removals,
                    ..self.hand
                },
            ).request_derive(false);
            (drawn.with_status(StatusKind::Done, cut_text(removals.len())), request)
        }
    }
}

/// Why the node cannot be deleted, or `None`: `answer` is what the drawing the
/// deletions apply to says, `drawn` whether there is one, `rounded` whether
/// corners are cut out of the one on screen, and `shown` whether that has the
/// node.
pub fn deletion_refusal(drawn: bool, answer: &Deletable, rounded: bool, shown: bool) -> (reason:
    Option<String>)
    ensures
        reason is Some == (refusal_of(drawn, *answer, rounded, shown) is Some),
        reason matches Some(text) ==> refusal_of(drawn, *answer, rounded, shown) == Some(text@),
{
    if !drawn {
        return Some("Wait for the conversion to finish.".to_owned());
    }
    match answer {
        Deletable::Yes => None,
        Deletable::No(reason) => Some(reason.as_str().to_owned()),
        Deletable::Absent(reason) => if rounded && shown {
            Some(
                "This node ends a rounded corner's arc: restore the corner to delete nodes there.".to_owned(),
            )
        } else {
            Some(reason.as_str().to_owned())
        },
        Deletable::Unreadable => Some("The drawing could not be read.".to_owned()),
    }
}

impl Desktop {
    /// Rounds `node` with `reach`, or changes the reach of a rounded one.
    pub fn round_node(&mut self, node: Point, reach: Reach) -> (request: Option<DeriveRequest>)
        ensures
            (final(self)@, request) == old(self)@.edited(
                old(self)@.hand.round_node(node, reach),
                old(self)@.hand.rounding_of(node) != Some(reach),
            ),
    {
        if self.hand.round_node(node, reach) {
            self.reapply()
        } else {
            None
        }
    }

    pub fn restore_node(&mut self, node: Point) -> (request: Option<DeriveRequest>)
        ensures
            (final(self)@, request) == old(self)@.edited(
                old(self)@.hand.restore_node(node),
                old(self)@.hand.rounding_of(node) is Some,
            ),
    {
        if self.hand.restore_node(node) {
            self.reapply()
        } else {
            None
        }
    }

    /// A click rounds tightly; a second click restores the corner.
    pub fn toggle_node(&mut self, node: Point) -> (request: Option<DeriveRequest>)
        ensures
            (final(self)@, request) == old(self)@.edited(
                if old(self)@.hand.rounding_of(node) is Some {
                    old(self)@.hand.restore_node(node)
                } else {
                    old(self)@.hand.round_node(node, Reach::Tight)
                },
                true,
            ),
    {
        self.hand.toggle_node(node);
        self.reapply()
    }

    /// Moves the node shown at `at` to `to`, written as the document writes
    /// numbers.
    pub fn move_node(&mut self, at: Point, to: Point) -> (request: Option<DeriveRequest>)
        ensures
            (final(self)@, request) == old(self)@.edited(
                old(self)@.hand.move_node(at, to),
                at != to,
            ),
    {
        if self.hand.move_node(at, to) {
            self.reapply()
        } else {
            None
        }
    }

    /// Puts the node shown at `node` back where the trace had it.
    pub fn put_back(&mut self, node: Point) -> (request: Option<DeriveRequest>)
        ensures
            (final(self)@, request) == old(self)@.edited(
                old(self)@.hand.put_back(node),
                old(self)@.hand.moved_from(node) is Some,
            ),
    {
        if self.hand.put_back(node) {
            self.reapply()
        } else {
            None
        }
    }

    /// Puts every moved node back.
    pub fn put_all_back(&mut self) -> (request: Option<DeriveRequest>)
        ensures
            (final(self)@, request) == old(self)@.edited(old(self)@.hand.put_all_back(), true),
    {
        self.hand.put_all_back();
        self.reapply()
    }

    /// Deletes the node shown at `node` from the drawing, or says why not in
    /// the status line. `refusal` is the drawing's answer.
    pub fn delete_node(&mut self, node: Point, refusal: Option<String>) -> (request: Option<
        DeriveRequest,
    >)
        ensures
            (final(self)@, request) == old(self)@.delete_node(
                node,
                match refusal {
                    Some(reason) => Some(reason@),
                    None => None,
                },
            ),
    {
        if let Some(reason) = refusal {
            self.set_status(StatusKind::Info, reason.as_str());
            return None;
        }
        let ghost before = self@;
        if !self.hand.delete_node(node) {
            assert(self@.hand == before.hand);
            return None;
        }
        self.popups.node_menu = None;
        let request = self.reapply();
        self.set_status(
            StatusKind::Info,
            "Node deleted, its curve refitted. Ctrl+Z brings it back.",
        );
        request
    }

    /// Brings every deleted node back.
    pub fn restore_deleted_nodes(&mut self) -> (request: Option<DeriveRequest>)
        ensures
            (final(self)@, request) == old(self)@.edited(
                HandView { deleted_nodes: Seq::empty(), ..old(self)@.hand },
                old(self)@.hand.deleted_nodes.len() > 0,
            ),
    {
        if self.hand.restore_deleted_nodes() {
            self.reapply()
        } else {
            None
        }
    }

    /// Begins dragging the node marker shown at `at`. A rounded corner is cut
    /// out of the shown document; its pieces are those before the rounding,
    /// where `unrounded` says that there is such a document.
    pub fn begin_node_drag(&mut self, at: Point, unrounded: bool) -> (drag: Drag)
        ensures
            final(self)@ == (DesktopView {
                popups: PopupsView {
                    node_menu: None,
                    node_drag: Some(at),
                    ..old(self)@.popups
                },
                ..old(self)@
            }),
            drag.rounding == old(self)@.hand.rounding_of(at),
            drag.before_rounding == (drag.rounding is Some && unrounded),
    {
        let rounding = self.hand.rounding_of(&at);
        self.popups.node_menu = None;
        self.popups.node_drag = Some(at);
        Drag { rounding, before_rounding: rounding.is_some() && unrounded }
    }

    /// Keeps the selected shapes that the shown document still has: `present`
    /// says so of each.
    pub fn resolve_selection(&mut self, present: &Vec<bool>)
        requires
            present@.len() == old(self)@.hand.selected.len(),
        ensures
            final(self)@ == old(self)@.with_hand(
                HandView {
                    selected: present_of(
                        old(self)@.hand.selected,
                        present@,
                        present@.len(),
                    ),
                    ..old(self)@.hand
                },
            ),
    {
        let ghost all = removal_views(self.hand.selected@);
        let mut kept: Vec<Removal> = Vec::new();
        let mut i: usize = 0;
        assert(removal_views(kept@) =~= present_of(all, present@, 0));
        while i < present.len()
            invariant
                i <= present@.len(),
                present@.len() == self.hand.selected@.len(),
                *self == *old(self),
                all == removal_views(self.hand.selected@),
                removal_views(kept@) == present_of(all, present@, i as nat),
            decreases present@.len() - i,
        {
            let ghost so_far = removal_views(kept@);
            if present[i] {
                kept.push(crate::hand::copy_removal(&self.hand.selected[i]));
                assert(removal_views(kept@) =~= so_far.push(all[i as int]));
            }
            i = i + 1;
        }
        self.hand.selected = kept;
    }

    /// Deletes `shape`, which leaves the selection.
    pub fn delete_shape(&mut self, shape: Removal) -> (request: Option<DeriveRequest>)
        ensures
            (final(self)@, request) == old(self)@.edited(
                old(self)@.hand.delete_shape(shape@),
                true,
            ),
    {
        self.hand.delete_shape(shape);
        self.reapply()
    }

    /// Deletes the selected shapes.
    pub fn delete_selected(&mut self) -> (request: Option<DeriveRequest>)
        ensures
            (final(self)@, request) == old(self)@.edited(
                old(self)@.hand.delete_selected(),
                old(self)@.hand.selected.len() > 0,
            ),
    {
        if self.hand.delete_selected() {
            self.reapply()
        } else {
            None
        }
    }

    /// Brings the deleted shapes back.
    pub fn restore_deleted(&mut self) -> (request: Option<DeriveRequest>)
        ensures
            (final(self)@, request) == old(self)@.edited(
                HandView { deleted: Seq::empty(), ..old(self)@.hand },
                true,
            ),
    {
        self.hand.undelete();
        self.reapply()
    }

    /// Forgets the recolouring of merged and dropped shapes and converts
    /// again; whether there is a picture to convert.
    pub fn undo_merges(&mut self) -> (started: bool)
        ensures
            final(self)@ == (DesktopView {
                settings: old(self)@.settings.with_recolors(Seq::empty()),
                ..old(self)@
            }).start(),
            started == (old(self)@.picture.size is Some),
    {
        self.settings.prep.recolors = Vec::new();
        assert(recolor_views(self.settings.prep.recolors@) =~= Seq::empty());
        self.start()
    }

    /// Recolours every one of the selected `shapes` that is of another colour
    /// than `target` (the first one's unless given) in the picture as it is
    /// traced, and converts again, so that they trace as one shape. Whether a
    /// conversion started.
    pub fn merge_selected(&mut self, shapes: &Vec<Island>, target: Option<Merge>) -> (started: bool)
        ensures
            (final(self)@, started) == old(self)@.merge_selected(shapes@, target),
    {
        let (color, rgb): (&str, Option<[u8; 3]>) = match &target {
            Some(t) => (t.color.as_str(), t.rgb),
            None => if shapes.len() > 0 {
                (shapes[0].color.as_str(), shapes[0].rgb)
            } else {
                return false;
            },
        };
        let rgb: [u8; 3] = match rgb {
            Some(rgb) => rgb,
            None => {
                let mut text = "Cannot merge into ".to_owned();
                text.append(color);
                self.set_status(StatusKind::Error, text.as_str());
                return false;
            },
        };
        if !self.picture.working {
            return false;
        }
        let mut more = merge_list(shapes, color, rgb);
        let merged: usize = more.len();
        if merged == 0 {
            self.hand.deselect();
            self.set_status(StatusKind::Info, "Select shapes of two colors to merge them.");
            return false;
        }
        self.recolour(more);
        self.hand.deselect();
        let started = self.start();
        let mut text = "Merging ".to_owned();
        push_decimal(&mut text, merged as u64);
        text.append(if merged == 1 {
            " shape into "
        } else {
            " shapes into "
        });
        text.append(color);
        text.append(" and converting again…");
        self.set_status(StatusKind::Busy, text.as_str());
        started
    }

    fn recolour(&mut self, more: Vec<Recolor>)
        ensures
            final(self)@ == old(self)@.recoloured(recolor_views(more@)),
    {
        let ghost before = recolor_views(self.settings.prep.recolors@);
        let mut list = more;
        self.settings.prep.recolors.append(&mut list);
        assert(recolor_views(self.settings.prep.recolors@) =~= before + recolor_views(more@));
    }

    /// Drops one fill colour and converts again; `shapes` are those of the
    /// shown document. Whether a conversion started.
    pub fn remove_color(&mut self, hex: &str, shapes: &Vec<Island>) -> (started: bool)
        ensures
            (final(self)@, started) == old(self)@.remove_color(hex@, shapes@),
    {
        let colours: usize = match self.result {
            Some(shown) => shown.counts.colors,
            None => 0,
        };
        if colours < 2 {
            self.set_status(StatusKind::Info, "The last color stays.");
            return false;
        }
        if !self.picture.working {
            return false;
        }
        if !any_of_colour(shapes, hex) {
            let mut text = "No shape of ".to_owned();
            text.append(hex);
            text.append(" to drop.");
            self.set_status(StatusKind::Info, text.as_str());
            return false;
        }
        let started = self.start();
        let mut text = "Dropping ".to_owned();
        text.append(hex);
        text.append(": its shapes take their neighbours' colors and the image converts again…");
        self.set_status(StatusKind::Busy, text.as_str());
        started
    }

    /// Cuts the background shapes out of the vector, so that the sticker hugs
    /// the object. They go with the deleted shapes.
    pub fn cut_background(&mut self, removals: Vec<Removal>) -> (request: Option<DeriveRequest>)
        ensures
            (final(self)@, request) == old(self)@.cut_background(removal_views(removals@)),
    {
        let count: usize = removals.len();
        if !self.picture.working || !self.picture.border_opaque || count == 0 {
            self.set_status(
                StatusKind::Info,
                "No background shape touches the edge of the picture.",
            );
            return None;
        }
        let ghost gone = removal_views(self.hand.deleted@);
        self.hand.deselect();
        let mut list = removals;
        self.hand.deleted.append(&mut list);
        assert(removal_views(self.hand.deleted@) =~= gone + removal_views(removals@));
        let request = self.reapply();
        if count == 1 {
            self.set_status(
                StatusKind::Done,
                "Cut out 1 background shape. Restore deleted brings it back.",
            );
        } else {
            let mut text = "Cut out ".to_owned();
            push_decimal(&mut text, count as u64);
            text.append(" background shapes. Restore deleted brings them back.");
            self.set_status(StatusKind::Done, text.as_str());
        }
        request
    }
}

fn any_of_colour(shapes: &Vec<Island>, hex: &str) -> (yes: bool)
    ensures
        yes == has_colour(shapes@, hex@),
{
    let mut i: usize = 0;
    while i < shapes.len()
        invariant
            i <= shapes@.len(),
            forall|j: int| 0 <= j < i ==> !same_word(#[trigger] shapes@[j].color@, hex@),
        decreases shapes@.len() - i,
    {
        if is_same_word(shapes[i].color.as_str(), hex) {
            assert(same_word(shapes@[i as int].color@, hex@));
            return true;
        }
        i = i + 1;
    }
    false
}

fn merge_list(shapes: &Vec<Island>, target: &str, rgb: [u8; 3]) -> (list: Vec<Recolor>)
    ensures
        recolor_views(list@) == merges(shapes@, target@, rgb@, shapes@.len()),
{
    let mut list: Vec<Recolor> = Vec::new();
    let mut i: usize = 0;
    assert(recolor_views(list@) =~= merges(shapes@, target@, rgb@, 0));
    while i < shapes.len()
        invariant
            i <= shapes@.len(),
            recolor_views(list@) == merges(shapes@, target@, rgb@, i as nat),
        decreases shapes@.len() - i,
    {
        let ghost so_far = recolor_views(list@);
        if !is_same_word(shapes[i].color.as_str(), target) && shapes[i].edged.len() > 0 {
            let pixels = copied(&shapes[i].edged);
            list.push(Recolor { pixels, rgb, alpha: None });
            assert(recolor_views(list@) =~= so_far.push(
                RecolorView { pixels: shapes@[i as int].edged@, rgb: rgb@, alpha: None },
            ));
        }
        i = i + 1;
    }
    list
}

/// A merge keeps every recolouring made before it.
pub proof fn law_merges_are_added(s: DesktopView, shapes: Seq<Island>, target: Option<Merge>)
    ensures
        s.settings.prep.recolors.is_prefix_of(
            s.merge_selected(shapes, target).0.settings.prep.recolors,
        ),
{
    assert(s.settings.prep.recolors.is_prefix_of(s.settings.prep.recolors));
}

/// Shapes of one colour are not merged: the picture is not converted again
/// and no pixel is recoloured.
pub proof fn law_one_colour_does_not_merge(s: DesktopView, shapes: Seq<Island>)
    requires
        shapes.len() > 0,
        forall|i: int|
            0 <= i < shapes.len() ==> same_word(#[trigger] shapes[i].color@, shapes[0].color@),
    ensures
        !s.merge_selected(shapes, None).1,
        s.merge_selected(shapes, None).0.settings == s.settings,
        s.merge_selected(shapes, None).0.auto == s.auto,
{
    if let Some((color, Some(rgb))) = merge_target(shapes, None) {
        lemma_no_merges(shapes, color, rgb@, shapes.len());
    }
}

proof fn lemma_no_merges(shapes: Seq<Island>, target: Seq<char>, rgb: Seq<u8>, n: nat)
    requires
        n <= shapes.len(),
        forall|i: int| 0 <= i < shapes.len() ==> same_word(#[trigger] shapes[i].color@, target),
    ensures
        merges(shapes, target, rgb, n).len() == 0,
    decreases n,
{
    if n > 0 {
        lemma_no_merges(shapes, target, rgb, (n - 1) as nat);
        assert(same_word(shapes[n - 1].color@, target));
    }
}

/// Every selected shape of another colour than the target's that covers
/// pixels is merged, and nothing else is: the recolourings made before stay,
/// and behind them comes one for each such shape, in the shapes' order, which
/// gives its pixels and its edge's the target's channels. The target is the
/// first shape's colour unless one is given. `merged` are the shapes' places.
pub proof fn law_every_other_colour_is_merged(
    s: DesktopView,
    shapes: Seq<Island>,
    target: Option<Merge>,
    color: Seq<char>,
    rgb: [u8; 3],
) -> (merged: Seq<int>)
    requires
        s.picture.working,
        match target {
            Some(t) => t.color@ == color && t.rgb == Some(rgb),
            None => shapes.len() > 0 && shapes[0].color@ == color && shapes[0].rgb == Some(rgb),
        },
    ensures
        forall|a: int, b: int| 0 <= a < b < merged.len() ==> merged[a] < merged[b],
        forall|i: int|
            0 <= i < shapes.len() ==> (merged.contains(i) <==> !same_word(
                (#[trigger] shapes[i]).color@,
                color,
            ) && shapes[i].edged@.len() > 0),
        forall|k: int| 0 <= k < merged.len() ==> 0 <= #[trigger] merged[k] < shapes.len(),
        ({
            let had = s.settings.prep.recolors;
            let (after, started) = s.merge_selected(shapes, target);
            let has = after.settings.prep.recolors;
            &&& has.len() == had.len() + merged.len()
            &&& forall|k: int| 0 <= k < had.len() ==> #[trigger] has[k] == had[k]
            &&& forall|k: int|
                0 <= k < merged.len() ==> {
                    let r = #[trigger] has[had.len() + k];
                    r.pixels == shapes[merged[k]].edged@ && r.rgb == rgb@ && r.alpha is None
                }
            &&& after.settings.prep.background == s.settings.prep.background
            &&& after.settings.prep.colors == s.settings.prep.colors
            &&& after.hand.selected.len() == 0
            &&& started == (merged.len() > 0 && s.picture.size is Some)
            &&& started ==> after.work.worker && after.result is None
            &&& merged.len() == 0 ==> after.status.text
                == "Select shapes of two colors to merge them."@ && after.work == s.work
            &&& merged.len() == 1 ==> after.status.text == "Merging "@ + decimal(1)
                + " shape into "@ + color + " and converting again…"@
            &&& merged.len() > 1 ==> after.status.text == "Merging "@ + decimal(merged.len())
                + " shapes into "@ + color + " and converting again…"@
        }),
{
    let merged = lemma_merged(shapes, color, rgb@, shapes.len());
    let had = s.settings.prep.recolors;
    let more = merges(shapes, color, rgb@, shapes.len());
    assert forall|k: int| 0 <= k < merged.len() implies {
        let r = #[trigger] (had + more)[had.len() + k];
        r.pixels == shapes[merged[k]].edged@ && r.rgb == rgb@ && r.alpha is None
    } by {
        assert((had + more)[had.len() + k] == more[k]);
    }
    merged
}

/// The places of the shapes that `merges` recolours.
proof fn lemma_merged(shapes: Seq<Island>, target: Seq<char>, rgb: Seq<u8>, n: nat) -> (merged: Seq<
    int,
>)
    requires
        n <= shapes.len(),
    ensures
        merged.len() == merges(shapes, target, rgb, n).len(),
        forall|a: int, b: int| 0 <= a < b < merged.len() ==> merged[a] < merged[b],
        forall|k: int| 0 <= k < merged.len() ==> 0 <= #[trigger] merged[k] < n,
        forall|i: int|
            0 <= i < n ==> (merged.contains(i) <==> !same_word((#[trigger] shapes[i]).color@, target)
                && shapes[i].edged@.len() > 0),
        forall|k: int|
            0 <= k < merged.len() ==> #[trigger] merges(shapes, target, rgb, n)[k] == (RecolorView {
                pixels: shapes[merged[k]].edged@,
                rgb,
                alpha: None,
            }),
    decreases n,
{
    if n == 0 {
        Seq::empty()
    } else {
        let before = lemma_merged(shapes, target, rgb, (n - 1) as nat);
        let shape = shapes[n - 1];
        if !same_word(shape.color@, target) && shape.edged@.len() > 0 {
            let merged = before.push(n - 1);
            assert forall|i: int| 0 <= i < n implies (merged.contains(i) <==> !same_word(
                (#[trigger] shapes[i]).color@,
                target,
            ) && shapes[i].edged@.len() > 0) by {
                if i < n - 1 {
                    assert(before.contains(i) <==> !same_word(shapes[i].color@, target)
                        && shapes[i].edged@.len() > 0);
                    if before.contains(i) {
                        let k = choose|k: int| 0 <= k < before.len() && before[k] == i;
                        assert(merged[k] == i);
                    }
                    if merged.contains(i) {
                        let k = choose|k: int| 0 <= k < merged.len() && merged[k] == i;
                        assert(before[k] == i);
                    }
                } else {
                    assert(merged[before.len() as int] == i);
                }
            }
            merged
        } else {
            assert(!before.contains(n - 1)) by {
                if before.contains(n - 1) {
                    let k = choose|k: int| 0 <= k < before.len() && before[k] == n - 1;
                    assert(before[k] < n - 1);
                }
            }
            before
        }
    }
}

/// A colour with no channels takes no shape, and says so.
pub proof fn law_nothing_merges_into_an_unreadable_colour(
    s: DesktopView,
    shapes: Seq<Island>,
    target: Merge,
)
    requires
        target.rgb is None,
    ensures
        ({
            let (after, started) = s.merge_selected(shapes, Some(target));
            &&& !started
            &&& after.settings == s.settings
            &&& after.hand == s.hand
            &&& after.status.kind == StatusKind::Error
            &&& after.status.text == "Cannot merge into "@ + target.color@
        }),
{
}

} // verus!
