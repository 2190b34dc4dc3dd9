//! The toolbar, the cards and the menus at work on the window.
use crate::desktop::files::SaveStep;
use crate::desktop::{
    Counts, DeriveRequest, Desktop, DesktopView, PopupsView, SettingsView, StatPopup, StatusKind,
};
use crate::hand::{copy_removal, other_points, removal_views, HandView, Point, Removal, RemovalView};
use crate::platform::Host;
use crate::reach::Reach;
use crate::recolor::{is_same_word, same_word, Island};
use crate::settings::Curves;
use vstd::prelude::*;

verus! {

/// What the toolbar offers.
#[derive(Clone, Copy, Debug)]
pub struct Toolbar {
    pub open: bool,
    /// While a conversion runs, the Convert button cancels it.
    pub cancel: bool,
    pub convert: bool,
    pub convert_hint: &'static str,
    pub save: bool,
    pub save_hint: &'static str,
    pub close: bool,
}

/// The shortcuts pressed on one frame.
#[derive(Clone, Copy, Debug, PartialEq, Eq, Structural)]
pub struct Actions {
    pub open: bool,
    pub convert: bool,
    pub cancel: bool,
    pub save: bool,
    pub preview: bool,
    pub close: bool,
    pub undo: bool,
    pub redo: bool,
}

/// What changed on the Curves card in one frame.
#[derive(Clone, Copy, Debug, PartialEq, Eq, Structural)]
pub struct CurveEvents {
    /// A switch or the tolerance's slider.
    pub changed: bool,
    /// The tolerance's Auto button.
    pub auto: bool,
    /// The bow's slider.
    pub bow_moved: bool,
    /// The bow's Auto button.
    pub bow_auto: bool,
}

/// What a node's menu asks for.
#[derive(Debug)]
pub enum NodeChoice {
    Round(Reach),
    Restore,
    Square(bool),
    PutBack,
    /// Delete the node; the drawing's refusal, if it has one.
    Delete(Option<String>),
    /// The menu was closed.
    Close,
}

/// What a shape's menu asks for.
#[derive(Clone, Copy, Debug, PartialEq, Eq, Structural)]
pub enum ShapeAction {
    Delete,
    ToggleSelect,
    MergeInto,
    Close,
}

impl DesktopView {
    pub open spec fn can_convert(self) -> bool {
        self.idle() && self.picture.size is Some && self.picture.path == self.picture.loaded_path
    }

    /// Which of the shortcuts pressed act.
    pub open spec fn allowed(self, pressed: Actions, foreign: bool) -> Actions {
        Actions {
            open: pressed.open && self.idle(),
            convert: pressed.convert && self.can_convert(),
            cancel: pressed.cancel && self.work.worker,
            save: pressed.save && self.idle() && (self.result is Some || foreign),
            preview: pressed.preview && self.idle(),
            close: pressed.close && self.idle() && self.picture.size is Some,
            undo: pressed.undo,
            redo: pressed.redo && !pressed.undo,
        }
    }

    /// The curves after the Curves card changed.
    pub open spec fn curves_after(self, events: CurveEvents, bow: Option<u32>) -> Curves {
        let c = self.settings.curves;
        let moved = if events.bow_moved {
            Curves { straighten_auto: false, ..c }
        } else {
            c
        };
        if events.bow_auto {
            Curves {
                straighten_auto: true,
                straighten_tolerance: match bow {
                    Some(b) => b,
                    None => moved.straighten_tolerance,
                },
                ..moved
            }
        } else {
            moved
        }
    }

    pub open spec fn with_curves(self, curves: Curves) -> DesktopView {
        DesktopView { settings: SettingsView { curves, ..self.settings }, ..self }
    }

    pub open spec fn curves_changed(self, events: CurveEvents, bow: Option<u32>) -> (
        DesktopView,
        Option<DeriveRequest>,
    ) {
        let s = self.with_curves(self.curves_after(events, bow));
        if events.auto {
            s.request_derive(true)
        } else if events.changed || events.bow_moved || events.bow_auto {
            s.request_derive(false)
        } else {
            (s, None)
        }
    }

    /// Where the trace had the node shown at `node`.
    pub open spec fn base(self, node: Point) -> Point {
        match self.hand.moved_from(node) {
            Some(from) => from,
            None => node,
        }
    }

    pub open spec fn squared(self, node: Point, on: bool) -> HandView {
        let base = self.base(node);
        HandView {
            straightened: if on {
                self.hand.straightened.push(base)
            } else {
                other_points(self.hand.straightened, base, self.hand.straightened.len())
            },
            ..self.hand
        }
    }

    pub open spec fn choose_node(self, node: Point, choice: NodeChoice) -> (
        DesktopView,
        Option<DeriveRequest>,
    ) {
        let (s, request) = match choice {
            NodeChoice::Round(reach) => self.edited(
                self.hand.round_node(node, reach),
                self.hand.rounding_of(node) != Some(reach),
            ),
            NodeChoice::Restore => self.edited(
                self.hand.restore_node(node),
                self.hand.rounding_of(node) is Some,
            ),
            NodeChoice::Square(on) => self.edited(self.squared(node, on), true),
            NodeChoice::PutBack => self.edited(
                self.hand.put_back(node),
                self.hand.moved_from(node) is Some,
            ),
            NodeChoice::Delete(refusal) => self.delete_node(
                node,
                match refusal {
                    Some(reason) => Some(reason@),
                    None => None,
                },
            ),
            NodeChoice::Close => (self, None),
        };
        (s.without_node_menu(), request)
    }

    pub open spec fn without_shape_menu(self) -> DesktopView {
        DesktopView { popups: PopupsView { shape_menu: None, ..self.popups }, ..self }
    }

    /// The selection with `shape` in it.
    pub open spec fn selecting(self, shape: RemovalView) -> HandView {
        if self.hand.is_selected(shape) {
            self.hand
        } else {
            HandView { selected: self.hand.selected.push(shape), ..self.hand }
        }
    }

    /// The popup after one of the footer's chips was clicked: a second click
    /// closes it, and a popup whose chip is not drawn has nothing to hang
    /// from.
    pub open spec fn stat_after(self, size_drawn: bool, colors_drawn: bool, clicked: Option<StatPopup>) -> Option<
        StatPopup,
    > {
        let left = match self.popups.stat {
            Some(StatPopup::Size) => if size_drawn {
                Some(StatPopup::Size)
            } else {
                None
            },
            Some(StatPopup::Colors) => if colors_drawn {
                Some(StatPopup::Colors)
            } else {
                None
            },
            None => None,
        };
        match clicked {
            Some(which) => if left == Some(which) {
                None
            } else {
                Some(which)
            },
            None => left,
        }
    }

    pub open spec fn with_stat(self, stat: Option<StatPopup>) -> DesktopView {
        DesktopView { popups: PopupsView { stat, ..self.popups }, ..self }
    }

    /// The counts on screen: of the result, or of the one that a running
    /// conversion replaces.
    pub open spec fn counts(self) -> Option<Counts> {
        match (self.result, self.replaced) {
            (Some(shown), _) => Some(shown.counts),
            (None, Some(replaced)) => Some(replaced.result.counts),
            _ => None,
        }
    }
}

/// The selected shapes of another colour than `color`.
pub open spec fn others_of(selected: Seq<RemovalView>, color: Seq<char>, n: nat) -> nat
    decreases n,
{
    if n == 0 {
        0
    } else if same_word(selected[n - 1].color, color) {
        others_of(selected, color, (n - 1) as nat)
    } else {
        others_of(selected, color, (n - 1) as nat) + 1
    }
}

impl Desktop {
    /// What the toolbar offers; `foreign` says that a converted file is open.
    pub fn toolbar(&self, foreign: bool) -> (bar: Toolbar)
        ensures
            bar.open == self@.idle(),
            bar.cancel == self@.work.worker,
            bar.convert == self@.can_convert(),
            bar.convert_hint@ == (if self@.work.errand || self@.work.stopping {
                "Waiting for the dialog, the save or the cancelled conversion"@
            } else if self@.picture.size is Some && self@.picture.path
                != self@.picture.loaded_path {
                "Press Enter to load the path you typed first"@
            } else {
                "Open an image first"@
            }),
            bar.save == ((self@.result is Some || foreign) && self@.idle()),
            bar.save_hint@ == (if self@.result is Some {
                "Waiting for the conversion, dialog or save to finish"@
            } else {
                "Convert an image first"@
            }),
            bar.close == (self@.idle() && self@.picture.size is Some),
    {
        let idle = self.idle();
        let loaded = self.picture.path == self.picture.loaded_path;
        let has_picture = self.picture.size.is_some();
        Toolbar {
            open: idle,
            cancel: self.work.worker,
            convert: idle && has_picture && loaded,
            convert_hint: if self.work.errand || self.work.stopping {
                "Waiting for the dialog, the save or the cancelled conversion"
            } else if has_picture && !loaded {
                "Press Enter to load the path you typed first"
            } else {
                "Open an image first"
            },
            save: (self.result.is_some() || foreign) && idle,
            save_hint: if self.result.is_some() {
                "Waiting for the conversion, dialog or save to finish"
            } else {
                "Convert an image first"
            },
            close: idle && has_picture,
        }
    }

    /// Which of the shortcuts pressed act: Escape only on a conversion that
    /// runs, the others only while nothing is under way, and Undo before
    /// Redo.
    pub fn allowed(&self, pressed: Actions, foreign: bool) -> (acts: Actions)
        ensures
            acts == self@.allowed(pressed, foreign),
    {
        let bar = self.toolbar(foreign);
        Actions {
            open: pressed.open && bar.open,
            convert: pressed.convert && bar.convert,
            cancel: pressed.cancel && bar.cancel,
            save: pressed.save && bar.save,
            preview: pressed.preview && bar.open,
            close: pressed.close && bar.close,
            undo: pressed.undo,
            redo: pressed.redo && !pressed.undo,
        }
    }

    /// Takes what changed on the Curves card: moving the bow's slider turns
    /// its Auto off, and its Auto takes the bow of the picture's kind. The
    /// document is drawn again.
    pub fn curves_changed(&mut self, events: CurveEvents, bow: Option<u32>) -> (request: Option<
        DeriveRequest,
    >)
        ensures
            (final(self)@, request) == old(self)@.curves_changed(events, bow),
    {
        if events.bow_moved {
            self.settings.curves.straighten_auto = false;
        }
        if events.bow_auto {
            self.settings.curves.straighten_auto = true;
            if let Some(b) = bow {
                self.settings.curves.straighten_tolerance = b;
            }
        }
        if events.auto {
            self.request_derive(true)
        } else if events.changed || events.bow_moved || events.bow_auto {
            self.reapply()
        } else {
            None
        }
    }

    /// Whether the tolerance's Auto can be pressed, and why not.
    pub fn auto_offer(&self) -> (offer: (bool, &'static str))
        ensures
            offer.0 == (!self@.versions.auto_pending && self@.result is Some),
            offer.1@ == (if self@.versions.auto_pending {
                "Picking the tolerance…"@
            } else {
                "Convert an image first"@
            }),
    {
        (
            !self.versions.auto_pending && self.result.is_some(),
            if self.versions.auto_pending {
                "Picking the tolerance…"
            } else {
                "Convert an image first"
            },
        )
    }

    /// The footer's count of segments was clicked: simplified or exact.
    pub fn toggle_simplify(&mut self) -> (request: Option<DeriveRequest>)
        ensures
            (final(self)@, request) == old(self)@.with_curves(
                Curves {
                    simplify: !old(self)@.settings.curves.simplify,
                    ..old(self)@.settings.curves
                },
            ).request_derive(false),
    {
        self.settings.curves.simplify = !self.settings.curves.simplify;
        self.reapply()
    }

    /// Restores every rounded corner.
    pub fn restore_all_corners(&mut self) -> (request: Option<DeriveRequest>)
        ensures
            (final(self)@, request) == old(self)@.edited(
                HandView { rounded: Seq::empty(), ..old(self)@.hand },
                true,
            ),
    {
        self.hand.rounded = Vec::new();
        assert(self.hand.rounded@ =~= Seq::empty());
        self.reapply()
    }

    /// Takes back every corner squared by hand.
    pub fn undo_squaring(&mut self) -> (request: Option<DeriveRequest>)
        ensures
            (final(self)@, request) == old(self)@.edited(
                HandView { straightened: Seq::empty(), ..old(self)@.hand },
                true,
            ),
    {
        self.hand.straightened = Vec::new();
        assert(self.hand.straightened@ =~= Seq::empty());
        self.reapply()
    }

    /// Takes a choice in a node's menu, which closes. Straightening runs
    /// before the moves, so it knows a moved node by where it was.
    pub fn choose_node(&mut self, node: Point, choice: NodeChoice) -> (request: Option<
        DeriveRequest,
    >)
        ensures
            (final(self)@, request) == old(self)@.choose_node(node, choice),
    {
        let request = match choice {
            NodeChoice::Round(reach) => self.round_node(node, reach),
            NodeChoice::Restore => self.restore_node(node),
            NodeChoice::Square(on) => {
                let base = self.hand.base_position(&node);
                self.hand.square(base, on);
                self.reapply()
            },
            NodeChoice::PutBack => self.put_back(node),
            NodeChoice::Delete(refusal) => self.delete_node(node, refusal),
            NodeChoice::Close => None,
        };
        self.popups.node_menu = None;
        request
    }

    /// How many selected shapes are of another colour than `shape`: those that
    /// its menu offers to merge.
    pub fn others(&self, shape: &Removal) -> (count: usize)
        ensures
            count == others_of(self@.hand.selected, shape@.color, self@.hand.selected.len()),
    {
        let ghost all = removal_views(self.hand.selected@);
        let mut count: usize = 0;
        let mut i: usize = 0;
        while i < self.hand.selected.len()
            invariant
                i <= self.hand.selected@.len(),
                all == removal_views(self.hand.selected@),
                count == others_of(all, shape@.color, i as nat),
                count <= i,
            decreases self.hand.selected@.len() - i,
        {
            if !is_same_word(self.hand.selected[i].color.as_str(), shape.color.as_str()) {
                count = count + 1;
            }
            i = i + 1;
        }
        count
    }

    /// Takes a choice in a shape's menu, which closes: deleting or selecting
    /// the shape. Merging is another step.
    pub fn choose_shape(&mut self, shape: Removal, action: ShapeAction) -> (request: Option<
        DeriveRequest,
    >)
        ensures
            ({
                let o = old(self)@;
                let (s, asked) = match action {
                    ShapeAction::Delete => o.edited(o.hand.delete_shape(shape@), true),
                    ShapeAction::ToggleSelect => (
                        o.with_hand(o.hand.toggle_selected(shape@)),
                        None,
                    ),
                    ShapeAction::MergeInto => (o.with_hand(o.selecting(shape@)), None),
                    ShapeAction::Close => (o, None),
                };
                final(self)@ == s.without_shape_menu() && request == asked
            }),
    {
        let request = match action {
            ShapeAction::Delete => self.delete_shape(shape),
            ShapeAction::ToggleSelect => {
                self.hand.toggle_selected(shape);
                None
            },
            ShapeAction::MergeInto => {
                if !self.hand.is_selected(&shape) {
                    let ghost before = removal_views(self.hand.selected@);
                    self.hand.selected.push(shape);
                    assert(removal_views(self.hand.selected@) =~= before.push(shape@));
                }
                None
            },
            ShapeAction::Close => None,
        };
        self.popups.shape_menu = None;
        request
    }

    /// A click on a shape of the drawing while shapes are edited: deletes it
    /// at once, or selects it.
    pub fn click_shape(&mut self, shape: Removal, delete: bool) -> (request: Option<DeriveRequest>)
        ensures
            ({
                let o = old(self)@;
                if o.popups.shape_menu is Some {
                    final(self)@ == o && request is None
                } else if delete {
                    (final(self)@, request) == o.edited(o.hand.delete_shape(shape@), true)
                } else {
                    final(self)@ == o.with_hand(o.hand.toggle_selected(shape@)) && request is None
                }
            }),
    {
        if self.popups.shape_menu.is_some() {
            return None;
        }
        if delete {
            self.delete_shape(shape)
        } else {
            self.hand.toggle_selected(shape);
            None
        }
    }

    /// Editing shapes began or ended, or deleting on a click was switched:
    /// the selection and the menu go.
    pub fn shapes_mode_changed(&mut self)
        ensures
            final(self)@ == old(self)@.deselected().without_shape_menu(),
    {
        self.hand.deselect();
        self.popups.shape_menu = None;
    }

    /// Whether the background can be cut out, and why not.
    pub fn cut_offer(&self) -> (offer: (bool, &'static str))
        ensures
            offer.0 == (self@.result is Some && self@.picture.border_opaque),
            offer.1@ == (if self@.result is None {
                "Convert an image first."@
            } else {
                "The picture's edge is transparent already."@
            }),
    {
        (
            self.result.is_some() && self.picture.border_opaque,
            if self.result.is_none() {
                "Convert an image first."
            } else {
                "The picture's edge is transparent already."
            },
        )
    }

    /// Whether the Advanced card says that its settings wait for a
    /// conversion: the Conversion card says it first.
    pub fn advanced_hint(&self, next: Option<Option<crate::settings::Sliders>>) -> (shown: bool)
        ensures
            shown == (self@.advanced_stale(next) && !self@.conversion_stale()
                && !self@.work.worker),
    {
        self.advanced_stale(next) && !self.conversion_stale() && !self.work.worker
    }

    /// The advanced sliders start from those the conversion would run anyway.
    pub fn seed_sliders(&mut self, sliders: crate::settings::Sliders)
        ensures
            final(self)@ == (DesktopView {
                settings: SettingsView {
                    conversion: crate::desktop::Conversion {
                        sliders,
                        ..old(self)@.settings.conversion
                    },
                    ..old(self)@.settings
                },
                ..old(self)@
            }),
    {
        self.settings.conversion.sliders = sliders;
    }

    /// Takes a click on one of the footer's chips, of which those drawn are
    /// given. The palette is the shown document's: none while a conversion
    /// replaces it.
    pub fn take_stats(&mut self, size_drawn: bool, colors_drawn: bool, clicked: Option<StatPopup>)
        ensures
            final(self)@ == old(self)@.with_stat(
                old(self)@.stat_after(
                    size_drawn,
                    colors_drawn,
                    if clicked == Some(StatPopup::Colors) && old(self)@.result is None {
                        None
                    } else {
                        clicked
                    },
                ),
            ),
    {
        let mut left: Option<StatPopup> = self.popups.stat;
        if let Some(which) = left {
            let drawn = match which {
                StatPopup::Size => size_drawn,
                StatPopup::Colors => colors_drawn,
            };
            if !drawn {
                left = None;
            }
        }
        if let Some(which) = clicked {
            if which == StatPopup::Size || self.result.is_some() {
                let open = match left {
                    Some(l) => l == which,
                    None => false,
                };
                left = if open {
                    None
                } else {
                    Some(which)
                };
            }
        }
        self.popups.stat = left;
    }

    /// A colour of the palette was copied.
    pub fn copied_colour(&mut self, hex: &str)
        ensures
            final(self)@ == old(self)@.with_status(
                StatusKind::Done,
                "Copied "@ + hex@ + " to the clipboard."@,
            ),
    {
        let mut text = "Copied ".to_owned();
        text.append(hex);
        text.append(" to the clipboard.");
        self.set_status(StatusKind::Done, text.as_str());
    }

    /// A colour of the palette is dropped; the popup closes.
    pub fn drop_colour(&mut self, hex: &str, shapes: &Vec<Island>) -> (started: bool)
        ensures
            (final(self)@, started) == old(self)@.with_stat(None).remove_color(hex@, shapes@),
    {
        self.popups.stat = None;
        self.remove_color(hex, shapes)
    }

    /// The counts on screen.
    pub fn shown_counts(&self) -> (counts: Option<Counts>)
        ensures
            counts == self@.counts(),
    {
        match self.result {
            Some(shown) => Some(shown.counts),
            None => match &self.replaced {
                Some(replaced) => Some(replaced.result.counts),
                None => None,
            },
        }
    }

    /// Opens one of the popups as a person would: Save only with a result, a
    /// node's menu only over a node. `node` is the first of the document's,
    /// `shape` the one at the picture's centre.
    pub fn open_overlay(
        &mut self,
        overlay: crate::shown::Overlay,
        node: Option<Point>,
        shape: Option<Removal>,
    )
        ensures
            ({
                let o = old(self)@;
                final(self)@ == (match overlay {
                    crate::shown::Overlay::Save => DesktopView {
                        popups: PopupsView { save: o.result is Some, ..o.popups },
                        ..o
                    },
                    crate::shown::Overlay::Size => o.with_stat(Some(StatPopup::Size)),
                    crate::shown::Overlay::Colors => o.with_stat(Some(StatPopup::Colors)),
                    crate::shown::Overlay::NodeMenu => if node is Some {
                        DesktopView { popups: PopupsView { node_menu: node, ..o.popups }, ..o }
                    } else {
                        o
                    },
                    crate::shown::Overlay::Shapes => match shape {
                        Some(s) => DesktopView {
                            hand: HandView { selected: o.hand.selected.push(s@), ..o.hand },
                            popups: PopupsView { shape_menu: Some(s@), ..o.popups },
                            ..o
                        },
                        None => o,
                    },
                    _ => o,
                })
            }),
    {
        match overlay {
            crate::shown::Overlay::Save => {
                self.popups.save = self.result.is_some();
            },
            crate::shown::Overlay::Size => {
                self.popups.stat = Some(StatPopup::Size);
            },
            crate::shown::Overlay::Colors => {
                self.popups.stat = Some(StatPopup::Colors);
            },
            crate::shown::Overlay::NodeMenu => {
                if node.is_some() {
                    self.popups.node_menu = node;
                }
            },
            crate::shown::Overlay::Shapes => {
                if let Some(s) = shape {
                    let ghost before = removal_views(self.hand.selected@);
                    let copy = copy_removal(&s);
                    self.hand.selected.push(copy);
                    assert(removal_views(self.hand.selected@) =~= before.push(s@));
                    self.popups.shape_menu = Some(s);
                }
            },
            _ => {},
        }
    }

    /// Closes the Save popup when there is nothing to save; whether it stays
    /// open.
    pub fn save_popup(&mut self, foreign: bool, sized: bool) -> (open: bool)
        ensures
            open == (old(self)@.popups.save && sized && (old(self)@.result is Some || foreign)),
            final(self)@ == (DesktopView {
                popups: PopupsView { save: open, ..old(self)@.popups },
                ..old(self)@
            }),
    {
        let open = self.popups.save && sized && (self.result.is_some() || foreign);
        self.popups.save = open;
        open
    }

    /// Takes a press in the Save popup. Nothing starts while a dialog or a
    /// save is out; a browser tab downloads what a window drags out.
    pub fn save_pressed(&mut self, host: &Host, drag: bool, choose: bool) -> (step: SaveStep)
        ensures
            ({
                let o = old(self)@;
                let closed = DesktopView { popups: PopupsView { save: false, ..o.popups }, ..o };
                if drag && o.idle() {
                    &&& final(self)@ == o
                    &&& host.in_browser ==> step is Download
                    &&& !host.in_browser ==> step is Drag
                } else if choose && o.idle() {
                    &&& host.in_browser ==> step is Download && final(self)@ == closed
                    &&& !host.in_browser ==> {
                        &&& final(self)@ == closed.send_errand().with_status(
                            StatusKind::Info,
                            "Choose where to save in the Save dialog."@,
                        )
                        &&& step matches SaveStep::Dialog(Some(errand))
                        &&& errand.kind is Save
                        &&& errand.before@ == o.status
                    }
                } else {
                    step is Nothing && final(self)@ == o
                }
            }),
    {
        if drag && self.idle() {
            if host.in_browser {
                SaveStep::Download
            } else {
                SaveStep::Drag
            }
        } else if choose && self.idle() {
            self.popups.save = false;
            self.save_dialog(host)
        } else {
            SaveStep::Nothing
        }
    }
}

/// While a conversion runs, nothing is opened, converted, saved or closed:
/// only Cancel, Undo and Redo act.
pub proof fn law_a_running_conversion_keeps_the_toolbar_waiting(
    s: DesktopView,
    pressed: Actions,
    foreign: bool,
)
    requires
        s.work.worker,
    ensures
        ({
            let acts = s.allowed(pressed, foreign);
            !acts.open && !acts.convert && !acts.save && !acts.preview && !acts.close
                && acts.cancel == pressed.cancel
        }),
{
}

/// A second click on a chip closes its popup, and a popup whose chip is no
/// longer drawn closes.
pub proof fn law_a_second_click_closes_the_popup(s: DesktopView, which: StatPopup)
    ensures
        s.with_stat(Some(which)).stat_after(true, true, Some(which)) is None,
        s.with_stat(None).stat_after(true, true, Some(which)) == Some(which),
        s.with_stat(Some(which)).stat_after(false, false, None) is None,
{
}

} // verus!
