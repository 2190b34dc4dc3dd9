//! Undo and Redo on the window.
use crate::desktop::{
    AutoView, Conversion, DeriveRequest, Desktop, DesktopView, PopupsView, SettingsView,
    StatusKind,
};
use crate::hand::{Hand, HandView};
use crate::history::{HistoryView, Step, StepView};
use crate::settings::{same_recolors, ConversionSettings, Edits, EditsView};
use vstd::prelude::*;

verus! {

/// The cards' settings after `settings` were put back: what they leave out
/// stays as it is.
pub open spec fn put_conversion(c: Conversion, settings: ConversionSettings) -> Conversion {
    Conversion {
        automatic: settings.automatic,
        category: match settings.manual {
            Some(m) => m.category,
            None => c.category,
        },
        quality: match settings.manual {
            Some(m) => m.quality,
            None => c.quality,
        },
        overlap_opaque_photos: settings.overlap_opaque_photos,
        optional_optimizer: settings.optional_optimizer,
        advanced_on: settings.sliders is Some,
        sliders: match settings.sliders {
            Some(sliders) => sliders,
            None => c.sliders,
        },
    }
}

/// What a press of Undo or Redo leads to: a conversion, or the document drawn
/// again.
#[derive(Clone, Copy, Debug, PartialEq, Eq, Structural)]
pub struct Follow {
    pub convert: bool,
    pub derive: Option<DeriveRequest>,
}

impl DesktopView {
    /// After `edits` were put in force, before anything is drawn.
    pub open spec fn put_edits(self, edits: EditsView) -> DesktopView {
        DesktopView {
            hand: HandView {
                rounded: edits.rounded,
                straightened: edits.straightened,
                moved: edits.moved,
                deleted_nodes: edits.deleted_nodes,
                deleted: edits.deleted,
                selected: Seq::empty(),
            },
            settings: SettingsView {
                conversion: put_conversion(self.settings.conversion, edits.conversion),
                prep: edits.prep,
                curves: edits.curves,
                sticker: edits.sticker,
                ..self.settings
            },
            popups: PopupsView {
                node_menu: None,
                shape_menu: None,
                node_drag: None,
                ..self.popups
            },
            ..self
        }
    }

    /// The picture on screen is loaded and was converted.
    pub open spec fn convertible(self) -> bool {
        self.picture.size is Some && self.picture.path == self.picture.loaded_path
            && self.auto.converted is Some
    }

    /// After `edits` were put in force: converted again when the recoloured
    /// pixels changed, drawn again when anything else drawn did.
    pub open spec fn restore_edits(self, edits: EditsView, start: u32) -> (DesktopView, Follow) {
        let put = self.put_edits(edits);
        if self.settings.prep.recolors != edits.prep.recolors && put.convertible() {
            (put.start(), Follow { convert: true, derive: None })
        } else if put.derive_settings(start) != self.derive_settings(start) {
            let (drawn, request) = put.request_derive(false);
            (drawn, Follow { convert: false, derive: request })
        } else {
            (put, Follow { convert: false, derive: None })
        }
    }

    pub open spec fn with_history(self, history: HistoryView) -> DesktopView {
        DesktopView { history, ..self }
    }

    /// After Undo was pressed.
    pub open spec fn undo(self, start: u32) -> (DesktopView, Follow) {
        let (history, step) = self.history.undone(self.edits(), self.idle());
        let none = Follow { convert: false, derive: None };
        let s = self.with_history(history);
        match step {
            StepView::Nothing => (s.with_status(StatusKind::Info, "Nothing to undo."@), none),
            StepView::Busy => (
                s.with_status(
                    StatusKind::Info,
                    "That undo converts again: press it once the conversion has finished."@,
                ),
                none,
            ),
            StepView::Done(edits) => {
                let (restored, follow) = s.restore_edits(edits, start);
                (restored.with_status(StatusKind::Info, "Undone. Ctrl+Y redoes it."@), follow)
            },
        }
    }

    /// After Redo was pressed.
    pub open spec fn redo(self, start: u32) -> (DesktopView, Follow) {
        let (history, step) = self.history.redone(self.edits(), self.idle());
        let none = Follow { convert: false, derive: None };
        let s = self.with_history(history);
        match step {
            StepView::Nothing => (s.with_status(StatusKind::Info, "Nothing to redo."@), none),
            StepView::Busy => (
                s.with_status(
                    StatusKind::Info,
                    "That redo converts again: press it once the conversion has finished."@,
                ),
                none,
            ),
            StepView::Done(edits) => {
                let (restored, follow) = s.restore_edits(edits, start);
                (restored.with_status(StatusKind::Info, "Redone."@), follow)
            },
        }
    }

    /// After everything kept for Undo was forgotten: a new picture, or none.
    pub open spec fn forget_edits(self) -> DesktopView {
        DesktopView {
            history: HistoryView::empty(),
            auto: AutoView { converted: None, changed: None, held: None, ..self.auto },
            popups: PopupsView { node_drag: None, ..self.popups },
            ..self
        }
    }
}

impl Desktop {
    /// Makes whatever changed since the last call one step of Undo. Called
    /// while no pointer button is down, so a slider dragged or a node carried
    /// is one step.
    pub fn record_edits(&mut self)
        requires
            old(self)@.history.ok(),
        ensures
            final(self)@ == old(self)@.with_history(
                old(self)@.history.recorded(old(self)@.edits()),
            ),
            final(self)@.history.ok(),
    {
        let now = self.edits();
        self.history.record_edits(&now);
    }

    /// A new picture, or none: nothing to undo or redo.
    pub fn forget_edits(&mut self)
        ensures
            final(self)@ == old(self)@.forget_edits(),
            final(self)@.history.ok(),
    {
        self.history.forget();
        self.auto.converted = None;
        self.auto.changed = None;
        self.auto.held = None;
        self.popups.node_drag = None;
    }

    /// Puts back the edits before the last change.
    pub fn undo(&mut self, start: u32) -> (follow: Follow)
        requires
            old(self)@.history.ok(),
        ensures
            (final(self)@, follow) == old(self)@.undo(start),
            final(self)@.history.ok(),
    {
        let idle = self.idle();
        let now = self.edits();
        match self.history.undo(&now, idle) {
            Step::Nothing => {
                self.set_status(StatusKind::Info, "Nothing to undo.");
                Follow { convert: false, derive: None }
            },
            Step::Busy => {
                self.set_status(
                    StatusKind::Info,
                    "That undo converts again: press it once the conversion has finished.",
                );
                Follow { convert: false, derive: None }
            },
            Step::Done(edits) => {
                let follow = self.restore_edits(edits, start);
                self.set_status(StatusKind::Info, "Undone. Ctrl+Y redoes it.");
                follow
            },
        }
    }

    /// Puts back the change Undo took away.
    pub fn redo(&mut self, start: u32) -> (follow: Follow)
        requires
            old(self)@.history.ok(),
        ensures
            (final(self)@, follow) == old(self)@.redo(start),
            final(self)@.history.ok(),
    {
        let idle = self.idle();
        let now = self.edits();
        match self.history.redo(&now, idle) {
            Step::Nothing => {
                self.set_status(StatusKind::Info, "Nothing to redo.");
                Follow { convert: false, derive: None }
            },
            Step::Busy => {
                self.set_status(
                    StatusKind::Info,
                    "That redo converts again: press it once the conversion has finished.",
                );
                Follow { convert: false, derive: None }
            },
            Step::Done(edits) => {
                let follow = self.restore_edits(edits, start);
                self.set_status(StatusKind::Info, "Redone.");
                follow
            },
        }
    }

    fn put_conversion(&mut self, settings: ConversionSettings)
        ensures
            final(self)@ == (DesktopView {
                settings: SettingsView {
                    conversion: put_conversion(old(self)@.settings.conversion, settings),
                    ..old(self)@.settings
                },
                ..old(self)@
            }),
    {
        let c: Conversion = self.settings.conversion;
        let (category, quality) = match settings.manual {
            Some(m) => (m.category, m.quality),
            None => (c.category, c.quality),
        };
        self.settings.conversion = Conversion {
            automatic: settings.automatic,
            category,
            quality,
            overlap_opaque_photos: settings.overlap_opaque_photos,
            optional_optimizer: settings.optional_optimizer,
            advanced_on: settings.sliders.is_some(),
            sliders: match settings.sliders {
                Some(sliders) => sliders,
                None => c.sliders,
            },
        };
    }

    fn put_edits(&mut self, edits: Edits)
        ensures
            final(self)@ == old(self)@.put_edits(edits@),
    {
        let ghost view = edits@;
        self.put_conversion(edits.conversion);
        self.settings.prep = edits.prep;
        self.settings.curves = edits.curves;
        self.settings.sticker = edits.sticker;
        self.popups.node_menu = None;
        self.popups.shape_menu = None;
        self.popups.node_drag = None;
        self.hand = Hand {
            rounded: edits.rounded,
            straightened: edits.straightened,
            moved: edits.moved,
            deleted_nodes: edits.deleted_nodes,
            deleted: edits.deleted,
            selected: Vec::new(),
        };
        assert(self@.hand =~= old(self)@.put_edits(view).hand);
    }

    /// Puts `edits` in force: draws the document again when a hand edit or
    /// what is drawn changed, converts again when the recoloured pixels did.
    /// Other conversion settings wait, as when they are set by hand.
    fn restore_edits(&mut self, edits: Edits, start: u32) -> (follow: Follow)
        ensures
            (final(self)@, follow) == old(self)@.restore_edits(edits@, start),
            final(self)@.history == old(self)@.history,
    {
        let before = self.derive_settings(start);
        let merges_changed = !same_recolors(&self.settings.prep.recolors, &edits.prep.recolors);
        self.put_edits(edits);
        let convertible = self.picture.size.is_some() && self.picture.path
            == self.picture.loaded_path && self.auto.converted.is_some();
        if merges_changed && convertible {
            self.start();
            Follow { convert: true, derive: None }
        } else if !self.derive_settings(start).is_same(&before) {
            let request = self.reapply();
            Follow { convert: false, derive: request }
        } else {
            Follow { convert: false, derive: None }
        }
    }
}

/// Edits as they stand name the image type and quality only where they are
/// chosen by hand.
pub open spec fn taken_edits(edits: EditsView) -> bool {
    edits.conversion.manual is Some <==> !edits.conversion.automatic
}

proof fn lemma_put_edits(s: DesktopView, edits: EditsView, start: u32)
    requires
        taken_edits(edits),
    ensures
        s.put_edits(edits).edits() == edits,
        s.restore_edits(edits, start).0.edits() == edits,
        s.restore_edits(edits, start).0.history == s.history,
{
    let put = s.put_edits(edits);
    assert(put.edits().conversion == edits.conversion);
    assert(put.edits() =~= edits);
    assert(put.start().edits() =~= edits);
}

/// Undo puts the edits before the last change in force, and Redo after it
/// puts back those that Undo took away, with the same steps left to undo and
/// redo.
pub proof fn law_undo_and_redo_restore_the_edits(s: DesktopView, start: u32)
    requires
        s.idle(),
        s.history.seen == Some(s.edits()),
        s.history.undo.len() > 0,
        taken_edits(s.history.undo.last()),
        s.undo(start).0.idle(),
    ensures
        s.undo(start).0.edits() == s.history.undo.last(),
        s.undo(start).0.redo(start).0.edits() == s.edits(),
        s.undo(start).0.redo(start).0.history == s.history,
{
    let previous = s.history.undo.last();
    let (h, step) = s.history.undone(s.edits(), true);
    lemma_put_edits(s.with_history(h), previous, start);
    let u = s.undo(start).0;
    assert(u.history == h);
    crate::history::law_redo_undoes_undo(s.history, s.edits(), previous);
    let (h2, step2) = h.redone(previous, true);
    lemma_put_edits(u.with_history(h2), s.edits(), start);
}

/// One gesture is one step: whatever changed since the last record is taken
/// back by one press of Undo.
pub proof fn law_one_gesture_is_one_step(s: DesktopView, start: u32)
    requires
        s.idle(),
        s.history.seen is Some,
        s.history.seen != Some(s.edits()),
        taken_edits(s.history.seen->0),
    ensures
        s.undo(start).0.edits() == s.history.seen->0,
{
    let before = s.history.seen->0;
    let (h, step) = s.history.undone(s.edits(), true);
    crate::history::law_one_step_per_change(s.history, before, s.edits());
    lemma_put_edits(s.with_history(h), before, start);
}

/// An undo that would convert again is refused while a conversion runs, and
/// changes no edit.
pub proof fn law_no_undo_of_a_conversion_while_one_runs(s: DesktopView, start: u32)
    requires
        !s.idle(),
        s.history.seen == Some(s.edits()),
        s.history.undo.len() > 0,
        s.history.undo.last().prep.recolors != s.edits().prep.recolors,
    ensures
        s.undo(start).0 == s.with_status(
            StatusKind::Info,
            "That undo converts again: press it once the conversion has finished."@,
        ),
        !s.undo(start).1.convert,
{
}

} // verus!
