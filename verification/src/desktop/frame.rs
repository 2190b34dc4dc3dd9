//! One frame of the window: what the workers and the keyboard brought, in the
//! order in which it takes effect.
use crate::desktop::convert::{Converted, Tick};
use crate::desktop::files::{Errand, ErrandKind};
use crate::desktop::panels::Actions;
use crate::desktop::{DeriveRequest, Desktop, DesktopView};
use crate::platform::{Command, Host};
use crate::settings::Sliders;
use vstd::prelude::*;

verus! {

/// What a look at a running conversion brought.
#[derive(Debug)]
pub enum WorkEvent {
    Waiting,
    Done(Converted),
    Failed(String),
    /// Its thread ended without an answer.
    Gone,
}

/// What is left to be done outside the window after a frame.
#[derive(Debug)]
pub struct Asked {
    /// The dialog that picks the picture to open.
    pub open: Option<Errand>,
    /// The dialog that picks where a picture of the window goes.
    pub preview: Option<Errand>,
    /// What the picture that the page takes of the window is saved as.
    pub picture: Option<String>,
    /// The picture is to be converted.
    pub convert: bool,
    /// The document is to be drawn again.
    pub derive: Option<DeriveRequest>,
    /// When to look at the settings again.
    pub tick: Tick,
}

/// The later of two requests: it is the one that is served.
pub open spec fn later(a: Option<DeriveRequest>, b: Option<DeriveRequest>) -> Option<DeriveRequest> {
    if b is Some {
        b
    } else {
        a
    }
}

fn later_of(a: Option<DeriveRequest>, b: Option<DeriveRequest>) -> (c: Option<DeriveRequest>)
    ensures
        c == later(a, b),
{
    if b.is_some() {
        b
    } else {
        a
    }
}

impl DesktopView {
    pub open spec fn recorded(self) -> DesktopView {
        self.with_history(self.history.recorded(self.edits()))
    }

    #[verifier::opaque]
    pub open spec fn cancelled_by(self, acts: Actions) -> (DesktopView, Option<DeriveRequest>) {
        if acts.cancel {
            self.cancel()
        } else {
            (self, None)
        }
    }

    #[verifier::opaque]
    pub open spec fn opened_by(self, acts: Actions, tab: bool) -> DesktopView {
        if acts.open {
            self.opened(tab)
        } else {
            self
        }
    }

    #[verifier::opaque]
    pub open spec fn converted_by(self, acts: Actions) -> DesktopView {
        if acts.convert {
            self.start()
        } else {
            self
        }
    }

    #[verifier::opaque]
    pub open spec fn pictured_by(self, acts: Actions, tab: bool) -> DesktopView {
        if acts.preview {
            self.pictured(tab)
        } else {
            self
        }
    }

    #[verifier::opaque]
    pub open spec fn closed_by(self, acts: Actions) -> DesktopView {
        if acts.close {
            self.close()
        } else {
            self
        }
    }

    #[verifier::opaque]
    pub open spec fn stepped_by(self, acts: Actions, start: u32) -> (
        DesktopView,
        bool,
        Option<DeriveRequest>,
    ) {
        if acts.undo {
            let (s, follow) = self.undo(start);
            (s, follow.convert, follow.derive)
        } else if acts.redo {
            let (s, follow) = self.redo(start);
            (s, follow.convert, follow.derive)
        } else {
            (self, false, None)
        }
    }

    /// After the toolbar's actions, before Undo and Redo.
    #[verifier::opaque]
    pub open spec fn toolbar_done(self, acts: Actions, tab: bool) -> DesktopView {
        self.cancelled_by(acts).0.opened_by(acts, tab).converted_by(acts).pictured_by(
            acts,
            tab,
        ).closed_by(acts)
    }

    /// After every action: a change finished on this frame, with no button
    /// held, is one step of Undo.
    #[verifier::opaque]
    pub open spec fn acted(
        self,
        acts: Actions,
        tab: bool,
        pointer_down: bool,
        start: u32,
    ) -> DesktopView {
        let stepped = self.toolbar_done(acts, tab).stepped_by(acts, start).0;
        if pointer_down {
            stepped
        } else {
            stepped.recorded()
        }
    }

    /// After a look at the settings that may convert by themselves.
    #[verifier::opaque]
    pub open spec fn ticked(self, now: u64, pointer_down: bool, next: Option<Option<Sliders>>) -> (
        DesktopView,
        Tick,
        Option<DeriveRequest>,
    ) {
        self.auto_convert_tick(now, pointer_down, next)
    }

    /// After a whole frame; `tab` says that a page hosts the window.
    pub open spec fn frame(
        self,
        acts: Actions,
        tab: bool,
        pointer_down: bool,
        now: u64,
        next: Option<Option<Sliders>>,
        start: u32,
    ) -> DesktopView {
        self.acted(acts, tab, pointer_down, start).ticked(now, pointer_down, next).0
    }
}

impl Desktop {
    /// Takes what a look at the running conversion brought; also when to look
    /// again, in milliseconds.
    pub fn receive_work(&mut self, event: WorkEvent, start: u32) -> (taken: (
        Option<DeriveRequest>,
        Option<u64>,
    ))
        requires
            old(self)@.history.ok(),
        ensures
            final(self)@.history.ok(),
            !old(self)@.work.worker ==> final(self)@ == old(self)@ && taken == (
                None::<DeriveRequest>,
                None::<u64>,
            ),
            old(self)@.work.worker ==> match event {
                WorkEvent::Waiting => final(self)@ == old(self)@ && taken == (
                    None::<DeriveRequest>,
                    Some(50u64),
                ),
                WorkEvent::Done(c) => (final(self)@, taken.0) == old(self)@.accept(c@, start)
                    && taken.1 is None,
                WorkEvent::Failed(error) => (final(self)@, taken.0) == old(self)@.fail(error@)
                    && taken.1 is None,
                WorkEvent::Gone => (final(self)@, taken.0) == old(self)@.fail(
                    "Conversion worker stopped unexpectedly."@,
                ) && taken.1 is None,
            },
    {
        if !self.work.worker {
            return (None, None);
        }
        match event {
            WorkEvent::Waiting => (None, Some(50)),
            WorkEvent::Done(c) => (self.accept(c, start), None),
            WorkEvent::Failed(error) => (self.fail(error.as_str()), None),
            WorkEvent::Gone => (self.fail("Conversion worker stopped unexpectedly."), None),
        }
    }

    /// Takes a look at a cancelled conversion: it is gone once its thread
    /// answers or ends. When to look again, in milliseconds.
    pub fn receive_stopped(&mut self, waiting: bool) -> (wait: Option<u64>)
        ensures
            wait == (if old(self)@.work.stopping && waiting {
                Some(100u64)
            } else {
                None
            }),
            final(self)@ == (DesktopView {
                work: crate::desktop::Work {
                    stopping: old(self)@.work.stopping && waiting,
                    ..old(self)@.work
                },
                ..old(self)@
            }),
    {
        if !self.work.stopping {
            return None;
        }
        if waiting {
            Some(100)
        } else {
            self.stopped();
            None
        }
    }

    fn cancel_by(&mut self, acts: Actions) -> (request: Option<DeriveRequest>)
        requires
            old(self)@.history.ok(),
        ensures
            (final(self)@, request) == old(self)@.cancelled_by(acts),
            final(self)@.history.ok(),
            final(self)@.picture.size == old(self)@.picture.size,
    {
        reveal(DesktopView::cancelled_by);
        if acts.cancel {
            self.cancel()
        } else {
            None
        }
    }

    fn open_by(&mut self, acts: Actions, host: &mut Host) -> (errand: Option<Errand>)
        requires
            old(self)@.history.ok(),
        ensures
            final(self)@ == old(self)@.opened_by(acts, old(host).in_browser),
            errand is Some == (acts.open && !old(host).in_browser && !old(self)@.work.errand),
            errand matches Some(e) ==> e.kind == ErrandKind::Open && e.before@
                == old(self)@.status,
            acts.open ==> old(host).asked(Command::OpenPicker, *final(host)),
            !acts.open ==> *final(host) == *old(host),
            final(self)@.history.ok(),
            final(self)@.picture.size == old(self)@.picture.size,
    {
        reveal(DesktopView::opened_by);
        if acts.open {
            self.open_dialog(host)
        } else {
            None
        }
    }

    fn convert_by(&mut self, acts: Actions) -> (started: bool)
        requires
            old(self)@.history.ok(),
        ensures
            final(self)@ == old(self)@.converted_by(acts),
            started == (acts.convert && old(self)@.picture.size is Some),
            final(self)@.history.ok(),
    {
        reveal(DesktopView::converted_by);
        if acts.convert {
            self.start()
        } else {
            false
        }
    }

    fn picture_by(&mut self, acts: Actions, host: &mut Host, stem: &str) -> (ask: (
        Option<Errand>,
        Option<String>,
    ))
        requires
            old(self)@.history.ok(),
        ensures
            final(self)@ == old(self)@.pictured_by(acts, old(host).in_browser),
            ask.0 is Some == (acts.preview && !old(host).in_browser && !old(self)@.work.errand),
            ask.0 matches Some(e) ==> e.kind == ErrandKind::Preview && e.before@
                == old(self)@.status,
            ask.1 is Some == (acts.preview && old(host).in_browser),
            ask.1 matches Some(name) ==> name@ == stem@ + "-app-preview.png"@,
            acts.preview ==> old(host).asked(Command::Screenshot, *final(host)),
            !acts.preview ==> *final(host) == *old(host),
            final(self)@.history.ok(),
    {
        reveal(DesktopView::pictured_by);
        if acts.preview {
            self.save_preview_png(host, stem)
        } else {
            (None, None)
        }
    }

    fn close_by(&mut self, acts: Actions)
        requires
            old(self)@.history.ok(),
        ensures
            final(self)@ == old(self)@.closed_by(acts),
            final(self)@.history.ok(),
    {
        reveal(DesktopView::closed_by);
        if acts.close {
            self.close();
        }
    }

    fn step_by(&mut self, acts: Actions, start: u32) -> (step: (bool, Option<DeriveRequest>))
        requires
            old(self)@.history.ok(),
        ensures
            (final(self)@, step.0, step.1) == old(self)@.stepped_by(acts, start),
            final(self)@.history.ok(),
    {
        reveal(DesktopView::stepped_by);
        if acts.undo {
            let follow = self.undo(start);
            (follow.convert, follow.derive)
        } else if acts.redo {
            let follow = self.redo(start);
            (follow.convert, follow.derive)
        } else {
            (false, None)
        }
    }

    fn tick(&mut self, now: u64, pointer_down: bool, next: Option<Option<Sliders>>) -> (tick: (
        Tick,
        Option<DeriveRequest>,
    ))
        requires
            old(self)@.history.ok(),
        ensures
            (final(self)@, tick.0, tick.1) == old(self)@.ticked(now, pointer_down, next),
            final(self)@.history.ok(),
    {
        reveal(DesktopView::ticked);
        self.auto_convert_tick(now, pointer_down, next)
    }

    /// Does what was asked for on this frame, of `acts` those that may act,
    /// then looks at the settings that may convert by themselves. The asked
    /// actions take effect in this order: cancel, open, convert, a picture of
    /// the window, close, and Undo or Redo. `stem` is what a saved file is
    /// called, without its extension.
    pub fn frame(
        &mut self,
        host: &mut Host,
        stem: &str,
        acts: Actions,
        pointer_down: bool,
        now: u64,
        next: Option<Option<Sliders>>,
        start: u32,
    ) -> (asked: Asked)
        requires
            old(self)@.history.ok(),
        ensures
            final(self)@.history.ok(),
            final(self)@ == old(self)@.frame(
                acts,
                old(host).in_browser,
                pointer_down,
                now,
                next,
                start,
            ),
            ({
                let done = old(self)@.toolbar_done(acts, old(host).in_browser);
                let acted = old(self)@.acted(acts, old(host).in_browser, pointer_down, start);
                let ticked = acted.ticked(now, pointer_down, next);
                &&& asked.tick == ticked.1
                &&& asked.derive == later(
                    later(old(self)@.cancelled_by(acts).1, done.stepped_by(acts, start).2),
                    ticked.2,
                )
                &&& asked.convert == ((acts.convert && old(self)@.picture.size is Some)
                    || done.stepped_by(acts, start).1 || asked.tick == Tick::Start)
            }),
            ({
                let s = old(self)@.cancelled_by(acts).0;
                &&& asked.open is Some == (acts.open && !old(host).in_browser && !s.work.errand)
                &&& asked.open matches Some(e) ==> e.kind == ErrandKind::Open && e.before@
                    == s.status
            }),
            ({
                let s = old(self)@.cancelled_by(acts).0.opened_by(
                    acts,
                    old(host).in_browser,
                ).converted_by(acts);
                &&& asked.preview is Some == (acts.preview && !old(host).in_browser
                    && !s.work.errand)
                &&& asked.preview matches Some(e) ==> e.kind == ErrandKind::Preview && e.before@
                    == s.status
            }),
            asked.picture is Some == (acts.preview && old(host).in_browser),
            asked.picture matches Some(name) ==> name@ == stem@ + "-app-preview.png"@,
            final(host).commands@ == old(host).commands@ + (if old(host).in_browser {
                asked_of_the_page(acts)
            } else {
                Seq::empty()
            }),
            final(host).in_browser == old(host).in_browser,
            final(host).jobs == old(host).jobs,
            final(host).servers == old(host).servers,
    {
        let ghost s = self@;
        let ghost tab = host.in_browser;
        let cancelled = self.cancel_by(acts);
        let open = self.open_by(acts, host);
        let started = self.convert_by(acts);
        let (preview, picture) = self.picture_by(acts, host, stem);
        assert(host.commands@ =~= old(host).commands@ + (if tab {
            asked_of_the_page(acts)
        } else {
            Seq::empty()
        }));
        self.close_by(acts);
        assert(self@ == s.toolbar_done(acts, tab)) by {
            reveal(DesktopView::toolbar_done);
        }
        let (stepped, redone) = self.step_by(acts, start);
        if !pointer_down {
            self.record_edits();
        }
        assert(self@ == s.acted(acts, tab, pointer_down, start)) by {
            reveal(DesktopView::acted);
        }
        let (tick, redrawn) = self.tick(now, pointer_down, next);
        Asked {
            open,
            preview,
            picture,
            convert: started || stepped || matches!(tick, Tick::Start),
            derive: later_of(later_of(cancelled, redone), redrawn),
            tick,
        }
    }
}

/// What the actions ask of a page that hosts the window.
pub open spec fn asked_of_the_page(acts: Actions) -> Seq<Command> {
    (if acts.open {
        seq![Command::OpenPicker]
    } else {
        Seq::empty()
    }) + (if acts.preview {
        seq![Command::Screenshot]
    } else {
        Seq::empty()
    })
}

/// A frame on which nothing is asked for, while the settings rest and every
/// change has been recorded, leaves the window as it was.
pub proof fn law_a_quiet_frame_changes_nothing(
    s: DesktopView,
    tab: bool,
    now: u64,
    next: Option<Option<Sliders>>,
    start: u32,
)
    requires
        s.resting(),
        s.auto.changed is None,
        s.history.seen == Some(s.edits()),
    ensures
        s.frame(
            Actions {
                open: false,
                convert: false,
                cancel: false,
                save: false,
                preview: false,
                close: false,
                undo: false,
                redo: false,
            },
            tab,
            false,
            now,
            next,
            start,
        ) == s,
{
    reveal(DesktopView::cancelled_by);
    reveal(DesktopView::opened_by);
    reveal(DesktopView::converted_by);
    reveal(DesktopView::pictured_by);
    reveal(DesktopView::closed_by);
    reveal(DesktopView::stepped_by);
    reveal(DesktopView::toolbar_done);
    reveal(DesktopView::acted);
    reveal(DesktopView::ticked);
}

/// Convert and Undo on one frame start one conversion: the step that would
/// convert again waits for the one that runs.
pub proof fn law_one_conversion_starts_on_a_frame(
    s: DesktopView,
    acts: Actions,
    tab: bool,
    start: u32,
)
    requires
        s.history.ok(),
        acts.convert,
        s.picture.size is Some,
    ensures
        !s.toolbar_done(acts, tab).stepped_by(acts, start).1,
{
    reveal(DesktopView::cancelled_by);
    reveal(DesktopView::opened_by);
    reveal(DesktopView::converted_by);
    reveal(DesktopView::pictured_by);
    reveal(DesktopView::closed_by);
    reveal(DesktopView::stepped_by);
    reveal(DesktopView::toolbar_done);
    let done = s.toolbar_done(acts, tab);
    assert(!done.idle());
}

} // verus!
