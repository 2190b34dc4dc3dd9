//! Converting: starting, cancelling, taking the result, drawing it again, and
//! converting again by itself.
use crate::desktop::{
    after, count_up, AutoView, Derive, DeriveRequest, DeriveView, Desktop, DesktopView, Pick,
    PictureView, PopupsView, Replaced, ReplacedView, SettingsView, Shown, StatusKind, Tolerance,
    Versions, Work,
};
use crate::hand::HandView;
use crate::picture::ImageCategory;
use crate::settings::{
    copy_recolors, recolor_views, Curves, Inputs, InputsView, Manual, Preparation, PreparationView,
    Sliders,
};
use crate::text::{decimal, digit, digit_char, push_decimal};
use vstd::prelude::*;

verus! {

/// How long settings must rest, in milliseconds, before a conversion starts
/// by itself.
pub const AUTO_CONVERT_DELAY: u64 = 400;

/// What a finished conversion brings.
#[derive(Debug)]
pub struct Converted {
    pub result: Shown,
    pub detected: Option<Manual>,
    pub working_opaque: bool,
    pub border_opaque: bool,
    /// The tolerance the automatic settings picked, if they did.
    pub auto: Option<Pick>,
    pub prep: Preparation,
    pub derived_with: Derive,
    /// The bow of the picture's kind.
    pub bow: u32,
    /// A dropped colour, and how many pixels changed for it.
    pub dropped: Option<(String, u64)>,
    /// Hundredths of a second that it took.
    pub elapsed: u64,
}

pub struct ConvertedView {
    pub result: Shown,
    pub detected: Option<Manual>,
    pub working_opaque: bool,
    pub border_opaque: bool,
    pub auto: Option<Pick>,
    pub prep: PreparationView,
    pub derived_with: DeriveView,
    pub bow: u32,
    pub dropped: Option<(Seq<char>, u64)>,
    pub elapsed: u64,
}

impl View for Converted {
    type V = ConvertedView;

    open spec fn view(&self) -> ConvertedView {
        ConvertedView {
            result: self.result,
            detected: self.detected,
            working_opaque: self.working_opaque,
            border_opaque: self.border_opaque,
            auto: self.auto,
            prep: self.prep@,
            derived_with: self.derived_with@,
            bow: self.bow,
            dropped: match self.dropped {
                Some((hex, pixels)) => Some((hex@, pixels)),
                None => None,
            },
            elapsed: self.elapsed,
        }
    }
}

/// A shown document drawn again.
#[derive(Debug)]
pub struct Derived {
    pub serial: u64,
    pub raw_version: u64,
    pub auto: bool,
    /// The tolerance it was simplified with and the document, or what went
    /// wrong.
    pub outcome: Result<(Option<Pick>, Shown), String>,
}

/// What a look at the settings came to.
#[derive(Clone, Copy, Debug, PartialEq, Eq, Structural)]
pub enum Tick {
    /// There is nothing to convert.
    Rest,
    /// Look again in so many milliseconds.
    Wait(u64),
    /// A conversion starts.
    Start,
}

/// Hundredths as a number with two decimals.
pub open spec fn two_decimals(n: int) -> Seq<char> {
    decimal((n / 100) as nat) + seq!['.', digit_char(n / 10 % 10), digit_char(n % 10)]
}

pub fn push_two_decimals(out: &mut String, n: u64)
    ensures
        final(out)@ == old(out)@ + two_decimals(n as int),
{
    push_decimal(out, n / 100);
    out.push('.');
    out.push(digit((n / 10 % 10) as u8));
    out.push(digit((n % 10) as u8));
    assert(out@ =~= old(out)@ + two_decimals(n as int));
}

/// What the status line says of a finished conversion.
pub open spec fn ready_text(c: ConvertedView) -> (StatusKind, Seq<char>) {
    match c.dropped {
        Some((hex, pixels)) => if pixels == 0 {
            (
                StatusKind::Info,
                "No pixel of "@ + hex + " could change; the vector is as it was."@,
            )
        } else {
            (
                StatusKind::Done,
                "Dropped "@ + hex + " ("@ + decimal(pixels as nat)
                    + " pixels changed). Vector ready in "@ + two_decimals(c.elapsed as int)
                    + " s."@,
            )
        },
        None => (
            StatusKind::Done,
            "Vector ready in "@ + two_decimals(c.elapsed as int) + " s."@,
        ),
    }
}

impl DesktopView {
    /// After the result was forgotten; the edits stay for the next one.
    pub open spec fn clear_result(self) -> DesktopView {
        DesktopView {
            result: None,
            versions: Versions {
                raw: after(self.versions.raw),
                document: after(self.versions.document),
                pending: None,
                auto_pending: false,
                ..self.versions
            },
            popups: PopupsView {
                save: false,
                stat: None,
                node_menu: None,
                shape_menu: None,
                ..self.popups
            },
            hand: HandView { selected: Seq::empty(), ..self.hand },
            ..self
        }
    }

    /// After the edits were forgotten too: a different image is coming.
    pub open spec fn clear_edits(self) -> DesktopView {
        DesktopView {
            hand: self.hand.cleared(),
            settings: self.settings.with_recolors(Seq::empty()),
            picture: PictureView {
                converted_prep: None,
                working: false,
                working_opaque: false,
                has_alpha: false,
                border_opaque: false,
                ..self.picture
            },
            ..self
        }
    }

    /// After a conversion started; nothing starts without a picture.
    pub open spec fn start(self) -> DesktopView {
        if self.picture.size is None {
            self
        } else {
            DesktopView {
                auto: AutoView {
                    converted: Some(self.conversion_inputs()),
                    changed: None,
                    held: None,
                    ..self.auto
                },
                work: Work { worker: true, ..self.work },
                replaced: match self.result {
                    Some(result) => Some(ReplacedView { result, inputs: self.auto.converted }),
                    None => None,
                },
                ..self.clear_result()
            }.with_status(StatusKind::Busy, "Creating vector curves…"@)
        }
    }

    /// After the result that a conversion replaced came back.
    pub open spec fn restore_replaced(self) -> DesktopView {
        match self.replaced {
            Some(r) => DesktopView {
                result: Some(r.result),
                versions: Versions {
                    document: after(self.versions.document),
                    ..self.versions
                },
                auto: AutoView { converted: r.inputs, ..self.auto },
                replaced: None,
                ..self
            },
            None => self,
        }
    }

    /// After the replaced result came back, drawn again with what changed
    /// meanwhile.
    pub open spec fn brought_back(self) -> (DesktopView, Option<DeriveRequest>) {
        if self.replaced is Some {
            self.restore_replaced().request_derive(false)
        } else {
            (self, None)
        }
    }

    /// After the running conversion was stopped.
    pub open spec fn stop_conversion(self) -> (DesktopView, Option<DeriveRequest>) {
        if !self.work.worker {
            (self, None)
        } else {
            DesktopView {
                work: Work { worker: false, stopping: true, ..self.work },
                versions: Versions { raw: after(self.versions.raw), ..self.versions },
                ..self
            }.brought_back()
        }
    }

    /// After the settings in force were put aside: they do not convert by
    /// themselves until they change.
    pub open spec fn hold(self) -> DesktopView {
        DesktopView {
            auto: AutoView { held: Some(self.conversion_inputs()), ..self.auto },
            ..self
        }
    }

    pub open spec fn unchanged(self) -> DesktopView {
        DesktopView { auto: AutoView { changed: None, ..self.auto }, ..self }
    }

    /// After Cancel.
    pub open spec fn cancel(self) -> (DesktopView, Option<DeriveRequest>) {
        if !self.work.worker {
            (self, None)
        } else {
            let (stopped, request) = self.stop_conversion();
            (
                stopped.hold().unchanged().with_status(
                    StatusKind::Info,
                    if self.replaced is Some {
                        "Conversion cancelled; the previous result is back."@
                    } else {
                        "Conversion cancelled. Convert starts it again."@
                    },
                ),
                request,
            )
        }
    }

    /// After the running conversion failed.
    pub open spec fn fail(self, error: Seq<char>) -> (DesktopView, Option<DeriveRequest>) {
        let (back, request) = (DesktopView {
            work: Work { worker: false, ..self.work },
            ..self
        }).brought_back();
        (back.hold().with_status(StatusKind::Error, error), request)
    }

    /// The settings after the running conversion brought `c`: a picked
    /// tolerance, unless the simplification was changed while it ran, the
    /// picture kind's bow, and what was recoloured.
    pub open spec fn taken_settings(self, c: ConvertedView) -> SettingsView {
        let kept = self.settings.simplify_settings() == c.derived_with.simplify;
        let curves = match c.auto {
            Some(pick) => if kept {
                Curves { simplify_tolerance: pick.shown, ..self.settings.curves }
            } else {
                self.settings.curves
            },
            None => self.settings.curves,
        };
        SettingsView {
            curves: if curves.straighten_auto {
                Curves { straighten_tolerance: c.bow, ..curves }
            } else {
                curves
            },
            pick: if c.auto is Some && kept {
                c.auto
            } else {
                self.settings.pick
            },
            prep: PreparationView { recolors: c.prep.recolors, ..self.settings.prep },
            ..self.settings
        }
    }

    /// After the running conversion brought `c`, before what changed
    /// meanwhile is drawn.
    pub open spec fn taken(self, c: ConvertedView) -> DesktopView {
        DesktopView {
            work: Work { worker: false, ..self.work },
            settings: self.taken_settings(c),
            picture: PictureView {
                detected: if c.detected is Some {
                    c.detected
                } else {
                    self.picture.detected
                },
                border_opaque: c.border_opaque,
                working_opaque: c.working_opaque,
                working: true,
                converted_prep: Some(c.prep),
                ..self.picture
            },
            auto: AutoView {
                converted: match self.auto.converted {
                    Some(inputs) => Some(
                        InputsView {
                            prep: PreparationView { recolors: c.prep.recolors, ..inputs.prep },
                            ..inputs
                        },
                    ),
                    None => None,
                },
                ..self.auto
            },
            result: Some(c.result),
            versions: Versions { document: after(self.versions.document), ..self.versions },
            replaced: None,
            ..self
        }.with_status(ready_text(c).0, ready_text(c).1)
    }

    /// What `c` was drawn with.
    pub open spec fn made_with(c: ConvertedView) -> DeriveView {
        match c.auto {
            Some(pick) => DeriveView {
                simplify: Some(Tolerance::Picked(pick.exact)),
                ..c.derived_with
            },
            None => c.derived_with,
        }
    }

    /// After the running conversion brought `c`.
    pub open spec fn accept(self, c: ConvertedView, start: u32) -> (
        DesktopView,
        Option<DeriveRequest>,
    ) {
        let kept = self.settings.simplify_settings() == c.derived_with.simplify;
        let made_with = Self::made_with(c);
        let taken = self.taken(c);
        let asked = if kept {
            DeriveView { simplify: made_with.simplify, ..taken.derive_settings(start) }
        } else {
            taken.derive_settings(start)
        };
        let (drawn, request) = if asked != made_with {
            taken.request_derive(false)
        } else {
            (taken, None)
        };
        (DesktopView { history: drawn.history.settled(drawn.edits()), ..drawn }, request)
    }

    /// After the shown document came drawn again. One of an earlier
    /// conversion is discarded; one that a later request has superseded still
    /// shows, but leaves the slider alone.
    pub open spec fn receive(
        self,
        serial: u64,
        raw_version: u64,
        auto: bool,
        outcome: Result<(Option<Pick>, Shown), Seq<char>>,
    ) -> DesktopView {
        let v = self.versions;
        if raw_version != v.raw {
            self
        } else {
            let current = v.pending is None || v.pending == Some(serial);
            let answered = Versions {
                pending: if v.pending == Some(serial) {
                    None
                } else {
                    v.pending
                },
                auto_pending: v.auto_pending && !auto,
                ..v
            };
            match outcome {
                Ok((tolerance, shown)) => DesktopView {
                    settings: if auto && current && tolerance is Some {
                        SettingsView {
                            curves: Curves {
                                simplify: true,
                                simplify_tolerance: tolerance->0.shown,
                                ..self.settings.curves
                            },
                            pick: tolerance,
                            ..self.settings
                        }
                    } else {
                        self.settings
                    },
                    result: Some(shown),
                    versions: Versions { document: after(v.document), ..answered },
                    ..self
                },
                Err(error) => (DesktopView { versions: answered, ..self }).with_status(
                    StatusKind::Error,
                    error,
                ),
            }
        }
    }

    /// The settings are those that Cancel stopped, or that failed.
    pub open spec fn held(self) -> bool {
        self.auto.held == Some(self.conversion_inputs())
    }

    /// What the next conversion would record: its preset, whether photo seams
    /// are hidden, and the optional pass.
    pub open spec fn pending_conversion(self) -> Option<(Manual, bool, bool)> {
        match (self.effective_category(), self.effective_quality()) {
            (Some(category), Some(quality)) => Some(
                (
                    Manual { category, quality },
                    self.settings.conversion.overlap_opaque_photos && category
                        == ImageCategory::Photograph && self.picture.working_opaque,
                    self.settings.conversion.optional_optimizer,
                ),
            ),
            _ => None,
        }
    }

    /// Another conversion would trace differently from the result shown.
    pub open spec fn conversion_stale(self) -> bool {
        match self.result {
            None => false,
            Some(shown) => self.picture.converted_prep != Some(self.settings.prep)
                || self.pending_conversion() != Some(
                (shown.traced.preset, shown.traced.photo_overlap, shown.traced.optional_optimizer),
            ),
        }
    }

    /// Another conversion would run other advanced settings than the result
    /// shown; `next` are those it would run, where that is known.
    pub open spec fn advanced_stale(self, next: Option<Option<Sliders>>) -> bool {
        match (self.result, next) {
            (Some(shown), Some(sliders)) => shown.traced.advanced != sliders,
            _ => false,
        }
    }

    /// Settings can be converted by themselves: switched on, with the picture
    /// on screen loaded.
    pub open spec fn ready(self) -> bool {
        self.auto.on && self.picture.size is Some && self.picture.path == self.picture.loaded_path
    }

    /// There is nothing to convert: not ready, never converted, converted as
    /// it is, or put aside.
    pub open spec fn resting(self) -> bool {
        !self.ready() || self.auto.converted is None || self.auto.converted == Some(
            self.conversion_inputs(),
        ) || self.held()
    }

    /// The changed settings as seen at `now`: since when they stand.
    pub open spec fn seen(self, now: u64) -> DesktopView {
        DesktopView {
            auto: AutoView {
                changed: Some(self.conversion_inputs()),
                since: if self.auto.changed == Some(self.conversion_inputs()) {
                    self.auto.since
                } else {
                    now
                },
                ..self.auto
            },
            ..self
        }
    }

    /// After a look at the settings at `now`, in milliseconds.
    pub open spec fn auto_convert_tick(
        self,
        now: u64,
        pointer_down: bool,
        next: Option<Option<Sliders>>,
    ) -> (DesktopView, Tick, Option<DeriveRequest>) {
        if self.resting() {
            (self.unchanged(), Tick::Rest, None)
        } else if !self.work.worker && self.result is Some && !self.conversion_stale()
            && !self.advanced_stale(next) {
            (
                DesktopView {
                    auto: AutoView {
                        converted: Some(self.conversion_inputs()),
                        changed: None,
                        ..self.auto
                    },
                    ..self
                },
                Tick::Rest,
                None,
            )
        } else {
            let seen = self.seen(now);
            let waited = rested(seen.auto.since, now);
            if pointer_down || waited < AUTO_CONVERT_DELAY {
                (seen, Tick::Wait(look_again(waited)), None)
            } else {
                let (stopped, request) = seen.stop_conversion();
                if !stopped.idle() {
                    (stopped, Tick::Wait(50), request)
                } else {
                    (
                        stopped.unchanged().start().with_status(
                            StatusKind::Busy,
                            "Settings changed; converting again…"@,
                        ),
                        Tick::Start,
                        request,
                    )
                }
            }
        }
    }
}

/// How long ago `since` was.
pub open spec fn rested(since: u64, now: u64) -> int {
    if now < since {
        0
    } else {
        now - since
    }
}

/// When to look again at settings that rested for `waited`.
pub open spec fn look_again(waited: int) -> u64 {
    (if waited + 30 < AUTO_CONVERT_DELAY {
        AUTO_CONVERT_DELAY - waited
    } else {
        30
    }) as u64
}

impl Desktop {
    /// Forgets the conversion result; the user's edits stay and apply to the
    /// next result.
    pub fn clear_result(&mut self)
        ensures
            final(self)@ == old(self)@.clear_result(),
    {
        let v = self.versions;
        self.result = None;
        self.versions = Versions {
            raw: count_up(v.raw),
            document: count_up(v.document),
            serial: v.serial,
            pending: None,
            auto_pending: false,
        };
        self.popups.save = false;
        self.popups.stat = None;
        self.popups.node_menu = None;
        self.popups.shape_menu = None;
        self.hand.deselect();
    }

    /// Forgets the edits too: a different image is coming.
    pub fn clear_edits(&mut self)
        ensures
            final(self)@ == old(self)@.clear_edits(),
    {
        self.hand.clear();
        self.settings.prep.recolors = Vec::new();
        assert(recolor_views(self.settings.prep.recolors@) =~= Seq::empty());
        self.picture.converted_prep = None;
        self.picture.working = false;
        self.picture.working_opaque = false;
        self.picture.has_alpha = false;
        self.picture.border_opaque = false;
    }

    /// Starts a conversion; whether there is a picture to convert. What was
    /// shown is kept, so that Cancel can put it back.
    pub fn start(&mut self) -> (started: bool)
        ensures
            final(self)@ == old(self)@.start(),
            started == (old(self)@.picture.size is Some),
    {
        if self.picture.size.is_none() {
            return false;
        }
        let inputs = self.conversion_inputs();
        let previous = self.auto.converted.take();
        self.auto.converted = Some(inputs);
        self.auto.changed = None;
        self.auto.held = None;
        self.work.worker = true;
        self.replaced = match self.result {
            Some(result) => Some(Replaced { result, inputs: previous }),
            None => None,
        };
        self.clear_result();
        self.set_status(StatusKind::Busy, "Creating vector curves…");
        true
    }

    /// Puts back the result a conversion replaced; whether there was one.
    pub fn restore_replaced(&mut self) -> (restored: bool)
        ensures
            final(self)@ == old(self)@.restore_replaced(),
            restored == (old(self)@.replaced is Some),
    {
        match self.replaced.take() {
            Some(r) => {
                self.result = Some(r.result);
                self.versions.document = count_up(self.versions.document);
                self.auto.converted = r.inputs;
                true
            },
            None => false,
        }
    }

    fn bring_back(&mut self) -> (request: Option<DeriveRequest>)
        ensures
            (final(self)@, request) == old(self)@.brought_back(),
    {
        if self.restore_replaced() {
            self.reapply()
        } else {
            None
        }
    }

    /// Stops the running conversion and puts back the result it replaced;
    /// until its thread has stopped, the window is not idle, so that two
    /// conversions never run at once.
    pub fn stop_conversion(&mut self) -> (request: Option<DeriveRequest>)
        ensures
            (final(self)@, request) == old(self)@.stop_conversion(),
    {
        if !self.work.worker {
            return None;
        }
        self.work.worker = false;
        self.work.stopping = true;
        self.versions.raw = count_up(self.versions.raw);
        self.bring_back()
    }

    fn hold(&mut self)
        ensures
            final(self)@ == old(self)@.hold(),
    {
        self.auto.held = Some(self.conversion_inputs());
    }

    /// Stops the running conversion: its result is dropped, the result it
    /// replaced comes back and the edits stay for the next. Converting by
    /// itself leaves the settings alone until they change.
    pub fn cancel(&mut self) -> (request: Option<DeriveRequest>)
        ensures
            (final(self)@, request) == old(self)@.cancel(),
    {
        if !self.work.worker {
            return None;
        }
        let restored = self.replaced.is_some();
        let request = self.stop_conversion();
        self.hold();
        self.auto.changed = None;
        self.set_status(
            StatusKind::Info,
            if restored {
                "Conversion cancelled; the previous result is back."
            } else {
                "Conversion cancelled. Convert starts it again."
            },
        );
        request
    }

    /// A cancelled conversion is gone once its thread answers or ends.
    pub fn stopped(&mut self)
        ensures
            final(self)@ == (DesktopView {
                work: Work { stopping: false, ..old(self)@.work },
                ..old(self)@
            }),
    {
        self.work.stopping = false;
    }

    /// Takes a conversion's failure: the result it replaced comes back, and
    /// the settings are not tried again by themselves until they change.
    pub fn fail(&mut self, error: &str) -> (request: Option<DeriveRequest>)
        ensures
            (final(self)@, request) == old(self)@.fail(error@),
    {
        self.work.worker = false;
        let request = self.bring_back();
        self.hold();
        self.set_status(StatusKind::Error, error);
        request
    }

    fn say_ready(&mut self, c: &Converted)
        ensures
            final(self)@ == old(self)@.with_status(ready_text(c@).0, ready_text(c@).1),
    {
        match &c.dropped {
            Some((hex, pixels)) => {
                if *pixels == 0 {
                    let mut text = "No pixel of ".to_owned();
                    text.append(hex.as_str());
                    text.append(" could change; the vector is as it was.");
                    self.set_status(StatusKind::Info, text.as_str());
                } else {
                    let mut text = "Dropped ".to_owned();
                    text.append(hex.as_str());
                    text.append(" (");
                    push_decimal(&mut text, *pixels);
                    text.append(" pixels changed). Vector ready in ");
                    push_two_decimals(&mut text, c.elapsed);
                    text.append(" s.");
                    self.set_status(StatusKind::Done, text.as_str());
                }
            },
            None => {
                let mut text = "Vector ready in ".to_owned();
                push_two_decimals(&mut text, c.elapsed);
                text.append(" s.");
                self.set_status(StatusKind::Done, text.as_str());
            },
        }
    }

    fn simplify_kept(&self, with: Option<Tolerance>) -> (kept: bool)
        ensures
            kept == (self@.settings.simplify_settings() == with),
    {
        match (self.settings.simplify_settings(), with) {
            (Some(a), Some(b)) => a == b,
            (None, None) => true,
            _ => false,
        }
    }

    fn take_settings(&mut self, c: &Converted)
        ensures
            final(self)@ == (DesktopView {
                settings: old(self)@.taken_settings(c@),
                ..old(self)@
            }),
    {
        let kept = self.simplify_kept(c.derived_with.simplify);
        if let Some(pick) = c.auto {
            if kept {
                self.settings.curves.simplify_tolerance = pick.shown;
                self.settings.pick = Some(pick);
            }
        }
        if self.settings.curves.straighten_auto {
            self.settings.curves.straighten_tolerance = c.bow;
        }
        self.settings.prep.recolors = copy_recolors(&c.prep.recolors);
    }

    fn take_recolors(&mut self, c: &Converted)
        ensures
            final(self)@ == (DesktopView {
                auto: AutoView {
                    converted: match old(self)@.auto.converted {
                        Some(inputs) => Some(
                            InputsView {
                                prep: PreparationView {
                                    recolors: c@.prep.recolors,
                                    ..inputs.prep
                                },
                                ..inputs
                            },
                        ),
                        None => None,
                    },
                    ..old(self)@.auto
                },
                ..old(self)@
            }),
    {
        if let Some(i) = self.auto.converted.take() {
            self.auto.converted = Some(
                Inputs {
                    prep: Preparation {
                        colors: i.prep.colors,
                        background: i.prep.background,
                        recolors: copy_recolors(&c.prep.recolors),
                    },
                    settings: i.settings,
                },
            );
        }
    }

    /// Takes a conversion's result. Changes made while it ran had no document
    /// to apply to and are drawn now; what it changed by itself is no step of
    /// Undo, a dropped colour is. `start` is where the simplification's
    /// slider starts.
    pub fn accept(&mut self, c: Converted, start: u32) -> (request: Option<DeriveRequest>)
        requires
            old(self)@.history.ok(),
        ensures
            (final(self)@, request) == old(self)@.accept(c@, start),
            final(self)@.history.ok(),
    {
        let ghost before = self@;
        let ghost view = c@;
        let kept = self.simplify_kept(c.derived_with.simplify);
        self.work.worker = false;
        self.take_settings(&c);
        self.take_recolors(&c);
        self.say_ready(&c);
        if c.detected.is_some() {
            self.picture.detected = c.detected;
        }
        self.picture.border_opaque = c.border_opaque;
        self.picture.working_opaque = c.working_opaque;
        self.picture.working = true;
        self.picture.converted_prep = Some(c.prep);
        self.result = Some(c.result);
        self.versions.document = count_up(self.versions.document);
        self.replaced = None;
        assert(self@ == before.taken(view));
        let mut made_with = c.derived_with;
        if let Some(pick) = c.auto {
            made_with.simplify = Some(Tolerance::Picked(pick.exact));
        }
        assert(made_with@ == DesktopView::made_with(view));
        self.draw_changes(made_with, kept, start)
    }

    /// Draws what changed while a conversion ran, and settles the edits.
    fn draw_changes(&mut self, made_with: Derive, kept: bool, start: u32) -> (request: Option<
        DeriveRequest,
    >)
        requires
            old(self)@.history.ok(),
        ensures
            ({
                let asked = if kept {
                    DeriveView {
                        simplify: made_with@.simplify,
                        ..old(self)@.derive_settings(start)
                    }
                } else {
                    old(self)@.derive_settings(start)
                };
                let (drawn, asked_for) = if asked != made_with@ {
                    old(self)@.request_derive(false)
                } else {
                    (old(self)@, None)
                };
                final(self)@ == (DesktopView {
                    history: drawn.history.settled(drawn.edits()),
                    ..drawn
                }) && request == asked_for
            }),
            final(self)@.history.ok(),
    {
        let mut asked = self.derive_settings(start);
        if kept {
            asked.simplify = made_with.simplify;
        }
        let request = if !asked.is_same(&made_with) {
            self.reapply()
        } else {
            None
        };
        let now = self.edits();
        self.history.settle_edits(&now);
        request
    }

    /// Takes the shown document drawn again.
    pub fn receive_derivation(&mut self, d: Derived)
        ensures
            final(self)@ == old(self)@.receive(
                d.serial,
                d.raw_version,
                d.auto,
                match d.outcome {
                    Ok(found) => Ok(found),
                    Err(error) => Err(error@),
                },
            ),
    {
        let v = self.versions;
        if d.raw_version != v.raw {
            return ;
        }
        let (current, mine) = match v.pending {
            Some(pending) => (pending == d.serial, pending == d.serial),
            None => (true, false),
        };
        let pending = if mine {
            None
        } else {
            v.pending
        };
        let auto_pending = v.auto_pending && !d.auto;
        match d.outcome {
            Ok((tolerance, shown)) => {
                self.versions = Versions {
                    raw: v.raw,
                    document: count_up(v.document),
                    serial: v.serial,
                    pending,
                    auto_pending,
                };
                if d.auto && current {
                    if let Some(pick) = tolerance {
                        self.settings.curves.simplify = true;
                        self.settings.curves.simplify_tolerance = pick.shown;
                        self.settings.pick = Some(pick);
                    }
                }
                self.result = Some(shown);
            },
            Err(error) => {
                self.versions = Versions {
                    raw: v.raw,
                    document: v.document,
                    serial: v.serial,
                    pending,
                    auto_pending,
                };
                self.set_status(StatusKind::Error, error.as_str());
            },
        }
    }

    /// Whether the settings are the ones a Cancel stopped, or a conversion
    /// failed with.
    pub fn held(&self) -> (yes: bool)
        ensures
            yes == self@.held(),
    {
        match &self.auto.held {
            Some(held) => held.is_same(&self.conversion_inputs()),
            None => false,
        }
    }

    /// What the next conversion would record: its preset, whether photo seams
    /// are hidden, and the optional pass. `None` while the automatic settings
    /// have not looked at the picture.
    pub fn pending_conversion(&self) -> (pending: Option<(Manual, bool, bool)>)
        ensures
            pending == self@.pending_conversion(),
    {
        match (self.effective_category(), self.effective_quality()) {
            (Some(category), Some(quality)) => Some(
                (
                    Manual { category, quality },
                    self.settings.conversion.overlap_opaque_photos && category
                        == ImageCategory::Photograph && self.picture.working_opaque,
                    self.settings.conversion.optional_optimizer,
                ),
            ),
            _ => None,
        }
    }

    /// Whether another Convert would trace differently from the result shown.
    pub fn conversion_stale(&self) -> (yes: bool)
        ensures
            yes == self@.conversion_stale(),
    {
        let shown: Shown = match self.result {
            Some(shown) => shown,
            None => {
                return false;
            },
        };
        let prepared = match &self.picture.converted_prep {
            Some(prep) => prep.is_same(&self.settings.prep),
            None => false,
        };
        let same = match self.pending_conversion() {
            Some((preset, overlap, optimizer)) => preset == shown.traced.preset && overlap
                == shown.traced.photo_overlap && optimizer == shown.traced.optional_optimizer,
            None => false,
        };
        !prepared || !same
    }

    /// Whether the next conversion would run other advanced settings than the
    /// result shown did. `next` are those settings, where they are known.
    pub fn advanced_stale(&self, next: Option<Option<Sliders>>) -> (yes: bool)
        ensures
            yes == self@.advanced_stale(next),
    {
        match (self.result, next) {
            (Some(shown), Some(sliders)) => match (shown.traced.advanced, sliders) {
                (Some(a), Some(b)) => a != b,
                (None, None) => false,
                _ => true,
            },
            _ => false,
        }
    }

    /// The line under a card whose settings the shown result was not made
    /// with.
    pub fn stale_hint(&self) -> (text: &'static str)
        ensures
            text@ == (if self@.auto.on && self@.auto.converted is Some && !self@.held() {
                "Converting again in a moment…"@
            } else {
                "Convert again to apply."@
            }),
    {
        if self.auto.on && self.auto.converted.is_some() && !self.held() {
            "Converting again in a moment…"
        } else {
            "Convert again to apply."
        }
    }

    fn resting(&self) -> (yes: bool)
        ensures
            yes == self@.resting(),
    {
        let ready = self.auto.on && self.picture.size.is_some() && self.picture.path
            == self.picture.loaded_path;
        let same = match &self.auto.converted {
            Some(started) => started.is_same(&self.conversion_inputs()),
            None => true,
        };
        !ready || same || self.held()
    }

    fn see(&mut self, now: u64)
        ensures
            final(self)@ == old(self)@.seen(now),
    {
        let inputs = self.conversion_inputs();
        let seen = match &self.auto.changed {
            Some(seen) => seen.is_same(&inputs),
            None => false,
        };
        if !seen {
            self.auto.since = now;
        }
        self.auto.changed = Some(inputs);
    }

    /// Converts again by itself once the conversion settings differ from
    /// those the shown or running conversion was started with and have rested
    /// with no pointer button down. A running conversion of settings that are
    /// gone is stopped first. Only after the picture has been converted once:
    /// opening a picture never converts. `now` is a clock's milliseconds.
    pub fn auto_convert_tick(
        &mut self,
        now: u64,
        pointer_down: bool,
        next: Option<Option<Sliders>>,
    ) -> (tick: (Tick, Option<DeriveRequest>))
        ensures
            (final(self)@, tick.0, tick.1) == old(self)@.auto_convert_tick(now, pointer_down, next),
    {
        if self.resting() {
            self.auto.changed = None;
            return (Tick::Rest, None);
        }
        if !self.work.worker && self.result.is_some() && !self.conversion_stale()
            && !self.advanced_stale(next) {
            self.auto.converted = Some(self.conversion_inputs());
            self.auto.changed = None;
            return (Tick::Rest, None);
        }
        self.see(now);
        let since: u64 = self.auto.since;
        let waited: u64 = if now < since {
            0
        } else {
            now - since
        };
        if pointer_down || waited < AUTO_CONVERT_DELAY {
            let wait: u64 = if waited < AUTO_CONVERT_DELAY - 30 {
                AUTO_CONVERT_DELAY - waited
            } else {
                30
            };
            return (Tick::Wait(wait), None);
        }
        let request = self.stop_conversion();
        if !self.idle() {
            return (Tick::Wait(50), request);
        }
        self.auto.changed = None;
        self.start();
        self.set_status(StatusKind::Busy, "Settings changed; converting again…");
        (Tick::Start, request)
    }
}

/// Cancel puts back what a conversion replaced: the result, and what it was
/// converted with. The edits stay, and the window is not idle until the
/// stopped conversion ends.
pub proof fn law_cancel_puts_the_result_back(s: DesktopView, shown: Shown)
    requires
        s.picture.size is Some,
        s.result == Some(shown),
    ensures
        s.start().result is None,
        s.start().cancel().0.result == Some(shown),
        s.start().cancel().0.auto.converted == s.auto.converted,
        s.start().cancel().0.edits() == s.edits(),
        !s.start().cancel().0.work.worker,
        !s.start().cancel().0.idle(),
{
}

/// Settings that were cancelled rest until they change: no conversion starts
/// by itself with them.
pub proof fn law_cancelled_settings_rest(
    s: DesktopView,
    now: u64,
    pointer_down: bool,
    next: Option<Option<Sliders>>,
)
    requires
        s.work.worker,
    ensures
        s.cancel().0.held(),
        s.cancel().0.auto_convert_tick(now, pointer_down, next).1 == Tick::Rest,
{
}

/// Opening a picture never converts it: nothing starts by itself before the
/// picture was converted once.
pub proof fn law_opening_never_converts(
    s: DesktopView,
    now: u64,
    pointer_down: bool,
    next: Option<Option<Sliders>>,
)
    requires
        s.auto.converted is None,
    ensures
        s.auto_convert_tick(now, pointer_down, next).1 == Tick::Rest,
        s.auto_convert_tick(now, pointer_down, next).0.work.worker == s.work.worker,
{
}

/// A conversion that starts by itself runs alone: nothing else was under way,
/// the settings differ from those converted, and they rested long enough with
/// the pointer up.
pub proof fn law_one_conversion_at_a_time(
    s: DesktopView,
    now: u64,
    pointer_down: bool,
    next: Option<Option<Sliders>>,
)
    requires
        s.auto_convert_tick(now, pointer_down, next).1 == Tick::Start,
    ensures
        s.idle(),
        !pointer_down,
        s.auto.converted != Some(s.conversion_inputs()),
        s.auto.changed == Some(s.conversion_inputs()),
        now - s.auto.since >= AUTO_CONVERT_DELAY,
        s.auto_convert_tick(now, pointer_down, next).0.auto.converted == Some(
            s.conversion_inputs(),
        ),
{
}

/// A picked tolerance that a later request has superseded leaves the slider
/// where the user moved it.
pub proof fn law_superseded_pick_leaves_the_slider(
    s: DesktopView,
    serial: u64,
    pick: Pick,
    shown: Shown,
)
    requires
        s.versions.pending is Some,
        s.versions.pending != Some(serial),
    ensures
        s.receive(serial, s.versions.raw, true, Ok((Some(pick), shown))).settings == s.settings,
        s.receive(serial, s.versions.raw, true, Ok((Some(pick), shown))).result == Some(shown),
        s.receive(serial, s.versions.raw, true, Ok((Some(pick), shown))).versions.pending
            == s.versions.pending,
{
}

/// A document drawn for an earlier conversion changes nothing: neither one
/// asked for before a conversion started, nor one asked for before Cancel.
pub proof fn law_late_documents_are_discarded(
    s: DesktopView,
    request: DeriveRequest,
    outcome: Result<(Option<Pick>, Shown), Seq<char>>,
)
    requires
        s.request_derive(request.auto).1 == Some(request),
        s.picture.size is Some,
    ensures
        s.start().receive(request.serial, request.raw_version, request.auto, outcome) == s.start(),
{
}

} // verus!
