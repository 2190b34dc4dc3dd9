//! The window's state made without a window: for a picture of it, drawn at
//! once with the settings asked for, and for a browser tab.
use crate::desktop::{
    AutoView, Bow, Conversion, Defaults, DeriveRequest, Desktop, DesktopView, SettingsView,
};
use crate::hand::{removal_views, HandView, Point, Removal, Rounded};
use crate::prefs::{lines_of, parse_prefs, switches_of, Switches};
use crate::reach::Reach;
use crate::settings::{Curves, Manual, Preparation, Sliders, Sticker};
use crate::shown;
use crate::window::{is_least, nearest_node, Window};
use vstd::prelude::*;

verus! {

/// The sticker of a picture of the window: none, one with the widths that the
/// picture gets, or this one.
#[derive(Clone, Copy, Debug, PartialEq, Eq, Structural)]
pub enum StickerChoice {
    Off,
    Sized,
    Custom(Sticker),
}

impl Default for StickerChoice {
    fn default() -> (choice: StickerChoice)
        ensures
            choice == StickerChoice::Off,
    {
        StickerChoice::Off
    }
}

/// An image type and quality chosen by hand.
#[derive(Clone, Copy, Debug, PartialEq, Eq, Structural)]
pub struct Chosen {
    pub manual: Manual,
    pub overlap_opaque_photos: bool,
}

/// What a picture of the window is asked to show.
#[derive(Debug)]
pub struct Snapshot {
    pub nodes: bool,
    pub prep: Preparation,
    /// Chosen by hand, or found by Auto settings.
    pub chosen: Option<Chosen>,
    pub optimizer: bool,
    /// The tolerance of the simplification, if there is one.
    pub simplify: Option<u32>,
    pub straighten: Option<Bow>,
    pub regularize: bool,
    pub primitives: bool,
    pub sliders: Option<Sliders>,
}

impl Snapshot {
    pub open spec fn conversion(self, defaults: Defaults) -> Conversion {
        let (manual, overlap) = match self.chosen {
            Some(c) => (c.manual, c.overlap_opaque_photos),
            None => (defaults.chosen, defaults.overlap_opaque_photos),
        };
        Conversion {
            automatic: self.chosen is None,
            category: manual.category,
            quality: manual.quality,
            overlap_opaque_photos: overlap,
            optional_optimizer: self.optimizer,
            advanced_on: self.sliders is Some,
            sliders: match self.sliders {
                Some(s) => s,
                None => defaults.sliders,
            },
        }
    }

    pub open spec fn curves(self, defaults: Defaults) -> Curves {
        let (bow, auto) = match self.straighten {
            Some(Bow::Pixels(bow)) => (bow, false),
            _ => (defaults.bow, true),
        };
        Curves {
            simplify: self.simplify is Some,
            simplify_tolerance: match self.simplify {
                Some(tolerance) => tolerance,
                None => defaults.tolerance,
            },
            regularize: self.regularize,
            primitives: self.primitives,
            straighten: self.straighten is Some,
            straighten_tolerance: bow,
            straighten_auto: auto,
        }
    }
}

impl DesktopView {
    pub open spec fn with_sticker(self, sticker: Sticker) -> DesktopView {
        DesktopView { settings: SettingsView { sticker, ..self.settings }, ..self }
    }

    /// After the node at `at` was rounded whatever was rounded before, and the
    /// document drawn again.
    pub open spec fn round_now(self, at: Point, reach: Reach) -> (
        DesktopView,
        Option<DeriveRequest>,
    ) {
        self.edited(
            HandView { rounded: self.hand.rounded.push(Rounded { at, reach }), ..self.hand },
            true,
        )
    }

    /// After the node at `at` was deleted, and the document drawn again.
    pub open spec fn delete_now(self, at: Point) -> (DesktopView, Option<DeriveRequest>) {
        self.edited(
            HandView { deleted_nodes: self.hand.deleted_nodes.push(at), ..self.hand },
            true,
        )
    }
}

impl Desktop {
    /// The state a picture of the window starts from: both pictures side by
    /// side, with the settings asked for.
    pub fn snapshot_state(defaults: Defaults, snapshot: Snapshot) -> (made: (Desktop, Window))
        ensures
            made.0@ == (DesktopView {
                settings: SettingsView {
                    conversion: snapshot.conversion(defaults),
                    prep: snapshot.prep@,
                    curves: snapshot.curves(defaults),
                    pick: None,
                    sticker: defaults.sticker,
                },
                ..DesktopView::fresh(defaults)
            }),
            made.0@.history.ok(),
            made.1 == (Window {
                view: shown::View::SideBySide,
                overlay_vector: true,
                hold: false,
                peek: None,
                peek_button: None,
                nodes: snapshot.nodes,
                shapes_mode: false,
                delete_on_click: false,
                engine_input: false,
            }),
    {
        let mut app = Desktop::new(defaults);
        let mut window = Window::new();
        window.view = shown::View::SideBySide;
        window.nodes = snapshot.nodes;
        app.settings.prep = snapshot.prep;
        app.settings.curves.regularize = snapshot.regularize;
        app.settings.curves.primitives = snapshot.primitives;
        if let Some(sliders) = snapshot.sliders {
            app.settings.conversion.advanced_on = true;
            app.settings.conversion.sliders = sliders;
        }
        app.settings.curves.straighten = snapshot.straighten.is_some();
        if let Some(Bow::Pixels(bow)) = snapshot.straighten {
            app.settings.curves.straighten_tolerance = bow;
            app.settings.curves.straighten_auto = false;
        }
        app.settings.curves.simplify = snapshot.simplify.is_some();
        if let Some(tolerance) = snapshot.simplify {
            app.settings.curves.simplify_tolerance = tolerance;
        }
        if let Some(c) = snapshot.chosen {
            app.settings.conversion.category = c.manual.category;
            app.settings.conversion.quality = c.manual.quality;
            app.settings.conversion.overlap_opaque_photos = c.overlap_opaque_photos;
            app.settings.conversion.automatic = false;
        }
        app.settings.conversion.optional_optimizer = snapshot.optimizer;
        (app, window)
    }

    /// Takes the sticker asked for once the picture is loaded, so that widths
    /// asked for win over the picture's own.
    pub fn choose_sticker(&mut self, choice: StickerChoice)
        ensures
            final(self)@ == (match choice {
                StickerChoice::Off => old(self)@,
                StickerChoice::Sized => old(self)@.with_sticker(
                    Sticker { on: true, ..old(self)@.settings.sticker },
                ),
                StickerChoice::Custom(sticker) => old(self)@.with_sticker(
                    Sticker { on: true, ..sticker },
                ),
            }),
    {
        match choice {
            StickerChoice::Off => {},
            StickerChoice::Sized => {
                self.settings.sticker.on = true;
            },
            StickerChoice::Custom(sticker) => {
                self.settings.sticker = sticker;
                self.settings.sticker.on = true;
            },
        }
    }

    /// Rounds the node nearest a point; `distances` are those of the traced
    /// document's nodes, as the bits of numbers that are not negative.
    pub fn round_nearest_now(&mut self, nodes: &Vec<Point>, distances: &Vec<u64>, reach: Reach) -> (
    rounded: Result<Option<DeriveRequest>, &'static str>)
        requires
            nodes@.len() == distances@.len(),
        ensures
            match rounded {
                Ok(request) => {
                    &&& old(self)@.result is Some
                    &&& exists|at: int| #[trigger]
                        is_least(distances@, at) && (final(self)@, request)
                            == old(self)@.round_now(nodes@[at], reach)
                },
                Err(error) => {
                    &&& final(self)@ == old(self)@
                    &&& if old(self)@.result is Some {
                        nodes@.len() == 0 && error@ == "The document has no nodes"@
                    } else {
                        error@ == "Convert an image before rounding a node"@
                    }
                },
            },
    {
        match nearest_node(self.result.is_some(), distances) {
            Ok(at) => {
                self.hand.rounded.push(Rounded { at: nodes[at], reach });
                assert(is_least(distances@, at as int));
                Ok(self.reapply())
            },
            Err(error) => Err(error),
        }
    }

    /// Deletes the node nearest a point of the shown document's. For each node
    /// `refusals` has the reason why it cannot be deleted, if there is one,
    /// and `places` where it is, in words.
    pub fn delete_nearest_now(
        &mut self,
        nodes: &Vec<Point>,
        distances: &Vec<u64>,
        refusals: &Vec<Option<String>>,
        places: &Vec<String>,
    ) -> (deleted: Result<Option<DeriveRequest>, String>)
        requires
            nodes@.len() == distances@.len(),
            nodes@.len() == refusals@.len(),
            nodes@.len() == places@.len(),
        ensures
            match deleted {
                Ok(request) => {
                    &&& old(self)@.result is Some
                    &&& exists|at: int| #[trigger]
                        is_least(distances@, at) && refusals@[at] is None && (
                            final(self)@,
                            request,
                        ) == old(self)@.delete_now(nodes@[at])
                },
                Err(error) => {
                    &&& final(self)@ == old(self)@
                    &&& if old(self)@.result is None {
                        error@ == "Convert an image before deleting a node"@
                    } else if nodes@.len() == 0 {
                        error@ == "The document has no nodes"@
                    } else {
                        exists|at: int| #[trigger]
                            is_least(distances@, at) && refusals@[at] is Some && error@
                                == "The node at "@ + places@[at]@ + " cannot be deleted: "@
                                + refusals@[at]->0@
                    }
                },
            },
    {
        if self.result.is_none() {
            return Err("Convert an image before deleting a node".to_owned());
        }
        match nearest_node(true, distances) {
            Ok(at) => {
                assert(is_least(distances@, at as int));
                match &refusals[at] {
                    Some(reason) => {
                        let mut text = "The node at ".to_owned();
                        text.append(places[at].as_str());
                        text.append(" cannot be deleted: ");
                        text.append(reason.as_str());
                        Err(text)
                    },
                    None => {
                        self.hand.deleted_nodes.push(nodes[at]);
                        Ok(self.reapply())
                    },
                }
            },
            Err(error) => Err(error.to_owned()),
        }
    }

    /// Cuts the background shapes out; how many there were.
    pub fn cut_background_now(&mut self, removals: Vec<Removal>) -> (cut: Result<
        (usize, Option<DeriveRequest>),
        &'static str,
    >)
        ensures
            ({
                let shapes = removal_views(removals@);
                let o = old(self)@;
                if !o.picture.working || !o.picture.border_opaque || shapes.len() == 0 {
                    &&& final(self)@ == o
                    &&& cut matches Err(error) && error@
                        == "No background shape touches the edge of the picture"@
                } else {
                    &&& cut matches Ok((count, request)) && count == shapes.len() && (
                        final(self)@,
                        request,
                    ) == o.edited(HandView { deleted: o.hand.deleted + shapes, ..o.hand }, true)
                }
            }),
    {
        let count: usize = removals.len();
        if !self.picture.working || !self.picture.border_opaque || count == 0 {
            return Err("No background shape touches the edge of the picture");
        }
        let ghost gone = removal_views(self.hand.deleted@);
        let mut list = removals;
        self.hand.deleted.append(&mut list);
        assert(removal_views(self.hand.deleted@) =~= gone + removal_views(removals@));
        Ok((count, self.reapply()))
    }

    /// The window in a browser tab, with the preferences that the page kept.
    pub fn in_browser(defaults: Defaults, prefs: &str) -> (made: (Desktop, Window, Switches))
        ensures
            made.2 == switches_of(
                lines_of(prefs@),
                Switches { hold: false, auto: true, stacked: true },
            ),
            made.0@ == (DesktopView {
                auto: AutoView { on: made.2.auto, ..DesktopView::fresh(defaults).auto },
                ..DesktopView::fresh(defaults)
            }),
            made.0@.history.ok(),
            made.1 == (Window {
                view: shown::View::Overlay,
                overlay_vector: true,
                hold: made.2.hold,
                peek: None,
                peek_button: None,
                nodes: true,
                shapes_mode: false,
                delete_on_click: false,
                engine_input: false,
            }),
    {
        let switches = parse_prefs(prefs, Switches { hold: false, auto: true, stacked: true });
        let mut app = Desktop::new(defaults);
        app.auto.on = switches.auto;
        let mut window = Window::new();
        window.hold = switches.hold;
        (app, window, switches)
    }

    /// The drawing as it is saved, once nothing is left running for it:
    /// `pending` says that work waits for the next frame, `drawn` is what
    /// saving would write.
    pub fn settled_svg(&self, pending: bool, drawn: Option<Result<String, String>>) -> (svg: Option<
        String,
    >)
        ensures
            svg == (if !self@.idle() || self@.versions.pending is Some || pending {
                None
            } else {
                match drawn {
                    Some(Ok(text)) => Some(text),
                    _ => None,
                }
            }),
    {
        if !self.idle() || self.versions.pending.is_some() || pending {
            return None;
        }
        match drawn {
            Some(Ok(text)) => Some(text),
            _ => None,
        }
    }
}

/// Cutting the background out for a picture of the window draws what cutting
/// it out in the window draws.
pub proof fn law_the_cut_is_the_same_without_a_window(
    s: DesktopView,
    shapes: Seq<crate::hand::RemovalView>,
    start: u32,
)
    requires
        s.picture.working,
        s.picture.border_opaque,
        shapes.len() > 0,
    ensures
        s.edited(
            HandView { deleted: s.hand.deleted + shapes, ..s.hand },
            true,
        ).0.derive_settings(start) == s.cut_background(shapes).0.derive_settings(start),
{
}

} // verus!
