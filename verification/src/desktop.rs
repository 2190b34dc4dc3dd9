//! The window's state: the picture, what was traced from it, the settings and
//! edits in force, and what is under way.
pub mod canvas;
pub mod convert;
pub mod deeds;
pub mod files;
pub mod frame;
pub mod panels;
pub mod shapes;
pub mod snapshot;
pub mod undo;

use crate::hand::{removal_views, Hand, HandView, NodeMove, Point, Removal, RemovalView, Rounded};
use crate::history::{History, HistoryView};
use crate::picture::{ImageCategory, Quality};
use crate::settings::{
    copied, copy_removals, ConversionSettings, Curves, Edits, EditsView, Inputs, InputsView,
    Manual, Preparation, PreparationView, RecolorView, Sliders, Sticker,
};
use vstd::prelude::*;

verus! {

/// What the status line is about.
#[derive(Clone, Copy, Debug, PartialEq, Eq, Structural)]
pub enum StatusKind {
    Info,
    Busy,
    Done,
    Error,
}

/// Which footer stat has its popup open.
#[derive(Clone, Copy, Debug, PartialEq, Eq, Structural)]
pub enum StatPopup {
    Size,
    Colors,
}

/// The conversion's settings as the cards hold them.
#[derive(Clone, Copy, Debug, PartialEq, Eq, Structural)]
pub struct Conversion {
    pub automatic: bool,
    pub category: ImageCategory,
    pub quality: Quality,
    pub overlap_opaque_photos: bool,
    pub optional_optimizer: bool,
    pub advanced_on: bool,
    pub sliders: Sliders,
}

/// What a result was traced with, as its document records it.
#[derive(Clone, Copy, Debug, PartialEq, Eq, Structural)]
pub struct Traced {
    pub preset: Manual,
    pub photo_overlap: bool,
    pub optional_optimizer: bool,
    /// Whether the optional pass's step stands.
    pub optimizer_kept: bool,
    /// Whether the optional pass came to a result at all.
    pub optimizer_ran: bool,
    /// The advanced settings it ran with, as sliders.
    pub advanced: Option<Sliders>,
}

/// How much a result holds: as traced, and as shown.
#[derive(Clone, Copy, Debug, PartialEq, Eq, Structural)]
pub struct Counts {
    pub raw_nodes: usize,
    pub nodes: usize,
    pub raw_segments: usize,
    pub segments: usize,
    pub colors: usize,
}

/// A result on screen: the numbers of the traced document and of the one
/// drawn from it, and what is known of them.
#[derive(Clone, Copy, Debug, PartialEq, Eq, Structural)]
pub struct Shown {
    pub raw: u64,
    pub drawn: u64,
    pub traced: Traced,
    pub counts: Counts,
}

/// A tolerance that the app picked: exactly, and as the slider holds it.
#[derive(Clone, Copy, Debug, PartialEq, Eq, Structural)]
pub struct Pick {
    pub exact: u64,
    pub shown: u32,
}

/// The result a conversion replaces, and what it was converted with.
#[derive(Debug)]
pub struct Replaced {
    pub result: Shown,
    pub inputs: Option<Inputs>,
}

pub struct ReplacedView {
    pub result: Shown,
    pub inputs: Option<InputsView>,
}

/// A request to draw the shown document again: its number, the conversion it
/// belongs to, and whether the tolerance is to be picked too.
#[derive(Clone, Copy, Debug, PartialEq, Eq, Structural)]
pub struct DeriveRequest {
    pub serial: u64,
    pub raw_version: u64,
    pub auto: bool,
}

/// The open picture, and the image the engine saw of it.
#[derive(Debug)]
pub struct Picture {
    pub path: String,
    pub loaded_path: String,
    /// The size of the open picture.
    pub size: Option<(usize, usize)>,
    /// What the automatic settings found in it.
    pub detected: Option<Manual>,
    pub has_alpha: bool,
    /// Whether there is an image the engine saw, and whether it is opaque all
    /// over and along its border.
    pub working: bool,
    pub working_opaque: bool,
    pub border_opaque: bool,
    /// The preparation the current result was made with.
    pub converted_prep: Option<Preparation>,
}

pub struct PictureView {
    pub path: Seq<char>,
    pub loaded_path: Seq<char>,
    pub size: Option<(usize, usize)>,
    pub detected: Option<Manual>,
    pub has_alpha: bool,
    pub working: bool,
    pub working_opaque: bool,
    pub border_opaque: bool,
    pub converted_prep: Option<PreparationView>,
}

/// The settings in force.
#[derive(Debug)]
pub struct Settings {
    pub conversion: Conversion,
    pub prep: Preparation,
    pub curves: Curves,
    /// The tolerance picked last.
    pub pick: Option<Pick>,
    pub sticker: Sticker,
}

pub struct SettingsView {
    pub conversion: Conversion,
    pub prep: PreparationView,
    pub curves: Curves,
    pub pick: Option<Pick>,
    pub sticker: Sticker,
}

/// Converting again by itself.
#[derive(Debug)]
pub struct Auto {
    /// Switched on.
    pub on: bool,
    /// What the shown or running conversion was started with.
    pub converted: Option<Inputs>,
    /// Settings that differ from those, and since when they stand.
    pub changed: Option<Inputs>,
    pub since: u64,
    /// The settings of a conversion that was cancelled or failed.
    pub held: Option<Inputs>,
}

pub struct AutoView {
    pub on: bool,
    pub converted: Option<InputsView>,
    pub changed: Option<InputsView>,
    pub since: u64,
    pub held: Option<InputsView>,
}

/// What the toolbar waits for: a conversion, one that was cancelled and has
/// not ended, a dialog or a file being written.
#[derive(Clone, Copy, Debug, PartialEq, Eq, Structural)]
pub struct Work {
    pub worker: bool,
    pub stopping: bool,
    pub errand: bool,
}

/// The numbers that tell late answers apart.
#[derive(Clone, Copy, Debug, PartialEq, Eq, Structural)]
pub struct Versions {
    /// Counted up per conversion or close, so late documents are discarded.
    pub raw: u64,
    /// Counted up whenever the shown document changes.
    pub document: u64,
    /// The requests so far.
    pub serial: u64,
    /// The latest request not yet answered.
    pub pending: Option<u64>,
    /// It picks the tolerance too.
    pub auto_pending: bool,
}

/// The status line.
#[derive(Debug)]
pub struct Status {
    pub text: String,
    pub kind: StatusKind,
}

pub struct StatusView {
    pub text: Seq<char>,
    pub kind: StatusKind,
}

/// What is open over the workspace.
#[derive(Debug)]
pub struct Popups {
    pub save: bool,
    pub stat: Option<StatPopup>,
    pub node_menu: Option<Point>,
    pub shape_menu: Option<Removal>,
    /// The node being dragged.
    pub node_drag: Option<Point>,
}

pub struct PopupsView {
    pub save: bool,
    pub stat: Option<StatPopup>,
    pub node_menu: Option<Point>,
    pub shape_menu: Option<RemovalView>,
    pub node_drag: Option<Point>,
}

/// The window's state.
#[derive(Debug)]
pub struct Desktop {
    pub picture: Picture,
    pub settings: Settings,
    pub hand: Hand,
    pub history: History,
    pub auto: Auto,
    pub work: Work,
    pub result: Option<Shown>,
    /// The result a running conversion replaces.
    pub replaced: Option<Replaced>,
    pub versions: Versions,
    pub status: Status,
    pub popups: Popups,
}

pub struct DesktopView {
    pub picture: PictureView,
    pub settings: SettingsView,
    pub hand: HandView,
    pub history: HistoryView,
    pub auto: AutoView,
    pub work: Work,
    pub result: Option<Shown>,
    pub replaced: Option<ReplacedView>,
    pub versions: Versions,
    pub status: StatusView,
    pub popups: PopupsView,
}

pub open spec fn inputs_view(inputs: Option<Inputs>) -> Option<InputsView> {
    match inputs {
        Some(i) => Some(i@),
        None => None,
    }
}

pub open spec fn prep_view(prep: Option<Preparation>) -> Option<PreparationView> {
    match prep {
        Some(p) => Some(p@),
        None => None,
    }
}

pub open spec fn replaced_view(replaced: Option<Replaced>) -> Option<ReplacedView> {
    match replaced {
        Some(r) => Some(ReplacedView { result: r.result, inputs: inputs_view(r.inputs) }),
        None => None,
    }
}

pub open spec fn menu_view(menu: Option<Removal>) -> Option<RemovalView> {
    match menu {
        Some(m) => Some(m@),
        None => None,
    }
}

impl View for Picture {
    type V = PictureView;

    open spec fn view(&self) -> PictureView {
        PictureView {
            path: self.path@,
            loaded_path: self.loaded_path@,
            size: self.size,
            detected: self.detected,
            has_alpha: self.has_alpha,
            working: self.working,
            working_opaque: self.working_opaque,
            border_opaque: self.border_opaque,
            converted_prep: prep_view(self.converted_prep),
        }
    }
}

impl View for Settings {
    type V = SettingsView;

    open spec fn view(&self) -> SettingsView {
        SettingsView {
            conversion: self.conversion,
            prep: self.prep@,
            curves: self.curves,
            pick: self.pick,
            sticker: self.sticker,
        }
    }
}

impl View for Auto {
    type V = AutoView;

    open spec fn view(&self) -> AutoView {
        AutoView {
            on: self.on,
            converted: inputs_view(self.converted),
            changed: inputs_view(self.changed),
            since: self.since,
            held: inputs_view(self.held),
        }
    }
}

impl View for Status {
    type V = StatusView;

    open spec fn view(&self) -> StatusView {
        StatusView { text: self.text@, kind: self.kind }
    }
}

impl View for Popups {
    type V = PopupsView;

    open spec fn view(&self) -> PopupsView {
        PopupsView {
            save: self.save,
            stat: self.stat,
            node_menu: self.node_menu,
            shape_menu: menu_view(self.shape_menu),
            node_drag: self.node_drag,
        }
    }
}

impl View for Desktop {
    type V = DesktopView;

    open spec fn view(&self) -> DesktopView {
        DesktopView {
            picture: self.picture@,
            settings: self.settings@,
            hand: self.hand@,
            history: self.history@,
            auto: self.auto@,
            work: self.work,
            result: self.result,
            replaced: replaced_view(self.replaced),
            versions: self.versions,
            status: self.status@,
            popups: self.popups@,
        }
    }
}

/// The number after `n`, from the start again past the last.
pub open spec fn after(n: u64) -> u64 {
    if n == u64::MAX {
        0
    } else {
        (n + 1) as u64
    }
}

pub fn count_up(n: u64) -> (next: u64)
    ensures
        next == after(n),
{
    if n == u64::MAX {
        0
    } else {
        n + 1
    }
}

/// The tolerance that simplification runs with: one picked, exactly, or the
/// slider's.
#[derive(Clone, Copy, Debug, PartialEq, Eq, Structural)]
pub enum Tolerance {
    Picked(u64),
    Slider(u32),
}

/// How far a curve may bow and be drawn as a line.
#[derive(Clone, Copy, Debug, PartialEq, Eq, Structural)]
pub enum Bow {
    /// The picture kind's own.
    Auto,
    Pixels(u32),
}

/// What the shown document is drawn with from the traced one.
pub struct DeriveView {
    pub simplify: Option<Tolerance>,
    /// The tolerance is the slider's, not a pick's.
    pub simplify_by_hand: bool,
    pub deleted: Seq<RemovalView>,
    pub regularize: bool,
    pub primitives: bool,
    pub straighten: Option<Bow>,
    pub straightened: Seq<Point>,
    pub moved: Seq<NodeMove>,
    pub deleted_nodes: Seq<Point>,
    pub rounded: Seq<Rounded>,
    pub sticker: Option<Sticker>,
}

impl DesktopView {
    /// Nothing the toolbar waits for: no conversion, no dialog and no file
    /// being written.
    pub open spec fn idle(self) -> bool {
        !self.work.worker && !self.work.errand && !self.work.stopping
    }

    pub open spec fn with_status(self, kind: StatusKind, text: Seq<char>) -> DesktopView {
        DesktopView { status: StatusView { kind, text }, ..self }
    }

    pub open spec fn conversion_inputs(self) -> InputsView {
        InputsView { prep: self.settings.prep, settings: self.settings.conversion_settings() }
    }

    /// The edits as they stand.
    pub open spec fn edits(self) -> EditsView {
        EditsView {
            rounded: self.hand.rounded,
            straightened: self.hand.straightened,
            moved: self.hand.moved,
            deleted_nodes: self.hand.deleted_nodes,
            deleted: self.hand.deleted,
            prep: self.settings.prep,
            conversion: self.settings.conversion_settings(),
            curves: self.settings.curves,
            sticker: self.settings.sticker,
        }
    }

    /// What the shown document is drawn with now. `start` is where the
    /// simplification's slider starts.
    pub open spec fn derive_settings(self, start: u32) -> DeriveView {
        let c = self.settings.curves;
        DeriveView {
            simplify: self.settings.simplify_settings(),
            simplify_by_hand: c.simplify_tolerance != (match self.settings.pick {
                Some(pick) => pick.shown,
                None => start,
            }),
            deleted: self.hand.deleted,
            regularize: c.regularize,
            primitives: c.primitives,
            straighten: if !c.straighten {
                None
            } else if c.straighten_auto {
                Some(Bow::Auto)
            } else {
                Some(Bow::Pixels(c.straighten_tolerance))
            },
            straightened: self.hand.straightened,
            moved: self.hand.moved,
            deleted_nodes: self.hand.deleted_nodes,
            rounded: self.hand.rounded,
            sticker: if self.settings.sticker.on && self.settings.sticker.drawable {
                Some(self.settings.sticker)
            } else {
                None
            },
        }
    }

    /// The type the next conversion traces the picture as: the one found, or
    /// the one chosen.
    pub open spec fn effective_category(self) -> Option<ImageCategory> {
        if self.settings.conversion.automatic {
            match self.picture.detected {
                Some(d) => Some(d.category),
                None => None,
            }
        } else {
            Some(self.settings.conversion.category)
        }
    }

    pub open spec fn effective_quality(self) -> Option<Quality> {
        if self.settings.conversion.automatic {
            match self.picture.detected {
                Some(d) => Some(d.quality),
                None => None,
            }
        } else {
            Some(self.settings.conversion.quality)
        }
    }

    /// After the shown document was asked for again: nothing is asked while
    /// there is no result.
    pub open spec fn request_derive(self, auto: bool) -> (DesktopView, Option<DeriveRequest>) {
        if self.result is None {
            (self, None)
        } else {
            let serial = after(self.versions.serial);
            (
                DesktopView {
                    versions: Versions {
                        serial,
                        pending: Some(serial),
                        auto_pending: auto,
                        ..self.versions
                    },
                    ..self
                },
                Some(DeriveRequest { serial, raw_version: self.versions.raw, auto }),
            )
        }
    }

    pub open spec fn with_hand(self, hand: HandView) -> DesktopView {
        DesktopView { hand, ..self }
    }
}

impl SettingsView {
    /// The settings as a conversion takes them.
    pub open spec fn conversion_settings(self) -> ConversionSettings {
        let c = self.conversion;
        ConversionSettings {
            automatic: c.automatic,
            manual: if c.automatic {
                None
            } else {
                Some(Manual { category: c.category, quality: c.quality })
            },
            overlap_opaque_photos: c.overlap_opaque_photos,
            optional_optimizer: c.optional_optimizer,
            sliders: if c.advanced_on {
                Some(c.sliders)
            } else {
                None
            },
        }
    }

    /// The tolerance in force: the pick while the slider still shows it.
    pub open spec fn simplify_settings(self) -> Option<Tolerance> {
        if !self.curves.simplify {
            None
        } else {
            match self.pick {
                Some(pick) => if pick.shown == self.curves.simplify_tolerance {
                    Some(Tolerance::Picked(pick.exact))
                } else {
                    Some(Tolerance::Slider(self.curves.simplify_tolerance))
                },
                None => Some(Tolerance::Slider(self.curves.simplify_tolerance)),
            }
        }
    }

    pub open spec fn with_recolors(self, recolors: Seq<RecolorView>) -> SettingsView {
        SettingsView { prep: PreparationView { recolors, ..self.prep }, ..self }
    }
}

impl Settings {
    /// The settings as a conversion takes them.
    pub fn conversion_settings(&self) -> (settings: ConversionSettings)
        ensures
            settings == self@.conversion_settings(),
    {
        let c = self.conversion;
        ConversionSettings {
            automatic: c.automatic,
            manual: if c.automatic {
                None
            } else {
                Some(Manual { category: c.category, quality: c.quality })
            },
            overlap_opaque_photos: c.overlap_opaque_photos,
            optional_optimizer: c.optional_optimizer,
            sliders: if c.advanced_on {
                Some(c.sliders)
            } else {
                None
            },
        }
    }

    /// The tolerance in force: the pick while the slider still shows it.
    pub fn simplify_settings(&self) -> (tolerance: Option<Tolerance>)
        ensures
            tolerance == self@.simplify_settings(),
    {
        if !self.curves.simplify {
            return None;
        }
        match self.pick {
            Some(pick) => if pick.shown == self.curves.simplify_tolerance {
                Some(Tolerance::Picked(pick.exact))
            } else {
                Some(Tolerance::Slider(self.curves.simplify_tolerance))
            },
            None => Some(Tolerance::Slider(self.curves.simplify_tolerance)),
        }
    }
}

/// What the shown document is drawn with from the traced one.
#[derive(Debug)]
pub struct Derive {
    pub simplify: Option<Tolerance>,
    pub simplify_by_hand: bool,
    pub deleted: Vec<Removal>,
    pub regularize: bool,
    pub primitives: bool,
    pub straighten: Option<Bow>,
    pub straightened: Vec<Point>,
    pub moved: Vec<NodeMove>,
    pub deleted_nodes: Vec<Point>,
    pub rounded: Vec<Rounded>,
    pub sticker: Option<Sticker>,
}

impl View for Derive {
    type V = DeriveView;

    open spec fn view(&self) -> DeriveView {
        DeriveView {
            simplify: self.simplify,
            simplify_by_hand: self.simplify_by_hand,
            deleted: removal_views(self.deleted@),
            regularize: self.regularize,
            primitives: self.primitives,
            straighten: self.straighten,
            straightened: self.straightened@,
            moved: self.moved@,
            deleted_nodes: self.deleted_nodes@,
            rounded: self.rounded@,
            sticker: self.sticker,
        }
    }
}

impl Derive {
    /// Whether two documents would be drawn the same.
    pub fn is_same(&self, other: &Derive) -> (same: bool)
        ensures
            same == (self@ == other@),
    {
        let simplify = match (self.simplify, other.simplify) {
            (Some(a), Some(b)) => a == b,
            (None, None) => true,
            _ => false,
        };
        let straighten = match (self.straighten, other.straighten) {
            (Some(a), Some(b)) => a == b,
            (None, None) => true,
            _ => false,
        };
        let sticker = match (self.sticker, other.sticker) {
            (Some(a), Some(b)) => a == b,
            (None, None) => true,
            _ => false,
        };
        simplify && straighten && sticker && self.simplify_by_hand == other.simplify_by_hand
            && self.regularize == other.regularize && self.primitives == other.primitives
            && crate::settings::same_removals(&self.deleted, &other.deleted)
            && crate::settings::same_points(&self.straightened, &other.straightened)
            && crate::settings::same_moves(&self.moved, &other.moved)
            && crate::settings::same_points(&self.deleted_nodes, &other.deleted_nodes)
            && crate::settings::same_roundings(&self.rounded, &other.rounded)
    }
}

/// What the cards show before anything is chosen.
#[derive(Clone, Copy, Debug)]
pub struct Defaults {
    /// The image type and quality when Auto settings is switched off.
    pub chosen: Manual,
    pub overlap_opaque_photos: bool,
    pub optional_optimizer: bool,
    pub sliders: Sliders,
    /// Where the simplification's slider starts.
    pub tolerance: u32,
    /// Where the slider of the straightening's bow starts.
    pub bow: u32,
    pub sticker: Sticker,
}

impl DesktopView {
    /// The window as it opens: nothing loaded, the automatic settings.
    pub open spec fn fresh(defaults: Defaults) -> DesktopView {
        DesktopView {
            picture: PictureView {
                path: Seq::empty(),
                loaded_path: Seq::empty(),
                size: None,
                detected: None,
                has_alpha: false,
                working: false,
                working_opaque: false,
                border_opaque: false,
                converted_prep: None,
            },
            settings: SettingsView {
                conversion: Conversion {
                    automatic: true,
                    category: defaults.chosen.category,
                    quality: defaults.chosen.quality,
                    overlap_opaque_photos: defaults.overlap_opaque_photos,
                    optional_optimizer: defaults.optional_optimizer,
                    advanced_on: false,
                    sliders: defaults.sliders,
                },
                prep: PreparationView::empty(),
                curves: Curves {
                    simplify: true,
                    simplify_tolerance: defaults.tolerance,
                    regularize: true,
                    primitives: true,
                    straighten: true,
                    straighten_tolerance: defaults.bow,
                    straighten_auto: true,
                },
                pick: None,
                sticker: defaults.sticker,
            },
            hand: HandView {
                rounded: Seq::empty(),
                straightened: Seq::empty(),
                moved: Seq::empty(),
                deleted_nodes: Seq::empty(),
                deleted: Seq::empty(),
                selected: Seq::empty(),
            },
            history: HistoryView::empty(),
            auto: AutoView { on: true, converted: None, changed: None, since: 0, held: None },
            work: Work { worker: false, stopping: false, errand: false },
            result: None,
            replaced: None,
            versions: Versions {
                raw: 0,
                document: 0,
                serial: 0,
                pending: None,
                auto_pending: false,
            },
            status: StatusView {
                text: "Open an image, or drop one onto the source card."@,
                kind: StatusKind::Info,
            },
            popups: PopupsView {
                save: false,
                stat: None,
                node_menu: None,
                shape_menu: None,
                node_drag: None,
            },
        }
    }
}

impl Desktop {
    /// The window as it opens: nothing loaded, the automatic settings.
    pub fn new(defaults: Defaults) -> (app: Desktop)
        ensures
            app@ == DesktopView::fresh(defaults),
            app@.history.ok(),
    {
        let app = Desktop {
            picture: Picture {
                path: String::new(),
                loaded_path: String::new(),
                size: None,
                detected: None,
                has_alpha: false,
                working: false,
                working_opaque: false,
                border_opaque: false,
                converted_prep: None,
            },
            settings: Settings {
                conversion: Conversion {
                    automatic: true,
                    category: defaults.chosen.category,
                    quality: defaults.chosen.quality,
                    overlap_opaque_photos: defaults.overlap_opaque_photos,
                    optional_optimizer: defaults.optional_optimizer,
                    advanced_on: false,
                    sliders: defaults.sliders,
                },
                prep: Preparation::new(),
                curves: Curves {
                    simplify: true,
                    simplify_tolerance: defaults.tolerance,
                    regularize: true,
                    primitives: true,
                    straighten: true,
                    straighten_tolerance: defaults.bow,
                    straighten_auto: true,
                },
                pick: None,
                sticker: defaults.sticker,
            },
            hand: Hand::new(),
            history: History::new(),
            auto: Auto { on: true, converted: None, changed: None, since: 0, held: None },
            work: Work { worker: false, stopping: false, errand: false },
            result: None,
            replaced: None,
            versions: Versions { raw: 0, document: 0, serial: 0, pending: None, auto_pending: false },
            status: Status {
                text: "Open an image, or drop one onto the source card.".to_owned(),
                kind: StatusKind::Info,
            },
            popups: Popups {
                save: false,
                stat: None,
                node_menu: None,
                shape_menu: None,
                node_drag: None,
            },
        };
        assert(app@.picture.path =~= Seq::<char>::empty());
        assert(app@.picture.loaded_path =~= Seq::<char>::empty());
        app
    }

    /// The status line as the footer shows it.
    pub fn status_line(&self) -> (text: String)
        ensures
            text@ == self@.status.text,
    {
        self.status.text.as_str().to_owned()
    }

    pub fn set_status(&mut self, kind: StatusKind, text: &str)
        ensures
            final(self)@ == old(self)@.with_status(kind, text@),
    {
        self.status = Status { text: text.to_owned(), kind };
    }

    /// Nothing the toolbar waits for: no conversion, no dialog and no file
    /// being written.
    pub fn idle(&self) -> (yes: bool)
        ensures
            yes == self@.idle(),
    {
        !self.work.worker && !self.work.errand && !self.work.stopping
    }

    pub fn conversion_inputs(&self) -> (inputs: Inputs)
        ensures
            inputs@ == self@.conversion_inputs(),
    {
        Inputs { prep: self.settings.prep.copy(), settings: self.settings.conversion_settings() }
    }

    /// The edits as they stand.
    pub fn edits(&self) -> (edits: Edits)
        ensures
            edits@ == self@.edits(),
    {
        Edits {
            rounded: copied(&self.hand.rounded),
            straightened: copied(&self.hand.straightened),
            moved: copied(&self.hand.moved),
            deleted_nodes: copied(&self.hand.deleted_nodes),
            deleted: copy_removals(&self.hand.deleted),
            prep: self.settings.prep.copy(),
            conversion: self.settings.conversion_settings(),
            curves: self.settings.curves,
            sticker: self.settings.sticker,
        }
    }

    /// What the shown document is drawn with now. `start` is where the
    /// simplification's slider starts.
    pub fn derive_settings(&self, start: u32) -> (settings: Derive)
        ensures
            settings@ == self@.derive_settings(start),
    {
        let c = self.settings.curves;
        let by_hand = match self.settings.pick {
            Some(pick) => c.simplify_tolerance != pick.shown,
            None => c.simplify_tolerance != start,
        };
        Derive {
            simplify: self.settings.simplify_settings(),
            simplify_by_hand: by_hand,
            deleted: copy_removals(&self.hand.deleted),
            regularize: c.regularize,
            primitives: c.primitives,
            straighten: if !c.straighten {
                None
            } else if c.straighten_auto {
                Some(Bow::Auto)
            } else {
                Some(Bow::Pixels(c.straighten_tolerance))
            },
            straightened: copied(&self.hand.straightened),
            moved: copied(&self.hand.moved),
            deleted_nodes: copied(&self.hand.deleted_nodes),
            rounded: copied(&self.hand.rounded),
            sticker: if self.settings.sticker.on && self.settings.sticker.drawable {
                Some(self.settings.sticker)
            } else {
                None
            },
        }
    }

    /// The type the next conversion traces the picture as.
    pub fn effective_category(&self) -> (category: Option<ImageCategory>)
        ensures
            category == self@.effective_category(),
    {
        if self.settings.conversion.automatic {
            match self.picture.detected {
                Some(d) => Some(d.category),
                None => None,
            }
        } else {
            Some(self.settings.conversion.category)
        }
    }

    /// The source quality the next conversion uses.
    pub fn effective_quality(&self) -> (quality: Option<Quality>)
        ensures
            quality == self@.effective_quality(),
    {
        if self.settings.conversion.automatic {
            match self.picture.detected {
                Some(d) => Some(d.quality),
                None => None,
            }
        } else {
            Some(self.settings.conversion.quality)
        }
    }

    /// Asks for the shown document again after something it is drawn with
    /// changed. No conversion is repeated; the latest request wins. While a
    /// conversion runs there is nothing to draw from yet.
    pub fn request_derive(&mut self, auto: bool) -> (request: Option<DeriveRequest>)
        ensures
            (final(self)@, request) == old(self)@.request_derive(auto),
    {
        if self.result.is_none() {
            return None;
        }
        let v = self.versions;
        let serial: u64 = count_up(v.serial);
        self.versions = Versions {
            raw: v.raw,
            document: v.document,
            serial,
            pending: Some(serial),
            auto_pending: auto,
        };
        Some(DeriveRequest { serial, raw_version: v.raw, auto })
    }

    pub fn reapply(&mut self) -> (request: Option<DeriveRequest>)
        ensures
            (final(self)@, request) == old(self)@.request_derive(false),
    {
        self.request_derive(false)
    }
}

} // verus!
