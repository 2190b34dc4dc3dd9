//! Pictures opened and closed, dialogs and files under way, and what is saved
//! or dragged out.
use crate::desktop::{
    Desktop, DesktopView, PictureView, PopupsView, SettingsView, Status, StatusKind, Work,
};
use crate::dragout::DragOutcome;
use crate::format::{ExportOptions, Format};
use crate::platform::{Command, Host};
use crate::recolor::{is_same_word, same_word};
use crate::settings::{Manual, Sticker};
use crate::text::{chars_of, decimal, drop_white, push_decimal, skip_white, trimmed};
use vstd::prelude::*;

verus! {

/// A dialog or a file being written, which the toolbar waits for.
#[derive(Debug)]
pub enum ErrandKind {
    Open,
    Save,
    Preview,
    Write(String),
}

/// What a press in the Save popup leads to.
#[derive(Debug)]
pub enum SaveStep {
    Nothing,
    /// The file is dragged out.
    Drag,
    /// The page downloads the file.
    Download,
    /// The dialog that picks where to save is open.
    Dialog(Option<Errand>),
}

/// An errand under way, with the status line to put back when its dialog is
/// cancelled.
#[derive(Debug)]
pub struct Errand {
    pub kind: ErrandKind,
    pub before: Status,
}

/// What an errand brought back: the file a dialog picked with its filter's
/// position, `None` when cancelled, or how writing a file went.
#[derive(Debug)]
pub enum Fetched {
    Picked(Option<(String, u32)>),
    Written(Result<(), String>),
}

/// What follows an errand.
#[derive(Debug)]
pub enum Next {
    Nothing,
    /// Open the picture at the path.
    Load,
    /// Save to this path, with this extension in place of its own.
    Save { path: String, extension: Option<&'static str> },
    /// Save a picture of the window there.
    Preview { path: String, before: Status },
}

pub open spec fn number_by(w: int, h: int) -> Seq<char> {
    decimal(w as nat) + " × "@ + decimal(h as nat) + " px"@
}

/// A picture that was read, scaled down to what converts where it was larger.
#[derive(Clone, Copy, Debug, PartialEq, Eq)]
pub struct Loaded {
    pub width: usize,
    pub height: usize,
    /// Its own size, when it was scaled down.
    pub scaled_from: Option<(usize, usize)>,
    /// What the automatic settings find in it.
    pub detected: Manual,
    pub has_alpha: bool,
    /// The sticker's widths for its size.
    pub border: u64,
    pub edge: u64,
    pub drawable: bool,
}

/// The status line of a picture just opened: `limit` is the largest side that
/// converts, `shortcut` the key that starts it.
pub open spec fn loaded_text(l: Loaded, limit: usize, shortcut: Seq<char>) -> Seq<char> {
    (match l.scaled_from {
        Some((w, h)) => number_by(w as int, h as int) + " scaled to "@ + number_by(
            l.width as int,
            l.height as int,
        ) + ", the largest size it converts ("@ + decimal(limit as nat) + " px)"@,
        None => number_by(l.width as int, l.height as int) + " loaded"@,
    }) + ". Convert ("@ + shortcut + ") traces it."@
}

impl PictureView {
    pub open spec fn none() -> PictureView {
        PictureView {
            path: Seq::empty(),
            loaded_path: Seq::empty(),
            size: None,
            detected: None,
            has_alpha: false,
            working: false,
            working_opaque: false,
            border_opaque: false,
            converted_prep: None,
        }
    }
}

impl DesktopView {
    /// After the result, the edits and all that Undo kept went.
    pub open spec fn cleared(self) -> DesktopView {
        self.clear_result().clear_edits().forget_edits()
    }

    /// After Close.
    pub open spec fn close(self) -> DesktopView {
        (DesktopView { picture: PictureView::none(), ..self.cleared() }).with_status(
            StatusKind::Info,
            "Open an image, or drop one onto the source card."@,
        )
    }

    /// After the picture at the path was read. A file that cannot be read
    /// leaves an open picture as it was, with its result, edits and Undo.
    pub open spec fn take_loaded(
        self,
        loaded: Result<Loaded, Seq<char>>,
        limit: usize,
        shortcut: Seq<char>,
    ) -> DesktopView {
        match loaded {
            Err(error) => if self.picture.size is Some {
                (DesktopView {
                    picture: PictureView { path: self.picture.loaded_path, ..self.picture },
                    ..self
                }).with_status(StatusKind::Error, error + " The open image stays as it was."@)
            } else {
                (DesktopView {
                    picture: PictureView { path: self.picture.path, ..PictureView::none() },
                    ..self.cleared()
                }).with_status(StatusKind::Error, error)
            },
            Ok(l) => {
                let s = self.cleared();
                (DesktopView {
                    picture: PictureView {
                        path: self.picture.path,
                        loaded_path: self.picture.path,
                        size: Some((l.width, l.height)),
                        detected: Some(l.detected),
                        has_alpha: l.has_alpha,
                        ..PictureView::none()
                    },
                    settings: SettingsView {
                        sticker: Sticker {
                            border: l.border,
                            edge: l.edge,
                            drawable: l.drawable,
                            ..s.settings.sticker
                        },
                        ..s.settings
                    },
                    ..s
                }).with_status(StatusKind::Info, loaded_text(l, limit, shortcut))
            },
        }
    }

    /// After an errand was sent, unless one is under way: the Save popup
    /// closes.
    pub open spec fn send_errand(self) -> DesktopView {
        if self.work.errand {
            self
        } else {
            DesktopView {
                work: Work { errand: true, ..self.work },
                popups: PopupsView { save: false, ..self.popups },
                ..self
            }
        }
    }

    /// After Open was asked for: its dialog is out, or, in a browser tab, the
    /// page's file chooser.
    pub open spec fn opened(self, tab: bool) -> DesktopView {
        if tab {
            self.with_status(StatusKind::Info, "Choose an image in the file chooser."@)
        } else {
            self.send_errand().with_status(
                StatusKind::Info,
                "Choose an image in the Open dialog."@,
            )
        }
    }

    /// After a picture of the window was asked for: its dialog is out; a
    /// browser tab needs none.
    pub open spec fn pictured(self, tab: bool) -> DesktopView {
        if tab {
            self
        } else {
            self.send_errand().with_status(
                StatusKind::Info,
                "Choose where to save the app preview in the dialog."@,
            )
        }
    }

    pub open spec fn returned(self) -> DesktopView {
        DesktopView { work: Work { errand: false, ..self.work }, ..self }
    }

    /// Why a file dropped now is not opened.
    pub open spec fn waits_for(self) -> Seq<char> {
        if self.work.worker {
            "a conversion is running; cancel it (Esc) or let it finish"@
        } else if self.work.stopping {
            "a cancelled conversion is still stopping"@
        } else {
            "finish with the dialog or the save first"@
        }
    }
}

pub open spec fn error_view(loaded: Result<Loaded, String>) -> Result<Loaded, Seq<char>> {
    match loaded {
        Ok(l) => Ok(l),
        Err(error) => Err(error@),
    }
}

fn push_size(text: &mut String, w: usize, h: usize)
    ensures
        final(text)@ == old(text)@ + number_by(w as int, h as int),
{
    let ghost head = text@;
    push_decimal(text, w as u64);
    text.append(" × ");
    push_decimal(text, h as u64);
    text.append(" px");
    assert(text@ =~= head + number_by(w as int, h as int));
}

fn loaded_line(l: Loaded, limit: usize, shortcut: &str) -> (text: String)
    ensures
        text@ == loaded_text(l, limit, shortcut@),
{
    let mut text = String::new();
    match l.scaled_from {
        Some((w, h)) => {
            push_size(&mut text, w, h);
            assert(text@ =~= number_by(w as int, h as int));
            text.append(" scaled to ");
            push_size(&mut text, l.width, l.height);
            text.append(", the largest size it converts (");
            push_decimal(&mut text, limit as u64);
            text.append(" px)");
        },
        None => {
            push_size(&mut text, l.width, l.height);
            assert(text@ =~= number_by(l.width as int, l.height as int));
            text.append(" loaded");
        },
    }
    text.append(". Convert (");
    text.append(shortcut);
    text.append(") traces it.");
    text
}

/// A file dropped on the window, by its path, or on a page, by its bytes.
#[derive(Clone, Copy, Debug, PartialEq, Eq, Structural)]
pub enum Dropped {
    Path,
    Bytes,
}

impl Dropped {
    /// What was dropped, if it is to be opened: a file dragged out of the Save
    /// popup and released over the window again, which `staged` says it is,
    /// asks for nothing.
    pub fn of(path: bool, staged: bool, bytes: bool) -> (found: Option<Dropped>)
        ensures
            found == (if path {
                if staged {
                    None
                } else {
                    Some(Dropped::Path)
                }
            } else if bytes {
                Some(Dropped::Bytes)
            } else {
                None
            }),
    {
        if path {
            if staged {
                None
            } else {
                Some(Dropped::Path)
            }
        } else if bytes {
            Some(Dropped::Bytes)
        } else {
            None
        }
    }
}

/// The name of a file dropped on the window: the last part of its path, or
/// the whole where it has none.
pub fn dropped_name(file_name: Option<&str>, path: &str) -> (name: String)
    ensures
        name@ == (match file_name {
            Some(n) => n@,
            None => path@,
        }),
{
    match file_name {
        Some(n) => n.to_owned(),
        None => path.to_owned(),
    }
}

/// What the saved file is called unless the user renames it: the picture's
/// name without its extension, `stem`, or a word where that is blank.
pub fn export_stem(stem: Option<&str>) -> (name: String)
    ensures
        name@ == (match stem {
            Some(s) => if trimmed(s@).len() > 0 {
                s@
            } else {
                "vector"@
            },
            None => "vector"@,
        }),
{
    if let Some(s) = stem {
        let text = chars_of(s);
        let to: usize = text.len();
        let a: usize = skip_white(text.as_slice(), 0, to);
        let b: usize = drop_white(text.as_slice(), a, to);
        if a < b {
            return s.to_owned();
        }
    }
    "vector".to_owned()
}

pub open spec fn export_name_of(stem: Seq<char>, format: Format) -> Seq<char> {
    stem + "."@ + format.extension_of()
}

pub fn export_name(stem: &str, format: Format) -> (name: String)
    ensures
        name@ == export_name_of(stem@, format),
{
    let mut name = stem.to_owned();
    name.append(".");
    name.append(format.extension());
    name
}

/// A name's extension is kept if it is one of these, in whatever case.
pub open spec fn kept_extension(extension: Option<Seq<char>>) -> bool {
    match extension {
        Some(e) => same_word(e, "svg"@) || same_word(e, "pdf"@) || same_word(e, "eps"@),
        None => false,
    }
}

/// The extension that a name picked in the Save dialog takes: that of the
/// filter, unless it has one of its own.
pub fn save_extension(extension: Option<&str>, filter: u32) -> (taken: Option<&'static str>)
    ensures
        taken is None == kept_extension(
            match extension {
                Some(e) => Some(e@),
                None => None,
            },
        ),
        taken matches Some(e) ==> e@ == (if 1 <= filter <= 7 {
            crate::format::formats()[filter - 1].extension_of()
        } else {
            "svg"@
        }),
{
    if let Some(e) = extension {
        if is_same_word(e, "svg") || is_same_word(e, "pdf") || is_same_word(e, "eps") {
            return None;
        }
    }
    Some(Format::from_filter_index(filter).extension())
}

impl Desktop {
    fn clear_all(&mut self)
        ensures
            final(self)@ == old(self)@.cleared(),
            final(self)@.history.ok(),
    {
        self.clear_result();
        self.clear_edits();
        self.forget_edits();
    }

    /// Closes the picture.
    pub fn close(&mut self)
        ensures
            final(self)@ == old(self)@.close(),
            final(self)@.history.ok(),
    {
        self.clear_all();
        self.picture.path = String::new();
        self.picture.loaded_path = String::new();
        self.picture.size = None;
        self.picture.detected = None;
        assert(self.picture.path@ =~= Seq::<char>::empty());
        assert(self.picture.loaded_path@ =~= Seq::<char>::empty());
        assert(self@.picture == PictureView::none());
        self.set_status(
            StatusKind::Info,
            "Open an image, or drop one onto the source card.",
        );
    }

    /// Takes the picture read from the path. `limit` is the largest side that
    /// converts and `shortcut` the key that starts it.
    pub fn take_loaded(&mut self, loaded: Result<Loaded, String>, limit: usize, shortcut: &str)
        requires
            old(self)@.history.ok(),
        ensures
            final(self)@ == old(self)@.take_loaded(error_view(loaded), limit, shortcut@),
            final(self)@.history.ok(),
    {
        match loaded {
            Err(error) => {
                if self.picture.size.is_some() {
                    self.picture.path = self.picture.loaded_path.as_str().to_owned();
                    let mut text = error;
                    text.append(" The open image stays as it was.");
                    self.set_status(StatusKind::Error, text.as_str());
                } else {
                    self.clear_all();
                    self.picture.loaded_path = String::new();
                    self.picture.detected = None;
                    assert(self.picture.loaded_path@ =~= Seq::<char>::empty());
                    self.set_status(StatusKind::Error, error.as_str());
                }
            },
            Ok(l) => {
                self.clear_all();
                self.picture.loaded_path = self.picture.path.as_str().to_owned();
                self.picture.size = Some((l.width, l.height));
                self.picture.detected = Some(l.detected);
                self.picture.has_alpha = l.has_alpha;
                self.settings.sticker.border = l.border;
                self.settings.sticker.edge = l.edge;
                self.settings.sticker.drawable = l.drawable;
                let text = loaded_line(l, limit, shortcut);
                self.set_status(StatusKind::Info, text.as_str());
            },
        }
    }

    /// Whether a file dropped on the window is opened now; if not, the status
    /// line says why.
    pub fn take_dropped(&mut self, name: &str) -> (opened: bool)
        ensures
            opened == old(self)@.idle(),
            final(self)@ == (if opened {
                old(self)@
            } else {
                old(self)@.with_status(
                    StatusKind::Info,
                    name@ + " was not opened: "@ + old(self)@.waits_for()
                        + ", then drop it again."@,
                )
            }),
    {
        if self.idle() {
            return true;
        }
        let mut text = name.to_owned();
        text.append(" was not opened: ");
        text.append(
            if self.work.worker {
                "a conversion is running; cancel it (Esc) or let it finish"
            } else if self.work.stopping {
                "a cancelled conversion is still stopping"
            } else {
                "finish with the dialog or the save first"
            },
        );
        text.append(", then drop it again.");
        self.set_status(StatusKind::Info, text.as_str());
        false
    }

    /// Sends an errand, one at a time: a second would drop the first's
    /// answer.
    fn send_errand(&mut self, kind: ErrandKind) -> (errand: Option<Errand>)
        ensures
            final(self)@ == old(self)@.send_errand(),
            errand is Some == !old(self)@.work.errand,
            errand matches Some(e) ==> e.kind == kind && e.before@ == old(self)@.status,
    {
        if self.work.errand {
            return None;
        }
        self.popups.save = false;
        self.work.errand = true;
        let before = Status {
            text: self.status.text.as_str().to_owned(),
            kind: self.status.kind,
        };
        Some(Errand { kind, before })
    }

    /// Opens the dialog that picks a picture; a browser tab asks the page for
    /// its file chooser.
    pub fn open_dialog(&mut self, host: &mut Host) -> (errand: Option<Errand>)
        ensures
            final(self)@ == old(self)@.opened(old(host).in_browser),
            errand is Some == (!old(host).in_browser && !old(self)@.work.errand),
            errand matches Some(e) ==> e.kind == ErrandKind::Open && e.before@
                == old(self)@.status,
            old(host).asked(Command::OpenPicker, *final(host)),
    {
        host.ask(Command::OpenPicker);
        if host.in_browser {
            self.set_status(StatusKind::Info, "Choose an image in the file chooser.");
            return None;
        }
        let errand = self.send_errand(ErrandKind::Open);
        self.set_status(StatusKind::Info, "Choose an image in the Open dialog.");
        errand
    }

    /// Opens the dialog that picks where to save; a browser tab downloads the
    /// file instead.
    pub fn save_dialog(&mut self, host: &Host) -> (step: SaveStep)
        ensures
            host.in_browser ==> step is Download && final(self)@ == old(self)@,
            !host.in_browser ==> {
                &&& final(self)@ == old(self)@.send_errand().with_status(
                    StatusKind::Info,
                    "Choose where to save in the Save dialog."@,
                )
                &&& step matches SaveStep::Dialog(errand)
                &&& errand is Some == !old(self)@.work.errand
                &&& errand matches Some(e) ==> e.kind == ErrandKind::Save && e.before@
                    == old(self)@.status
            },
    {
        if host.in_browser {
            return SaveStep::Download;
        }
        let errand = self.send_errand(ErrandKind::Save);
        self.set_status(StatusKind::Info, "Choose where to save in the Save dialog.");
        SaveStep::Dialog(errand)
    }

    /// Opens the dialog that picks where to save a picture of the window. A
    /// browser tab asks the page for one instead; it is saved under the name
    /// given back, after the picture's own, `stem`.
    pub fn save_preview_png(&mut self, host: &mut Host, stem: &str) -> (ask: (
        Option<Errand>,
        Option<String>,
    ))
        ensures
            final(self)@ == old(self)@.pictured(old(host).in_browser),
            ask.0 is Some == (!old(host).in_browser && !old(self)@.work.errand),
            ask.0 matches Some(e) ==> e.kind == ErrandKind::Preview && e.before@
                == old(self)@.status,
            ask.1 is Some == old(host).in_browser,
            ask.1 matches Some(name) ==> name@ == stem@ + "-app-preview.png"@,
            old(host).asked(Command::Screenshot, *final(host)),
    {
        host.ask(Command::Screenshot);
        if host.in_browser {
            let mut name = stem.to_owned();
            name.append("-app-preview.png");
            return (None, Some(name));
        }
        let errand = self.send_errand(ErrandKind::Preview);
        self.set_status(
            StatusKind::Info,
            "Choose where to save the app preview in the dialog.",
        );
        (errand, None)
    }

    /// Writes the document to `path`: `drawn` says whether there is one to
    /// write, and why it cannot be made.
    pub fn save_to(&mut self, path: &str, drawn: Option<Result<(), String>>) -> (errand: Option<
        Errand,
    >)
        ensures
            match drawn {
                Some(Ok(_)) => {
                    &&& final(self)@ == old(self)@.send_errand().with_status(
                        StatusKind::Busy,
                        "Saving "@ + path@ + "…"@,
                    )
                    &&& errand is Some == !old(self)@.work.errand
                    &&& errand matches Some(e) ==> (e.kind matches ErrandKind::Write(to) && to@
                        == path@) && e.before@ == old(self)@.status
                },
                Some(Err(error)) => errand is None && final(self)@ == old(self)@.with_status(
                    StatusKind::Error,
                    error@,
                ),
                None => errand is None && final(self)@ == old(self)@.with_status(
                    StatusKind::Error,
                    "Nothing to save: convert the image first."@,
                ),
            },
    {
        match drawn {
            Some(Ok(_)) => {
                let errand = self.send_errand(ErrandKind::Write(path.to_owned()));
                let mut text = "Saving ".to_owned();
                text.append(path);
                text.append("…");
                self.set_status(StatusKind::Busy, text.as_str());
                errand
            },
            Some(Err(error)) => {
                self.set_status(StatusKind::Error, error.as_str());
                None
            },
            None => {
                self.set_status(StatusKind::Error, "Nothing to save: convert the image first.");
                None
            },
        }
    }

    /// Acts on an errand's answer. `extension` is that of a picked path.
    pub fn receive_errand(
        &mut self,
        errand: Errand,
        fetched: Fetched,
        extension: Option<&str>,
    ) -> (next: Next)
        ensures
            match (errand.kind, fetched) {
                (_, Fetched::Written(Err(error))) => next is Nothing && final(self)@ == old(self)@.returned().with_status(StatusKind::Error, error@),
                (ErrandKind::Write(path), Fetched::Written(Ok(_))) => next is Nothing && final(self)@ == old(self)@.returned().with_status(StatusKind::Done, "Saved "@ + path@),
                (_, Fetched::Written(Ok(_))) => next is Nothing && final(self)@ == old(self)@.returned(),
                (ErrandKind::Write(_), Fetched::Picked(_)) => next is Nothing && final(self)@
                    == old(self)@.returned(),
                (_, Fetched::Picked(None)) => next is Nothing && final(self)@ == (DesktopView {
                    status: errand.before@,
                    ..old(self)@.returned()
                }),
                (ErrandKind::Open, Fetched::Picked(Some((path, _)))) => next is Load && final(self)@ == (DesktopView {
                    picture: PictureView { path: path@, ..old(self)@.picture },
                    ..old(self)@.returned()
                }),
                (ErrandKind::Save, Fetched::Picked(Some((path, filter)))) => {
                    &&& final(self)@ == old(self)@.returned()
                    &&& next matches Next::Save { path: to, extension: taken }
                    &&& to@ == path@
                    &&& taken is None == kept_extension(
                        match extension {
                            Some(e) => Some(e@),
                            None => None,
                        },
                    )
                    &&& taken matches Some(e) ==> e@ == (if 1 <= filter <= 7 {
                        crate::format::formats()[filter - 1].extension_of()
                    } else {
                        "svg"@
                    })
                },
                (ErrandKind::Preview, Fetched::Picked(Some((path, _)))) => {
                    &&& final(self)@ == old(self)@.returned()
                    &&& next matches Next::Preview { path: to, before }
                    &&& to@ == path@
                    &&& before@ == errand.before@
                },
            },
    {
        self.work.errand = false;
        let Errand { kind, before } = errand;
        match fetched {
            Fetched::Written(Err(error)) => {
                self.set_status(StatusKind::Error, error.as_str());
                Next::Nothing
            },
            Fetched::Written(Ok(_)) => {
                if let ErrandKind::Write(path) = kind {
                    let mut text = "Saved ".to_owned();
                    text.append(path.as_str());
                    self.set_status(StatusKind::Done, text.as_str());
                }
                Next::Nothing
            },
            Fetched::Picked(picked) => match kind {
                ErrandKind::Write(_) => Next::Nothing,
                ErrandKind::Open => match picked {
                    Some((path, _)) => {
                        self.picture.path = path;
                        Next::Load
                    },
                    None => {
                        self.status = before;
                        Next::Nothing
                    },
                },
                ErrandKind::Save => match picked {
                    Some((path, filter)) => Next::Save {
                        path,
                        extension: save_extension(extension, filter),
                    },
                    None => {
                        self.status = before;
                        Next::Nothing
                    },
                },
                ErrandKind::Preview => match picked {
                    Some((path, _)) => Next::Preview { path, before },
                    None => {
                        self.status = before;
                        Next::Nothing
                    },
                },
            },
        }
    }

    /// Whether a picture of the window is taken: not over the picture that is
    /// open, which `same` says the path is.
    pub fn take_preview(&mut self, before: Status, same: bool) -> (taken: bool)
        ensures
            taken == !same,
            final(self)@ == (if same {
                old(self)@.with_status(
                    StatusKind::Error,
                    "Preview must not replace the source image."@,
                )
            } else {
                DesktopView { status: before@, ..old(self)@ }
            }),
    {
        if same {
            self.set_status(StatusKind::Error, "Preview must not replace the source image.");
            false
        } else {
            self.status = before;
            true
        }
    }

    /// Opens or closes the Save popup: only while nothing is under way and
    /// there is something to save. `foreign` says that a converted file is
    /// open.
    pub fn toggle_save(&mut self, foreign: bool) -> (toggled: bool)
        ensures
            toggled == (old(self)@.idle() && (old(self)@.result is Some || foreign)),
            final(self)@ == (if toggled {
                DesktopView {
                    popups: PopupsView { save: !old(self)@.popups.save, ..old(self)@.popups },
                    ..old(self)@
                }
            } else {
                old(self)@
            }),
    {
        if self.idle() && (self.result.is_some() || foreign) {
            self.popups.save = !self.popups.save;
            true
        } else {
            false
        }
    }

    /// Whether Convert starts a conversion now: nothing is under way, and the
    /// picture on screen is loaded.
    pub fn can_convert(&self) -> (yes: bool)
        ensures
            yes == (self@.idle() && self@.picture.size is Some && self@.picture.path
                == self@.picture.loaded_path),
    {
        self.idle() && self.picture.size.is_some() && self.picture.path == self.picture.loaded_path
    }

    /// What the drag file holds when written for what is shown now: a result,
    /// or a converted file, which `foreign` says is open.
    pub fn stage_key(
        &self,
        foreign: bool,
        format: Format,
        size: Option<(u32, u32)>,
        stacked: bool,
        options: ExportOptions,
    ) -> (key: Option<StageKey>)
        ensures
            key == (match size {
                Some(s) if self@.result is Some || foreign => Some(
                    StageKey {
                        version: self@.versions.document,
                        format,
                        size: s,
                        stacked,
                        options,
                    },
                ),
                _ => None,
            }),
    {
        if self.result.is_none() && !foreign {
            return None;
        }
        match size {
            Some(s) => Some(
                StageKey { version: self.versions.document, format, size: s, stacked, options },
            ),
            None => None,
        }
    }

    /// Says why the file cannot be dragged out yet, or that it can.
    pub fn drag_out(&mut self, state: &StageState, name: &str) -> (ready: bool)
        ensures
            ready == (*state is Ready),
            final(self)@ == (match *state {
                StageState::Ready(_) => old(self)@,
                StageState::Failed(error) => old(self)@.with_status(StatusKind::Error, error@),
                StageState::Writing => old(self)@.with_status(
                    StatusKind::Info,
                    name@ + " is still being written; drag it again in a moment."@,
                ),
            }),
    {
        match state {
            StageState::Ready(_) => true,
            StageState::Failed(error) => {
                self.set_status(StatusKind::Error, error.as_str());
                false
            },
            StageState::Writing => {
                let mut text = name.to_owned();
                text.append(" is still being written; drag it again in a moment.");
                self.set_status(StatusKind::Info, text.as_str());
                false
            },
        }
    }

    /// Takes how a drag ended: a file dropped closes the Save popup.
    pub fn dragged(
        &mut self,
        outcome: Result<DragOutcome, String>,
        name: &str,
        size: Option<(u32, u32)>,
    )
        ensures
            final(self)@ == (match outcome {
                Ok(DragOutcome::Dropped) => (DesktopView {
                    popups: PopupsView { save: false, ..old(self)@.popups },
                    ..old(self)@
                }).with_status(StatusKind::Done, moved_text("Dropped "@, name@, size)),
                Ok(DragOutcome::Cancelled) => old(self)@,
                Err(error) => old(self)@.with_status(StatusKind::Error, error@),
            }),
    {
        match outcome {
            Ok(DragOutcome::Dropped) => {
                self.popups.save = false;
                let text = moved_line("Dropped ", name, size);
                self.set_status(StatusKind::Done, text.as_str());
            },
            Ok(DragOutcome::Cancelled) => {},
            Err(error) => self.set_status(StatusKind::Error, error.as_str()),
        }
    }

    /// In a browser tab: hands the page the saved file, or says why not.
    /// `saved` is the file, or why it could not be made; none when there is
    /// nothing to save.
    pub fn download(
        &mut self,
        host: &mut Host,
        saved: Option<Result<Vec<u8>, String>>,
        name: &str,
        format: Format,
        size: Option<(u32, u32)>,
    )
        ensures
            final(self)@ == (match saved {
                Some(Ok(_)) => (DesktopView {
                    popups: PopupsView { save: false, ..old(self)@.popups },
                    ..old(self)@
                }).with_status(StatusKind::Done, moved_text("Downloaded "@, name@, size)),
                Some(Err(error)) => old(self)@.with_status(StatusKind::Error, error@),
                None => old(self)@.with_status(
                    StatusKind::Error,
                    "Nothing to save: convert the image first."@,
                ),
            }),
            match saved {
                Some(Ok(data)) => exists|command: Command| #[trigger]
                    old(host).asked(command, *final(host)) && (command matches Command::Download {
                        name: n,
                        mime,
                        data: d,
                    } && n@ == name@ && mime@ == format.mime_of() && d@ == data@),
                _ => *final(host) == *old(host),
            },
    {
        match saved {
            Some(Ok(data)) => {
                self.popups.save = false;
                let text = moved_line("Downloaded ", name, size);
                self.set_status(StatusKind::Done, text.as_str());
                host.ask(Command::Download { name: name.to_owned(), mime: format.mime(), data });
            },
            Some(Err(error)) => {
                self.set_status(StatusKind::Error, error.as_str());
            },
            None => {
                self.set_status(StatusKind::Error, "Nothing to save: convert the image first.");
            },
        }
    }
}

/// What became of a file, with the size it was saved at.
pub open spec fn moved_text(what: Seq<char>, name: Seq<char>, size: Option<(u32, u32)>) -> Seq<
    char,
> {
    what + name + (match size {
        Some((w, h)) => " at "@ + number_by(w as int, h as int),
        None => Seq::empty(),
    }) + "."@
}

fn moved_line(what: &str, name: &str, size: Option<(u32, u32)>) -> (text: String)
    ensures
        text@ == moved_text(what@, name@, size),
{
    let mut text = what.to_owned();
    text.append(name);
    let ghost head = text@;
    match size {
        Some((w, h)) => {
            text.append(" at ");
            push_size(&mut text, w as usize, h as usize);
            assert(text@ =~= head + (" at "@ + number_by(w as int, h as int)));
        },
        None => {
            assert(text@ =~= head + Seq::<char>::empty());
        },
    }
    text.append(".");
    text
}

/// What a drag file was written for.
#[derive(Clone, Copy, Debug, PartialEq, Eq)]
pub struct StageKey {
    pub version: u64,
    pub format: Format,
    pub size: (u32, u32),
    pub stacked: bool,
    pub options: ExportOptions,
}

/// The file the Save popup offers for dragging out.
#[derive(Debug)]
pub struct Staged {
    pub key: StageKey,
    pub path: String,
    pub writing: bool,
    pub error: Option<String>,
}

/// Whether the file can be dragged out yet.
#[derive(Debug)]
pub enum StageState {
    Writing,
    Ready(String),
    Failed(String),
}

/// What a write under way has answered.
#[derive(Debug)]
pub enum WriteEvent {
    Nothing,
    Done(Result<(), String>),
    Gone,
}

fn same_key(a: &StageKey, b: &StageKey) -> (same: bool)
    ensures
        same == (*a == *b),
{
    a.version == b.version && a.format == b.format && a.size.0 == b.size.0 && a.size.1 == b.size.1
        && a.stacked == b.stacked && a.options == b.options
}

/// Takes what a write under way has answered; whether the file is to be
/// written again, for `key`. While one write is out, the next waits.
pub fn stage_drag_file(staged: &mut Option<Staged>, key: Option<StageKey>, event: WriteEvent) -> (
write: bool)
    ensures
        match *old(staged) {
            None => *final(staged) is None && write == (key is Some),
            Some(s) => {
                &&& *final(staged) matches Some(t)
                &&& t.key == s.key && t.path == s.path
                &&& if s.writing {
                    match event {
                        WriteEvent::Nothing => t.writing && t.error == s.error && !write,
                        WriteEvent::Done(outcome) => {
                            &&& !t.writing
                            &&& match outcome {
                                Ok(_) => t.error is None,
                                Err(e) => t.error matches Some(shown) && shown@ == e@,
                            }
                            &&& write == (key is Some && key != Some(s.key))
                        },
                        WriteEvent::Gone => {
                            &&& !t.writing
                            &&& (t.error matches Some(shown) && shown@
                                == "The exporter stopped unexpectedly."@)
                            &&& write == (key is Some && key != Some(s.key))
                        },
                    }
                } else {
                    !t.writing && t.error == s.error && write == (key is Some && key != Some(
                        s.key,
                    ))
                }
            },
        },
{
    match staged.take() {
        None => {
            *staged = None;
            key.is_some()
        },
        Some(s) => {
            let mut s = s;
            if s.writing {
                match event {
                    WriteEvent::Nothing => {
                        *staged = Some(s);
                        return false;
                    },
                    WriteEvent::Done(Ok(_)) => {
                        s.writing = false;
                        s.error = None;
                    },
                    WriteEvent::Done(Err(e)) => {
                        s.writing = false;
                        s.error = Some(e);
                    },
                    WriteEvent::Gone => {
                        s.writing = false;
                        s.error = Some("The exporter stopped unexpectedly.".to_owned());
                    },
                }
            }
            let write: bool = match key {
                Some(k) => !same_key(&k, &s.key),
                None => false,
            };
            *staged = Some(s);
            write
        },
    }
}

/// Whether the drag file is written for what is shown now, `key`.
pub fn stage_state(staged: &Option<Staged>, key: Option<StageKey>) -> (state: StageState)
    ensures
        match *staged {
            Some(s) => if key == Some(s.key) && !s.writing {
                match s.error {
                    Some(error) => state matches StageState::Failed(shown) && shown@ == error@,
                    None => state matches StageState::Ready(path) && path@ == s.path@,
                }
            } else {
                state is Writing
            },
            None => state is Writing,
        },
{
    match staged {
        Some(s) => {
            let current: bool = match key {
                Some(k) => same_key(&k, &s.key),
                None => false,
            };
            if current && !s.writing {
                match &s.error {
                    Some(error) => StageState::Failed(error.as_str().to_owned()),
                    None => StageState::Ready(s.path.as_str().to_owned()),
                }
            } else {
                StageState::Writing
            }
        },
        None => StageState::Writing,
    }
}

/// A file that cannot be opened leaves the open picture as it was, with its
/// result, edits and Undo.
pub proof fn law_a_bad_file_keeps_the_open_picture(
    s: DesktopView,
    error: Seq<char>,
    limit: usize,
    shortcut: Seq<char>,
)
    requires
        s.picture.size is Some,
        s.picture.path == s.picture.loaded_path,
    ensures
        s.take_loaded(Err(error), limit, shortcut) == s.with_status(
            StatusKind::Error,
            error + " The open image stays as it was."@,
        ),
{
}

/// Opening a picture leaves nothing of the one before: no result, no edit, no
/// recoloured pixel and nothing to undo.
pub proof fn law_a_new_picture_starts_clean(
    s: DesktopView,
    l: Loaded,
    limit: usize,
    shortcut: Seq<char>,
)
    ensures
        ({
            let t = s.take_loaded(Ok(l), limit, shortcut);
            &&& t.result is None
            &&& t.hand.selected.len() == 0 && t.hand.straightened.len() == 0
            &&& t.hand.rounded.len() == 0 && t.hand.moved.len() == 0
            &&& t.hand.deleted.len() == 0 && t.hand.deleted_nodes.len() == 0
            &&& t.settings.prep.recolors.len() == 0
            &&& t.history.undo.len() == 0 && t.history.redo.len() == 0
            &&& t.auto.converted is None
            &&& t.settings.conversion == s.settings.conversion
            &&& t.settings.curves == s.settings.curves
        }),
{
}

/// A cancelled dialog puts back the status line, and the window is as it was
/// but for the Save popup, which closed.
pub proof fn law_a_cancelled_dialog_leaves_no_trace(s: DesktopView, kind: StatusKind, text: Seq<char>)
    requires
        !s.work.errand,
    ensures
        (DesktopView {
            status: s.status,
            ..s.send_errand().with_status(kind, text).returned()
        }) == (DesktopView { popups: PopupsView { save: false, ..s.popups }, ..s }),
{
}

} // verus!
