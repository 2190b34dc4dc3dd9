//! Vector files opened in the app: traced as a picture, or converted with
//! their own shapes.
use crate::desktop::files::{error_view, Loaded};
use crate::desktop::{after, count_up, Desktop, DesktopView, PictureView, StatusKind, Versions};
use crate::text::{chars_of, decimal, push_decimal, stands_at, standing};
use vstd::prelude::*;

verus! {

/// The sides, in pixels, that a vector file can be traced at.
pub fn trace_sides() -> (sides: [u32; 3])
    ensures
        sides@ == seq![1000u32, 2000, 4000],
{
    let sides: [u32; 3] = [1000, 2000, 4000];
    assert(sides@ =~= seq![1000u32, 2000, 4000]);
    sides
}

/// A vector file just opened, waiting for the answer.
#[derive(Debug)]
pub struct VectorOffer {
    pub name: String,
    /// What kind of file it is, in words.
    pub kind: String,
    pub shapes: usize,
    pub pages: usize,
    /// The longer side, in pixels, that it is drawn at to be traced.
    pub side: u32,
    /// It holds a picture of its own, which is traced instead.
    pub picture: bool,
}

pub open spec fn path_word() -> Seq<char> {
    "<path"@
}

/// How many of the first `n` places of `svg` a path starts at.
pub open spec fn paths_in(svg: Seq<char>, n: nat) -> nat
    decreases n,
{
    if n == 0 {
        0
    } else if stands_at(svg, path_word(), n - 1) {
        paths_in(svg, (n - 1) as nat) + 1
    } else {
        paths_in(svg, (n - 1) as nat)
    }
}

/// How many shapes a flat drawing holds.
pub fn shape_count(svg: &str) -> (count: usize)
    ensures
        count == paths_in(svg@, svg@.len()),
{
    let text = chars_of(svg);
    let word = chars_of("<path");
    let mut count: usize = 0;
    let mut i: usize = 0;
    while i < text.len()
        invariant
            i <= text@.len(),
            text@ == svg@,
            word@ == path_word(),
            count == paths_in(svg@, i as nat),
            count <= i,
        decreases text@.len() - i,
    {
        if standing(text.as_slice(), word.as_slice(), i) {
            count = count + 1;
        }
        i = i + 1;
    }
    count
}

pub open spec fn offer_text_of(offer: VectorOffer, width: Seq<char>, height: Seq<char>) -> Seq<
    char,
> {
    "VectorMagik traces pictures, and this "@ + offer.kind@ + " already holds shapes: "@ + decimal(
        offer.shapes as nat,
    ) + " on a page "@ + width + " × "@ + height + " pt"@ + (if offer.pages > 1 {
        " (the first of "@ + decimal(offer.pages as nat) + " pages)"@
    } else {
        Seq::empty()
    }) + "."@
}

/// What the question says of the file; the page's sides come in words.
pub fn offer_text(offer: &VectorOffer, width: &str, height: &str) -> (text: String)
    ensures
        text@ == offer_text_of(*offer, width@, height@),
{
    let mut text = "VectorMagik traces pictures, and this ".to_owned();
    text.append(offer.kind.as_str());
    text.append(" already holds shapes: ");
    push_decimal(&mut text, offer.shapes as u64);
    text.append(" on a page ");
    text.append(width);
    text.append(" × ");
    text.append(height);
    text.append(" pt");
    let ghost head = text@;
    if offer.pages > 1 {
        text.append(" (the first of ");
        push_decimal(&mut text, offer.pages as u64);
        text.append(" pages)");
        assert(text@ =~= head + (" (the first of "@ + decimal(offer.pages as nat) + " pages)"@));
    } else {
        assert(text@ =~= head + Seq::<char>::empty());
    }
    text.append(".");
    text
}

pub open spec fn skipped_text(skipped: Seq<String>, n: nat) -> Seq<char>
    decreases n,
{
    if n == 0 {
        "Left out: "@
    } else if n == 1 {
        "Left out: "@ + skipped[0]@
    } else {
        skipped_text(skipped, (n - 1) as nat) + "; "@ + skipped[n - 1]@
    }
}

/// What of the file was left out.
pub fn skipped_line(skipped: &Vec<String>) -> (text: Option<String>)
    ensures
        text is Some == (skipped@.len() > 0),
        text matches Some(t) ==> t@ == skipped_text(skipped@, skipped@.len()) + "."@,
{
    if skipped.len() == 0 {
        return None;
    }
    let mut text = "Left out: ".to_owned();
    let mut i: usize = 0;
    while i < skipped.len()
        invariant
            i <= skipped@.len(),
            text@ == skipped_text(skipped@, i as nat),
        decreases skipped@.len() - i,
    {
        if i > 0 {
            text.append("; ");
        }
        text.append(skipped[i].as_str());
        i = i + 1;
    }
    text.append(".");
    Some(text)
}

/// The heading over a converted file's drawing.
pub fn foreign_title(kind: &str, shapes: usize) -> (text: String)
    ensures
        text@ == "Converted "@ + kind@ + " · "@ + decimal(shapes as nat) + " shapes"@,
{
    let mut text = "Converted ".to_owned();
    text.append(kind);
    text.append(" · ");
    push_decimal(&mut text, shapes as u64);
    text.append(" shapes");
    text
}

/// Asks what to do with a vector file read from `name`; `file_name` is the
/// last part of it.
pub fn offer_vector(
    name: &str,
    file_name: Option<&str>,
    kind: &str,
    svg: &str,
    pages: usize,
    picture: bool,
) -> (offer: VectorOffer)
    ensures
        offer.name@ == (match file_name {
            Some(n) => n@,
            None => name@,
        }),
        offer.kind@ == kind@,
        offer.shapes == paths_in(svg@, svg@.len()),
        offer.pages == pages,
        offer.side == 2000,
        offer.picture == picture,
{
    VectorOffer {
        name: crate::desktop::files::dropped_name(file_name, name),
        kind: kind.to_owned(),
        shapes: shape_count(svg),
        pages,
        side: 2000,
        picture,
    }
}

impl DesktopView {
    pub open spec fn with_path(self, path: Seq<char>) -> DesktopView {
        DesktopView { picture: PictureView { path, ..self.picture }, ..self }
    }

    /// After the offered file was kept as it is: what was open goes, as when
    /// a picture is opened.
    pub open spec fn keep_offer(self, offer: VectorOffer) -> DesktopView {
        let s = self.close();
        (DesktopView {
            picture: PictureView {
                path: offer.name@,
                loaded_path: offer.name@,
                ..s.picture
            },
            versions: Versions { document: after(s.versions.document), ..s.versions },
            ..s
        }).with_status(StatusKind::Done, kept_text(offer))
    }
}

pub open spec fn kept_text(offer: VectorOffer) -> Seq<char> {
    "Converted: the "@ + offer.kind@ + "'s "@ + decimal(offer.shapes as nat)
        + " shapes, kept exactly. Save them as any format."@
}

impl Desktop {
    /// The offered file is left alone.
    pub fn cancel_offer(&mut self)
        ensures
            final(self)@ == old(self)@.with_path(old(self)@.picture.loaded_path),
    {
        self.picture.path = self.picture.loaded_path.as_str().to_owned();
    }

    /// Opens the offered file drawn as a picture, or its own picture, and
    /// starts tracing it; `drawn` says why there is none. Whether it started.
    pub fn trace_offer(
        &mut self,
        offer: &VectorOffer,
        drawn: Result<Loaded, String>,
        limit: usize,
        shortcut: &str,
    ) -> (started: bool)
        requires
            old(self)@.history.ok(),
        ensures
            ({
                let opened = old(self)@.with_path(offer.name@).take_loaded(
                    error_view(drawn),
                    limit,
                    shortcut@,
                );
                &&& started == (drawn is Ok && opened.idle())
                &&& final(self)@ == (if started {
                    opened.start()
                } else {
                    opened
                })
            }),
            final(self)@.history.ok(),
    {
        self.picture.path = offer.name.as_str().to_owned();
        let opened = drawn.is_ok();
        self.take_loaded(drawn, limit, shortcut);
        if opened && self.idle() {
            self.start()
        } else {
            false
        }
    }

    /// Keeps the offered file's shapes as they are, shown and ready to save;
    /// `drawn` says why it cannot be drawn. Whether it is kept.
    pub fn convert_offer(&mut self, offer: &VectorOffer, drawn: Result<(), String>) -> (kept: bool)
        requires
            old(self)@.history.ok(),
        ensures
            kept == (drawn is Ok),
            final(self)@ == (match drawn {
                Ok(_) => old(self)@.keep_offer(*offer),
                Err(error) => old(self)@.with_path(old(self)@.picture.loaded_path).with_status(
                    StatusKind::Error,
                    error@,
                ),
            }),
            final(self)@.history.ok(),
    {
        match drawn {
            Err(error) => {
                self.picture.path = self.picture.loaded_path.as_str().to_owned();
                self.set_status(StatusKind::Error, error.as_str());
                false
            },
            Ok(_) => {
                self.close();
                self.picture.path = offer.name.as_str().to_owned();
                self.picture.loaded_path = offer.name.as_str().to_owned();
                self.versions.document = count_up(self.versions.document);
                let mut text = "Converted: the ".to_owned();
                text.append(offer.kind.as_str());
                text.append("'s ");
                push_decimal(&mut text, offer.shapes as u64);
                text.append(" shapes, kept exactly. Save them as any format.");
                self.set_status(StatusKind::Done, text.as_str());
                true
            },
        }
    }
}

/// An offer that is cancelled, or that cannot be drawn, leaves the open
/// picture with its result, edits and Undo.
pub proof fn law_a_cancelled_offer_keeps_the_picture(s: DesktopView, name: Seq<char>)
    requires
        s.picture.path == s.picture.loaded_path,
    ensures
        s.with_path(name).with_path(s.picture.loaded_path) == s,
{
}

} // verus!
