//! The file formats that Save offers.
use crate::dxf::DxfMode;
use vstd::prelude::*;

verus! {

/// A file format, chosen before any dialog opens.
#[derive(Clone, Copy, Debug, PartialEq, Eq, Structural)]
pub enum Format {
    Svg,
    Pdf,
    Eps,
    Ai,
    Dxf,
    Emf,
    Png,
}

/// What the exporter writes.
#[derive(Clone, Copy, Debug, PartialEq, Eq, Structural)]
pub enum OutputKind {
    Svg,
    Pdf,
    Eps,
    Ai,
    Dxf,
    Emf,
    Png,
}

/// Every format, in the order of the save dialog's filters.
pub open spec fn formats() -> Seq<Format> {
    seq![
        Format::Svg,
        Format::Pdf,
        Format::Eps,
        Format::Ai,
        Format::Dxf,
        Format::Emf,
        Format::Png,
    ]
}

/// How the exporters write what they are given.
#[derive(Clone, Copy, Debug, PartialEq, Eq, Structural)]
pub struct ExportOptions {
    /// Cut-out shapes are grouped by colour.
    pub grouped: bool,
    /// Every shape's outline is drawn too.
    pub stroke: bool,
    /// How a DXF writes curves.
    pub dxf: DxfMode,
}

impl Format {
    pub open spec fn label_of(self) -> Seq<char> {
        match self {
            Format::Svg => "SVG"@,
            Format::Pdf => "PDF"@,
            Format::Eps => "EPS"@,
            Format::Ai => "AI"@,
            Format::Dxf => "DXF"@,
            Format::Emf => "EMF"@,
            Format::Png => "PNG"@,
        }
    }

    pub open spec fn extension_of(self) -> Seq<char> {
        match self {
            Format::Svg => "svg"@,
            Format::Pdf => "pdf"@,
            Format::Eps => "eps"@,
            Format::Ai => "ai"@,
            Format::Dxf => "dxf"@,
            Format::Emf => "emf"@,
            Format::Png => "png"@,
        }
    }

    /// The position in the save dialog's filters, from 1.
    pub open spec fn position(self) -> int {
        match self {
            Format::Svg => 1,
            Format::Pdf => 2,
            Format::Eps => 3,
            Format::Ai => 4,
            Format::Dxf => 5,
            Format::Emf => 6,
            Format::Png => 7,
        }
    }

    /// Every format, in the order of the save dialog's filters.
    pub fn all() -> (list: [Format; 7])
        ensures
            list@ == formats(),
    {
        let list = [
            Format::Svg,
            Format::Pdf,
            Format::Eps,
            Format::Ai,
            Format::Dxf,
            Format::Emf,
            Format::Png,
        ];
        assert(list@ =~= formats());
        list
    }

    pub fn label(self) -> (text: &'static str)
        ensures
            text@ == self.label_of(),
    {
        match self {
            Format::Svg => "SVG",
            Format::Pdf => "PDF",
            Format::Eps => "EPS",
            Format::Ai => "AI",
            Format::Dxf => "DXF",
            Format::Emf => "EMF",
            Format::Png => "PNG",
        }
    }

    pub fn extension(self) -> (text: &'static str)
        ensures
            text@ == self.extension_of(),
    {
        match self {
            Format::Svg => "svg",
            Format::Pdf => "pdf",
            Format::Eps => "eps",
            Format::Ai => "ai",
            Format::Dxf => "dxf",
            Format::Emf => "emf",
            Format::Png => "png",
        }
    }

    /// What the format is for.
    pub fn hint(self) -> (text: &'static str)
        ensures
            text@ == (match self {
                Format::Svg =>
                    "The curves exactly as shown. Opens in every editor and browser."@,
                Format::Pdf =>
                    "One vector page, transparency kept. Made by the local exporter."@,
                Format::Eps =>
                    "PostScript on white. Partial transparency is refused rather than rasterized."@,
                Format::Ai =>
                    "Adobe Illustrator: a PDF-compatible file every current Illustrator opens."@,
                Format::Dxf =>
                    "AutoCAD and cutting machines: the outlines, as curves or as lines (below)."@,
                Format::Emf =>
                    "Windows metafile, for Office and other Windows programs. No partial transparency."@,
                Format::Png => "The drawing as pixels, at the size above, on transparency."@,
            }),
    {
        match self {
            Format::Svg => "The curves exactly as shown. Opens in every editor and browser.",
            Format::Pdf => "One vector page, transparency kept. Made by the local exporter.",
            Format::Eps =>
                "PostScript on white. Partial transparency is refused rather than rasterized.",
            Format::Ai =>
                "Adobe Illustrator: a PDF-compatible file every current Illustrator opens.",
            Format::Dxf =>
                "AutoCAD and cutting machines: the outlines, as curves or as lines (below).",
            Format::Emf =>
                "Windows metafile, for Office and other Windows programs. No partial transparency.",
            Format::Png => "The drawing as pixels, at the size above, on transparency.",
        }
    }

    /// The position in the save dialog's filters, from 1.
    pub fn filter_index(self) -> (index: u32)
        ensures
            index == self.position(),
            1 <= index <= 7,
            formats()[index - 1] == self,
    {
        match self {
            Format::Svg => 1,
            Format::Pdf => 2,
            Format::Eps => 3,
            Format::Ai => 4,
            Format::Dxf => 5,
            Format::Emf => 6,
            Format::Png => 7,
        }
    }

    /// The format at a position in the filters; SVG for a position that is
    /// none.
    pub fn from_filter_index(index: u32) -> (format: Format)
        ensures
            1 <= index <= 7 ==> format == formats()[index - 1],
            !(1 <= index <= 7) ==> format == Format::Svg,
    {
        match index {
            2 => Format::Pdf,
            3 => Format::Eps,
            4 => Format::Ai,
            5 => Format::Dxf,
            6 => Format::Emf,
            7 => Format::Png,
            _ => Format::Svg,
        }
    }

    pub fn kind(self) -> (kind: OutputKind)
        ensures
            kind == (match self {
                Format::Svg => OutputKind::Svg,
                Format::Pdf => OutputKind::Pdf,
                Format::Eps => OutputKind::Eps,
                Format::Ai => OutputKind::Ai,
                Format::Dxf => OutputKind::Dxf,
                Format::Emf => OutputKind::Emf,
                Format::Png => OutputKind::Png,
            }),
    {
        match self {
            Format::Svg => OutputKind::Svg,
            Format::Pdf => OutputKind::Pdf,
            Format::Eps => OutputKind::Eps,
            Format::Ai => OutputKind::Ai,
            Format::Dxf => OutputKind::Dxf,
            Format::Emf => OutputKind::Emf,
            Format::Png => OutputKind::Png,
        }
    }

    pub open spec fn mime_of(self) -> Seq<char> {
        match self {
            Format::Svg => "image/svg+xml"@,
            Format::Pdf => "application/pdf"@,
            Format::Eps => "application/postscript"@,
            Format::Ai => "application/illustrator"@,
            Format::Dxf => "image/vnd.dxf"@,
            Format::Emf => "image/emf"@,
            Format::Png => "image/png"@,
        }
    }

    pub fn mime(self) -> (text: &'static str)
        ensures
            text@ == self.mime_of(),
    {
        match self {
            Format::Svg => "image/svg+xml",
            Format::Pdf => "application/pdf",
            Format::Eps => "application/postscript",
            Format::Ai => "application/illustrator",
            Format::Dxf => "image/vnd.dxf",
            Format::Emf => "image/emf",
            Format::Png => "image/png",
        }
    }
}

/// The filters' positions tell the formats apart: each format stands at its
/// own position, and no other does.
pub proof fn law_filters_tell_formats_apart(a: Format, b: Format)
    ensures
        1 <= a.position() <= formats().len(),
        formats()[a.position() - 1] == a,
        a.position() == b.position() ==> a == b,
{
}

} // verus!
