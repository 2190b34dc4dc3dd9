//! DXF, AutoCAD's drawing exchange format, in three ways: lines and spline
//! curves, and lines only in a finer and a coarser cut.
//!
//! Coordinates are the page's points with y up; DXF has no unit for points,
//! so the header says unitless and the extents are the page. Every colour is
//! one layer named `COLOR_RRGGBB` with the nearest AutoCAD colour index, and
//! every entity carries that index and, in the spline mode's R2000 file, its
//! exact colour. Every subpath is one outline, closed when the path closes it
//! or fills it, open otherwise. Opacity has no place in these entities and is
//! not written.
pub mod chord;
pub mod colour;
pub mod curves;
pub mod drawing;
pub mod entries;
pub mod flatten;
pub mod layers;
pub mod ledger;
pub mod lines;
pub mod outline;
pub mod paint;
pub mod pairs;
pub mod places;
pub mod refusals;
pub mod shades;
pub mod sheet;
pub mod splines;
pub mod unique;

use crate::dxf::drawing::{is_drawing_of, Drawing};
use crate::dxf::flatten::{Refusal, COARSE_TOLERANCE, FINE_TOLERANCE};
use crate::dxf::lines::{r12, r12_lines};
use crate::dxf::pairs::render;
use crate::dxf::sheet::r2000_groups;
use crate::dxf::splines::r2000;
use crate::geometry::Page;
use vstd::prelude::*;
use vstd::utf8::encode_utf8;

verus! {

/// How a DXF writes curves.
#[derive(Clone, Copy, Debug, PartialEq, Eq, Structural)]
pub enum DxfMode {
    /// Lines and spline curves.
    Splines,
    /// Lines only, curves cut into more of them (a larger file).
    FineLines,
    /// Lines only, curves cut into fewer of them (a smaller file).
    CoarseLines,
}

/// What is said of a drawing that is not written.
pub open spec fn refusal_text(refusal: Refusal) -> Seq<char> {
    match refusal {
        Refusal::TooLarge => "The drawing is too large to write as lines"@,
        Refusal::TooManyVertices => "The drawing has too many curve points to write as lines"@,
    }
}

fn refusal_message(refusal: Refusal) -> (text: String)
    ensures
        text@ == refusal_text(refusal),
{
    match refusal {
        Refusal::TooLarge => "The drawing is too large to write as lines".to_owned(),
        Refusal::TooManyVertices => {
            "The drawing has too many curve points to write as lines".to_owned()
        },
    }
}

/// The text of the file that shows `drawing`, or why there is none: a spline
/// file is never refused.
pub open spec fn file_text(page: Page, drawing: Drawing, mode: DxfMode) -> Result<
    Seq<char>,
    Refusal,
> {
    let (w, h) = (page.width as int, page.height as int);
    match mode {
        DxfMode::Splines => Ok(render(r2000_groups(w, h, drawing))),
        DxfMode::FineLines => match r12_lines(w, h, drawing, FINE_TOLERANCE as int) {
            Ok(lines) => Ok(render(lines.groups)),
            Err(e) => Err(e),
        },
        DxfMode::CoarseLines => match r12_lines(w, h, drawing, COARSE_TOLERANCE as int) {
            Ok(lines) => Ok(render(lines.groups)),
            Err(e) => Err(e),
        },
    }
}

/// `file` is what becomes of `drawing`, which shows `page`: the bytes of its
/// file, or the reason there is none.
pub open spec fn is_file_of(
    page: Page,
    drawing: Drawing,
    mode: DxfMode,
    file: Result<Vec<u8>, String>,
) -> bool {
    match file_text(page, drawing, mode) {
        Ok(text) => file matches Ok(bytes) && bytes@ == encode_utf8(text),
        Err(e) => file matches Err(said) && said@ == refusal_text(e),
    }
}

/// `file` is what becomes of `page`, by its drawing.
pub open spec fn is_dxf_of(page: Page, mode: DxfMode, file: Result<Vec<u8>, String>) -> bool {
    exists|drawing: Drawing| #[trigger]
        is_drawing_of(drawing, page) && drawing.ok() && is_file_of(page, drawing, mode, file)
}

/// The DXF of a page, its curves written as `mode` says. `read` is what came
/// of reading the drawing: what the reader refuses is refused here too.
pub fn to_dxf(read: Result<Page, String>, mode: DxfMode) -> (file: Result<Vec<u8>, String>)
    requires
        read matches Ok(page) ==> page.ok(),
    ensures
        match read {
            Ok(page) => is_dxf_of(page, mode, file),
            Err(said) => file == Err::<Vec<u8>, String>(said),
        },
        mode is Splines ==> (file is Ok <==> read is Ok),
{
    let page = match read {
        Ok(page) => page,
        Err(said) => {
            return Err(said);
        },
    };
    let drawing = Drawing::of(&page);
    let text = match mode {
        DxfMode::Splines => Ok(r2000(&page, &drawing)),
        DxfMode::FineLines => r12(&page, &drawing, FINE_TOLERANCE),
        DxfMode::CoarseLines => r12(&page, &drawing, COARSE_TOLERANCE),
    };
    let file = match text {
        Ok(text) => Ok(text.as_str().as_bytes_vec()),
        Err(e) => Err(refusal_message(e)),
    };
    assert(is_drawing_of(drawing, page));
    file
}

} // verus!
