//! The footer, the popups and the menus: what they say.
use crate::desktop::files::StageState;
use crate::desktop::StatusKind;
use crate::format::Format;
use crate::prefs::{lines_of, place_of};
use crate::text::{chars_of, counted, decimal, part, push_counted, push_decimal};
use vstd::prelude::*;

verus! {

/// The status line as the footer shows it: with the seconds it has taken, in
/// words, while something runs.
pub fn status_text(kind: StatusKind, text: &str, seconds: &str) -> (shown: String)
    ensures
        shown@ == (if kind == StatusKind::Busy {
            text@ + "  "@ + seconds@ + " s"@
        } else {
            text@
        }),
{
    let mut shown = text.to_owned();
    if kind == StatusKind::Busy {
        shown.append("  ");
        shown.append(seconds);
        shown.append(" s");
    }
    shown
}

/// The tip over the count of nodes.
pub fn nodes_tip(shown: bool) -> (text: &'static str)
    ensures
        text@ == (if shown {
            "Curve nodes are shown. Click to hide them.  (N)"@
        } else {
            "Click to show the curve nodes.  (N)"@
        }),
{
    if shown {
        "Curve nodes are shown. Click to hide them.  (N)"
    } else {
        "Click to show the curve nodes.  (N)"
    }
}

/// The tip over the count of segments: how many were traced.
pub fn segments_tip(simplify: bool, segments: usize, nodes: usize) -> (text: String)
    ensures
        text@ == (if simplify {
            "Simplified from the traced "@ + decimal(segments as nat) + " segments and "@
                + decimal(nodes as nat)
                + " nodes. Click to show the exact traced curves."@
        } else {
            "The exact traced curves. Click to simplify them."@
        }),
{
    if !simplify {
        return "The exact traced curves. Click to simplify them.".to_owned();
    }
    let mut text = "Simplified from the traced ".to_owned();
    push_decimal(&mut text, segments as u64);
    text.append(" segments and ");
    push_decimal(&mut text, nodes as u64);
    text.append(" nodes. Click to show the exact traced curves.");
    text
}

pub open spec fn side_by_side(w: int, h: int) -> Seq<char> {
    decimal(w as nat) + " × "@ + decimal(h as nat)
}

/// The picture's size, and the size it is saved at where that is larger.
pub fn size_text(w: usize, h: usize, output: Option<(u32, u32)>) -> (text: String)
    ensures
        text@ == (match output {
            Some((ow, oh)) => side_by_side(w as int, h as int) + " → "@ + side_by_side(ow as int, oh as int) + " px"@,
            None => side_by_side(w as int, h as int) + " px"@,
        }),
{
    let mut text = crate::text::decimal_text(w as u64);
    text.append(" × ");
    push_decimal(&mut text, h as u64);
    if let Some((ow, oh)) = output {
        let ghost head = text@;
        text.append(" → ");
        push_decimal(&mut text, ow as u64);
        text.append(" × ");
        push_decimal(&mut text, oh as u64);
        assert(text@ =~= head + " → "@ + side_by_side(ow as int, oh as int));
    }
    text.append(" px");
    text
}

pub fn size_tip(larger: bool) -> (text: &'static str)
    ensures
        text@ == (if larger {
            "Source size and the pixel size the file is saved at. Click to change."@
        } else {
            "Source size; the file is saved at this pixel size. Click to save larger."@
        }),
{
    if larger {
        "Source size and the pixel size the file is saved at. Click to change."
    } else {
        "Source size; the file is saved at this pixel size. Click to save larger."
    }
}

/// The tip over a colour of the palette.
pub fn swatch_tip(hex: &str, paths: usize) -> (text: String)
    ensures
        text@ == counted(paths as nat, "path"@) + ". Click to copy "@ + hex@ + "."@,
{
    let mut text = String::new();
    push_counted(&mut text, paths as u64, "path");
    assert(text@ =~= counted(paths as nat, "path"@));
    text.append(". Click to copy ");
    text.append(hex);
    text.append(".");
    text
}

/// Whether a colour can be dropped, and why not.
pub fn drop_offer(colors: usize, idle: bool) -> (offer: (bool, &'static str))
    ensures
        offer.0 == (colors > 1 && idle),
        offer.1@ == (if colors > 1 {
            "Wait for the conversion, dialog or save to finish"@
        } else {
            "The last color stays; convert with more colors first."@
        }),
{
    (
        colors > 1 && idle,
        if colors > 1 {
            "Wait for the conversion, dialog or save to finish"
        } else {
            "The last color stays; convert with more colors first."
        },
    )
}

/// The first line of a text.
pub open spec fn first_line_of(text: Seq<char>) -> Seq<char> {
    if lines_of(text).len() > 0 {
        lines_of(text)[0]
    } else {
        Seq::empty()
    }
}

/// The first 44 characters of the first line, and a sign where more follow.
pub open spec fn shortened(text: Seq<char>) -> Seq<char> {
    let line = first_line_of(text);
    if line.len() > 44 {
        line.subrange(0, 44) + "…"@
    } else {
        line
    }
}

fn shorten(text: &str) -> (short: String)
    ensures
        short@ == shortened(text@),
{
    let all = chars_of(text);
    let len: usize = all.len();
    let mut k: usize = 0;
    while k < len && all[k] != '\n'
        invariant
            k <= len,
            len == all@.len(),
            place_of(all@, '\n', 0) == place_of(all@, '\n', k as int),
        decreases len - k,
    {
        k = k + 1;
    }
    let mut end: usize = k;
    if k < len && k > 0 && all[k - 1] == '\r' {
        end = k - 1;
    }
    let ghost line = first_line_of(text@);
    assert(line == all@.subrange(0, end as int)) by {
        if len == 0 {
            assert(all@.subrange(0, 0) =~= Seq::<char>::empty());
        } else if k == len {
            assert(all@.subrange(0, len as int) =~= all@);
        } else {
            let head = all@.subrange(0, k as int);
            assert(crate::prefs::without_return(head) =~= all@.subrange(0, end as int));
        }
    }
    if end > 44 {
        let mut short = part(all.as_slice(), 0, 44);
        assert(line.subrange(0, 44) =~= all@.subrange(0, 44));
        short.append("…");
        short
    } else {
        part(all.as_slice(), 0, end)
    }
}

/// What the Save popup says of the file to drag out: that it is there, being
/// written, or why it could not be.
pub fn save_note(state: &StageState, in_browser: bool, format: Format) -> (text: String)
    ensures
        text@ == (match *state {
            StageState::Ready(_) => if in_browser {
                "Click to download"@
            } else {
                "Drag onto your desktop or into a folder"@
            },
            StageState::Writing => "Writing the "@ + format.label_of() + "…"@,
            StageState::Failed(error) => shortened(error@),
        }),
{
    match state {
        StageState::Ready(_) => if in_browser {
            "Click to download".to_owned()
        } else {
            "Drag onto your desktop or into a folder".to_owned()
        },
        StageState::Writing => {
            let mut text = "Writing the ".to_owned();
            text.append(format.label());
            text.append("…");
            text
        },
        StageState::Failed(error) => shorten(error.as_str()),
    }
}

/// The Save button's tip; `shortcut` is the key that presses it.
pub fn save_tip(in_browser: bool, shortcut: &str) -> (text: String)
    ensures
        text@ == "Save as SVG, PDF or EPS, "@ + (if in_browser {
            "as a download"@
        } else {
            "or drag the file out"@
        }) + "  ("@ + shortcut@ + ")"@,
{
    let mut text = "Save as SVG, PDF or EPS, ".to_owned();
    text.append(
        if in_browser {
            "as a download"
        } else {
            "or drag the file out"
        },
    );
    text.append("  (");
    text.append(shortcut);
    text.append(")");
    text
}

/// What the theme choices' tips say.
pub fn theme_tip(theme: crate::look::ThemeChoice) -> (text: &'static str)
    ensures
        text@ == (match theme {
            crate::look::ThemeChoice::System => "Follow Windows' light or dark setting"@,
            crate::look::ThemeChoice::Dark => "Always dark"@,
            crate::look::ThemeChoice::Light => "Always light"@,
        }),
{
    match theme {
        crate::look::ThemeChoice::System => "Follow Windows' light or dark setting",
        crate::look::ThemeChoice::Dark => "Always dark",
        crate::look::ThemeChoice::Light => "Always light",
    }
}

/// The entry of a shape's menu that merges the selection into its colour.
pub fn merge_label(others: usize, color: &str) -> (text: String)
    ensures
        text@ == "Merge "@ + decimal(others as nat) + " selected into "@ + color@,
{
    let mut text = "Merge ".to_owned();
    push_decimal(&mut text, others as u64);
    text.append(" selected into ");
    text.append(color);
    text
}

} // verus!
