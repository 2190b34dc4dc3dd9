//! The rail's cards: what their headings and lines say, what their controls
//! offer, and what a choice sets.
use crate::auto::{category_name, name_of, quality_name, quality_word};
use crate::desktop::Traced;
use crate::recolor::{is_same_word, same_word, Island};
use crate::settings::{Manual, Rgb, Sliders};
use crate::text::{counted, decimal, push_counted, push_decimal};
use vstd::prelude::*;

verus! {

/// A category and a quality in words.
pub open spec fn kind_text(m: Manual) -> Seq<char> {
    name_of(m.category) + " · "@ + quality_word(m.quality)
}

pub open spec fn conversion_summary_of(
    automatic: bool,
    detected: Option<Manual>,
    chosen: Manual,
) -> Seq<char> {
    if !automatic {
        kind_text(chosen)
    } else {
        match detected {
            Some(d) => "Auto · "@ + kind_text(d),
            None => "Auto settings"@,
        }
    }
}

fn kind_line(m: Manual) -> (text: String)
    ensures
        text@ == kind_text(m),
{
    let mut text = category_name(m.category).to_owned();
    text.append(" · ");
    text.append(quality_name(m.quality));
    text
}

/// The Conversion card's heading.
pub fn conversion_summary(automatic: bool, detected: Option<Manual>, chosen: Manual) -> (text:
    String)
    ensures
        text@ == conversion_summary_of(automatic, detected, chosen),
{
    if !automatic {
        return kind_line(chosen);
    }
    match detected {
        Some(d) => {
            let mut text = "Auto · ".to_owned();
            let kind = kind_line(d);
            text.append(kind.as_str());
            text
        },
        None => "Auto settings".to_owned(),
    }
}

/// What the automatic settings found, once there is a picture.
pub fn detected_line(detected: Manual) -> (text: String)
    ensures
        text@ == kind_text(detected) + " quality"@,
{
    let mut text = kind_line(detected);
    text.append(" quality");
    text
}

/// What a limit of colours shows.
pub fn colors_label(colors: Option<usize>) -> (text: String)
    ensures
        text@ == (match colors {
            Some(n) => decimal(n as nat),
            None => "All"@,
        }),
{
    match colors {
        Some(n) => crate::text::decimal_text(n as u64),
        None => "All".to_owned(),
    }
}

/// A colour as the colour controls name it.
#[derive(Clone, Copy, Debug, PartialEq, Eq, Structural)]
pub enum Named {
    Black,
    White,
    Custom,
}

pub open spec fn black() -> Rgb {
    Rgb { r: 0, g: 0, b: 0 }
}

pub open spec fn paper() -> Rgb {
    Rgb { r: 255, g: 255, b: 255 }
}

pub open spec fn name_of_colour(c: Rgb) -> Named {
    if c == black() {
        Named::Black
    } else if c == paper() {
        Named::White
    } else {
        Named::Custom
    }
}

pub open spec fn colour_named(name: Named, custom: Rgb) -> Rgb {
    match name {
        Named::Black => black(),
        Named::White => paper(),
        Named::Custom => custom,
    }
}

/// What a colour control shows.
pub fn shown_colour(c: Rgb) -> (name: Named)
    ensures
        name == name_of_colour(c),
{
    if c == (Rgb { r: 0, g: 0, b: 0 }) {
        Named::Black
    } else if c == (Rgb { r: 255, g: 255, b: 255 }) {
        Named::White
    } else {
        Named::Custom
    }
}

/// Takes a choice in a colour control: another name than the one shown sets
/// its colour, and a colour picked while the custom one is shown is kept for
/// the next time. Whether the colour changed.
pub fn color_choice(rgb: &mut Rgb, custom: &mut Rgb, picked: Option<Rgb>, choice: Named) -> (changed:
    bool)
    ensures
        ({
            let shown = name_of_colour(*old(rgb));
            let take = picked is Some && shown == Named::Custom && picked != Some(*old(rgb));
            let kept = if take {
                picked->0
            } else {
                *old(rgb)
            };
            &&& *final(custom) == (if take {
                picked->0
            } else {
                *old(custom)
            })
            &&& *final(rgb) == (if choice != name_of_colour(kept) {
                colour_named(choice, *final(custom))
            } else {
                kept
            })
            &&& changed == (take || choice != name_of_colour(kept))
        }),
{
    let mut changed = false;
    if let Some(p) = picked {
        if shown_colour(*rgb) == Named::Custom && p != *rgb {
            *rgb = p;
            *custom = p;
            changed = true;
        }
    }
    if choice != shown_colour(*rgb) {
        *rgb = match choice {
            Named::Black => Rgb { r: 0, g: 0, b: 0 },
            Named::White => Rgb { r: 255, g: 255, b: 255 },
            Named::Custom => *custom,
        };
        changed = true;
    }
    changed
}

/// What a transparent picture is laid on: nothing, or a colour.
pub open spec fn background_after(
    background: Option<Rgb>,
    choice: Option<Named>,
    custom: Rgb,
) -> Option<Rgb> {
    let shown = match background {
        Some(c) => Some(name_of_colour(c)),
        None => None,
    };
    if choice == shown {
        background
    } else {
        match choice {
            Some(name) => Some(colour_named(name, custom)),
            None => None,
        }
    }
}

/// Takes a choice in the Background control: `None` keeps the transparency.
pub fn choose_background(background: Option<Rgb>, choice: Option<Named>, custom: Rgb) -> (after:
    Option<Rgb>)
    ensures
        after == background_after(background, choice, custom),
{
    match (background, choice) {
        (None, None) => None,
        (Some(_), None) => None,
        (shown, Some(name)) => {
            if let Some(c) = shown {
                if shown_colour(c) == name {
                    return Some(c);
                }
            }
            Some(
                match name {
                    Named::Black => Rgb { r: 0, g: 0, b: 0 },
                    Named::White => Rgb { r: 255, g: 255, b: 255 },
                    Named::Custom => custom,
                },
            )
        },
    }
}

/// The line under the optional pass's switch when the document ran it.
pub fn optimizer_note(traced: &Traced) -> (note: Option<&'static str>)
    ensures
        note is Some == traced.optional_optimizer,
        note matches Some(text) ==> text@ == (if traced.optimizer_kept {
            "Smooth joins applied."@
        } else if traced.optimizer_ran {
            "Smooth joins would have worsened the fit; kept the plain curves."@
        } else {
            "Smooth joins could not run on this picture; kept the plain curves."@
        }),
{
    if !traced.optional_optimizer {
        return None;
    }
    Some(
        if traced.optimizer_kept {
            "Smooth joins applied."
        } else if traced.optimizer_ran {
            "Smooth joins would have worsened the fit; kept the plain curves."
        } else {
            "Smooth joins could not run on this picture; kept the plain curves."
        },
    )
}

/// The Curves card's heading; `tolerance` is the tolerance in words.
pub fn curves_summary(simplify: bool, tolerance: &str, straighten: bool) -> (text: String)
    ensures
        text@ == (if simplify {
            "Simplify "@ + tolerance@ + " px"@
        } else {
            "Exact curves"@
        }) + (if straighten {
            " · straightened"@
        } else {
            ""@
        }),
{
    let mut text = if simplify {
        let mut t = "Simplify ".to_owned();
        t.append(tolerance);
        t.append(" px");
        t
    } else {
        "Exact curves".to_owned()
    };
    text.append(if straighten {
        " · straightened"
    } else {
        ""
    });
    text
}

/// What the bow's label says.
pub fn bow_label(auto: bool, bow: &str) -> (text: String)
    ensures
        text@ == (if auto {
            "Auto · "@ + bow@ + " px"@
        } else {
            bow@ + " px"@
        }),
{
    if auto {
        let mut text = "Auto · ".to_owned();
        text.append(bow);
        text.append(" px");
        text
    } else {
        let mut text = bow.to_owned();
        text.append(" px");
        text
    }
}

pub open spec fn nodes_counted(counts: Option<(usize, usize)>, simplify: bool) -> Seq<char> {
    match counts {
        Some((before, after)) => if simplify && after != before {
            decimal(before as nat) + " → "@ + decimal(after as nat) + " nodes"@
        } else {
            decimal(before as nat) + " nodes"@
        },
        None => Seq::empty(),
    }
}

/// The line under the curves: the nodes as traced and as shown, and whether
/// the document is being drawn again. Nothing before a result.
pub fn curves_note(counts: Option<(usize, usize)>, simplify: bool, pending: bool) -> (text: String)
    ensures
        text@ == nodes_counted(counts, simplify) + (if pending && counts is Some {
            " · updating…"@
        } else {
            Seq::empty()
        }),
{
    let mut text = String::new();
    let ghost none = Seq::<char>::empty();
    assert(text@ =~= none);
    if let Some((before, after)) = counts {
        push_decimal(&mut text, before as u64);
        assert(text@ =~= decimal(before as nat));
        if simplify && after != before {
            text.append(" → ");
            push_decimal(&mut text, after as u64);
            text.append(" nodes");
        } else {
            text.append(" nodes");
        }
        if pending {
            text.append(" · updating…");
        }
    }
    assert(text@ =~= nodes_counted(counts, simplify) + (if pending && counts is Some {
        " · updating…"@
    } else {
        none
    }));
    text
}

/// The Nodes card's heading: how many are shown, or that edits by hand are
/// there to restore.
pub fn nodes_summary(shown: bool, count: Option<usize>, by_hand: u64) -> (text: String)
    ensures
        text@ == (if shown {
            match count {
                Some(n) => decimal(n as nat) + " shown"@,
                None => "Shown"@,
            }
        } else if by_hand > 0 {
            "Hidden · "@ + decimal(by_hand as nat) + " edited by hand"@
        } else {
            "Hidden"@
        }),
{
    if shown {
        match count {
            Some(n) => {
                let mut text = crate::text::decimal_text(n as u64);
                text.append(" shown");
                text
            },
            None => "Shown".to_owned(),
        }
    } else if by_hand > 0 {
        let mut text = "Hidden · ".to_owned();
        push_decimal(&mut text, by_hand);
        text.append(" edited by hand");
        text
    } else {
        "Hidden".to_owned()
    }
}

/// One kind of edit by hand among several.
pub open spec fn joined(before: Seq<char>, n: int, what: Seq<char>) -> Seq<char> {
    if n == 0 {
        before
    } else if before.len() == 0 {
        decimal(n as nat) + what
    } else {
        before + " · "@ + decimal(n as nat) + what
    }
}

pub open spec fn by_hand_text(rounded: int, squared: int, moved: int, deleted: int) -> Seq<char> {
    joined(
        joined(
            joined(joined(Seq::empty(), rounded, " rounded"@), squared, " squared"@),
            moved,
            " moved"@,
        ),
        deleted,
        " deleted"@,
    )
}

/// What the Nodes card says of the edits by hand.
pub open spec fn nodes_note_of(rounded: int, squared: int, moved: int, deleted: int) -> Seq<char> {
    if rounded == 0 && squared == 0 && moved == 0 && deleted == 0 {
        "Click a node to round its corner, drag it to move it, right-click to delete it and more. Ctrl+Z undoes."@
    } else if squared == 0 && moved == 0 && deleted == 0 {
        if rounded == 1 {
            "1 corner rounded. Click it again to restore it."@
        } else {
            decimal(rounded as nat) + " corners rounded. Click one again to restore it."@
        }
    } else if rounded == 0 && squared == 0 && deleted == 0 {
        counted(moved as nat, "node"@) + " moved. Right-click one to put it back."@
    } else if rounded == 0 && squared == 0 && moved == 0 {
        counted(deleted as nat, "node"@) + " deleted. Ctrl+Z brings the last back."@
    } else {
        by_hand_text(rounded, squared, moved, deleted) + " by hand."@
    }
}

fn join(text: &mut String, empty: bool, n: usize, what: &str) -> (still_empty: bool)
    requires
        empty == (old(text)@.len() == 0),
        what@.len() > 0,
    ensures
        final(text)@ == joined(old(text)@, n as int, what@),
        still_empty == (final(text)@.len() == 0),
{
    if n == 0 {
        return empty;
    }
    let ghost before = text@;
    if !empty {
        text.append(" · ");
    }
    push_decimal(text, n as u64);
    text.append(what);
    assert(text@ =~= joined(before, n as int, what@));
    false
}

/// What the Nodes card says of the edits by hand.
pub fn nodes_note(rounded: usize, squared: usize, moved: usize, deleted: usize) -> (text: String)
    ensures
        text@ == nodes_note_of(rounded as int, squared as int, moved as int, deleted as int),
{
    if rounded == 0 && squared == 0 && moved == 0 && deleted == 0 {
        return "Click a node to round its corner, drag it to move it, right-click to delete it and more. Ctrl+Z undoes.".to_owned();
    }
    if squared == 0 && moved == 0 && deleted == 0 {
        if rounded == 1 {
            return "1 corner rounded. Click it again to restore it.".to_owned();
        }
        let mut text = crate::text::decimal_text(rounded as u64);
        text.append(" corners rounded. Click one again to restore it.");
        return text;
    }
    let mut text = String::new();
    let ghost none = Seq::<char>::empty();
    assert(text@ =~= none);
    if rounded == 0 && squared == 0 && deleted == 0 {
        push_counted(&mut text, moved as u64, "node");
        assert(text@ =~= counted(moved as nat, "node"@));
        text.append(" moved. Right-click one to put it back.");
        return text;
    }
    if rounded == 0 && squared == 0 && moved == 0 {
        push_counted(&mut text, deleted as u64, "node");
        assert(text@ =~= counted(deleted as nat, "node"@));
        text.append(" deleted. Ctrl+Z brings the last back.");
        return text;
    }
    proof {
        reveal_strlit(" rounded");
        reveal_strlit(" squared");
        reveal_strlit(" moved");
        reveal_strlit(" deleted");
    }
    let mut empty = true;
    empty = join(&mut text, empty, rounded, " rounded");
    empty = join(&mut text, empty, squared, " squared");
    empty = join(&mut text, empty, moved, " moved");
    join(&mut text, empty, deleted, " deleted");
    text.append(" by hand.");
    text
}

/// The buttons of the Nodes card.
#[derive(Clone, Copy, Debug)]
pub struct NodeButtons {
    pub restore_corners: bool,
    pub undo_squaring: bool,
    pub put_back: Option<&'static str>,
    pub bring_back: Option<&'static str>,
}

/// Which edits by hand the Nodes card offers to take back.
pub fn node_buttons(rounded: usize, squared: usize, moved: usize, deleted: usize) -> (b: NodeButtons)
    ensures
        b.restore_corners == (rounded > 1),
        b.undo_squaring == (squared > 0),
        b.put_back is Some == (moved > 0),
        b.put_back matches Some(text) ==> text@ == (if moved == 1 {
            "Put the node back"@
        } else {
            "Put all nodes back"@
        }),
        b.bring_back is Some == (deleted > 0),
        b.bring_back matches Some(text) ==> text@ == (if deleted == 1 {
            "Bring the node back"@
        } else {
            "Bring deleted nodes back"@
        }),
{
    NodeButtons {
        restore_corners: rounded > 1,
        undo_squaring: squared > 0,
        put_back: if moved == 0 {
            None
        } else if moved == 1 {
            Some("Put the node back")
        } else {
            Some("Put all nodes back")
        },
        bring_back: if deleted == 0 {
            None
        } else if deleted == 1 {
            Some("Bring the node back")
        } else {
            Some("Bring deleted nodes back")
        },
    }
}

/// The Shapes card's heading.
pub fn shapes_summary(selecting: bool, deleted: usize, merged: usize) -> (text: String)
    ensures
        text@ == (if selecting {
            "Selecting"@
        } else if deleted == 0 && merged == 0 {
            ""@
        } else if merged == 0 {
            decimal(deleted as nat) + " deleted"@
        } else if deleted == 0 {
            decimal(merged as nat) + " merged"@
        } else {
            decimal(deleted as nat) + " deleted · "@ + decimal(merged as nat) + " merged"@
        }),
{
    if selecting {
        return "Selecting".to_owned();
    }
    if deleted == 0 && merged == 0 {
        return "".to_owned();
    }
    if merged == 0 {
        let mut text = crate::text::decimal_text(deleted as u64);
        text.append(" deleted");
        text
    } else if deleted == 0 {
        let mut text = crate::text::decimal_text(merged as u64);
        text.append(" merged");
        text
    } else {
        let mut text = crate::text::decimal_text(deleted as u64);
        text.append(" deleted · ");
        push_decimal(&mut text, merged as u64);
        text.append(" merged");
        text
    }
}

/// The line under the Shapes card's controls.
pub fn shapes_note(deleted: usize, merged: usize) -> (text: String)
    ensures
        text@ == (if deleted == 0 && merged == 0 {
            ""@
        } else if merged == 0 {
            counted(deleted as nat, "shape"@) + " deleted."@
        } else if deleted == 0 {
            counted(merged as nat, "merge"@) + " applied."@
        } else {
            decimal(deleted as nat) + " deleted · "@ + decimal(merged as nat) + " merged."@
        }),
{
    if deleted == 0 && merged == 0 {
        return "".to_owned();
    }
    let mut text = String::new();
    let ghost none = Seq::<char>::empty();
    assert(text@ =~= none);
    if merged == 0 {
        push_counted(&mut text, deleted as u64, "shape");
        assert(text@ =~= counted(deleted as nat, "shape"@));
        text.append(" deleted.");
    } else if deleted == 0 {
        push_counted(&mut text, merged as u64, "merge");
        assert(text@ =~= counted(merged as nat, "merge"@));
        text.append(" applied.");
    } else {
        push_decimal(&mut text, deleted as u64);
        assert(text@ =~= decimal(deleted as nat));
        text.append(" deleted · ");
        push_decimal(&mut text, merged as u64);
        text.append(" merged.");
    }
    text
}

/// The shapes are of two colours at least.
pub open spec fn two_colours(shapes: Seq<Island>) -> bool {
    exists|i: int|
        0 <= i < shapes.len() && !same_word(#[trigger] shapes[i].color@, shapes[0].color@)
}

/// Whether the selected shapes can be merged, and why not.
pub fn merge_offer(shapes: &Vec<Island>, idle: bool) -> (offer: (bool, &'static str))
    ensures
        offer.0 == (two_colours(shapes@) && idle),
        offer.1@ == (if two_colours(shapes@) {
            "Wait for the conversion, dialog or save to finish"@
        } else {
            "Select shapes of two different colors"@
        }),
{
    let mut two: bool = false;
    let mut i: usize = 0;
    while i < shapes.len()
        invariant
            i <= shapes@.len(),
            two == (exists|j: int|
                0 <= j < i && !same_word(#[trigger] shapes@[j].color@, shapes@[0].color@)),
        decreases shapes@.len() - i,
    {
        let ghost before = two;
        if !is_same_word(shapes[i].color.as_str(), shapes[0].color.as_str()) {
            assert(!same_word(shapes@[i as int].color@, shapes@[0].color@));
            two = true;
        }
        i = i + 1;
    }
    (
        two && idle,
        if two {
            "Wait for the conversion, dialog or save to finish"
        } else {
            "Select shapes of two different colors"
        },
    )
}

/// The Sticker card's heading; the widths come in words.
pub fn sticker_summary(on: bool, border: &str, edge: &str, shadow: bool) -> (text: String)
    ensures
        text@ == (if on {
            border@ + " + "@ + edge@ + " px"@ + (if shadow {
                " · shadow"@
            } else {
                ""@
            })
        } else {
            "Off"@
        }),
{
    if !on {
        return "Off".to_owned();
    }
    let mut text = border.to_owned();
    text.append(" + ");
    text.append(edge);
    text.append(" px");
    text.append(if shadow {
        " · shadow"
    } else {
        ""
    });
    text
}

/// The Sticker card's line: what the picture grows by, in words, or that the
/// widths draw nothing.
pub fn sticker_note(drawable: bool, margin: &str, uncut: bool) -> (text: String)
    ensures
        text@ == (if !drawable {
            "Give the border or the rim a width."@
        } else {
            "Picture grows by "@ + margin@ + " px on every side"@ + (if uncut {
                " · cut the background first"@
            } else {
                ""@
            }) + "."@
        }),
{
    if !drawable {
        return "Give the border or the rim a width.".to_owned();
    }
    let mut text = "Picture grows by ".to_owned();
    text.append(margin);
    text.append(" px on every side");
    text.append(if uncut {
        " · cut the background first"
    } else {
        ""
    });
    text.append(".");
    text
}

pub open spec fn sliders_text(s: Sliders) -> Seq<char> {
    decimal(s.segmentation as nat) + " · "@ + decimal(s.smoothness as nat) + " · "@ + decimal(
        s.curves as nat,
    ) + (if s.corners {
        ""@
    } else {
        " · no corners"@
    })
}

fn sliders_line(s: Sliders) -> (text: String)
    ensures
        text@ == sliders_text(s),
{
    let mut text = crate::text::decimal_text(s.segmentation as u64);
    text.append(" · ");
    push_decimal(&mut text, s.smoothness as u64);
    text.append(" · ");
    push_decimal(&mut text, s.curves as u64);
    text.append(if s.corners {
        ""
    } else {
        " · no corners"
    });
    text
}

/// The Advanced card's heading: the sliders, or the preset with those it runs
/// where it runs any.
pub fn advanced_summary(on: bool, sliders: Sliders, preset: bool) -> (text: String)
    ensures
        text@ == (if on {
            sliders_text(sliders)
        } else if preset {
            "Preset · "@ + sliders_text(sliders)
        } else {
            "Preset"@
        }),
{
    if on {
        return sliders_line(sliders);
    }
    if preset {
        let mut text = "Preset · ".to_owned();
        let values = sliders_line(sliders);
        text.append(values.as_str());
        text
    } else {
        "Preset".to_owned()
    }
}

/// A colour control shows the name chosen last, unless the custom colour is
/// itself black or white.
pub proof fn law_a_chosen_colour_shows(name: Named, custom: Rgb)
    requires
        name_of_colour(custom) == Named::Custom,
    ensures
        name_of_colour(colour_named(name, custom)) == name,
{
}

/// Keeping the transparency and laying the picture on a colour are each
/// other's way back: choosing what is shown changes nothing.
pub proof fn law_choosing_what_is_shown_changes_nothing(background: Option<Rgb>, custom: Rgb)
    ensures
        background_after(
            background,
            match background {
                Some(c) => Some(name_of_colour(c)),
                None => None,
            },
            custom,
        ) == background,
        background_after(background, None, custom) is None,
{
}

} // verus!
