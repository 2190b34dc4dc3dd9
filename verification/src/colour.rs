//! The colours of fills as they are painted.
use crate::text::{chars_of, drop_white, skip_white, trimmed};
use vstd::prelude::*;

verus! {

/// A colour as it is painted: its channels multiplied by its opacity.
#[derive(Clone, Copy, Debug, PartialEq, Eq, Structural)]
pub struct Shade {
    pub r: u8,
    pub g: u8,
    pub b: u8,
    pub a: u8,
}

/// `c` times `a / 255`, to the nearest whole number.
pub open spec fn scaled(c: u8, a: u8) -> int {
    (c * a + 127) / 255
}

/// `r`, `g` and `b` at the opacity `a`.
pub open spec fn shade(r: u8, g: u8, b: u8, a: u8) -> Shade {
    Shade {
        r: scaled(r, a) as u8,
        g: scaled(g, a) as u8,
        b: scaled(b, a) as u8,
        a,
    }
}

pub open spec fn grey() -> Shade {
    Shade { r: 128, g: 128, b: 128, a: 255 }
}

/// The value of a hexadecimal digit.
pub open spec fn hex_digit(c: char) -> Option<int> {
    if '0' <= c && c <= '9' {
        Some(c as int - '0' as int)
    } else if 'a' <= c && c <= 'f' {
        Some(c as int - 'a' as int + 10)
    } else if 'A' <= c && c <= 'F' {
        Some(c as int - 'A' as int + 10)
    } else {
        None
    }
}

/// The number that the two hexadecimal digits at `i` write.
pub open spec fn channel(text: Seq<char>, i: int) -> Option<int> {
    if i + 2 > text.len() {
        None
    } else {
        match (hex_digit(text[i]), hex_digit(text[i + 1])) {
            (Some(h), Some(l)) => Some(16 * h + l),
            _ => None,
        }
    }
}

/// The colour that `#rrggbb` or `#rrggbbaa` writes, white space around it
/// aside; grey for anything else.
pub open spec fn colour_of(text: Seq<char>) -> Shade {
    let hex = trimmed(text);
    if hex.len() == 0 || hex[0] != '#' {
        grey()
    } else {
        match (channel(hex, 1), channel(hex, 3), channel(hex, 5), channel(hex, 7)) {
            (Some(r), Some(g), Some(b), None) if hex.len() == 7 => shade(
                r as u8,
                g as u8,
                b as u8,
                255,
            ),
            (Some(r), Some(g), Some(b), Some(a)) if hex.len() == 9 => shade(
                r as u8,
                g as u8,
                b as u8,
                a as u8,
            ),
            _ => grey(),
        }
    }
}

/// `egui::Color32::from_rgba_unmultiplied`: each channel times the opacity,
/// to the nearest whole number; the opacity stays. It computes in single
/// precision, whose error stays far below the distance of `c * a / 255` from
/// the half between two whole numbers, which is at least a 510th.
#[verifier::external_body]
fn unmultiplied(r: u8, g: u8, b: u8, a: u8) -> (c: Shade)
    ensures
        c == shade(r, g, b, a),
{
    let [r, g, b, a] = egui::Color32::from_rgba_unmultiplied(r, g, b, a).to_array();
    Shade { r, g, b, a }
}

fn digit_value(c: char) -> (d: Option<u8>)
    ensures
        d is Some == (hex_digit(c) is Some),
        d matches Some(v) ==> hex_digit(c) == Some(v as int) && v < 16,
{
    if '0' <= c && c <= '9' {
        Some(c as u8 - 48)
    } else if 'a' <= c && c <= 'f' {
        Some(c as u8 - 87)
    } else if 'A' <= c && c <= 'F' {
        Some(c as u8 - 55)
    } else {
        None
    }
}

fn channel_at(text: &[char], i: usize) -> (v: Option<u8>)
    requires
        i <= 7,
    ensures
        v is Some == (channel(text@, i as int) is Some),
        v matches Some(n) ==> channel(text@, i as int) == Some(n as int),
{
    if text.len() < i + 2 {
        return None;
    }
    match (digit_value(text[i]), digit_value(text[i + 1])) {
        (Some(h), Some(l)) => Some(16 * h + l),
        _ => None,
    }
}

/// `#rrggbb` or `#rrggbbaa` as a fill is written; anything else shows as a
/// neutral grey rather than nothing.
pub fn parse_hex(text: &str) -> (colour: Shade)
    ensures
        colour == colour_of(text@),
{
    let all = chars_of(text);
    let to: usize = all.len();
    let a: usize = skip_white(all.as_slice(), 0, to);
    let b: usize = drop_white(all.as_slice(), a, to);
    let hex = vstd::slice::slice_subrange(all.as_slice(), a, b);
    assert(hex@ =~= trimmed(text@));
    let n: usize = hex.len();
    if n == 0 || hex[0] != '#' {
        return Shade { r: 128, g: 128, b: 128, a: 255 };
    }
    match (channel_at(hex, 1), channel_at(hex, 3), channel_at(hex, 5), channel_at(hex, 7)) {
        (Some(r), Some(g), Some(b), None) if n == 7 => unmultiplied(r, g, b, 255),
        (Some(r), Some(g), Some(b), Some(a)) if n == 9 => unmultiplied(r, g, b, a),
        _ => Shade { r: 128, g: 128, b: 128, a: 255 },
    }
}

/// A pixel's channels without its opacity, to the nearest whole number, at
/// most 255. Pixels that are opaque or empty stay.
pub open spec fn parted(c: u8, a: u8) -> u8 {
    if 0 < a < 255 {
        let v = (c * 255 + a / 2) / (a as int);
        (if v > 255 {
            255
        } else {
            v
        }) as u8
    } else {
        c
    }
}

/// The pixels of an icon, whose channels come multiplied by the opacity,
/// without it.
pub fn window_icon(pixels: &Vec<[u8; 4]>) -> (icon: Vec<[u8; 4]>)
    ensures
        icon@.len() == pixels@.len(),
        forall|i: int|
            0 <= i < pixels@.len() ==> {
                let (p, q) = (pixels@[i], #[trigger] icon@[i]);
                &&& q[3] == p[3]
                &&& forall|k: int| 0 <= k < 3 ==> q[k] == parted(#[trigger] p[k], p[3])
            },
{
    let mut icon: Vec<[u8; 4]> = Vec::new();
    let mut i: usize = 0;
    while i < pixels.len()
        invariant
            i <= pixels@.len(),
            icon@.len() == i,
            forall|j: int|
                0 <= j < i ==> {
                    let (p, q) = (pixels@[j], #[trigger] icon@[j]);
                    &&& q[3] == p[3]
                    &&& forall|k: int| 0 <= k < 3 ==> q[k] == parted(#[trigger] p[k], p[3])
                },
        decreases pixels@.len() - i,
    {
        let p: [u8; 4] = pixels[i];
        let a: u8 = p[3];
        let q: [u8; 4] = [part(p[0], a), part(p[1], a), part(p[2], a), a];
        icon.push(q);
        assert(forall|k: int| 0 <= k < 3 ==> q[k] == parted(#[trigger] p[k], p[3]));
        i = i + 1;
    }
    icon
}

fn part(c: u8, a: u8) -> (v: u8)
    ensures
        v == parted(c, a),
{
    if a == 0 || a == 255 {
        return c;
    }
    let v: u32 = (c as u32 * 255 + (a / 2) as u32) / a as u32;
    if v > 255 {
        255
    } else {
        v as u8
    }
}

/// A pixel multiplied by its opacity and parted from it again keeps every
/// channel of the multiplied pixel.
pub proof fn law_parted_channels_multiply_back(c: u8, a: u8)
    requires
        c <= a,
    ensures
        scaled(parted(c, a), a) == c,
{
    if 0 < a < 255 {
        let h = (a / 2) as int;
        let n = c * 255 + h;
        let v = n / (a as int);
        assert(v <= 255) by (nonlinear_arith)
            requires
                v == n / (a as int),
                n == c * 255 + h,
                c <= a,
                0 <= h < a,
                a > 0,
        ;
        assert(v * a <= n && n < v * a + a && v >= 0) by (nonlinear_arith)
            requires
                v == n / (a as int),
                a > 0,
                n >= 0,
        ;
        assert((v * a + 127) / 255 == c) by (nonlinear_arith)
            requires
                v * a <= c * 255 + h,
                c * 255 + h < v * a + a,
                h == a / 2,
                0 < a < 255,
        ;
    } else if a == 0 {
    } else {
        assert((c * 255 + 127) / 255 == c) by (nonlinear_arith)
            requires
                0 <= c,
        ;
    }
}

/// An opaque colour is painted as it is, and one without opacity not at all.
pub proof fn law_opaque_colours_stay(r: u8, g: u8, b: u8)
    ensures
        shade(r, g, b, 255) == (Shade { r, g, b, a: 255 }),
        shade(r, g, b, 0) == (Shade { r: 0, g: 0, b: 0, a: 0 }),
{
    assert forall|c: u8| #[trigger] scaled(c, 255) == c by {
        assert((c * 255 + 127) / 255 == c) by (nonlinear_arith)
            requires
                0 <= c,
        ;
    }
    assert(scaled(r, 0) == 0 && scaled(g, 0) == 0 && scaled(b, 0) == 0);
}

} // verus!
