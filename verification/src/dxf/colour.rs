//! AutoCAD's colour indexes.
use vstd::prelude::*;

verus! {

/// A hue's red, green and blue in quarters of full strength: `step` counts
/// the 24 hues from red, 15 degrees apart.
pub open spec fn hue_quarters(step: int) -> (int, int, int) {
    let f = step % 4;
    let sector = step / 4;
    if sector == 0 {
        (4, f, 0)
    } else if sector == 1 {
        (4 - f, 4, 0)
    } else if sector == 2 {
        (0, 4, f)
    } else if sector == 3 {
        (0, 4 - f, 4)
    } else if sector == 4 {
        (f, 0, 4)
    } else {
        (4, 0, 4 - f)
    }
}

/// A shade's value in tenths: two shades each of 100%, 80%, 60%, 50%, 30%.
pub open spec fn shade_tenths(shade: int) -> int {
    if shade < 2 {
        10
    } else if shade < 4 {
        8
    } else if shade < 6 {
        6
    } else if shade < 8 {
        5
    } else {
        3
    }
}

/// One channel of a shade: `quarters` of full strength, an odd shade half-way
/// to white first, times the shade's value, rounded down.
pub open spec fn shade_channel(quarters: int, shade: int) -> int {
    if shade % 2 == 1 {
        255 * (4 + quarters) * shade_tenths(shade) / 80
    } else {
        255 * quarters * shade_tenths(shade) / 40
    }
}

/// The grey of indexes 250 to 255.
pub open spec fn ramp_grey(index: int) -> int {
    seq![51int, 91, 132, 173, 214, 255][index - 250]
}

/// The colour AutoCAD shows for index 1 to 255: seven named colours and two
/// greys, then 24 hues 15 degrees apart in ten shades each, then six greys.
pub open spec fn index_rgb(index: int) -> (int, int, int) {
    if 1 <= index <= 9 && index != 7 {
        seq![
            (255int, 0int, 0int),
            (255, 255, 0),
            (0, 255, 0),
            (0, 255, 255),
            (0, 0, 255),
            (255, 0, 255),
            (255, 255, 255),
            (128, 128, 128),
            (192, 192, 192),
        ][index - 1]
    } else if 10 <= index <= 249 {
        let (r, g, b) = hue_quarters((index - 10) / 10);
        let shade = (index - 10) % 10;
        (shade_channel(r, shade), shade_channel(g, shade), shade_channel(b, shade))
    } else if index >= 250 {
        (ramp_grey(index), ramp_grey(index), ramp_grey(index))
    } else {
        (255, 255, 255)
    }
}

fn channel(quarters: u32, shade: u32) -> (c: u8)
    requires
        quarters <= 4,
        shade < 10,
    ensures
        c == shade_channel(quarters as int, shade as int),
{
    let tenths: u32 = match shade / 2 {
        0 => 10,
        1 => 8,
        2 => 6,
        3 => 5,
        _ => 3,
    };
    assert(255 * quarters * tenths <= 255 * 4 * 10 && 255 * (4 + quarters) * tenths <= 255 * 8 * 10)
        by (nonlinear_arith)
        requires
            quarters <= 4,
            tenths <= 10,
    ;
    if shade % 2 == 1 {
        (255 * (4 + quarters) * tenths / 80) as u8
    } else {
        (255 * quarters * tenths / 40) as u8
    }
}

/// The colour AutoCAD shows for an index.
pub fn index_colour(index: u8) -> (c: [u8; 3])
    ensures
        (c[0] as int, c[1] as int, c[2] as int) == index_rgb(index as int),
{
    match index {
        1 => [255, 0, 0],
        2 => [255, 255, 0],
        3 => [0, 255, 0],
        4 => [0, 255, 255],
        5 => [0, 0, 255],
        6 => [255, 0, 255],
        8 => [128, 128, 128],
        9 => [192, 192, 192],
        _ => {
            if index >= 10 && index <= 249 {
                let step: u32 = (index as u32 - 10) / 10;
                let shade: u32 = (index as u32 - 10) % 10;
                let f: u32 = step % 4;
                let (r, g, b): (u32, u32, u32) = match step / 4 {
                    0 => (4, f, 0),
                    1 => (4 - f, 4, 0),
                    2 => (0, 4, f),
                    3 => (0, 4 - f, 4),
                    4 => (f, 0, 4),
                    _ => (4, 0, 4 - f),
                };
                [channel(r, shade), channel(g, shade), channel(b, shade)]
            } else if index >= 250 {
                let grey: u8 = match index {
                    250 => 51,
                    251 => 91,
                    252 => 132,
                    253 => 173,
                    254 => 214,
                    _ => 255,
                };
                [grey, grey, grey]
            } else {
                [255, 255, 255]
            }
        },
    }
}

/// The square of the distance between two colours.
pub open spec fn distance2(a: (int, int, int), b: (int, int, int)) -> int {
    (a.0 - b.0) * (a.0 - b.0) + (a.1 - b.1) * (a.1 - b.1) + (a.2 - b.2) * (a.2 - b.2)
}

/// How far index `index` is from colour `c`; index 7 draws black on a light
/// background and white on a dark one, so it stands for both.
pub open spec fn index_distance(c: (int, int, int), index: int) -> int {
    if index == 7 {
        let (black, white) = (distance2((0, 0, 0), c), distance2((255, 255, 255), c));
        if black <= white {
            black
        } else {
            white
        }
    } else {
        distance2(index_rgb(index), c)
    }
}

/// `index` is the first index nearest to `c`.
pub open spec fn is_nearest(c: (int, int, int), index: int) -> bool {
    &&& 1 <= index <= 255
    &&& forall|i: int|
        1 <= i <= 255 ==> index_distance(c, index) <= #[trigger] index_distance(c, i)
    &&& forall|i: int|
        1 <= i < index ==> index_distance(c, index) < #[trigger] index_distance(c, i)
}

fn square_gap(a: u8, b: u8) -> (d: i32)
    ensures
        d == (a - b) * (a - b),
        0 <= d <= 65025,
{
    let gap: i32 = a as i32 - b as i32;
    assert(gap * gap <= 65025 && gap * gap >= 0) by (nonlinear_arith)
        requires
            -255 <= gap <= 255,
    ;
    gap * gap
}

fn distance(a: [u8; 3], c: [u8; 3]) -> (d: i32)
    ensures
        d == distance2(
            (a[0] as int, a[1] as int, a[2] as int),
            (c[0] as int, c[1] as int, c[2] as int),
        ),
        0 <= d <= 195075,
{
    square_gap(a[0], c[0]) + square_gap(a[1], c[1]) + square_gap(a[2], c[2])
}

/// The AutoCAD colour index nearest `c`, the first of several.
pub fn nearest_index(c: [u8; 3]) -> (index: u8)
    ensures
        is_nearest((c[0] as int, c[1] as int, c[2] as int), index as int),
{
    let ghost rgb = (c[0] as int, c[1] as int, c[2] as int);
    let mut best: u8 = 1;
    let mut least: i32 = distance(index_colour(1), c);
    let mut i: u8 = 1;
    while i < 255
        invariant
            1 <= best <= i,
            rgb == (c[0] as int, c[1] as int, c[2] as int),
            least == index_distance(rgb, best as int),
            forall|k: int| 1 <= k <= i ==> least <= #[trigger] index_distance(rgb, k),
            forall|k: int| 1 <= k < best ==> least < #[trigger] index_distance(rgb, k),
        decreases 255 - i,
    {
        i = i + 1;
        let d: i32 = if i == 7 {
            let black: i32 = distance([0, 0, 0], c);
            let white: i32 = distance([255, 255, 255], c);
            if black <= white {
                black
            } else {
                white
            }
        } else {
            distance(index_colour(i), c)
        };
        assert(d == index_distance(rgb, i as int));
        if d < least {
            least = d;
            best = i;
        }
    }
    best
}

/// Every colour of the palette but the second of two alike is nearest to
/// itself.
pub proof fn law_palette_colours_keep_their_index(index: int)
    requires
        1 <= index <= 255,
        index != 7,
        forall|i: int| 1 <= i < index ==> #[trigger] index_distance(index_rgb(index), i) > 0,
    ensures
        is_nearest(index_rgb(index), index),
{
    let c = index_rgb(index);
    assert(index_distance(c, index) == 0);
    assert forall|i: int| 1 <= i <= 255 implies 0 <= #[trigger] index_distance(c, i) by {
        lemma_distance_positive(index_rgb(i), c);
        lemma_distance_positive((0, 0, 0), c);
        lemma_distance_positive((255, 255, 255), c);
    }
}

proof fn lemma_distance_positive(a: (int, int, int), b: (int, int, int))
    ensures
        distance2(a, b) >= 0,
{
    let (x, y, z) = (a.0 - b.0, a.1 - b.1, a.2 - b.2);
    assert(x * x >= 0 && y * y >= 0 && z * z >= 0) by (nonlinear_arith);
}

} // verus!
