//! The colours a file shows: those of its shapes, channel by channel, and the
//! circle of hues its colour indexes go round.
use crate::colour::channel;
use crate::dither::RunView;
use crate::dxf::colour::{distance2, hue_quarters, index_distance, index_rgb, is_nearest, shade_channel};
use crate::dxf::drawing::{layer_of, page_splits, rgb, shape_colour, sketch, Drawing, Layer};
use crate::dxf::layers::{
    law_colours_come_in_order_of_first_use, law_every_item_is_on_its_shapes_layer,
};
use crate::dxf::lines::item_layer;
use crate::geometry::{Page, Segment};
use crate::readings::lemma_digit_reads;
use crate::text::{digit_char, hex2, stands_at};
use vstd::prelude::*;

verus! {

/// The layer shows the colour of red `r`, green `g` and blue `b`: these are the
/// bytes of its exact colour from the highest down, and what the three pairs of
/// hexadecimal digits of its name, behind `COLOR_`, read as.
pub open spec fn shows_colour(layer: Layer, r: int, g: int, b: int) -> bool {
    &&& layer.colour as int / 65536 == r
    &&& layer.colour as int / 256 % 256 == g
    &&& layer.colour as int % 256 == b
    &&& layer.name@.len() == 12
    &&& stands_at(layer.name@, "COLOR_"@, 0)
    &&& channel(layer.name@, 6) == Some(r)
    &&& channel(layer.name@, 8) == Some(g)
    &&& channel(layer.name@, 10) == Some(b)
}

proof fn lemma_pair_reads(name: Seq<char>, at: int, n: int)
    requires
        0 <= n < 256,
        0 <= at,
        at + 2 <= name.len(),
        name[at] == digit_char(n / 16),
        name[at + 1] == digit_char(n % 16),
    ensures
        channel(name, at) == Some(n),
{
    lemma_digit_reads(n / 16);
    lemma_digit_reads(n % 16);
}

proof fn lemma_name_reads(name: Seq<char>, r: int, g: int, b: int)
    requires
        0 <= r < 256,
        0 <= g < 256,
        0 <= b < 256,
        name == "COLOR_"@ + hex2(r) + hex2(g) + hex2(b),
    ensures
        name.len() == 12,
        stands_at(name, "COLOR_"@, 0),
        channel(name, 6) == Some(r),
        channel(name, 8) == Some(g),
        channel(name, 10) == Some(b),
{
    reveal_strlit("COLOR_");
    let (head, x, y, z) = ("COLOR_"@, hex2(r), hex2(g), hex2(b));
    assert(name.len() == 12);
    assert(name[6] == x[0] && name[7] == x[1]);
    assert(name[8] == y[0] && name[9] == y[1]);
    assert(name[10] == z[0] && name[11] == z[1]);
    lemma_pair_reads(name, 6, r);
    lemma_pair_reads(name, 8, g);
    lemma_pair_reads(name, 10, b);
    assert(stands_at(name, head, 0)) by {
        assert forall|k: int| 0 <= k < head.len() implies name[0 + k] == #[trigger] head[k] by {}
    }
}

proof fn lemma_bytes(r: int, g: int, b: int)
    requires
        0 <= r < 256,
        0 <= g < 256,
        0 <= b < 256,
    ensures
        ({
            let n = r * 65536 + g * 256 + b;
            n / 65536 == r && n / 256 % 256 == g && n % 256 == b
        }),
{
}

/// A colour's layer shows it: its exact colour taken apart into bytes, and its
/// name read in hexadecimal, are the colour's red, green and blue. No colour
/// index is nearer to it than the layer's own.
pub proof fn law_a_layer_shows_its_colour(layer: Layer, c: [u8; 3])
    requires
        layer_of(layer, rgb(c)),
    ensures
        shows_colour(layer, c[0] as int, c[1] as int, c[2] as int),
        is_nearest((c[0] as int, c[1] as int, c[2] as int), layer.index as int),
{
    let (r, g, b) = (c[0] as int, c[1] as int, c[2] as int);
    lemma_name_reads(layer.name@, r, g, b);
    lemma_bytes(r, g, b);
}

/// Index `index` shows as colour `p`: index 7 as black and as white, every
/// other one as its own colour.
pub open spec fn shown_as(index: int, p: (int, int, int)) -> bool {
    if index == 7 {
        p == (0int, 0int, 0int) || p == (255int, 255int, 255int)
    } else {
        p == index_rgb(index)
    }
}

/// Of all indexes, none shows nearer to a colour than the one its layer has,
/// by the squares of the differences in red, green and blue; those before it
/// all show farther off.
pub proof fn law_no_index_shows_nearer(
    c: (int, int, int),
    index: int,
    other: int,
    q: (int, int, int),
) -> (p: (int, int, int))
    requires
        is_nearest(c, index),
        1 <= other <= 255,
        shown_as(other, q),
    ensures
        1 <= index <= 255,
        shown_as(index, p),
        ({
            let (x, y, z) = (p.0 - c.0, p.1 - c.1, p.2 - c.2);
            let (u, v, w) = (q.0 - c.0, q.1 - c.1, q.2 - c.2);
            &&& x * x + y * y + z * z <= u * u + v * v + w * w
            &&& other < index ==> x * x + y * y + z * z < u * u + v * v + w * w
        }),
{
    let (black, white) = ((0int, 0int, 0int), (255int, 255int, 255int));
    let p = if index != 7 {
        index_rgb(index)
    } else if distance2(black, c) <= distance2(white, c) {
        black
    } else {
        white
    };
    assert(index_distance(c, index) == distance2(p, c));
    assert(index_distance(c, other) <= distance2(q, c));
    p
}

/// In the drawing of a page, every item that a shape brought is on a layer that
/// shows the shape's fill, or the stroke of a shape without a fill.
pub proof fn law_an_item_shows_its_shapes_colour(
    page: Page,
    drawing: Drawing,
    found: Seq<Option<(Seq<Segment>, Seq<RunView>)>>,
    s: nat,
    k: int,
)
    requires
        page_splits(page.shapes@, found),
        drawing.shows(sketch(page.shapes@, found, page.height as int, page.shapes@.len())),
        s < page.shapes@.len() <= usize::MAX,
        sketch(page.shapes@, found, page.height as int, s).placed.items.len() <= k < sketch(
            page.shapes@,
            found,
            page.height as int,
            s + 1,
        ).placed.items.len(),
    ensures
        k < drawing.items@.len(),
        ({
            let at = item_layer(drawing.items@[k]@);
            let shape = page.shapes@[s as int];
            &&& 0 <= at < drawing.layers@.len()
            &&& shape.fill is Some || shape.stroke is Some
            &&& shape.fill matches Some(c) ==> shows_colour(
                drawing.layers@[at],
                c[0] as int,
                c[1] as int,
                c[2] as int,
            )
            &&& (shape.fill is None ==> (shape.stroke matches Some(c) && shows_colour(
                drawing.layers@[at],
                c[0] as int,
                c[1] as int,
                c[2] as int,
            )))
        }),
{
    let n = page.shapes@.len();
    let h = page.height as int;
    law_every_item_is_on_its_shapes_layer(page.shapes@, found, h, s, n, k);
    let all = sketch(page.shapes@, found, h, n);
    assert(crate::dxf::drawing::item_views(drawing.items@)[k] == drawing.items@[k]@);
    let at = item_layer(drawing.items@[k]@);
    let layer = drawing.layers@[at];
    assert(layer_of(layer, all.colours[at]));
    let shape = page.shapes@[s as int];
    match shape.fill {
        Some(c) => law_a_layer_shows_its_colour(layer, c),
        None => match shape.stroke {
            Some(c) => law_a_layer_shows_its_colour(layer, c),
            None => {},
        },
    }
}

/// Two layers of a drawing show two colours: no colour has a second layer.
pub proof fn law_no_colour_has_two_layers(
    page: Page,
    drawing: Drawing,
    found: Seq<Option<(Seq<Segment>, Seq<RunView>)>>,
    i: int,
    j: int,
)
    requires
        page_splits(page.shapes@, found),
        drawing.shows(sketch(page.shapes@, found, page.height as int, page.shapes@.len())),
        0 <= i < j < drawing.layers@.len(),
    ensures
        drawing.layers@[i].colour != drawing.layers@[j].colour,
        drawing.layers@[i].name@ != drawing.layers@[j].name@,
{
    let n = page.shapes@.len();
    let h = page.height as int;
    let colours = sketch(page.shapes@, found, h, n).colours;
    law_colours_come_in_order_of_first_use(page.shapes@, found, h, n, n);
    let a = lemma_colour_of_a_shape(page, found, i);
    let b = lemma_colour_of_a_shape(page, found, j);
    assert(colours[i] != colours[j]);
    assert(layer_of(drawing.layers@[i], colours[i]));
    assert(layer_of(drawing.layers@[j], colours[j]));
    law_a_layer_shows_its_colour(drawing.layers@[i], a);
    law_a_layer_shows_its_colour(drawing.layers@[j], b);
}

proof fn lemma_colour_of_a_shape(
    page: Page,
    found: Seq<Option<(Seq<Segment>, Seq<RunView>)>>,
    i: int,
) -> (c: [u8; 3])
    requires
        0 <= i < sketch(page.shapes@, found, page.height as int, page.shapes@.len()).colours.len(),
    ensures
        sketch(page.shapes@, found, page.height as int, page.shapes@.len()).colours[i] == rgb(c),
{
    let n = page.shapes@.len();
    let h = page.height as int;
    let colours = sketch(page.shapes@, found, h, n).colours;
    law_colours_come_in_order_of_first_use(page.shapes@, found, h, n, n);
    assert(colours.contains(colours[i]));
    let k = choose|k: int|
        0 <= k < n && shape_colour(#[trigger] page.shapes@[k]) == Some(colours[i]);
    let shape = page.shapes@[k];
    match shape.fill {
        Some(c) => c,
        None => shape.stroke->0,
    }
}

/// A third of the circle of hues on, the channels have changed places: what
/// was red is green, what was green is blue and what was blue is red.
pub proof fn law_a_third_of_the_hues_on_the_channels_turn(index: int)
    requires
        10 <= index < 170,
    ensures
        ({
            let (r, g, b) = index_rgb(index);
            index_rgb(index + 80) == (b, r, g)
        }),
{
    let (a, b) = ((index - 10) / 10, (index + 80 - 10) / 10);
    assert(b == a + 8);
    assert((index - 10) % 10 == (index + 80 - 10) % 10);
    assert(b / 4 == a / 4 + 2 && b % 4 == a % 4);
}

/// A hue and the one as far from red the other way have green and blue in each
/// other's place.
pub proof fn law_hues_mirror_about_red(index: int, other: int)
    requires
        20 <= index <= 249,
        20 <= other <= 249,
        (index - 10) / 10 + (other - 10) / 10 == 24,
        index % 10 == other % 10,
    ensures
        ({
            let (r, g, b) = index_rgb(index);
            index_rgb(other) == (r, b, g)
        }),
{
    let (a, b) = ((index - 10) / 10, (other - 10) / 10);
    assert((index - 10) % 10 == (other - 10) % 10);
    if a % 4 == 0 {
        assert(b / 4 == 6 - a / 4 && b % 4 == 0);
    } else {
        assert(b / 4 == 5 - a / 4 && b % 4 == 4 - a % 4);
    }
}

/// The hues from red to yellow: red at the shade's full strength, 255 and
/// four fifths, three fifths, a half and three tenths of it rounded down, two
/// shades each; the first of the two has no blue and a quarter more of the
/// green with every hue, rounded down; the second lies half-way to the grey of
/// its red, to within the rounding.
pub proof fn law_the_shades_of_the_first_hues(step: int, pair: int)
    requires
        0 <= step <= 4,
        0 <= pair < 5,
    ensures
        ({
            let (r, g, b) = index_rgb(10 + 10 * step + 2 * pair);
            let (lr, lg, lb) = index_rgb(11 + 10 * step + 2 * pair);
            &&& r == seq![255int, 204, 153, 127, 76][pair]
            &&& b == 0
            &&& step == 0 ==> g == 0
            &&& step == 4 ==> g == r
            &&& r * step <= 4 * g + 3
            &&& 4 * g <= r * step + step
            &&& lr == r
            &&& 2 * lg <= r + 1 + g + 1
            &&& r + g <= 2 * lg + 1
            &&& 2 * lb <= r + 1
            &&& r <= 2 * lb + 1
        }),
{
    let (i, j) = (10 + 10 * step + 2 * pair, 11 + 10 * step + 2 * pair);
    assert((i - 10) / 10 == step && (i - 10) % 10 == 2 * pair);
    assert((j - 10) / 10 == step && (j - 10) % 10 == 2 * pair + 1);
    if step == 4 {
        assert(hue_quarters(4) == (4int, 4int, 0int));
    }
    let s = 2 * pair;
    if pair == 0 {
        lemma_shade(0, step);
    } else if pair == 1 {
        lemma_shade(2, step);
    } else if pair == 2 {
        lemma_shade(4, step);
    } else if pair == 3 {
        lemma_shade(6, step);
    } else {
        lemma_shade(8, step);
    }
    assert(shade_channel(4, s) == seq![255int, 204, 153, 127, 76][pair]);
}

proof fn lemma_shade(shade: int, q: int)
    requires
        shade == 0 || shade == 2 || shade == 4 || shade == 6 || shade == 8,
        0 <= q <= 4,
    ensures
        shade_channel(4, shade) == seq![255int, 204, 153, 127, 76][shade / 2],
        shade_channel(0, shade) == 0,
        shade_channel(4, shade + 1) == shade_channel(4, shade),
        ({
            let (r, g) = (shade_channel(4, shade), shade_channel(q, shade));
            let (lg, lb) = (shade_channel(q, shade + 1), shade_channel(0, shade + 1));
            &&& r * q <= 4 * g + 3
            &&& 4 * g <= r * q + q
            &&& 2 * lg <= r + 1 + g + 1
            &&& r + g <= 2 * lg + 1
            &&& 2 * lb <= r + 1
            &&& r <= 2 * lb + 1
        }),
{
    if q == 0 {
    } else if q == 1 {
    } else if q == 2 {
    } else if q == 3 {
    } else {
    }
}

/// The first six indexes are the full hues red, yellow, green, cyan, blue and
/// magenta, a sixth of the circle apart; index 7 and those that are no hue are
/// white or grey, and the last six go from dark to light.
pub proof fn law_the_named_indexes(index: int)
    requires
        1 <= index <= 255,
    ensures
        index <= 6 ==> index_rgb(index) == index_rgb(10 + 40 * (index - 1)),
        7 <= index <= 9 || 250 <= index ==> ({
            let (r, g, b) = index_rgb(index);
            r == g && g == b
        }),
        index_rgb(7).0 == 255,
        index_rgb(8).0 == 128,
        index_rgb(9).0 == 192,
        index_rgb(250).0 == 51,
        index_rgb(255).0 == 255,
        250 <= index < 255 ==> 40 <= index_rgb(index + 1).0 - index_rgb(index).0 <= 41,
{
    if index <= 6 {
        let i = 10 + 40 * (index - 1);
        assert((i - 10) / 10 == 4 * (index - 1) && (i - 10) % 10 == 0);
        assert(shade_channel(4, 0) == 255 && shade_channel(0, 0) == 0);
        assert((4 * (index - 1)) / 4 == index - 1 && (4 * (index - 1)) % 4 == 0);
    }
}

} // verus!
