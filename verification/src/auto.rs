//! A local estimate of what kind of picture one is, and of its quality.
use crate::picture::{ImageCategory, Quality, Raster};
use vstd::prelude::*;

verus! {

/// A share of a whole, as its two counts.
#[derive(Clone, Copy, Debug, PartialEq, Eq, Structural)]
pub struct Share {
    pub part: u64,
    pub of: u64,
}

impl Share {
    /// The share is below `n` in `m`.
    pub open spec fn is_below(self, n: int, m: int) -> bool {
        self.part * m < n * self.of
    }

    /// The share is above `n` in `m`.
    pub open spec fn is_above(self, n: int, m: int) -> bool {
        self.part * m > n * self.of
    }

    fn below(self, n: u16, m: u16) -> (yes: bool)
        ensures
            yes == self.is_below(n as int, m as int),
    {
        assert(0 <= self.part * m <= 0x1_0000_0000_0000_0000 * 0x1_0000) by (nonlinear_arith)
            requires
                0 <= self.part <= 0x1_0000_0000_0000_0000,
                0 <= m <= 0x1_0000,
        ;
        assert(0 <= n * self.of <= 0x1_0000_0000_0000_0000 * 0x1_0000) by (nonlinear_arith)
            requires
                0 <= self.of <= 0x1_0000_0000_0000_0000,
                0 <= n <= 0x1_0000,
        ;
        self.part as u128 * (m as u128) < n as u128 * (self.of as u128)
    }

    fn above(self, n: u16, m: u16) -> (yes: bool)
        ensures
            yes == self.is_above(n as int, m as int),
    {
        assert(0 <= self.part * m <= 0x1_0000_0000_0000_0000 * 0x1_0000) by (nonlinear_arith)
            requires
                0 <= self.part <= 0x1_0000_0000_0000_0000,
                0 <= m <= 0x1_0000,
        ;
        assert(0 <= n * self.of <= 0x1_0000_0000_0000_0000 * 0x1_0000) by (nonlinear_arith)
            requires
                0 <= self.of <= 0x1_0000_0000_0000_0000,
                0 <= n <= 0x1_0000,
        ;
        self.part as u128 * (m as u128) > n as u128 * (self.of as u128)
    }
}

/// What a picture was taken for, and the measures it was taken by.
#[derive(Clone, Copy, Debug, PartialEq, Eq, Structural)]
pub struct Detection {
    pub category: ImageCategory,
    pub quality: Quality,
    pub flat_fraction: Share,
    pub palette_coverage: Share,
    pub soft_edge_fraction: Share,
    /// Share of the edge pixels that are a blend of their two opposite
    /// neighbours: 0 in aliased artwork, a third in anti-aliased artwork at
    /// any size.
    pub blend_edge_fraction: Share,
}

pub open spec fn name_of(category: ImageCategory) -> Seq<char> {
    match category {
        ImageCategory::AntiAliasedArtwork => "Artwork"@,
        ImageCategory::AliasedArtwork => "Pixel art"@,
        ImageCategory::Photograph => "Photo"@,
    }
}

pub open spec fn quality_word(quality: Quality) -> Seq<char> {
    match quality {
        Quality::Low => "Low"@,
        Quality::Medium => "Medium"@,
        Quality::High => "High"@,
    }
}

/// The name of a category.
pub fn category_name(category: ImageCategory) -> (name: &'static str)
    ensures
        name@ == name_of(category),
{
    match category {
        ImageCategory::AntiAliasedArtwork => "Artwork",
        ImageCategory::AliasedArtwork => "Pixel art",
        ImageCategory::Photograph => "Photo",
    }
}

/// The name of a quality.
pub fn quality_name(quality: Quality) -> (name: &'static str)
    ensures
        name@ == quality_word(quality),
{
    match quality {
        Quality::Low => "Low",
        Quality::Medium => "Medium",
        Quality::High => "High",
    }
}

impl Detection {
    /// The category and the quality in words.
    pub fn description(self) -> (text: String)
        ensures
            text@ == name_of(self.category) + " · "@ + quality_word(self.quality)
                + " source quality"@,
    {
        let mut text = category_name(self.category).to_owned();
        text.append(" · ");
        text.append(quality_name(self.quality));
        text.append(" source quality");
        text
    }
}

pub open spec fn larger(a: int, b: int) -> int {
    if a < b {
        b
    } else {
        a
    }
}

/// Every how many pixels one is measured.
pub open spec fn stride_of(r: Raster) -> int {
    larger(r.pixels@.len() as int / 200_000, 1)
}

/// How far away flatness is measured: one pixel per 256 of the longer side,
/// so that a picture scaled up is measured as it was.
pub open spec fn reach_of(r: Raster) -> int {
    larger(larger(r.width as int, r.height as int) / 256, 1)
}

/// The distance of two channel values.
pub open spec fn apart(a: u8, b: u8) -> int {
    if a < b {
        b - a
    } else {
        a - b
    }
}

/// The largest distance of two pixels over their channels.
pub open spec fn gap(p: [u8; 4], q: [u8; 4]) -> int {
    larger(
        larger(apart(p@[0], q@[0]), apart(p@[1], q@[1])),
        larger(apart(p@[2], q@[2]), apart(p@[3], q@[3])),
    )
}

/// The largest distance of pixel `i` to those `away` from it, left, right,
/// above and below.
pub open spec fn widest_gap(r: Raster, i: int, away: int) -> int {
    let p = r.pixels@[i];
    larger(
        larger(gap(p, r.pixels@[i - away]), gap(p, r.pixels@[i + away])),
        larger(
            gap(p, r.pixels@[i - away * r.width]),
            gap(p, r.pixels@[i + away * r.width]),
        ),
    )
}

/// `p` lies between `a` and `b` in every channel, and well apart from each.
pub open spec fn between(p: [u8; 4], a: [u8; 4], b: [u8; 4]) -> bool {
    &&& forall|c: int|
        0 <= c < 4 ==> (a@[c] <= p@[c] <= b@[c] || b@[c] <= #[trigger] p@[c] <= a@[c])
    &&& gap(p, a) >= 8
    &&& gap(p, b) >= 8
}

/// The place of a colour in the palette: five bits of each channel.
pub open spec fn colour_key(p: [u8; 4]) -> int {
    (p@[0] as int / 8) * 1024 + (p@[1] as int / 8) * 32 + p@[2] as int / 8
}

/// Pixel `i` has pixels all around it as far as flatness is measured.
pub open spec fn inside(r: Raster, i: int) -> bool {
    let (x, y) = (i % (r.width as int), i / (r.width as int));
    &&& reach_of(r) <= x
    &&& reach_of(r) <= y
    &&& x + reach_of(r) < r.width
    &&& y + reach_of(r) < r.height
}

/// What is counted of the measured pixels.
pub enum Measure {
    /// Not transparent.
    Visible,
    /// Visible, but not opaque.
    Partial,
    /// Visible and of the colour with this key.
    Colour(int),
    /// Visible with pixels all around.
    Tested,
    /// Tested, and much like those at a distance.
    Flat,
    /// Tested, and a little different from a neighbour.
    Soft,
    /// Tested, and different from a neighbour.
    Edge,
    /// An edge between the colours on its two sides.
    Blend,
}

/// Whether pixel `i` is counted.
pub open spec fn counts(r: Raster, i: int, what: Measure) -> bool {
    let p = r.pixels@[i];
    let seen = p@[3] >= 16;
    let tested = seen && inside(r, i);
    let edge = tested && widest_gap(r, i, 1) >= 9;
    match what {
        Measure::Visible => seen,
        Measure::Partial => seen && p@[3] < 255,
        Measure::Colour(key) => seen && colour_key(p) == key,
        Measure::Tested => tested,
        Measure::Flat => tested && widest_gap(r, i, reach_of(r)) < 9,
        Measure::Soft => tested && 9 <= widest_gap(r, i, 1) <= 48,
        Measure::Edge => edge,
        Measure::Blend => edge && (between(p, r.pixels@[i - 1], r.pixels@[i + 1]) || between(
            p,
            r.pixels@[i - r.width],
            r.pixels@[i + r.width],
        )),
    }
}

/// How many of the measured pixels among the first `n` are counted.
pub open spec fn tally(r: Raster, what: Measure, n: nat) -> nat
    decreases n,
{
    if n == 0 {
        0
    } else {
        tally(r, what, (n - 1) as nat) + (if (n - 1) % stride_of(r) == 0 && counts(
            r,
            n - 1,
            what,
        ) {
            1nat
        } else {
            0nat
        })
    }
}

/// The place of the first largest of the first `n` counts.
pub open spec fn largest_at(list: Seq<u64>, n: nat) -> int
    decreases n,
{
    if n <= 1 {
        0
    } else {
        let before = largest_at(list, (n - 1) as nat);
        if list[n - 1] > list[before] {
            n - 1
        } else {
            before
        }
    }
}

/// The sum of the `n` largest counts.
pub open spec fn top_sum(list: Seq<u64>, n: nat) -> int
    decreases n,
{
    if n == 0 {
        0
    } else {
        let at = largest_at(list, list.len());
        list[at] + top_sum(list.update(at, 0), (n - 1) as nat)
    }
}

/// How many colours the palette has room for.
pub const KEYS: usize = 32_768;

/// How many of the measured pixels have each colour.
pub open spec fn histogram_of(r: Raster) -> Seq<u64> {
    Seq::new(KEYS as nat, |k: int| tally(r, Measure::Colour(k), r.pixels@.len()) as u64)
}

/// How many measured pixels are counted in the whole picture.
pub open spec fn total(r: Raster, what: Measure) -> int {
    tally(r, what, r.pixels@.len()) as int
}

/// The share of `part` in `of`, out of one at least.
pub open spec fn share_of(part: int, of: int) -> Share {
    Share { part: part as u64, of: larger(of, 1) as u64 }
}

/// What `detect` finds.
pub open spec fn detection_of(r: Raster) -> Detection {
    let visible = total(r, Measure::Visible);
    let tested = total(r, Measure::Tested);
    let palette_coverage = share_of(top_sum(histogram_of(r), 16), visible);
    let flat_fraction = share_of(total(r, Measure::Flat), tested);
    let soft_edge_fraction = share_of(total(r, Measure::Soft), tested);
    let blend_edge_fraction = share_of(total(r, Measure::Blend), total(r, Measure::Edge));
    let partial = share_of(total(r, Measure::Partial), visible);
    let smaller = if r.width < r.height {
        r.width
    } else {
        r.height
    };
    Detection {
        category: if flat_fraction.is_below(70, 100) && palette_coverage.is_below(86, 100) {
            ImageCategory::Photograph
        } else if soft_edge_fraction.is_above(3, 1000) || blend_edge_fraction.is_above(1, 10)
            || partial.is_above(1, 1000) || palette_coverage.is_below(995, 1000) {
            ImageCategory::AntiAliasedArtwork
        } else {
            ImageCategory::AliasedArtwork
        },
        quality: if 48 <= smaller < 160 {
            Quality::Medium
        } else {
            Quality::High
        },
        flat_fraction,
        palette_coverage,
        soft_edge_fraction,
        blend_edge_fraction,
    }
}

fn max_u8(a: u8, b: u8) -> (m: u8)
    ensures
        m == larger(a as int, b as int),
{
    if a < b {
        b
    } else {
        a
    }
}

fn distance(a: u8, b: u8) -> (d: u8)
    ensures
        d == apart(a, b),
{
    if a < b {
        b - a
    } else {
        a - b
    }
}

fn pixel_gap(p: [u8; 4], q: [u8; 4]) -> (d: u8)
    ensures
        d == gap(p, q),
{
    max_u8(
        max_u8(distance(p[0], q[0]), distance(p[1], q[1])),
        max_u8(distance(p[2], q[2]), distance(p[3], q[3])),
    )
}

fn within(p: u8, a: u8, b: u8) -> (yes: bool)
    ensures
        yes == (a <= p <= b || b <= p <= a),
{
    (a <= p && p <= b) || (b <= p && p <= a)
}

fn is_between(p: [u8; 4], a: [u8; 4], b: [u8; 4]) -> (yes: bool)
    ensures
        yes == between(p, a, b),
{
    let all = within(p[0], a[0], b[0]) && within(p[1], a[1], b[1]) && within(p[2], a[2], b[2])
        && within(p[3], a[3], b[3]);
    proof {
        if !all {
            assert(!(a@[0] <= p@[0] <= b@[0] || b@[0] <= p@[0] <= a@[0]) || !(a@[1] <= p@[1]
                <= b@[1] || b@[1] <= p@[1] <= a@[1]) || !(a@[2] <= p@[2] <= b@[2] || b@[2]
                <= p@[2] <= a@[2]) || !(a@[3] <= p@[3] <= b@[3] || b@[3] <= p@[3] <= a@[3]));
        }
    }
    all && pixel_gap(p, a) >= 8 && pixel_gap(p, b) >= 8
}

/// The pixels around an inside pixel lie in the picture.
pub proof fn lemma_neighbours(r: Raster, i: int, away: int)
    requires
        r.ok(),
        0 <= i < r.pixels@.len(),
        inside(r, i),
        1 <= away <= reach_of(r),
    ensures
        0 <= i - away,
        i + away < r.pixels@.len(),
        0 <= away * r.width <= i,
        i + away * r.width < r.pixels@.len(),
{
    let w = r.width as int;
    let h = r.height as int;
    let (x, y) = (i % w, i / w);
    vstd::arithmetic::div_mod::lemma_fundamental_div_mod(i, w);
    assert(i == w * y + x);
    assert(0 <= away * w && away * w <= y * w) by (nonlinear_arith)
        requires
            0 <= away <= y,
            w > 0,
    ;
    assert((y + away) * w + x < h * w) by (nonlinear_arith)
        requires
            y + away + 1 <= h,
            0 <= x < w,
    ;
    assert((y + away) * w == w * y + away * w) by (nonlinear_arith);
    assert(w * y == y * w && h * w == w * h) by (nonlinear_arith);
    assert(away <= away * w) by (nonlinear_arith)
        requires
            away >= 1,
            w >= 1,
    ;
}

fn gap_around(r: &Raster, i: usize, away: usize) -> (d: u8)
    requires
        r.ok(),
        i < r.pixels@.len(),
        inside(*r, i as int),
        1 <= away <= reach_of(*r),
    ensures
        d == widest_gap(*r, i as int, away as int),
{
    proof {
        lemma_neighbours(*r, i as int, away as int);
    }
    let p = r.pixels[i];
    let count: usize = r.pixels.len();
    let rows: usize = away * r.width;
    max_u8(
        max_u8(pixel_gap(p, r.pixels[i - away]), pixel_gap(p, r.pixels[i + away])),
        max_u8(pixel_gap(p, r.pixels[i - rows]), pixel_gap(p, r.pixels[i + rows])),
    )
}

/// What is counted at one pixel.
struct Sample {
    visible: bool,
    partial: bool,
    key: usize,
    tested: bool,
    flat: bool,
    soft: bool,
    edge: bool,
    blend: bool,
}

#[verifier::spinoff_prover]
#[verifier::rlimit(40)]
fn sample(r: &Raster, i: usize, reach: usize) -> (s: Sample)
    requires
        r.ok(),
        i < r.pixels@.len(),
        reach == reach_of(*r),
    ensures
        s.visible == counts(*r, i as int, Measure::Visible),
        s.partial == counts(*r, i as int, Measure::Partial),
        s.tested == counts(*r, i as int, Measure::Tested),
        s.flat == counts(*r, i as int, Measure::Flat),
        s.soft == counts(*r, i as int, Measure::Soft),
        s.edge == counts(*r, i as int, Measure::Edge),
        s.blend == counts(*r, i as int, Measure::Blend),
        s.key == colour_key(r.pixels@[i as int]),
        s.key < KEYS,
{
    let p = r.pixels[i];
    let key: usize = (p[0] as usize / 8) * 1024 + (p[1] as usize / 8) * 32 + p[2] as usize / 8;
    let visible = p[3] >= 16;
    let partial = visible && p[3] < 255;
    let mut s = Sample {
        visible,
        partial,
        key,
        tested: false,
        flat: false,
        soft: false,
        edge: false,
        blend: false,
    };
    proof {
        if r.width == 0 {
            assert(0 * r.height == 0) by (nonlinear_arith);
        }
    }
    let x: usize = i % r.width;
    let y: usize = i / r.width;
    let room = reach <= x && reach <= y && r.width - x > reach && y < r.height && r.height - y
        > reach;
    assert(x < r.width) by (nonlinear_arith)
        requires
            x == i % r.width,
            r.width > 0,
    ;
    assert(room == inside(*r, i as int));
    if !visible || !room {
        return s;
    }
    let far: u8 = gap_around(r, i, reach);
    let delta: u8 = gap_around(r, i, 1);
    proof {
        lemma_neighbours(*r, i as int, 1);
    }
    let count: usize = r.pixels.len();
    s.tested = true;
    s.flat = far < 9;
    s.soft = 9 <= delta && delta <= 48;
    s.edge = delta >= 9;
    s.blend = delta >= 9 && (is_between(p, r.pixels[i - 1], r.pixels[i + 1]) || is_between(
        p,
        r.pixels[i - r.width],
        r.pixels[i + r.width],
    ));
    s
}

pub proof fn lemma_tally_bound(r: Raster, what: Measure, n: nat)
    ensures
        tally(r, what, n) <= n,
    decreases n,
{
    if n > 0 {
        lemma_tally_bound(r, what, (n - 1) as nat);
    }
}

/// Between two measured pixels nothing is counted.
proof fn lemma_tally_skips(r: Raster, what: Measure, a: int, b: int)
    requires
        0 <= a < b <= a + stride_of(r),
        a % stride_of(r) == 0,
    ensures
        tally(r, what, b as nat) == tally(r, what, (a + 1) as nat),
    decreases b,
{
    if b > a + 1 {
        lemma_tally_skips(r, what, a, b - 1);
        let s = stride_of(r);
        let i = b - 1;
        let q = a / s;
        vstd::arithmetic::div_mod::lemma_fundamental_div_mod(a, s);
        assert(i == q * s + (i - a)) by (nonlinear_arith)
            requires
                a == s * q,
        ;
        vstd::arithmetic::div_mod::lemma_fundamental_div_mod_converse(i, s, q, i - a);
        assert(i % s != 0);
    }
}

/// The counters of a picture's measured pixels.
struct Tallies {
    visible: u64,
    partial: u64,
    tested: u64,
    flat: u64,
    soft: u64,
    edge: u64,
    blend: u64,
    histogram: Vec<u64>,
}

impl Tallies {
    spec fn stand(self, r: Raster, n: nat) -> bool {
        &&& self.visible == tally(r, Measure::Visible, n)
        &&& self.partial == tally(r, Measure::Partial, n)
        &&& self.tested == tally(r, Measure::Tested, n)
        &&& self.flat == tally(r, Measure::Flat, n)
        &&& self.soft == tally(r, Measure::Soft, n)
        &&& self.edge == tally(r, Measure::Edge, n)
        &&& self.blend == tally(r, Measure::Blend, n)
        &&& self.histogram@.len() == KEYS
        &&& forall|k: int|
            0 <= k < KEYS ==> #[trigger] self.histogram@[k] == tally(r, Measure::Colour(k), n)
    }

    /// Counts pixel `i`.
    fn add_sample(&mut self, r: &Raster, i: usize, s: &Sample)
        requires
            r.ok(),
            i < r.pixels@.len(),
            i as int % stride_of(*r) == 0,
            old(self).stand(*r, i as nat),
            s.visible == counts(*r, i as int, Measure::Visible),
            s.partial == counts(*r, i as int, Measure::Partial),
            s.tested == counts(*r, i as int, Measure::Tested),
            s.flat == counts(*r, i as int, Measure::Flat),
            s.soft == counts(*r, i as int, Measure::Soft),
            s.edge == counts(*r, i as int, Measure::Edge),
            s.blend == counts(*r, i as int, Measure::Blend),
            s.key == colour_key(r.pixels@[i as int]),
            s.key < KEYS,
        ensures
            final(self).stand(*r, (i + 1) as nat),
    {
        proof {
            lemma_tally_bound(*r, Measure::Visible, i as nat);
            lemma_tally_bound(*r, Measure::Partial, i as nat);
            lemma_tally_bound(*r, Measure::Tested, i as nat);
            lemma_tally_bound(*r, Measure::Flat, i as nat);
            lemma_tally_bound(*r, Measure::Soft, i as nat);
            lemma_tally_bound(*r, Measure::Edge, i as nat);
            lemma_tally_bound(*r, Measure::Blend, i as nat);
            lemma_tally_bound(*r, Measure::Colour(s.key as int), i as nat);
        }
        let count: usize = r.pixels.len();
        self.visible = self.visible + s.visible as u64;
        self.partial = self.partial + s.partial as u64;
        self.tested = self.tested + s.tested as u64;
        self.flat = self.flat + s.flat as u64;
        self.soft = self.soft + s.soft as u64;
        self.edge = self.edge + s.edge as u64;
        self.blend = self.blend + s.blend as u64;
        if s.visible {
            let more: u64 = self.histogram[s.key] + 1;
            self.histogram.set(s.key, more);
        }
        assert forall|k: int| 0 <= k < KEYS implies #[trigger] self.histogram@[k] == tally(
            *r,
            Measure::Colour(k),
            (i + 1) as nat,
        ) by {
            assert(old(self).histogram@[k] == tally(*r, Measure::Colour(k), i as nat));
        }
    }
}

/// Counts the measured pixels.
fn tallies(r: &Raster, stride: usize, reach: usize) -> (t: Tallies)
    requires
        r.ok(),
        stride == stride_of(*r),
        reach == reach_of(*r),
    ensures
        t.stand(*r, r.pixels@.len()),
{
    let mut t = Tallies {
        visible: 0,
        partial: 0,
        tested: 0,
        flat: 0,
        soft: 0,
        edge: 0,
        blend: 0,
        histogram: Vec::new(),
    };
    while t.histogram.len() < KEYS
        invariant
            t.visible == 0 && t.partial == 0 && t.tested == 0 && t.flat == 0 && t.soft == 0
                && t.edge == 0 && t.blend == 0,
            t.histogram@.len() <= KEYS,
            forall|k: int| 0 <= k < t.histogram@.len() ==> #[trigger] t.histogram@[k] == 0,
        decreases KEYS - t.histogram@.len(),
    {
        t.histogram.push(0);
    }
    let count: usize = r.pixels.len();
    let mut i: usize = 0;
    while i < count
        invariant
            r.ok(),
            count == r.pixels@.len(),
            stride == stride_of(*r),
            reach == reach_of(*r),
            i <= count,
            i < count ==> i as int % stride_of(*r) == 0,
            t.stand(*r, i as nat),
        decreases count - i,
    {
        let s = sample(r, i, reach);
        t.add_sample(r, i, &s);
        let next: usize = if count - i <= stride {
            count
        } else {
            i + stride
        };
        proof {
            let w = stride as int;
            assert forall|what: Measure| #[trigger] tally(*r, what, next as nat) == tally(
                *r,
                what,
                (i + 1) as nat,
            ) by {
                lemma_tally_skips(*r, what, i as int, next as int);
            }
            assert forall|k: int| 0 <= k < KEYS implies #[trigger] t.histogram@[k] == tally(
                *r,
                Measure::Colour(k),
                next as nat,
            ) by {
                assert(t.histogram@[k] == tally(*r, Measure::Colour(k), (i + 1) as nat));
            }
            assert((i + w) % w == 0) by (nonlinear_arith)
                requires
                    i as int % w == 0,
                    w > 0,
            ;
        }
        i = next;
    }
    t
}

pub proof fn lemma_largest_in(list: Seq<u64>, n: nat)
    requires
        0 < n <= list.len(),
    ensures
        0 <= largest_at(list, n) < n,
    decreases n,
{
    if n > 1 {
        lemma_largest_in(list, (n - 1) as nat);
    }
}

/// The sum of the sixteen largest counts.
fn largest_sixteen(list: &mut Vec<u64>) -> (sum: u128)
    requires
        old(list)@.len() > 0,
    ensures
        sum == top_sum(old(list)@, 16),
{
    let ghost start = list@;
    let mut sum: u128 = 0;
    let mut n: usize = 0;
    while n < 16
        invariant
            n <= 16,
            list@.len() == start.len(),
            start.len() > 0,
            sum <= n * 0x1_0000_0000_0000_0000,
            top_sum(start, 16) == sum + top_sum(list@, (16 - n) as nat),
        decreases 16 - n,
    {
        let mut at: usize = 0;
        let mut k: usize = 1;
        while k < list.len()
            invariant
                1 <= k <= list@.len(),
                at < k,
                at == largest_at(list@, k as nat),
            decreases list@.len() - k,
        {
            if list[k] > list[at] {
                at = k;
            }
            k = k + 1;
        }
        sum = sum + list[at] as u128;
        list.set(at, 0);
        n = n + 1;
    }
    sum
}

fn share(part: u64, of: u64) -> (s: Share)
    ensures
        s == share_of(part as int, of as int),
{
    Share {
        part,
        of: if of < 1 {
            1
        } else {
            of
        },
    }
}

/// The colours' counts make up the visible pixels.
proof fn lemma_colours_sum(r: Raster, n: nat)
    ensures
        colour_sum(r, KEYS as nat, n) == tally(r, Measure::Visible, n),
    decreases n,
{
    if n == 0 {
        lemma_no_colours(r, KEYS as nat);
    } else {
        lemma_colours_sum(r, (n - 1) as nat);
        lemma_colour_step(r, KEYS as nat, n);
    }
}

spec fn colour_sum(r: Raster, keys: nat, n: nat) -> int
    decreases keys,
{
    if keys == 0 {
        0
    } else {
        colour_sum(r, (keys - 1) as nat, n) + tally(r, Measure::Colour(keys - 1), n)
    }
}

proof fn lemma_no_colours(r: Raster, keys: nat)
    ensures
        colour_sum(r, keys, 0) == 0,
    decreases keys,
{
    if keys > 0 {
        lemma_no_colours(r, (keys - 1) as nat);
    }
}

proof fn lemma_colour_step(r: Raster, keys: nat, n: nat)
    requires
        n > 0,
    ensures
        colour_sum(r, keys, n) == colour_sum(r, keys, (n - 1) as nat) + (if (n - 1) % stride_of(r)
            == 0 && counts(r, n - 1, Measure::Visible) && colour_key(r.pixels@[n - 1]) < keys {
            1int
        } else {
            0int
        }),
    decreases keys,
{
    if keys > 0 {
        lemma_colour_step(r, (keys - 1) as nat, n);
    }
}

spec fn list_sum(list: Seq<u64>, n: nat) -> int
    decreases n,
{
    if n == 0 {
        0
    } else {
        list_sum(list, (n - 1) as nat) + list[n - 1]
    }
}

proof fn lemma_list_update(list: Seq<u64>, at: int, n: nat)
    requires
        0 <= at < list.len(),
        n <= list.len(),
    ensures
        list_sum(list.update(at, 0), n) == list_sum(list, n) - (if at < n {
            list[at] as int
        } else {
            0
        }),
    decreases n,
{
    if n > 0 {
        lemma_list_update(list, at, (n - 1) as nat);
    }
}

proof fn lemma_list_sum_positive(list: Seq<u64>, n: nat)
    requires
        n <= list.len(),
    ensures
        0 <= list_sum(list, n),
    decreases n,
{
    if n > 0 {
        lemma_list_sum_positive(list, (n - 1) as nat);
    }
}

proof fn lemma_top_within(list: Seq<u64>, n: nat)
    requires
        list.len() > 0,
    ensures
        0 <= top_sum(list, n) <= list_sum(list, list.len()),
    decreases n,
{
    lemma_list_sum_positive(list, list.len());
    if n > 0 {
        let at = largest_at(list, list.len());
        lemma_largest_in(list, list.len());
        lemma_list_update(list, at, list.len());
        lemma_top_within(list.update(at, 0), (n - 1) as nat);
    }
}

proof fn lemma_histogram_sum(r: Raster, n: nat)
    requires
        r.pixels@.len() <= u64::MAX,
        n <= KEYS,
    ensures
        list_sum(histogram_of(r), n) == colour_sum(r, n, r.pixels@.len()),
    decreases n,
{
    if n > 0 {
        lemma_histogram_sum(r, (n - 1) as nat);
        lemma_tally_bound(r, Measure::Colour(n - 1), r.pixels@.len());
    }
}

/// The palette's sixteen colours are no more than what is visible.
pub proof fn lemma_palette(r: Raster)
    requires
        r.pixels@.len() <= u64::MAX,
    ensures
        0 <= top_sum(histogram_of(r), 16) <= total(r, Measure::Visible) <= r.pixels@.len(),
{
    lemma_top_within(histogram_of(r), 16);
    lemma_histogram_sum(r, KEYS as nat);
    lemma_colours_sum(r, r.pixels@.len());
    lemma_tally_bound(r, Measure::Visible, r.pixels@.len());
}

proof fn lemma_tally_within(r: Raster, a: Measure, b: Measure, n: nat)
    requires
        forall|i: int| #[trigger] counts(r, i, a) ==> counts(r, i, b),
    ensures
        tally(r, a, n) <= tally(r, b, n),
    decreases n,
{
    if n > 0 {
        lemma_tally_within(r, a, b, (n - 1) as nat);
    }
}

/// Every measure of a picture is a share of a whole: no part exceeds it.
pub proof fn law_shares_are_parts(r: Raster)
    requires
        r.ok(),
        r.pixels@.len() <= u64::MAX,
    ensures
        detection_of(r).flat_fraction.part <= detection_of(r).flat_fraction.of,
        detection_of(r).palette_coverage.part <= detection_of(r).palette_coverage.of,
        detection_of(r).soft_edge_fraction.part <= detection_of(r).soft_edge_fraction.of,
        detection_of(r).blend_edge_fraction.part <= detection_of(r).blend_edge_fraction.of,
{
    let n = r.pixels@.len();
    lemma_palette(r);
    lemma_tally_within(r, Measure::Flat, Measure::Tested, n);
    lemma_tally_within(r, Measure::Soft, Measure::Tested, n);
    lemma_tally_within(r, Measure::Blend, Measure::Edge, n);
    lemma_tally_bound(r, Measure::Tested, n);
    lemma_tally_bound(r, Measure::Edge, n);
}

fn max_usize(a: usize, b: usize) -> (m: usize)
    ensures
        m == larger(a as int, b as int),
{
    if a < b {
        b
    } else {
        a
    }
}

/// Bounded sampling of local variation, palette concentration and alpha
/// coverage. Source quality is a conservative estimate from the resolution.
pub fn detect(raster: &Raster) -> (found: Detection)
    requires
        raster.ok(),
    ensures
        found == detection_of(*raster),
{
    let count: usize = raster.pixels.len();
    let stride: usize = max_usize(count / 200_000, 1);
    let reach: usize = max_usize(max_usize(raster.width, raster.height) / 256, 1);
    let mut t = tallies(raster, stride, reach);
    proof {
        assert forall|k: int| 0 <= k < KEYS implies #[trigger] t.histogram@[k] == histogram_of(
            *raster,
        )[k] by {
            assert(t.histogram@[k] == tally(*raster, Measure::Colour(k), raster.pixels@.len()));
        }
        assert(t.histogram@ =~= histogram_of(*raster));
        lemma_palette(*raster);
    }
    let palette_coverage = share(largest_sixteen(&mut t.histogram) as u64, t.visible);
    let flat_fraction = share(t.flat, t.tested);
    let soft_edge_fraction = share(t.soft, t.tested);
    let blend_edge_fraction = share(t.blend, t.edge);
    let partial = share(t.partial, t.visible);
    let category = if flat_fraction.below(70, 100) && palette_coverage.below(86, 100) {
        ImageCategory::Photograph
    } else if soft_edge_fraction.above(3, 1000) || blend_edge_fraction.above(1, 10)
        || partial.above(1, 1000) || palette_coverage.below(995, 1000) {
        ImageCategory::AntiAliasedArtwork
    } else {
        ImageCategory::AliasedArtwork
    };
    let smaller: usize = if raster.width < raster.height {
        raster.width
    } else {
        raster.height
    };
    let quality = if 48 <= smaller && smaller < 160 {
        Quality::Medium
    } else {
        Quality::High
    };
    Detection {
        category,
        quality,
        flat_fraction,
        palette_coverage,
        soft_edge_fraction,
        blend_edge_fraction,
    }
}

} // verus!
