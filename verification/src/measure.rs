//! What the measures of a picture count, by where its pixels lie, and what the
//! picture is called by them.
use crate::auto::{
    between, colour_key, counts, detection_of, gap, histogram_of, inside, largest_at,
    lemma_largest_in, lemma_neighbours, lemma_palette, lemma_tally_bound, reach_of, stride_of,
    tally, top_sum, total, widest_gap, Measure, KEYS,
};
use crate::picture::{ImageCategory, Quality, Raster};
use vstd::prelude::*;

verus! {

/// The pixel in column `x` of row `y`: red, green, blue and alpha.
pub open spec fn pixel(r: Raster, x: int, y: int) -> Seq<u8> {
    r.pixels@[y * r.width + x]@
}

/// No channel of the two differs by more than `levels`.
pub open spec fn like(p: Seq<u8>, q: Seq<u8>, levels: int) -> bool {
    forall|c: int| 0 <= c < 4 ==> -levels <= #[trigger] p[c] - q[c] <= levels
}

/// The pixel is like the four that lie `away` from it, left, right, above and
/// below.
pub open spec fn like_around(r: Raster, x: int, y: int, away: int, levels: int) -> bool {
    &&& like(pixel(r, x, y), pixel(r, x - away, y), levels)
    &&& like(pixel(r, x, y), pixel(r, x + away, y), levels)
    &&& like(pixel(r, x, y), pixel(r, x, y - away), levels)
    &&& like(pixel(r, x, y), pixel(r, x, y + away), levels)
}

/// Every channel of `p` lies between those of `a` and `b`, and some channel
/// lies eight levels off each.
pub open spec fn mixes(p: Seq<u8>, a: Seq<u8>, b: Seq<u8>) -> bool {
    &&& forall|c: int|
        0 <= c < 4 ==> (a[c] <= #[trigger] p[c] || b[c] <= p[c]) && (p[c] <= a[c] || p[c] <= b[c])
    &&& !like(p, a, 7)
    &&& !like(p, b, 7)
}

/// One pixel in 256 of the longer side, and one at least.
pub open spec fn far_of(r: Raster) -> int {
    if r.width < 512 && r.height < 512 {
        1
    } else if r.width < r.height {
        r.height as int / 256
    } else {
        r.width as int / 256
    }
}

/// Every pixel of a picture of fewer than 400,000 is measured, of a larger one
/// every second, third and so on: 200,000 of them or a few more.
pub open spec fn measured(r: Raster, i: int) -> bool {
    &&& 0 <= i < r.pixels@.len()
    &&& r.pixels@.len() < 400_000 || i % (r.pixels@.len() as int / 200_000) == 0
}

pub open spec fn column(r: Raster, i: int) -> int {
    i % (r.width as int)
}

pub open spec fn row(r: Raster, i: int) -> int {
    i / (r.width as int)
}

/// A measured pixel that is not nearly transparent.
pub open spec fn seen(r: Raster, i: int) -> bool {
    measured(r, i) && r.pixels@[i]@[3] >= 16
}

/// A pixel seen that has as many pixels on every side as flatness looks over.
pub open spec fn tested(r: Raster, i: int) -> bool {
    let far = far_of(r);
    &&& seen(r, i)
    &&& far <= column(r, i) < r.width - far
    &&& far <= row(r, i) < r.height - far
}

/// A tested pixel that differs from one beside it by nine levels or more.
pub open spec fn edge(r: Raster, i: int) -> bool {
    tested(r, i) && !like_around(r, column(r, i), row(r, i), 1, 8)
}

/// An edge pixel that is a mix of the colours to its left and right, or above
/// and below it.
pub open spec fn blended(r: Raster, i: int) -> bool {
    let (x, y) = (column(r, i), row(r, i));
    &&& edge(r, i)
    &&& mixes(pixel(r, x, y), pixel(r, x - 1, y), pixel(r, x + 1, y)) || mixes(
        pixel(r, x, y),
        pixel(r, x, y - 1),
        pixel(r, x, y + 1),
    )
}

/// The two colours share the upper five bits of red, green and blue.
pub open spec fn same_colour(p: Seq<u8>, q: Seq<u8>) -> bool {
    &&& p[0] / 8 == q[0] / 8
    &&& p[1] / 8 == q[1] / 8
    &&& p[2] / 8 == q[2] / 8
}

proof fn lemma_gap(p: [u8; 4], q: [u8; 4], levels: int)
    ensures
        gap(p, q) <= levels <==> like(p@, q@, levels),
{
    if like(p@, q@, levels) {
        assert(-levels <= p@[0] - q@[0] <= levels);
        assert(-levels <= p@[1] - q@[1] <= levels);
        assert(-levels <= p@[2] - q@[2] <= levels);
        assert(-levels <= p@[3] - q@[3] <= levels);
    }
}

proof fn lemma_widest(r: Raster, i: int, away: int, levels: int)
    requires
        r.ok(),
        0 <= i < r.pixels@.len(),
        inside(r, i),
        1 <= away <= reach_of(r),
    ensures
        widest_gap(r, i, away) <= levels <==> like_around(
            r,
            column(r, i),
            row(r, i),
            away,
            levels,
        ),
{
    lemma_around(r, i, away);
    let p = r.pixels@[i];
    let w = r.width as int;
    lemma_gap(p, r.pixels@[i - away], levels);
    lemma_gap(p, r.pixels@[i + away], levels);
    lemma_gap(p, r.pixels@[i - away * w], levels);
    lemma_gap(p, r.pixels@[i + away * w], levels);
}

/// Where the pixels around a pixel stand in the picture.
proof fn lemma_around(r: Raster, i: int, away: int)
    requires
        r.ok(),
        0 <= i < r.pixels@.len(),
        inside(r, i),
        1 <= away <= reach_of(r),
    ensures
        pixel(r, column(r, i), row(r, i)) == r.pixels@[i]@,
        pixel(r, column(r, i) - away, row(r, i)) == r.pixels@[i - away]@,
        pixel(r, column(r, i) + away, row(r, i)) == r.pixels@[i + away]@,
        pixel(r, column(r, i), row(r, i) - away) == r.pixels@[i - away * r.width]@,
        pixel(r, column(r, i), row(r, i) + away) == r.pixels@[i + away * r.width]@,
{
    lemma_neighbours(r, i, away);
    let w = r.width as int;
    vstd::arithmetic::div_mod::lemma_fundamental_div_mod(i, w);
    let (x, y) = (column(r, i), row(r, i));
    assert(w * y == y * w) by (nonlinear_arith);
    assert((y - away) * w == y * w - away * w) by (nonlinear_arith);
    assert((y + away) * w == y * w + away * w) by (nonlinear_arith);
}

proof fn lemma_scale(r: Raster)
    ensures
        reach_of(r) == far_of(r),
        stride_of(r) == (if r.pixels@.len() < 400_000 {
            1
        } else {
            r.pixels@.len() as int / 200_000
        }),
{
}

proof fn lemma_between(p: [u8; 4], a: [u8; 4], b: [u8; 4])
    ensures
        between(p, a, b) == mixes(p@, a@, b@),
{
    lemma_gap(p, a, 7);
    lemma_gap(p, b, 7);
    if between(p, a, b) {
        assert forall|c: int| 0 <= c < 4 implies (a@[c] <= #[trigger] p@[c] || b@[c] <= p@[c]) && (
        p@[c] <= a@[c] || p@[c] <= b@[c]) by {
            assert(a@[c] <= p@[c] <= b@[c] || b@[c] <= p@[c] <= a@[c]);
        }
    }
    if mixes(p@, a@, b@) {
        assert forall|c: int| 0 <= c < 4 implies (a@[c] <= p@[c] <= b@[c] || b@[c]
            <= #[trigger] p@[c] <= a@[c]) by {
            assert((a@[c] <= p@[c] || b@[c] <= p@[c]) && (p@[c] <= a@[c] || p@[c] <= b@[c]));
        }
    }
}

/// The measured pixels that are counted.
spec fn counted(r: Raster, what: Measure, n: nat) -> Set<int> {
    Set::new(|i: int| 0 <= i < n && i % stride_of(r) == 0 && counts(r, i, what))
}

proof fn lemma_tally_is_len(r: Raster, what: Measure, n: nat)
    ensures
        counted(r, what, n).finite(),
        counted(r, what, n).len() == tally(r, what, n),
    decreases n,
{
    if n == 0 {
        assert(counted(r, what, 0) =~= Set::empty());
    } else {
        let m = (n - 1) as nat;
        lemma_tally_is_len(r, what, m);
        if (n - 1) % stride_of(r) == 0 && counts(r, n - 1, what) {
            assert(counted(r, what, n) =~= counted(r, what, m).insert(n - 1));
        } else {
            assert(counted(r, what, n) =~= counted(r, what, m));
        }
    }
}

proof fn lemma_counts(r: Raster, i: int)
    requires
        r.ok(),
        measured(r, i),
    ensures
        i % stride_of(r) == 0,
        counts(r, i, Measure::Visible) == seen(r, i),
        counts(r, i, Measure::Partial) == (seen(r, i) && r.pixels@[i]@[3] < 255),
        counts(r, i, Measure::Tested) == tested(r, i),
        counts(r, i, Measure::Flat) == (tested(r, i) && like_around(
            r,
            column(r, i),
            row(r, i),
            far_of(r),
            8,
        )),
        counts(r, i, Measure::Soft) == (edge(r, i) && like_around(
            r,
            column(r, i),
            row(r, i),
            1,
            48,
        )),
        counts(r, i, Measure::Edge) == edge(r, i),
        counts(r, i, Measure::Blend) == blended(r, i),
{
    lemma_scale(r);
    assert(i % 1 == 0);
    if tested(r, i) {
        assert(inside(r, i));
        lemma_widest(r, i, reach_of(r), 8);
        lemma_widest(r, i, 1, 8);
        lemma_widest(r, i, 1, 48);
        lemma_around(r, i, 1);
        lemma_neighbours(r, i, 1);
        let w = r.width as int;
        assert(1 * w == w);
        lemma_between(r.pixels@[i], r.pixels@[i - 1], r.pixels@[i + 1]);
        lemma_between(r.pixels@[i], r.pixels@[i - w], r.pixels@[i + w]);
    }
}

proof fn lemma_total(r: Raster, what: Measure, all: Set<int>)
    requires
        r.ok(),
        forall|i: int| #[trigger] all.contains(i) <==> measured(r, i) && counts(r, i, what),
    ensures
        all.finite(),
        total(r, what) == all.len(),
        all.len() <= r.pixels@.len(),
{
    let n = r.pixels@.len();
    lemma_tally_is_len(r, what, n);
    lemma_tally_bound(r, what, n);
    lemma_scale(r);
    assert forall|i: int| counted(r, what, n).contains(i) <==> #[trigger] all.contains(i) by {
        assert(i % 1 == 0);
    }
    assert(counted(r, what, n) =~= all);
}

/// A share's two counts are those of the pixels in `part` and, out of one at
/// least, in `of`.
pub open spec fn shares(share: crate::auto::Share, part: Set<int>, of: Set<int>) -> bool {
    &&& part.finite()
    &&& of.finite()
    &&& share.part == part.len()
    &&& share.of == (if of.len() == 0 {
        1
    } else {
        of.len()
    })
}

/// The measures count pixels: the flat ones among the tested, those like the
/// pixels a way off in all four directions; the soft ones among the tested,
/// which differ a little from a pixel beside them; and the blended ones among
/// the edges.
pub proof fn law_measures_count_pixels(r: Raster)
    requires
        r.ok(),
    ensures
        ({
            let found = detection_of(r);
            let all_tested = Set::new(|i: int| tested(r, i));
            &&& shares(
                found.flat_fraction,
                Set::new(
                    |i: int|
                        tested(r, i) && like_around(r, column(r, i), row(r, i), far_of(r), 8),
                ),
                all_tested,
            )
            &&& shares(
                found.soft_edge_fraction,
                Set::new(
                    |i: int|
                        edge(r, i) && like_around(r, column(r, i), row(r, i), 1, 48),
                ),
                all_tested,
            )
            &&& shares(
                found.blend_edge_fraction,
                Set::new(|i: int| blended(r, i)),
                Set::new(|i: int| edge(r, i)),
            )
        }),
{
    assert(r.pixels@.len() <= usize::MAX) by {
        assert(r.pixels@.len() == r.pixels.len());
    }
    let flat = Set::new(
        |i: int| tested(r, i) && like_around(r, column(r, i), row(r, i), far_of(r), 8),
    );
    let soft = Set::new(|i: int| edge(r, i) && like_around(r, column(r, i), row(r, i), 1, 48));
    let blend = Set::new(|i: int| blended(r, i));
    let edges = Set::new(|i: int| edge(r, i));
    let all = Set::new(|i: int| tested(r, i));
    assert forall|i: int| #[trigger] flat.contains(i) <==> measured(r, i) && counts(
        r,
        i,
        Measure::Flat,
    ) by {
        if measured(r, i) {
            lemma_counts(r, i);
        }
    }
    assert forall|i: int| #[trigger] soft.contains(i) <==> measured(r, i) && counts(
        r,
        i,
        Measure::Soft,
    ) by {
        if measured(r, i) {
            lemma_counts(r, i);
        }
    }
    assert forall|i: int| #[trigger] blend.contains(i) <==> measured(r, i) && counts(
        r,
        i,
        Measure::Blend,
    ) by {
        if measured(r, i) {
            lemma_counts(r, i);
        }
    }
    assert forall|i: int| #[trigger] edges.contains(i) <==> measured(r, i) && counts(
        r,
        i,
        Measure::Edge,
    ) by {
        if measured(r, i) {
            lemma_counts(r, i);
        }
    }
    assert forall|i: int| #[trigger] all.contains(i) <==> measured(r, i) && counts(
        r,
        i,
        Measure::Tested,
    ) by {
        if measured(r, i) {
            lemma_counts(r, i);
        }
    }
    lemma_total(r, Measure::Flat, flat);
    lemma_total(r, Measure::Soft, soft);
    lemma_total(r, Measure::Blend, blend);
    lemma_total(r, Measure::Edge, edges);
    lemma_total(r, Measure::Tested, all);
}

/// What a picture is called. A photograph is one of which less than 70 in a
/// hundred tested pixels are flat and less than 86 in a hundred visible ones
/// are covered by sixteen colours. Any other is pixel art when no more than
/// three in a thousand tested pixels are soft, no more than a tenth of the
/// edges blended, no more than one in a thousand visible pixels translucent,
/// and sixteen colours cover 995 in a thousand; else it is artwork.
pub proof fn law_a_picture_is_called_by_its_measures(r: Raster)
    requires
        r.ok(),
    ensures
        ({
            let found = detection_of(r);
            let (flat, palette) = (found.flat_fraction, found.palette_coverage);
            let (soft, blend) = (found.soft_edge_fraction, found.blend_edge_fraction);
            let visible = Set::new(|i: int| seen(r, i));
            let translucent = Set::new(|i: int| seen(r, i) && r.pixels@[i]@[3] < 255);
            let photo = 10 * flat.part < 7 * flat.of && 50 * palette.part < 43 * palette.of;
            let sharp = 1000 * soft.part <= 3 * soft.of && 10 * blend.part <= blend.of && 1000
                * translucent.len() <= visible.len() && 200 * palette.part >= 199 * palette.of;
            &&& visible.finite() && translucent.finite()
            &&& found.category == ImageCategory::Photograph <==> photo
            &&& found.category == ImageCategory::AliasedArtwork <==> !photo && sharp
            &&& found.category == ImageCategory::AntiAliasedArtwork <==> !photo && !sharp
        }),
{
    assert(r.pixels@.len() <= usize::MAX) by {
        assert(r.pixels@.len() == r.pixels.len());
    }
    let visible = Set::new(|i: int| seen(r, i));
    let translucent = Set::new(|i: int| seen(r, i) && r.pixels@[i]@[3] < 255);
    assert forall|i: int| #[trigger] visible.contains(i) <==> measured(r, i) && counts(
        r,
        i,
        Measure::Visible,
    ) by {
        if measured(r, i) {
            lemma_counts(r, i);
        }
    }
    assert forall|i: int| #[trigger] translucent.contains(i) <==> measured(r, i) && counts(
        r,
        i,
        Measure::Partial,
    ) by {
        if measured(r, i) {
            lemma_counts(r, i);
        }
    }
    lemma_total(r, Measure::Visible, visible);
    lemma_total(r, Measure::Partial, translucent);
    if visible.len() == 0 {
        assert(translucent.subset_of(visible));
        vstd::set_lib::lemma_len_subset(translucent, visible);
    }
}

/// The quality goes by the shorter side alone: medium from 48 pixels to 159,
/// and else high.
pub proof fn law_quality_goes_by_the_shorter_side(r: Raster)
    ensures
        detection_of(r).quality == Quality::Medium <==> 48 <= r.width && 48 <= r.height && (r.width
            < 160 || r.height < 160),
        detection_of(r).quality != Quality::Medium ==> detection_of(r).quality == Quality::High,
{
}

/// The sum of the counts of `keys`.
pub open spec fn sum_of(list: Seq<u64>, keys: Seq<int>) -> int
    decreases keys.len(),
{
    if keys.len() == 0 {
        0
    } else {
        sum_of(list, keys.drop_last()) + list[keys.last()]
    }
}

/// The keys are places of `list`, none of them twice.
pub open spec fn apart_in(list: Seq<u64>, keys: Seq<int>) -> bool {
    &&& keys.no_duplicates()
    &&& forall|k: int| 0 <= k < keys.len() ==> 0 <= #[trigger] keys[k] < list.len()
}

proof fn lemma_sum_same(a: Seq<u64>, b: Seq<u64>, keys: Seq<int>)
    requires
        forall|k: int| 0 <= k < keys.len() ==> a[#[trigger] keys[k]] == b[keys[k]],
    ensures
        sum_of(a, keys) == sum_of(b, keys),
    decreases keys.len(),
{
    if keys.len() > 0 {
        let rest = keys.drop_last();
        assert forall|k: int| 0 <= k < rest.len() implies a[#[trigger] rest[k]] == b[rest[k]] by {
            assert(rest[k] == keys[k]);
        }
        lemma_sum_same(a, b, rest);
        assert(a[keys[keys.len() - 1]] == b[keys[keys.len() - 1]]);
    }
}

proof fn lemma_sum_without(list: Seq<u64>, keys: Seq<int>, j: int)
    requires
        0 <= j < keys.len(),
    ensures
        sum_of(list, keys) == sum_of(list, keys.remove(j)) + list[keys[j]],
    decreases keys.len(),
{
    let last = keys.len() - 1;
    if j == last {
        assert(keys.remove(j) =~= keys.drop_last());
    } else {
        lemma_sum_without(list, keys.drop_last(), j);
        assert(keys.remove(j).drop_last() =~= keys.drop_last().remove(j));
        assert(keys.remove(j).last() == keys.last());
    }
}

proof fn lemma_largest(list: Seq<u64>, n: nat)
    requires
        0 < n <= list.len(),
    ensures
        0 <= largest_at(list, n) < n,
        forall|k: int| 0 <= k < n ==> #[trigger] list[k] <= list[largest_at(list, n)],
    decreases n,
{
    lemma_largest_in(list, n);
    if n > 1 {
        lemma_largest(list, (n - 1) as nat);
    }
}

/// No `n` places sum up to more.
proof fn lemma_top_most(list: Seq<u64>, n: nat, keys: Seq<int>)
    requires
        list.len() > 0,
        keys.len() <= n,
        apart_in(list, keys),
    ensures
        sum_of(list, keys) <= top_sum(list, n),
    decreases n,
{
    if n > 0 {
        let at = largest_at(list, list.len());
        lemma_largest(list, list.len());
        let rest = list.update(at, 0);
        if keys.len() == 0 {
            lemma_top_most(rest, (n - 1) as nat, keys);
        } else {
            let j = if keys.contains(at) {
                choose|j: int| 0 <= j < keys.len() && keys[j] == at
            } else {
                keys.len() - 1
            };
            assert(0 <= keys[j] < list.len());
            let less = keys.remove(j);
            assert forall|k: int| 0 <= k < less.len() implies 0 <= #[trigger] less[k] < list.len()
                && less[k] != at by {
                let m = if k < j {
                    k
                } else {
                    k + 1
                };
                assert(less[k] == keys[m]);
                if keys[m] == at {
                    assert(keys.contains(at));
                    assert(keys[m] == keys[j] && m != j);
                }
            }
            assert(less.no_duplicates()) by {
                assert forall|a: int, b: int|
                    0 <= a < less.len() && 0 <= b < less.len() && a != b implies less[a]
                    != less[b] by {
                    let x = if a < j {
                        a
                    } else {
                        a + 1
                    };
                    let y = if b < j {
                        b
                    } else {
                        b + 1
                    };
                    assert(less[a] == keys[x] && less[b] == keys[y] && x != y);
                }
            }
            lemma_top_most(rest, (n - 1) as nat, less);
            lemma_sum_same(list, rest, less);
            lemma_sum_without(list, keys, j);
            assert(list[keys[j]] <= list[at]);
        }
    } else {
        assert(keys.len() == 0);
    }
}

/// Some `n` places sum up to as much.
proof fn lemma_top_taken(list: Seq<u64>, n: nat) -> (keys: Seq<int>)
    requires
        list.len() > 0,
    ensures
        keys.len() <= n,
        apart_in(list, keys),
        forall|k: int| 0 <= k < keys.len() ==> list[#[trigger] keys[k]] > 0,
        sum_of(list, keys) == top_sum(list, n),
    decreases n,
{
    if n == 0 {
        Seq::empty()
    } else {
        let at = largest_at(list, list.len());
        lemma_largest(list, list.len());
        let rest = list.update(at, 0);
        let before = lemma_top_taken(rest, (n - 1) as nat);
        assert forall|k: int| 0 <= k < before.len() implies #[trigger] before[k] != at && list[before[k]]
            == rest[before[k]] by {
            assert(rest[before[k]] > 0);
        }
        lemma_sum_same(list, rest, before);
        if list[at] == 0 {
            before
        } else {
            let keys = before.push(at);
            assert(keys.drop_last() =~= before);
            assert(keys.no_duplicates()) by {
                assert forall|a: int, b: int|
                    0 <= a < keys.len() && 0 <= b < keys.len() && a != b implies keys[a]
                    != keys[b] by {
                    if a < before.len() && b < before.len() {
                        assert(before[a] != before[b]);
                    } else if a < before.len() {
                        assert(before[a] != at);
                    } else {
                        assert(before[b] != at);
                    }
                }
            }
            assert forall|k: int| 0 <= k < keys.len() implies list[#[trigger] keys[k]] > 0
                && 0 <= keys[k] < list.len() by {
                if k < before.len() {
                    assert(keys[k] == before[k]);
                    assert(rest[before[k]] > 0);
                    assert(0 <= before[k] < rest.len());
                }
            }
            keys
        }
    }
}

/// The palette covers as many visible pixels as sixteen colours can: no
/// sixteen cover more, and some do cover them. Two pixels are of one colour
/// when they share the upper five bits of red, green and blue.
pub proof fn law_the_palette_is_the_sixteen_commonest_colours(r: Raster, keys: Seq<int>) -> (
    best: Seq<int>)
    requires
        r.ok(),
        keys.len() <= 16,
        apart_in(histogram_of(r), keys),
    ensures
        sum_of(histogram_of(r), keys) <= detection_of(r).palette_coverage.part,
        best.len() <= 16,
        apart_in(histogram_of(r), best),
        sum_of(histogram_of(r), best) == detection_of(r).palette_coverage.part,
        ({
            let visible = Set::new(|i: int| seen(r, i));
            &&& visible.finite()
            &&& detection_of(r).palette_coverage.of == (if visible.len() == 0 {
                1
            } else {
                visible.len()
            })
        }),
{
    assert(r.pixels@.len() <= usize::MAX) by {
        assert(r.pixels@.len() == r.pixels.len());
    }
    let list = histogram_of(r);
    lemma_palette(r);
    lemma_top_most(list, 16, keys);
    let visible = Set::new(|i: int| seen(r, i));
    assert forall|i: int| #[trigger] visible.contains(i) <==> measured(r, i) && counts(
        r,
        i,
        Measure::Visible,
    ) by {
        if measured(r, i) {
            lemma_counts(r, i);
        }
    }
    lemma_total(r, Measure::Visible, visible);
    lemma_top_taken(list, 16)
}

/// A colour's count is the number of visible pixels of that colour: those that
/// are of one colour with pixel `i`.
pub proof fn law_a_colours_count_is_its_pixels(r: Raster, i: int)
    requires
        r.ok(),
        seen(r, i),
    ensures
        ({
            let key = colour_key(r.pixels@[i]);
            let its = Set::new(|j: int| seen(r, j) && same_colour(r.pixels@[i]@, r.pixels@[j]@));
            &&& 0 <= key < histogram_of(r).len()
            &&& its.finite()
            &&& histogram_of(r)[key] == its.len()
        }),
{
    assert(r.pixels@.len() <= usize::MAX) by {
        assert(r.pixels@.len() == r.pixels.len());
    }
    let key = colour_key(r.pixels@[i]);
    let its = Set::new(|j: int| seen(r, j) && same_colour(r.pixels@[i]@, r.pixels@[j]@));
    assert forall|j: int| #[trigger] its.contains(j) <==> measured(r, j) && counts(
        r,
        j,
        Measure::Colour(key),
    ) by {
        lemma_key(r.pixels@[i], r.pixels@[j]);
        if measured(r, j) {
            lemma_counts(r, j);
        }
    }
    lemma_total(r, Measure::Colour(key), its);
    lemma_key(r.pixels@[i], r.pixels@[i]);
}

proof fn lemma_key(p: [u8; 4], q: [u8; 4])
    ensures
        colour_key(p) == colour_key(q) <==> same_colour(p@, q@),
        0 <= colour_key(p) < KEYS,
{
}

} // verus!
