//! What dropping a colour does to a picture, by where its pixels lie: which
//! pixels are dropped, what fills them, and what the recolouring holds.
use crate::nearest::{carries, law_nearest_seed_fills, nearest, within};
use crate::picture::Raster;
use crate::recolor::{
    beside, change, changes_of, code, code_of, covers, dropped_of, extent, flooded, groups,
    has_group, hit, hits, law_each_target_has_its_own_code, lemma_neighbour, neighbour, owner_of,
    same_word, seed_of, seeds, touched, wanted, widened, widened_by, with_code, Fill, Island,
    Recolor,
};
use vstd::prelude::*;

verus! {

/// How many steps to the left, the right, up or down lie between the pixels
/// `a` and `b` of a picture `w` wide.
pub open spec fn steps_between(w: int, a: int, b: int) -> int {
    let across = a % w - b % w;
    let down = a / w - b / w;
    (if across < 0 {
        -across
    } else {
        across
    }) + (if down < 0 {
        -down
    } else {
        down
    })
}

proof fn lemma_place(w: int, x: int, y: int)
    requires
        w > 0,
        0 <= x < w,
    ensures
        (y * w + x) % w == x,
        (y * w + x) / w == y,
{
    vstd::arithmetic::div_mod::lemma_fundamental_div_mod_converse(y * w + x, w, y, x);
}

proof fn lemma_inside(w: int, h: int, x: int, y: int)
    requires
        0 <= x < w,
        0 <= y < h,
    ensures
        0 <= y * w + x < w * h,
{
    assert(0 <= y * w && (y + 1) * w <= h * w && (y + 1) * w == y * w + w && h * w == w * h)
        by (nonlinear_arith)
        requires
            0 <= y < h,
            w > 0,
    ;
}

/// Two pixels of a picture lie beside each other exactly when one step leads
/// from the one to the other.
pub proof fn law_beside_is_one_step(w: int, h: int, a: int, b: int)
    requires
        w > 0,
        h > 0,
        0 <= a < w * h,
        0 <= b < w * h,
    ensures
        beside(w, h, a, b) <==> steps_between(w, a, b) == 1,
        beside(w, h, a, b) == beside(w, h, b, a),
{
    lemma_beside(w, h, a, b);
    lemma_beside(w, h, b, a);
}

proof fn lemma_beside(w: int, h: int, a: int, b: int)
    requires
        w > 0,
        h > 0,
        0 <= a < w * h,
        0 <= b < w * h,
    ensures
        beside(w, h, a, b) <==> steps_between(w, a, b) == 1,
{
    lemma_neighbour(w, h, a, 0);
    lemma_neighbour(w, h, b, 0);
    let (x, y) = (a % w, a / w);
    let (u, v) = (b % w, b / w);
    assert(w * y == y * w && w * v == v * w) by (nonlinear_arith);
    if x > 0 {
        lemma_place(w, x - 1, y);
    }
    if x + 1 < w {
        lemma_place(w, x + 1, y);
    }
    lemma_place(w, x, y - 1);
    lemma_place(w, x, y + 1);
    assert((y - 1) * w == y * w - w && (y + 1) * w == y * w + w) by (nonlinear_arith);
    if beside(w, h, a, b) {
        let k = choose|k: int| 0 <= k < 4 && #[trigger] neighbour(w, h, a, k) == Some(b);
        assert(steps_between(w, a, b) == 1);
    }
    if steps_between(w, a, b) == 1 {
        if v == y {
            if u == x - 1 {
                assert(neighbour(w, h, a, 0) == Some(b));
            } else {
                assert(neighbour(w, h, a, 1) == Some(b));
            }
        } else if v == y - 1 {
            assert(neighbour(w, h, a, 2) == Some(b));
        } else {
            assert(neighbour(w, h, a, 3) == Some(b));
        }
    }
}

/// A pixel is in a widened mask exactly when a pixel of the mask is `n` steps
/// away at most.
pub proof fn law_widening_reaches_so_many_steps(mask: Seq<bool>, w: int, h: int, n: nat, i: int)
    requires
        w > 0,
        h > 0,
        mask.len() == w * h,
        0 <= i < w * h,
    ensures
        widened_by(mask, w, h, n).len() == mask.len(),
        widened_by(mask, w, h, n)[i] <==> exists|j: int|
            0 <= j < mask.len() && #[trigger] mask[j] && steps_between(w, i, j) <= n,
    decreases n,
{
    lemma_neighbour(w, h, i, 0);
    if n == 0 {
        if exists|j: int| 0 <= j < mask.len() && #[trigger] mask[j] && steps_between(w, i, j) <= 0 {
            let j = choose|j: int|
                0 <= j < mask.len() && #[trigger] mask[j] && steps_between(w, i, j) <= 0;
            lemma_neighbour(w, h, j, 0);
            assert(i == j);
        }
        if mask[i] {
            assert(steps_between(w, i, i) == 0);
        }
    } else {
        let m = (n - 1) as nat;
        let before = widened_by(mask, w, h, m);
        law_widening_reaches_so_many_steps(mask, w, h, m, i);
        lemma_widened(before, w, h, i);
        if widened_by(mask, w, h, n)[i] {
            let k = choose|k: int|
                0 <= k < before.len() && #[trigger] before[k] && steps_between(w, i, k) <= 1;
            law_widening_reaches_so_many_steps(mask, w, h, m, k);
            let j = choose|j: int|
                0 <= j < mask.len() && #[trigger] mask[j] && steps_between(w, k, j) <= m;
            assert(steps_between(w, i, j) <= n);
        }
        if exists|j: int| 0 <= j < mask.len() && #[trigger] mask[j] && steps_between(w, i, j) <= n {
            let j = choose|j: int|
                0 <= j < mask.len() && #[trigger] mask[j] && steps_between(w, i, j) <= n;
            if steps_between(w, i, j) <= m {
                assert(before[i]);
            } else {
                let k = lemma_step_towards(w, h, i, j);
                law_widening_reaches_so_many_steps(mask, w, h, m, k);
                assert(mask[j] && steps_between(w, k, j) <= m);
                assert(before[k]);
            }
        }
    }
}

/// One step from `i` towards `j`.
proof fn lemma_step_towards(w: int, h: int, i: int, j: int) -> (k: int)
    requires
        w > 0,
        h > 0,
        0 <= i < w * h,
        0 <= j < w * h,
        steps_between(w, i, j) > 0,
    ensures
        0 <= k < w * h,
        steps_between(w, i, k) == 1,
        steps_between(w, k, j) == steps_between(w, i, j) - 1,
{
    lemma_neighbour(w, h, i, 0);
    lemma_neighbour(w, h, j, 0);
    let (x, y) = (i % w, i / w);
    let (u, v) = (j % w, j / w);
    let (a, b) = if u < x {
        (x - 1, y)
    } else if u > x {
        (x + 1, y)
    } else if v < y {
        (x, y - 1)
    } else {
        (x, y + 1)
    };
    lemma_place(w, a, b);
    lemma_inside(w, h, a, b);
    b * w + a
}

proof fn lemma_widened(mask: Seq<bool>, w: int, h: int, i: int)
    requires
        w > 0,
        h > 0,
        mask.len() == w * h,
        0 <= i < w * h,
    ensures
        widened(mask, w, h)[i] <==> exists|j: int|
            0 <= j < mask.len() && #[trigger] mask[j] && steps_between(w, i, j) <= 1,
{
    lemma_neighbour(w, h, i, 0);
    if widened(mask, w, h)[i] {
        if mask[i] {
            assert(steps_between(w, i, i) == 0);
        } else {
            let k = choose|k: int|
                0 <= k < 4 && (#[trigger] neighbour(w, h, i, k) matches Some(n) && mask[n]);
            let n = neighbour(w, h, i, k)->0;
            lemma_neighbour(w, h, i, k);
            assert(beside(w, h, i, n));
            law_beside_is_one_step(w, h, i, n);
            assert(mask[n]);
        }
    }
    if exists|j: int| 0 <= j < mask.len() && #[trigger] mask[j] && steps_between(w, i, j) <= 1 {
        let j = choose|j: int|
            0 <= j < mask.len() && #[trigger] mask[j] && steps_between(w, i, j) <= 1;
        lemma_neighbour(w, h, j, 0);
        if steps_between(w, i, j) == 1 {
            law_beside_is_one_step(w, h, i, j);
            let k = choose|k: int| 0 <= k < 4 && #[trigger] neighbour(w, h, i, k) == Some(j);
            assert(neighbour(w, h, i, k) == Some(j));
        } else {
            assert(i == j);
        }
    }
}

/// Dropped are the pixels of the shapes of the colour, their edges among them,
/// and every pixel one step from those.
pub proof fn law_a_colour_is_dropped_with_its_edge(
    r: Raster,
    islands: Seq<Island>,
    hex: Seq<char>,
    i: int,
)
    requires
        r.ok(),
        r.width > 0,
        r.height > 0,
        crate::recolor::islands_ok(islands, r.pixels@.len()),
        0 <= i < r.pixels@.len(),
    ensures
        dropped_of(r, islands, hex).len() == r.pixels@.len(),
        dropped_of(r, islands, hex)[i] <==> exists|a: int, k: int|
            0 <= a < islands.len() && 0 <= k < islands[a].edged@.len() && islands[a].rgb is Some
                && same_word(islands[a].color@, hex) && steps_between(
                r.width as int,
                i,
                #[trigger] islands[a].edged@[k] as int,
            ) <= 1,
{
    let (w, h) = (r.width as int, r.height as int);
    let mask = hits(islands, hex, r.pixels@.len());
    lemma_widened(mask, w, h, i);
    if dropped_of(r, islands, hex)[i] {
        let j = choose|j: int|
            0 <= j < mask.len() && #[trigger] mask[j] && steps_between(w, i, j) <= 1;
        let a = lemma_hit(islands, islands.len(), hex, j);
        let k = choose|k: int| 0 <= k < islands[a].edged@.len() && islands[a].edged@[k] == j;
        assert(islands[a].edged@[k] == j);
    }
    if exists|a: int, k: int|
        0 <= a < islands.len() && 0 <= k < islands[a].edged@.len() && islands[a].rgb is Some
            && same_word(islands[a].color@, hex) && steps_between(
            w,
            i,
            #[trigger] islands[a].edged@[k] as int,
        ) <= 1 {
        let (a, k) = choose|a: int, k: int|
            0 <= a < islands.len() && 0 <= k < islands[a].edged@.len() && islands[a].rgb is Some
                && same_word(islands[a].color@, hex) && steps_between(
                w,
                i,
                #[trigger] islands[a].edged@[k] as int,
            ) <= 1;
        let j = islands[a].edged@[k] as int;
        assert(extent(islands[a], hex)[k] == j);
        assert(covers(islands[a], hex, j));
        lemma_is_hit(islands, islands.len(), hex, j, a);
        assert(mask[j]);
    }
}

proof fn lemma_hit(islands: Seq<Island>, n: nat, hex: Seq<char>, i: int) -> (a: int)
    requires
        n <= islands.len(),
        hit(islands, n, hex, i),
    ensures
        0 <= a < n,
        islands[a].rgb is Some,
        same_word(islands[a].color@, hex),
        exists|k: int| 0 <= k < islands[a].edged@.len() && islands[a].edged@[k] == i,
    decreases n,
{
    let last = islands[n - 1];
    if last.rgb is Some && same_word(last.color@, hex) && covers(last, hex, i) {
        let k = choose|k: int|
            0 <= k < extent(last, hex).len() && #[trigger] extent(last, hex)[k] == i;
        assert(last.edged@[k] == i);
        n - 1
    } else {
        lemma_hit(islands, (n - 1) as nat, hex, i)
    }
}

proof fn lemma_is_hit(islands: Seq<Island>, n: nat, hex: Seq<char>, i: int, a: int)
    requires
        0 <= a < n <= islands.len(),
        islands[a].rgb is Some,
        same_word(islands[a].color@, hex),
        covers(islands[a], hex, i),
    ensures
        hit(islands, n, hex, i),
    decreases n,
{
    if a < n - 1 {
        lemma_is_hit(islands, (n - 1) as nat, hex, i, a);
    }
}

/// The shape lies over pixel `i` while the colour `hex` is dropped: with its
/// edge where it has that colour, without it where it has another.
pub open spec fn lies_over(island: Island, hex: Seq<char>, i: int) -> bool {
    &&& island.rgb is Some
    &&& same_word(island.color@, hex) ==> exists|k: int|
        0 <= k < island.edged@.len() && #[trigger] island.edged@[k] == i
    &&& !same_word(island.color@, hex) ==> exists|k: int|
        0 <= k < island.covered@.len() && #[trigger] island.covered@[k] == i
}

/// A pixel has the colour of the topmost shape over it, the one painted last;
/// where no shape lies over it, it has none.
pub proof fn law_the_topmost_shape_owns_a_pixel(islands: Seq<Island>, hex: Seq<char>, i: int)
    ensures
        match owner_of(islands, hex, islands.len(), i) {
            Some(rgb) => exists|a: int| #[trigger]
                lies_over(islands[a], hex, i) && 0 <= a < islands.len() && islands[a].rgb == Some(
                    rgb,
                ) && forall|b: int| a < b < islands.len() ==> !lies_over(#[trigger] islands[b], hex, i),
            None => forall|a: int|
                0 <= a < islands.len() ==> !lies_over(#[trigger] islands[a], hex, i),
        },
{
    lemma_owner(islands, hex, islands.len(), i);
}

proof fn lemma_lies_over(island: Island, hex: Seq<char>, i: int)
    ensures
        lies_over(island, hex, i) == (island.rgb is Some && covers(island, hex, i)),
{
    if covers(island, hex, i) {
        let k = choose|k: int|
            0 <= k < extent(island, hex).len() && #[trigger] extent(island, hex)[k] == i;
        assert(extent(island, hex)[k] == i);
    }
    if lies_over(island, hex, i) {
        if same_word(island.color@, hex) {
            let k = choose|k: int|
                0 <= k < island.edged@.len() && #[trigger] island.edged@[k] == i;
            assert(extent(island, hex)[k] == i);
        } else {
            let k = choose|k: int|
                0 <= k < island.covered@.len() && #[trigger] island.covered@[k] == i;
            assert(extent(island, hex)[k] == i);
        }
    }
}

proof fn lemma_owner(islands: Seq<Island>, hex: Seq<char>, n: nat, i: int)
    requires
        n <= islands.len(),
    ensures
        match owner_of(islands, hex, n, i) {
            Some(rgb) => exists|a: int| #[trigger]
                lies_over(islands[a], hex, i) && 0 <= a < n && islands[a].rgb == Some(rgb)
                    && forall|b: int| a < b < n ==> !lies_over(#[trigger] islands[b], hex, i),
            None => forall|a: int| 0 <= a < n ==> !lies_over(#[trigger] islands[a], hex, i),
        },
    decreases n,
{
    if n > 0 {
        lemma_owner(islands, hex, (n - 1) as nat, i);
        lemma_lies_over(islands[n - 1], hex, i);
        if lies_over(islands[n - 1], hex, i) {
            assert(islands[n - 1].rgb == owner_of(islands, hex, n, i));
        } else if owner_of(islands, hex, n, i) is Some {
            let a = choose|a: int| #[trigger]
                lies_over(islands[a], hex, i) && 0 <= a < n - 1 && islands[a].rgb == owner_of(
                    islands,
                    hex,
                    n,
                    i,
                ) && forall|b: int| a < b < n - 1 ==> !lies_over(#[trigger] islands[b], hex, i);
            assert(lies_over(islands[a], hex, i));
        }
    }
}

/// What a pixel fills dropped ones with: the colour of the topmost shape over
/// it, or without one its own, or transparency where it is transparent; never
/// the colour that is dropped.
pub proof fn law_what_a_pixel_fills_with(
    r: Raster,
    islands: Seq<Island>,
    hex: Seq<char>,
    gone: Option<[u8; 3]>,
    i: int,
)
    requires
        0 <= i < r.pixels@.len(),
    ensures
        ({
            let p = r.pixels@[i]@;
            let fill = seed_of(r, islands, hex, gone, i);
            let owner = owner_of(islands, hex, islands.len(), i);
            &&& fill matches Some((rgb, alpha)) ==> {
                &&& rgb.len() == 3
                &&& alpha is Some <==> owner is None && p[3] == 0
                &&& alpha is Some ==> alpha == Some(0u8)
                &&& owner matches Some(c) ==> rgb == c@
                &&& owner is None ==> rgb[0] == p[0] && rgb[1] == p[1] && rgb[2] == p[2]
                &&& alpha is None ==> (gone matches Some(c) ==> c@ != rgb)
            }
            &&& fill is None ==> {
                &&& gone is Some
                &&& owner matches Some(c) ==> c@ == gone->0@
                &&& owner is None ==> p[3] != 0 && gone->0@[0] == p[0] && gone->0@[1] == p[1]
                    && gone->0@[2] == p[2]
            }
        }),
{
    let p = r.pixels@[i]@;
    let own = seq![p[0], p[1], p[2]];
    if let Some(c) = gone {
        if c@ == own {
            assert(c@[0] == own[0] && c@[1] == own[1] && c@[2] == own[2]);
        }
    }
}

/// `path` leads, one step at a time, through dropped pixels alone but for the
/// pixel that it starts from.
pub open spec fn leads(w: int, dropped: Seq<bool>, path: Seq<int>) -> bool {
    &&& path.len() > 0
    &&& forall|j: int| 0 <= j < path.len() ==> 0 <= #[trigger] path[j] < dropped.len()
    &&& forall|j: int|
        0 < j < path.len() ==> dropped[#[trigger] path[j]] && steps_between(
            w,
            path[j - 1],
            path[j],
        ) == 1
}

/// `path` leads to pixel `i` from a kept one that fills it with something.
pub open spec fn fills(
    r: Raster,
    islands: Seq<Island>,
    hex: Seq<char>,
    gone: Option<[u8; 3]>,
    path: Seq<int>,
    i: int,
) -> bool {
    let dropped = dropped_of(r, islands, hex);
    &&& leads(r.width as int, dropped, path)
    &&& path.last() == i
    &&& !dropped[path[0]]
    &&& seed_of(r, islands, hex, gone, path[0]) is Some
}

/// A dropped pixel takes what the nearest kept pixel fills with, by the number
/// of steps through dropped pixels: `path` leads to it from there, and no
/// shorter path leads to it from a pixel that fills. Where none leads to it,
/// it stays.
pub proof fn law_dropped_pixels_take_the_nearest(
    r: Raster,
    islands: Seq<Island>,
    hex: Seq<char>,
    gone: Option<[u8; 3]>,
    i: int,
) -> (path: Seq<int>)
    requires
        r.ok(),
        r.width > 0,
        r.height > 0,
        0 <= i < r.pixels@.len(),
        dropped_of(r, islands, hex)[i],
    ensures
        match wanted(r, islands, hex, gone, i) {
            Some(taken) => {
                &&& fills(r, islands, hex, gone, path, i)
                &&& seed_of(r, islands, hex, gone, path[0]) == Some(taken)
                &&& forall|other: Seq<int>| #[trigger]
                    fills(r, islands, hex, gone, other, i) ==> path.len() <= other.len()
            },
            None => forall|other: Seq<int>| !(#[trigger] fills(r, islands, hex, gone, other, i)),
        },
{
    let (w, h) = (r.width as int, r.height as int);
    let dropped = dropped_of(r, islands, hex);
    let sd = seeds(r, islands, hex, gone, dropped);
    law_nearest_seed_fills(sd, dropped, w, h, i);
    let held = flooded(sd, dropped, w, h)[i];
    assert forall|other: Seq<int>| #[trigger] fills(r, islands, hex, gone, other, i) implies within(
        sd,
        dropped,
        w,
        h,
        i,
        (other.len() - 1) as nat,
    ) by {
        lemma_fills_seed(r, islands, hex, gone, other, i);
        lemma_path_within(sd, dropped, w, h, other);
    }
    if held is Some {
        let k = choose|k: nat| nearest(sd, dropped, w, h, i, k, held);
        let path = lemma_path(sd, dropped, w, h, i, k, held);
        assert(sd[path[0]] == held);
        assert forall|other: Seq<int>| #[trigger]
            fills(r, islands, hex, gone, other, i) implies path.len() <= other.len() by {
            let m = (other.len() - 1) as nat;
            if m < k {
                lemma_within_more(sd, dropped, w, h, i, m, (k - 1) as nat);
            }
        }
        path
    } else {
        Seq::empty()
    }
}

/// Where a path that fills starts, a seed lies.
proof fn lemma_fills_seed(
    r: Raster,
    islands: Seq<Island>,
    hex: Seq<char>,
    gone: Option<[u8; 3]>,
    path: Seq<int>,
    i: int,
)
    requires
        r.ok(),
        r.width > 0,
        r.height > 0,
        0 <= i < r.pixels@.len(),
        dropped_of(r, islands, hex)[i],
        fills(r, islands, hex, gone, path, i),
    ensures
        seeds(r, islands, hex, gone, dropped_of(r, islands, hex))[path[0]] is Some,
{
    let (w, h) = (r.width as int, r.height as int);
    let dropped = dropped_of(r, islands, hex);
    let s = path[0];
    assert(path.len() > 1);
    let n = path[1];
    assert(dropped[n] && steps_between(w, path[0], n) == 1);
    law_beside_is_one_step(w, h, s, n);
    let k = choose|k: int| 0 <= k < 4 && #[trigger] neighbour(w, h, s, k) == Some(n);
    assert(neighbour(w, h, s, k) == Some(n));
    assert(touched(dropped, w, h, s));
}

proof fn lemma_within_more(
    sd: Seq<Fill>,
    dropped: Seq<bool>,
    w: int,
    h: int,
    i: int,
    a: nat,
    b: nat,
)
    requires
        a <= b,
        within(sd, dropped, w, h, i, a),
    ensures
        within(sd, dropped, w, h, i, b),
    decreases b,
{
    if a < b {
        lemma_within_more(sd, dropped, w, h, i, a, (b - 1) as nat);
    }
}

proof fn lemma_path(
    sd: Seq<Fill>,
    dropped: Seq<bool>,
    w: int,
    h: int,
    i: int,
    k: nat,
    t: Fill,
) -> (path: Seq<int>)
    requires
        w > 0,
        h > 0,
        sd.len() == dropped.len() == w * h,
        0 <= i < sd.len(),
        carries(sd, dropped, w, h, i, k, t),
    ensures
        leads(w, dropped, path),
        path.len() == k + 1,
        path.last() == i,
        sd[path[0]] == t,
        t is Some,
    decreases k,
{
    if k == 0 {
        seq![i]
    } else {
        let m = choose|m: int|
            0 <= m < sd.len() && carries(sd, dropped, w, h, m, (k - 1) as nat, t)
                && #[trigger] beside(w, h, m, i);
        let before = lemma_path(sd, dropped, w, h, m, (k - 1) as nat, t);
        law_beside_is_one_step(w, h, m, i);
        let path = before.push(i);
        assert forall|j: int| 0 < j < path.len() implies dropped[#[trigger] path[j]]
            && steps_between(w, path[j - 1], path[j]) == 1 by {
            if j < before.len() {
                assert(dropped[before[j]]);
                assert(path[j] == before[j] && path[j - 1] == before[j - 1]);
            } else {
                assert(path[j - 1] == before.last());
            }
        }
        path
    }
}

proof fn lemma_path_within(sd: Seq<Fill>, dropped: Seq<bool>, w: int, h: int, path: Seq<int>)
    requires
        w > 0,
        h > 0,
        sd.len() == dropped.len() == w * h,
        leads(w, dropped, path),
        sd[path[0]] is Some,
    ensures
        within(sd, dropped, w, h, path.last(), (path.len() - 1) as nat),
    decreases path.len(),
{
    if path.len() > 1 {
        let before = path.drop_last();
        assert forall|j: int| 0 < j < before.len() implies dropped[#[trigger] before[j]]
            && steps_between(w, before[j - 1], before[j]) == 1 by {
            assert(dropped[path[j]]);
            assert(before[j] == path[j] && before[j - 1] == path[j - 1]);
        }
        assert forall|j: int| 0 <= j < before.len() implies 0 <= #[trigger] before[j]
            < dropped.len() by {
            assert(path[j] == before[j]);
        }
        lemma_path_within(sd, dropped, w, h, before);
        let (m, i) = (before.last(), path.last());
        assert(path[path.len() - 1] == i && path[path.len() - 2] == m);
        law_beside_is_one_step(w, h, m, i);
        assert(beside(w, h, m, i));
    }
}

/// A kept pixel within three steps of a dropped one takes the colour of the
/// shape over it, where one lies over it; every other kept pixel stays.
pub proof fn law_pixels_around_take_their_own_colour(
    r: Raster,
    islands: Seq<Island>,
    hex: Seq<char>,
    gone: Option<[u8; 3]>,
    i: int,
)
    requires
        r.ok(),
        r.width > 0,
        r.height > 0,
        0 <= i < r.pixels@.len(),
        !dropped_of(r, islands, hex)[i],
    ensures
        ({
            let dropped = dropped_of(r, islands, hex);
            let near = exists|j: int|
                0 <= j < dropped.len() && #[trigger] dropped[j] && steps_between(
                    r.width as int,
                    i,
                    j,
                ) <= 3;
            let owner = owner_of(islands, hex, islands.len(), i);
            match wanted(r, islands, hex, gone, i) {
                Some((rgb, alpha)) => near && alpha is None && owner is Some && owner->0@ == rgb,
                None => !near || owner is None,
            }
        }),
{
    let (w, h) = (r.width as int, r.height as int);
    law_widening_reaches_so_many_steps(dropped_of(r, islands, hex), w, h, 3, i);
}

/// The pixels come in order, each once, and lie in the picture.
pub open spec fn in_order(pixels: Seq<u32>, count: nat) -> bool {
    &&& forall|k: int| 0 <= k < pixels.len() ==> #[trigger] pixels[k] < count
    &&& forall|j: int, k: int| 0 <= j < k < pixels.len() ==> pixels[j] < pixels[k]
}

/// `list` gives pixel `i` the channels `rgb`, and `alpha` where that is given.
pub open spec fn recolours(list: Seq<Recolor>, i: int, rgb: Seq<u8>, alpha: Option<u8>) -> bool {
    exists|a: int|
        0 <= a < list.len() && (#[trigger] list[a]).pixels@.contains(i as u32) && list[a].rgb@ == rgb
            && list[a].alpha == alpha
}

/// The recolouring holds exactly the pixels that change: a pixel is given the
/// colour that it is to hold unless it has it already, or turned transparent
/// unless it is, and no pixel is given two. Every entry has its pixels in
/// order, and no two have one target.
pub proof fn law_a_recolouring_holds_what_changes(
    list: Seq<Recolor>,
    r: Raster,
    islands: Seq<Island>,
    hex: Seq<char>,
    gone: Option<[u8; 3]>,
    i: int,
    rgb: Seq<u8>,
    alpha: Option<u8>,
)
    requires
        r.ok(),
        r.width > 0,
        r.height > 0,
        r.pixels@.len() <= u32::MAX,
        groups(list, changes_of(r, islands, hex, gone), r.pixels@.len()),
        0 <= i < r.pixels@.len(),
        rgb.len() == 3,
    ensures
        recolours(list, i, rgb, alpha) <==> {
            let p = r.pixels@[i]@;
            &&& wanted(r, islands, hex, gone, i) == Some((rgb, alpha))
            &&& alpha matches Some(a) ==> p[3] != a
            &&& alpha is None ==> !(p[0] == rgb[0] && p[1] == rgb[1] && p[2] == rgb[2])
        },
        forall|a: int|
            0 <= a < list.len() ==> (#[trigger] list[a]).pixels@.len() > 0 && in_order(
                list[a].pixels@,
                r.pixels@.len(),
            ),
        forall|a: int, b: int|
            0 <= a < b < list.len() ==> (#[trigger] list[a]).rgb@ != (#[trigger] list[b]).rgb@
                || list[a].alpha != list[b].alpha,
{
    let n = r.pixels@.len();
    let changes = changes_of(r, islands, hex, gone);
    let c = code(rgb, alpha);
    let p = r.pixels@[i]@;
    let own = seq![p[0], p[1], p[2]];
    assert(own == rgb <==> p[0] == rgb[0] && p[1] == rgb[1] && p[2] == rgb[2]) by {
        if p[0] == rgb[0] && p[1] == rgb[1] && p[2] == rgb[2] {
            assert(own =~= rgb);
        }
    }
    assert(changes[i] == change(r, islands, hex, gone, i));
    lemma_change_rgb(r, islands, hex, gone, i);
    if recolours(list, i, rgb, alpha) {
        let a = choose|a: int|
            0 <= a < list.len() && (#[trigger] list[a]).pixels@.contains(i as u32) && list[a].rgb@
                == rgb && list[a].alpha == alpha;
        lemma_with_code(changes, c, n, i);
        assert(code_of(changes[i]) == c);
        lemma_code_positive(rgb, alpha);
        let (x, y) = changes[i]->0;
        law_each_target_has_its_own_code(x, y, rgb, alpha);
    }
    if changes[i] == Some((rgb, alpha)) {
        assert(has_group(list, code_of(changes[i])));
        let a = choose|a: int|
            0 <= a < list.len() && code((#[trigger] list[a]).rgb@, list[a].alpha) == c;
        law_each_target_has_its_own_code(list[a].rgb@, list[a].alpha, rgb, alpha);
        lemma_with_code(changes, c, n, i);
        assert(list[a].pixels@.contains(i as u32));
    }
    assert forall|a: int| 0 <= a < list.len() implies (#[trigger] list[a]).pixels@.len() > 0
        && in_order(list[a].pixels@, r.pixels@.len()) by {
        lemma_with_code_rises(changes, code(list[a].rgb@, list[a].alpha), n);
    }
}

proof fn lemma_code_positive(rgb: Seq<u8>, alpha: Option<u8>)
    ensures
        code(rgb, alpha) >= 0,
{
}

proof fn lemma_change_rgb(
    r: Raster,
    islands: Seq<Island>,
    hex: Seq<char>,
    gone: Option<[u8; 3]>,
    i: int,
)
    requires
        r.ok(),
        r.width > 0,
        r.height > 0,
        0 <= i < r.pixels@.len(),
    ensures
        wanted(r, islands, hex, gone, i) matches Some((rgb, _)) ==> rgb.len() == 3,
{
    if dropped_of(r, islands, hex)[i] {
        let path = law_dropped_pixels_take_the_nearest(r, islands, hex, gone, i);
        if wanted(r, islands, hex, gone, i) is Some {
            law_what_a_pixel_fills_with(r, islands, hex, gone, path[0]);
        }
    }
}

proof fn lemma_with_code(changes: Seq<Fill>, c: int, n: nat, i: int)
    requires
        n <= changes.len() <= u32::MAX,
        0 <= i < n,
    ensures
        with_code(changes, c, n).contains(i as u32) <==> code_of(changes[i]) == c,
    decreases n,
{
    let list = with_code(changes, c, n);
    let before = with_code(changes, c, (n - 1) as nat);
    lemma_with_code_rises(changes, c, (n - 1) as nat);
    if i < n - 1 {
        lemma_with_code(changes, c, (n - 1) as nat, i);
        if before.contains(i as u32) {
            let k = choose|k: int| 0 <= k < before.len() && before[k] == i as u32;
            assert(list[k] == i as u32);
        }
        if list.contains(i as u32) {
            let k = choose|k: int| 0 <= k < list.len() && list[k] == i as u32;
            assert(before[k] == i as u32);
        }
    } else {
        if code_of(changes[i]) == c {
            assert(list[before.len() as int] == i as u32);
        }
        if list.contains(i as u32) && code_of(changes[i]) != c {
            let k = choose|k: int| 0 <= k < list.len() && list[k] == i as u32;
            assert(before[k] < n - 1);
        }
    }
}

proof fn lemma_with_code_rises(changes: Seq<Fill>, c: int, n: nat)
    requires
        n <= changes.len() <= u32::MAX,
    ensures
        in_order(with_code(changes, c, n), n),
    decreases n,
{
    if n > 0 {
        lemma_with_code_rises(changes, c, (n - 1) as nat);
        let before = with_code(changes, c, (n - 1) as nat);
        let list = with_code(changes, c, n);
        assert forall|k: int| 0 <= k < list.len() implies #[trigger] list[k] < n by {
            if k < before.len() {
                assert(list[k] == before[k]);
            }
        }
        assert forall|j: int, k: int| 0 <= j < k < list.len() implies list[j] < list[k] by {
            assert(list[j] == before[j]);
            if k < before.len() {
                assert(list[k] == before[k]);
            }
        }
    }
}

} // verus!
