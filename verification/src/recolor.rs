//! Recolouring a picture before it is traced: dropping one colour so that its
//! pixels take the nearest other one.
use crate::picture::Raster;
use crate::text::chars_of;
use vstd::prelude::*;

verus! {

/// Pixels that take one colour: their places, ascending, the colour, and the
/// alpha where it changes too.
#[derive(Debug, PartialEq, Eq)]
pub struct Recolor {
    pub pixels: Vec<u32>,
    pub rgb: [u8; 3],
    pub alpha: Option<u8>,
}

/// A shape of the drawing, as far as its colour and its pixels go: the colour
/// as it is written, its channels where they can be read, the pixels it
/// covers, and these widened by one, which holds its edge too.
#[derive(Debug)]
pub struct Island {
    pub color: String,
    pub rgb: Option<[u8; 3]>,
    pub covered: Vec<u32>,
    pub edged: Vec<u32>,
}

/// A colour that pixels take, with the alpha 0 where they turn transparent.
#[derive(Clone, Copy, Debug)]
pub struct Target {
    pub rgb: [u8; 3],
    pub alpha: Option<u8>,
}

/// A letter's lower case in ASCII.
pub open spec fn lower(c: char) -> char {
    if 'A' <= c && c <= 'Z' {
        ((c as u32) + 32) as char
    } else {
        c
    }
}

/// Two texts are one but for the case of ASCII letters.
pub open spec fn same_word(a: Seq<char>, b: Seq<char>) -> bool {
    a.len() == b.len() && forall|i: int| 0 <= i < a.len() ==> lower(#[trigger] a[i]) == lower(b[i])
}

pub fn to_lower(c: char) -> (l: char)
    ensures
        l == lower(c),
{
    if 'A' <= c && c <= 'Z' {
        (c as u8 + 32) as char
    } else {
        c
    }
}

/// Whether two texts are one but for the case of ASCII letters.
pub fn is_same_word(a: &str, b: &str) -> (same: bool)
    ensures
        same == same_word(a@, b@),
{
    let x = chars_of(a);
    let y = chars_of(b);
    if x.len() != y.len() {
        return false;
    }
    let mut i: usize = 0;
    while i < x.len()
        invariant
            i <= x@.len(),
            x@ == a@,
            y@ == b@,
            x@.len() == y@.len(),
            forall|j: int| 0 <= j < i ==> lower(#[trigger] x@[j]) == lower(y@[j]),
        decreases x@.len() - i,
    {
        if to_lower(x[i]) != to_lower(y[i]) {
            assert(lower(x@[i as int]) != lower(y@[i as int]));
            return false;
        }
        i = i + 1;
    }
    true
}

/// The pixel beside `i` to the left, the right, above and below, for `k` from
/// 0 to 3.
pub open spec fn neighbour(w: int, h: int, i: int, k: int) -> Option<int> {
    let (x, y) = (i % w, i / w);
    if k == 0 && x > 0 {
        Some(i - 1)
    } else if k == 1 && x + 1 < w {
        Some(i + 1)
    } else if k == 2 && y > 0 {
        Some(i - w)
    } else if k == 3 && y + 1 < h {
        Some(i + w)
    } else {
        None
    }
}

/// `n` lies beside `i`.
pub open spec fn beside(w: int, h: int, i: int, n: int) -> bool {
    exists|k: int| 0 <= k < 4 && #[trigger] neighbour(w, h, i, k) == Some(n)
}

/// A pixel beside `i` is set.
pub open spec fn touched(mask: Seq<bool>, w: int, h: int, i: int) -> bool {
    exists|k: int|
        0 <= k < 4 && (#[trigger] neighbour(w, h, i, k) matches Some(n) && mask[n])
}

/// The mask and every pixel beside it.
pub open spec fn widened(mask: Seq<bool>, w: int, h: int) -> Seq<bool> {
    Seq::new(mask.len(), |i: int| mask[i] || touched(mask, w, h, i))
}

/// The mask widened `n` times.
pub open spec fn widened_by(mask: Seq<bool>, w: int, h: int, n: nat) -> Seq<bool>
    decreases n,
{
    if n == 0 {
        mask
    } else {
        widened(widened_by(mask, w, h, (n - 1) as nat), w, h)
    }
}

/// The pixels that count as the shape's while the colour `hex` is dropped: of
/// a dropped shape its edge too.
pub open spec fn extent(island: Island, hex: Seq<char>) -> Seq<u32> {
    if same_word(island.color@, hex) {
        island.edged@
    } else {
        island.covered@
    }
}

pub open spec fn covers(island: Island, hex: Seq<char>, i: int) -> bool {
    exists|k: int|
        0 <= k < extent(island, hex).len() && #[trigger] extent(island, hex)[k] == i
}

/// The colour of the last of the first `k` shapes over pixel `i`.
pub open spec fn owner_of(islands: Seq<Island>, hex: Seq<char>, k: nat, i: int) -> Option<
    [u8; 3],
>
    decreases k,
{
    if k == 0 {
        None
    } else if islands[k - 1].rgb is Some && covers(islands[k - 1], hex, i) {
        islands[k - 1].rgb
    } else {
        owner_of(islands, hex, (k - 1) as nat, i)
    }
}

/// One of the first `k` shapes over pixel `i` has the colour `hex`.
pub open spec fn hit(islands: Seq<Island>, k: nat, hex: Seq<char>, i: int) -> bool
    decreases k,
{
    k > 0 && ((islands[k - 1].rgb is Some && same_word(islands[k - 1].color@, hex) && covers(
        islands[k - 1],
        hex,
        i,
    )) || hit(islands, (k - 1) as nat, hex, i))
}

pub open spec fn hits(islands: Seq<Island>, hex: Seq<char>, count: nat) -> Seq<bool> {
    Seq::new(count, |i: int| hit(islands, islands.len(), hex, i))
}

/// What fills the dropped pixels beside pixel `i`: its shape's colour, or its
/// own, or transparency; nothing where that is the colour dropped.
pub open spec fn seed_of(
    r: Raster,
    islands: Seq<Island>,
    hex: Seq<char>,
    gone: Option<[u8; 3]>,
    i: int,
) -> Option<(Seq<u8>, Option<u8>)> {
    let p = r.pixels@[i]@;
    let own = seq![p[0], p[1], p[2]];
    match owner_of(islands, hex, islands.len(), i) {
        Some(rgb) => if is_rgb(gone, rgb@) {
            None
        } else {
            Some((rgb@, None))
        },
        None => if p[3] == 0 {
            Some((own, Some(0u8)))
        } else if is_rgb(gone, own) {
            None
        } else {
            Some((own, None))
        },
    }
}

pub open spec fn is_rgb(colour: Option<[u8; 3]>, rgb: Seq<u8>) -> bool {
    colour matches Some(c) && c@ == rgb
}

/// A target as plain values.
pub type Fill = Option<(Seq<u8>, Option<u8>)>;

pub open spec fn fill_view(target: Option<Target>) -> Fill {
    match target {
        Some(t) => Some((t.rgb@, t.alpha)),
        None => None,
    }
}

/// What each pixel holds before the flood: the seeds beside dropped pixels.
pub open spec fn seeds(
    r: Raster,
    islands: Seq<Island>,
    hex: Seq<char>,
    gone: Option<[u8; 3]>,
    dropped: Seq<bool>,
) -> Seq<Fill> {
    Seq::new(
        dropped.len(),
        |i: int|
            if !dropped[i] && touched(dropped, r.width as int, r.height as int, i) {
                seed_of(r, islands, hex, gone, i)
            } else {
                None
            },
    )
}

/// The flood: what each pixel holds, and the pixels in the order they were
/// filled.
pub ghost struct Flood {
    pub fill: Seq<Fill>,
    pub queue: Seq<int>,
}

/// The first `n` pixels that hold something, in order.
pub open spec fn filled(fill: Seq<Fill>, n: nat) -> Seq<int>
    decreases n,
{
    if n == 0 {
        Seq::empty()
    } else if fill[n - 1] is Some {
        filled(fill, (n - 1) as nat).push(n - 1)
    } else {
        filled(fill, (n - 1) as nat)
    }
}

/// The flood after pixel `i` filled its first `k` neighbours.
pub open spec fn spread(f: Flood, dropped: Seq<bool>, w: int, h: int, i: int, k: nat) -> Flood
    decreases k,
{
    if k == 0 {
        f
    } else {
        let g = spread(f, dropped, w, h, i, (k - 1) as nat);
        match neighbour(w, h, i, k - 1) {
            Some(n) => if dropped[n] && g.fill[n] is None {
                Flood { fill: g.fill.update(n, g.fill[i]), queue: g.queue.push(n) }
            } else {
                g
            },
            None => g,
        }
    }
}

/// The flood after the first `n` pixels of its queue filled their
/// neighbours, in the order in which they were filled themselves.
pub open spec fn flood(fill: Seq<Fill>, dropped: Seq<bool>, w: int, h: int, n: nat) -> Flood
    decreases n,
{
    if n == 0 {
        Flood { fill, queue: filled(fill, fill.len()) }
    } else {
        let f = flood(fill, dropped, w, h, (n - 1) as nat);
        if n - 1 < f.queue.len() {
            spread(f, dropped, w, h, f.queue[n - 1], 4)
        } else {
            f
        }
    }
}

/// What each pixel holds once nothing more fills.
pub open spec fn flooded(fill: Seq<Fill>, dropped: Seq<bool>, w: int, h: int) -> Seq<Fill> {
    flood(fill, dropped, w, h, fill.len()).fill
}

/// The pixels of the dropped colour with their edge, widened by one more:
/// two in all, so that the blended edge goes with them.
pub open spec fn dropped_of(r: Raster, islands: Seq<Island>, hex: Seq<char>) -> Seq<bool> {
    widened(hits(islands, hex, r.pixels@.len()), r.width as int, r.height as int)
}

/// What pixel `i` is to hold: a dropped one the nearest other colour, one
/// within three of them its own shape's.
pub open spec fn wanted(
    r: Raster,
    islands: Seq<Island>,
    hex: Seq<char>,
    gone: Option<[u8; 3]>,
    i: int,
) -> Fill {
    let (w, h) = (r.width as int, r.height as int);
    let dropped = dropped_of(r, islands, hex);
    if dropped[i] {
        flooded(seeds(r, islands, hex, gone, dropped), dropped, w, h)[i]
    } else if widened_by(dropped, w, h, 3)[i] {
        match owner_of(islands, hex, islands.len(), i) {
            Some(rgb) => Some((rgb@, None)),
            None => None,
        }
    } else {
        None
    }
}

/// What pixel `i` changes to: nothing where it holds it already.
pub open spec fn change(
    r: Raster,
    islands: Seq<Island>,
    hex: Seq<char>,
    gone: Option<[u8; 3]>,
    i: int,
) -> Fill {
    let p = r.pixels@[i]@;
    match wanted(r, islands, hex, gone, i) {
        Some((rgb, Some(alpha))) => if p[3] != alpha {
            Some((rgb, Some(alpha)))
        } else {
            None
        },
        Some((rgb, None)) => if seq![p[0], p[1], p[2]] != rgb {
            Some((rgb, None))
        } else {
            None
        },
        None => None,
    }
}

/// A target's place in order: by red, green, blue, then without alpha before
/// any alpha.
pub open spec fn code(rgb: Seq<u8>, alpha: Option<u8>) -> int {
    rgb[0] * 16_842_752 + rgb[1] * 65_792 + rgb[2] * 257 + (match alpha {
        Some(a) => a + 1,
        None => 0,
    })
}

pub open spec fn code_of(fill: Fill) -> int {
    match fill {
        Some((rgb, alpha)) => code(rgb, alpha),
        None => -1,
    }
}

/// The first `n` pixels whose change has the code `c`, in order.
pub open spec fn with_code(changes: Seq<Fill>, c: int, n: nat) -> Seq<u32>
    decreases n,
{
    if n == 0 {
        Seq::empty()
    } else if code_of(changes[n - 1]) == c {
        with_code(changes, c, (n - 1) as nat).push((n - 1) as u32)
    } else {
        with_code(changes, c, (n - 1) as nat)
    }
}

/// `list` groups the first `n` changes by what they change to, in order of
/// the targets: every group holds all its pixels, and every change is in one.
pub open spec fn groups(list: Seq<Recolor>, changes: Seq<Fill>, n: nat) -> bool {
    &&& forall|a: int, b: int|
        0 <= a < b < list.len() ==> code((#[trigger] list[a]).rgb@, list[a].alpha) < code(
            (#[trigger] list[b]).rgb@,
            list[b].alpha,
        )
    &&& forall|a: int|
        0 <= a < list.len() ==> (#[trigger] list[a]).pixels@ == with_code(
            changes,
            code(list[a].rgb@, list[a].alpha),
            n,
        ) && list[a].pixels@.len() > 0
    &&& forall|i: int|
        0 <= i < n && (#[trigger] changes[i]) is Some ==> has_group(list, code_of(changes[i]))
}

pub open spec fn has_group(list: Seq<Recolor>, c: int) -> bool {
    exists|a: int| 0 <= a < list.len() && code((#[trigger] list[a]).rgb@, list[a].alpha) == c
}

/// What every pixel changes to.
pub open spec fn changes_of(
    r: Raster,
    islands: Seq<Island>,
    hex: Seq<char>,
    gone: Option<[u8; 3]>,
) -> Seq<Fill> {
    Seq::new(r.pixels@.len(), |i: int| change(r, islands, hex, gone, i))
}

pub open spec fn islands_ok(islands: Seq<Island>, count: nat) -> bool {
    &&& forall|a: int, k: int|
        0 <= a < islands.len() && 0 <= k < islands[a].covered@.len() ==> (
        #[trigger] islands[a].covered@[k]) < count
    &&& forall|a: int, k: int|
        0 <= a < islands.len() && 0 <= k < islands[a].edged@.len() ==> (
        #[trigger] islands[a].edged@[k]) < count
}

/// A pixel's neighbours lie in the picture.
pub proof fn lemma_neighbour(w: int, h: int, i: int, k: int)
    requires
        w > 0,
        h > 0,
        0 <= i < w * h,
    ensures
        neighbour(w, h, i, k) matches Some(n) ==> 0 <= n < w * h && n != i,
        0 <= i % w < w,
        0 <= i / w < h,
        i == w * (i / w) + i % w,
{
    let (x, y) = (i % w, i / w);
    vstd::arithmetic::div_mod::lemma_fundamental_div_mod(i, w);
    assert(0 <= x < w) by (nonlinear_arith)
        requires
            w > 0,
            x == i % w,
    ;
    assert(y >= 0) by (nonlinear_arith)
        requires
            w > 0,
            i >= 0,
            y == i / w,
    ;
    assert(y < h) by (nonlinear_arith)
        requires
            w > 0,
            w * y + x == i,
            i < w * h,
            x >= 0,
    ;
    assert(y + 1 < h ==> w * (y + 1) + x < w * h) by (nonlinear_arith)
        requires
            w > 0,
            0 <= x < w,
    ;
    assert(w * (y + 1) == w * y + w) by (nonlinear_arith);
    assert(y >= 1 ==> w * y >= w) by (nonlinear_arith)
        requires
            w > 0,
    ;
    assert(w * h >= w * y + w) by (nonlinear_arith)
        requires
            w > 0,
            y + 1 <= h,
    ;
}

fn next_to(w: usize, h: usize, i: usize, k: usize) -> (n: Option<usize>)
    requires
        w > 0,
        h > 0,
        w * h <= u32::MAX,
        i < w * h,
        k < 4,
    ensures
        match n {
            Some(m) => neighbour(w as int, h as int, i as int, k as int) == Some(m as int) && m < w
                * h && m != i,
            None => neighbour(w as int, h as int, i as int, k as int) is None,
        },
{
    proof {
        lemma_neighbour(w as int, h as int, i as int, k as int);
        assert(w <= w * h) by (nonlinear_arith)
            requires
                w > 0,
                h > 0,
        ;
    }
    let x: usize = i % w;
    let y: usize = i / w;
    if k == 0 && x > 0 {
        Some(i - 1)
    } else if k == 1 && x < w - 1 {
        Some(i + 1)
    } else if k == 2 && y > 0 {
        Some(i - w)
    } else if k == 3 && y < h - 1 {
        Some(i + w)
    } else {
        None
    }
}

fn touches(mask: &Vec<bool>, w: usize, h: usize, i: usize) -> (yes: bool)
    requires
        w > 0,
        h > 0,
        w * h <= u32::MAX,
        mask@.len() == w * h,
        i < w * h,
    ensures
        yes == touched(mask@, w as int, h as int, i as int),
{
    let mut k: usize = 0;
    while k < 4
        invariant
            k <= 4,
            w > 0,
            h > 0,
            w * h <= u32::MAX,
            mask@.len() == w * h,
            i < w * h,
            forall|j: int|
                0 <= j < k ==> !(#[trigger] neighbour(w as int, h as int, i as int, j) matches Some(
                    n,
                ) && mask@[n]),
        decreases 4 - k,
    {
        if let Some(n) = next_to(w, h, i, k) {
            if mask[n] {
                assert(neighbour(w as int, h as int, i as int, k as int) == Some(n as int));
                return true;
            }
        }
        k = k + 1;
    }
    false
}

fn widen(mask: &Vec<bool>, w: usize, h: usize) -> (wide: Vec<bool>)
    requires
        w > 0,
        h > 0,
        w * h <= u32::MAX,
        mask@.len() == w * h,
    ensures
        wide@ == widened(mask@, w as int, h as int),
{
    let mut wide: Vec<bool> = Vec::new();
    let mut i: usize = 0;
    while i < mask.len()
        invariant
            w > 0,
            h > 0,
            w * h <= u32::MAX,
            mask@.len() == w * h,
            i <= mask@.len(),
            wide@.len() == i,
            forall|j: int|
                0 <= j < i ==> #[trigger] wide@[j] == (mask@[j] || touched(
                    mask@,
                    w as int,
                    h as int,
                    j,
                )),
        decreases mask@.len() - i,
    {
        wide.push(mask[i] || touches(mask, w, h, i));
        i = i + 1;
    }
    assert(wide@ =~= widened(mask@, w as int, h as int));
    wide
}

/// The first `n` of the pixels hold `i`.
spec fn holds_upto(list: Seq<u32>, i: int, n: int) -> bool {
    exists|k: int| 0 <= k < n && #[trigger] list[k] == i
}

/// The colour that owns each pixel, and the pixels of the colour `hex`.
fn owners(islands: &[Island], hex: &str, count: usize) -> (found: (
    Vec<Option<[u8; 3]>>,
    Vec<bool>,
))
    requires
        islands_ok(islands@, count as nat),
    ensures
        found.0@.len() == count,
        found.1@ == hits(islands@, hex@, count as nat),
        forall|i: int|
            0 <= i < count ==> #[trigger] found.0@[i] == owner_of(islands@, hex@, islands@.len(), i),
{
    let mut owner: Vec<Option<[u8; 3]>> = Vec::new();
    let mut dropped: Vec<bool> = Vec::new();
    while owner.len() < count
        invariant
            owner@.len() == dropped@.len() <= count,
            forall|i: int| 0 <= i < owner@.len() ==> #[trigger] owner@[i] is None,
            forall|i: int| 0 <= i < owner@.len() ==> !(#[trigger] dropped@[i]),
        decreases count - owner@.len(),
    {
        owner.push(None);
        dropped.push(false);
    }
    let mut a: usize = 0;
    while a < islands.len()
        invariant
            islands_ok(islands@, count as nat),
            a <= islands@.len(),
            owner@.len() == dropped@.len() == count,
            forall|i: int|
                0 <= i < count ==> #[trigger] owner@[i] == owner_of(islands@, hex@, a as nat, i),
            forall|i: int|
                0 <= i < count ==> #[trigger] dropped@[i] == hit(islands@, a as nat, hex@, i),
        decreases islands@.len() - a,
    {
        let island = &islands[a];
        let ghost shape = islands@[a as int];
        if let Some(rgb) = island.rgb {
            let mine = is_same_word(island.color.as_str(), hex);
            let list: &Vec<u32> = if mine {
                &island.edged
            } else {
                &island.covered
            };
            let ghost px = extent(shape, hex@);
            let mut k: usize = 0;
            while k < list.len()
                invariant
                    islands_ok(islands@, count as nat),
                    a < islands@.len(),
                    shape == islands@[a as int],
                    shape == *island,
                    shape.rgb == Some(rgb),
                    mine == same_word(shape.color@, hex@),
                    px == extent(shape, hex@),
                    px == list@,
                    k <= list@.len(),
                    owner@.len() == dropped@.len() == count,
                    forall|i: int|
                        0 <= i < count ==> #[trigger] owner@[i] == (if holds_upto(
                            px,
                            i,
                            k as int,
                        ) {
                            Some(rgb)
                        } else {
                            owner_of(islands@, hex@, a as nat, i)
                        }),
                    forall|i: int|
                        0 <= i < count ==> #[trigger] dropped@[i] == ((mine && holds_upto(
                            px,
                            i,
                            k as int,
                        )) || hit(islands@, a as nat, hex@, i)),
                decreases list@.len() - k,
            {
                assert(list@[k as int] < count) by {
                    if mine {
                        assert(islands@[a as int].edged@[k as int] < count);
                    } else {
                        assert(islands@[a as int].covered@[k as int] < count);
                    }
                }
                let index: usize = list[k] as usize;
                let ghost (owner0, dropped0) = (owner@, dropped@);
                owner.set(index, Some(rgb));
                let was: bool = dropped[index];
                dropped.set(index, was || mine);
                proof {
                    assert(holds_upto(px, index as int, k + 1)) by {
                        assert(px[k as int] == index);
                    }
                    assert forall|i: int| 0 <= i < count && i != index implies (holds_upto(
                        px,
                        i,
                        k + 1,
                    ) == holds_upto(px, i, k as int)) by {
                        if holds_upto(px, i, k + 1) {
                            let j = choose|j: int|
                                0 <= j < k + 1 && #[trigger] px[j] == i;
                            assert(j < k);
                        }
                    }
                    assert forall|i: int| 0 <= i < count implies #[trigger] owner@[i] == (
                    if holds_upto(px, i, k + 1) {
                        Some(rgb)
                    } else {
                        owner_of(islands@, hex@, a as nat, i)
                    }) by {
                        assert(i != index ==> owner@[i] == owner0[i]);
                    }
                    assert forall|i: int| 0 <= i < count implies #[trigger] dropped@[i] == ((mine
                        && holds_upto(px, i, k + 1)) || hit(islands@, a as nat, hex@, i)) by {
                        assert(i != index ==> dropped@[i] == dropped0[i]);
                        assert(dropped0[index as int] == ((mine && holds_upto(
                            px,
                            index as int,
                            k as int,
                        )) || hit(islands@, a as nat, hex@, index as int)));
                    }
                }
                k = k + 1;
            }
            assert forall|i: int| 0 <= i < count implies holds_upto(
                px,
                i,
                px.len() as int,
            ) == #[trigger] covers(shape, hex@, i) by {}
            assert forall|i: int| 0 <= i < count implies #[trigger] owner@[i] == owner_of(
                islands@,
                hex@,
                (a + 1) as nat,
                i,
            ) by {
                assert(covers(shape, hex@, i) == holds_upto(px, i, px.len() as int));
            }
            assert forall|i: int| 0 <= i < count implies #[trigger] dropped@[i] == hit(
                islands@,
                (a + 1) as nat,
                hex@,
                i,
            ) by {
                assert(covers(shape, hex@, i) == holds_upto(px, i, px.len() as int));
            }
        } else {
            assert forall|i: int| 0 <= i < count implies #[trigger] owner@[i] == owner_of(
                islands@,
                hex@,
                (a + 1) as nat,
                i,
            ) by {}
            assert forall|i: int| 0 <= i < count implies #[trigger] dropped@[i] == hit(
                islands@,
                (a + 1) as nat,
                hex@,
                i,
            ) by {}
        }
        a = a + 1;
    }
    assert(dropped@ =~= hits(islands@, hex@, count as nat));
    (owner, dropped)
}

fn same_rgb(a: [u8; 3], b: [u8; 3]) -> (same: bool)
    ensures
        same == (a@ == b@),
{
    let same = a[0] == b[0] && a[1] == b[1] && a[2] == b[2];
    assert(same ==> a@ =~= b@);
    same
}

fn is_gone(gone: Option<[u8; 3]>, rgb: [u8; 3]) -> (yes: bool)
    ensures
        yes == is_rgb(gone, rgb@),
{
    match gone {
        Some(c) => same_rgb(c, rgb),
        None => false,
    }
}

fn seed(
    r: &Raster,
    owner: &Vec<Option<[u8; 3]>>,
    gone: Option<[u8; 3]>,
    i: usize,
    Ghost(islands): Ghost<Seq<Island>>,
    Ghost(hex): Ghost<Seq<char>>,
) -> (target: Option<Target>)
    requires
        i < r.pixels@.len(),
        owner@.len() == r.pixels@.len(),
        owner@[i as int] == owner_of(islands, hex, islands.len(), i as int),
    ensures
        fill_view(target) == seed_of(*r, islands, hex, gone, i as int),
{
    let p = r.pixels[i];
    let own: [u8; 3] = [p[0], p[1], p[2]];
    assert(own@ =~= seq![p@[0], p@[1], p@[2]]);
    match owner[i] {
        Some(rgb) => if is_gone(gone, rgb) {
            None
        } else {
            Some(Target { rgb, alpha: None })
        },
        None => if p[3] == 0 {
            Some(Target { rgb: own, alpha: Some(0) })
        } else if is_gone(gone, own) {
            None
        } else {
            Some(Target { rgb: own, alpha: None })
        },
    }
}

/// The fills as plain values.
pub open spec fn fill_views(fill: Seq<Option<Target>>) -> Seq<Fill> {
    Seq::new(fill.len(), |i: int| fill_view(fill[i]))
}

pub open spec fn places(queue: Seq<usize>) -> Seq<int> {
    queue.map_values(|i: usize| i as int)
}

/// The flood's queue holds pixels of the picture, each filled and listed once.
pub open spec fn flood_ok(f: Flood, count: nat) -> bool {
    &&& f.fill.len() == count
    &&& f.queue.no_duplicates()
    &&& forall|a: int|
        0 <= a < f.queue.len() ==> 0 <= #[trigger] f.queue[a] < count && f.fill[f.queue[a]] is Some
}

pub proof fn lemma_filled(fill: Seq<Fill>, n: nat)
    requires
        n <= fill.len(),
    ensures
        filled(fill, n).no_duplicates(),
        forall|a: int|
            0 <= a < filled(fill, n).len() ==> 0 <= #[trigger] filled(fill, n)[a] < n
                && fill[filled(fill, n)[a]] is Some,
        forall|i: int| 0 <= i < n && (#[trigger] fill[i]) is Some ==> filled(fill, n).contains(i),
    decreases n,
{
    if n > 0 {
        let before = filled(fill, (n - 1) as nat);
        lemma_filled(fill, (n - 1) as nat);
        let now = filled(fill, n);
        assert forall|i: int| 0 <= i < n && (#[trigger] fill[i]) is Some implies now.contains(
            i,
        ) by {
            if i < n - 1 {
                assert(before.contains(i));
                let a = choose|a: int| 0 <= a < before.len() && before[a] == i;
                assert(now[a] == i);
            } else {
                assert(now[now.len() - 1] == i);
            }
        }
    }
}

proof fn lemma_spread_ok(f: Flood, dropped: Seq<bool>, w: int, h: int, i: int, k: nat)
    requires
        w > 0,
        h > 0,
        flood_ok(f, dropped.len()),
        dropped.len() == w * h,
        0 <= i < w * h,
        f.fill[i] is Some,
        k <= 4,
    ensures
        flood_ok(spread(f, dropped, w, h, i, k), dropped.len()),
        spread(f, dropped, w, h, i, k).fill[i] == f.fill[i],
        spread(f, dropped, w, h, i, k).queue.len() >= f.queue.len(),
    decreases k,
{
    if k > 0 {
        lemma_spread_ok(f, dropped, w, h, i, (k - 1) as nat);
        lemma_neighbour(w, h, i, k - 1);
        let g = spread(f, dropped, w, h, i, (k - 1) as nat);
        let now = spread(f, dropped, w, h, i, k);
        assert forall|a: int| 0 <= a < now.queue.len() implies 0 <= #[trigger] now.queue[a]
            < dropped.len() && now.fill[now.queue[a]] is Some by {
            if a < g.queue.len() {
                assert(now.queue[a] == g.queue[a]);
            }
        }
        assert(now.queue.no_duplicates());
    }
}

pub proof fn lemma_flood_ok(fill: Seq<Fill>, dropped: Seq<bool>, w: int, h: int, n: nat)
    requires
        w > 0,
        h > 0,
        fill.len() == dropped.len() == w * h,
    ensures
        flood_ok(flood(fill, dropped, w, h, n), dropped.len()),
        flood(fill, dropped, w, h, n).queue.len() <= dropped.len(),
    decreases n,
{
    if n == 0 {
        lemma_filled(fill, fill.len());
    } else {
        lemma_flood_ok(fill, dropped, w, h, (n - 1) as nat);
        let f = flood(fill, dropped, w, h, (n - 1) as nat);
        if n - 1 < f.queue.len() {
            lemma_spread_ok(f, dropped, w, h, f.queue[n - 1], 4);
        }
    }
    lemma_short(flood(fill, dropped, w, h, n).queue, dropped.len());
}

/// A list of different places is no longer than the places there are.
proof fn lemma_short(queue: Seq<int>, count: nat)
    requires
        queue.no_duplicates(),
        forall|a: int| 0 <= a < queue.len() ==> 0 <= #[trigger] queue[a] < count,
    ensures
        queue.len() <= count,
{
    queue.unique_seq_to_set();
    let all = vstd::set_lib::set_int_range(0, count as int);
    vstd::set_lib::lemma_int_range(0, count as int);
    assert(queue.to_set().subset_of(all)) by {
        assert forall|i: int| queue.to_set().contains(i) implies all.contains(i) by {
            let a = choose|a: int| 0 <= a < queue.len() && queue[a] == i;
            assert(0 <= queue[a] < count);
        }
    }
    vstd::set_lib::lemma_len_subset(queue.to_set(), all);
}

/// Once the queue is through, nothing changes.
proof fn lemma_flood_done(fill: Seq<Fill>, dropped: Seq<bool>, w: int, h: int, n: nat, m: nat)
    requires
        n <= m,
        flood(fill, dropped, w, h, n).queue.len() <= n,
    ensures
        flood(fill, dropped, w, h, m) == flood(fill, dropped, w, h, n),
    decreases m,
{
    if n < m {
        lemma_flood_done(fill, dropped, w, h, n, (m - 1) as nat);
    }
}

/// Floods the nearest other colour, or the transparency, into the dropped
/// pixels.
fn flood_fill(
    r: &Raster,
    owner: &Vec<Option<[u8; 3]>>,
    dropped: &Vec<bool>,
    gone: Option<[u8; 3]>,
    Ghost(islands): Ghost<Seq<Island>>,
    Ghost(hex): Ghost<Seq<char>>,
) -> (fill: Vec<Option<Target>>)
    requires
        r.ok(),
        r.width > 0,
        r.height > 0,
        r.pixels@.len() <= u32::MAX,
        owner@.len() == dropped@.len() == r.pixels@.len(),
        forall|i: int|
            0 <= i < owner@.len() ==> #[trigger] owner@[i] == owner_of(islands, hex, islands.len(), i),
    ensures
        fill_views(fill@) == flooded(
            seeds(*r, islands, hex, gone, dropped@),
            dropped@,
            r.width as int,
            r.height as int,
        ),
{
    let (w, h): (usize, usize) = (r.width, r.height);
    let count: usize = r.pixels.len();
    let ghost sd = seeds(*r, islands, hex, gone, dropped@);
    let ghost d = dropped@;
    let ghost (wi, hi) = (w as int, h as int);
    let mut fill: Vec<Option<Target>> = Vec::new();
    let mut queue: Vec<usize> = Vec::new();
    let mut i: usize = 0;
    assert(places(queue@) =~= filled(sd, 0));
    while i < count
        invariant
            r.ok(),
            w == r.width,
            h == r.height,
            w > 0,
            h > 0,
            count == r.pixels@.len() <= u32::MAX,
            owner@.len() == dropped@.len() == count,
            forall|j: int|
                0 <= j < owner@.len() ==> #[trigger] owner@[j] == owner_of(
                    islands,
                    hex,
                    islands.len(),
                    j,
                ),
            sd == seeds(*r, islands, hex, gone, dropped@),
            i <= count,
            fill@.len() == i,
            forall|j: int| 0 <= j < i ==> fill_view(#[trigger] fill@[j]) == sd[j],
            places(queue@) == filled(sd, i as nat),
        decreases count - i,
    {
        let target = if !dropped[i] && touches(dropped, w, h, i) {
            seed(r, owner, gone, i, Ghost(islands), Ghost(hex))
        } else {
            None
        };
        assert(fill_view(target) == sd[i as int]);
        fill.push(target);
        if target.is_some() {
            queue.push(i);
            assert(places(queue@) =~= filled(sd, (i + 1) as nat));
        } else {
            assert(filled(sd, (i + 1) as nat) == filled(sd, i as nat));
        }
        i = i + 1;
    }
    assert(fill_views(fill@) =~= sd);
    let mut head: usize = 0;
    proof {
        lemma_flood_ok(sd, d, wi, hi, 0);
        assert(places(queue@).len() == queue@.len());
    }
    while head < queue.len()
        invariant
            w > 0,
            h > 0,
            wi == w,
            hi == h,
            w * h == count <= u32::MAX,
            d == dropped@,
            sd.len() == d.len() == count,
            head <= queue@.len() <= count,
            fill_views(fill@) == flood(sd, d, wi, hi, head as nat).fill,
            places(queue@) == flood(sd, d, wi, hi, head as nat).queue,
            flood_ok(flood(sd, d, wi, hi, head as nat), count as nat),
        decreases count - head,
    {
        let i: usize = queue[head];
        let ghost f = flood(sd, d, wi, hi, head as nat);
        proof {
            assert(places(queue@)[head as int] == i);
            assert(f.queue[head as int] == i);
            assert(fill_views(fill@).len() == fill@.len());
        }
        let target = fill[i];
        let mut k: usize = 0;
        while k < 4
            invariant
                w > 0,
                h > 0,
                wi == w,
                hi == h,
                w * h == count <= u32::MAX,
                d == dropped@,
                d.len() == count,
                i < count,
                k <= 4,
                flood_ok(f, count as nat),
                f.fill[i as int] is Some,
                fill_view(target) == f.fill[i as int],
                fill@.len() == count,
                fill_views(fill@) == spread(f, d, wi, hi, i as int, k as nat).fill,
                places(queue@) == spread(f, d, wi, hi, i as int, k as nat).queue,
            decreases 4 - k,
        {
            let ghost g = spread(f, d, wi, hi, i as int, k as nat);
            let ghost (fill0, queue0) = (fill@, queue@);
            proof {
                lemma_spread_ok(f, d, wi, hi, i as int, k as nat);
            }
            if let Some(n) = next_to(w, h, i, k) {
                assert(fill_views(fill@)[n as int] == fill_view(fill@[n as int]));
                if dropped[n] && fill[n].is_none() {
                    fill.set(n, target);
                    queue.push(n);
                    proof {
                        assert(fill_views(fill@) =~= g.fill.update(n as int, g.fill[i as int]));
                        assert(places(queue@) =~= g.queue.push(n as int));
                    }
                }
            }
            k = k + 1;
        }
        proof {
            lemma_flood_ok(sd, d, wi, hi, (head + 1) as nat);
            assert(places(queue@).len() == queue@.len());
            lemma_spread_ok(f, d, wi, hi, i as int, 4);
        }
        head = head + 1;
    }
    proof {
        assert(places(queue@).len() == queue@.len());
        lemma_flood_done(sd, d, wi, hi, head as nat, count as nat);
    }
    fill
}

fn target_code(t: Target) -> (c: u64)
    ensures
        c == code(t.rgb@, t.alpha),
{
    let last: u64 = match t.alpha {
        Some(a) => a as u64 + 1,
        None => 0,
    };
    t.rgb[0] as u64 * 16_842_752 + t.rgb[1] as u64 * 65_792 + t.rgb[2] as u64 * 257 + last
}

proof fn lemma_no_code(changes: Seq<Fill>, c: int, n: nat)
    requires
        forall|i: int| 0 <= i < n ==> code_of(#[trigger] changes[i]) != c,
    ensures
        with_code(changes, c, n).len() == 0,
    decreases n,
{
    if n > 0 {
        lemma_no_code(changes, c, (n - 1) as nat);
        assert(code_of(changes[n - 1]) != c);
    }
}

/// Adds pixel `n`, which changes to `t`, to its group.
fn add_change(list: &mut Vec<Recolor>, n: usize, t: Target, Ghost(changes): Ghost<Seq<Fill>>)
    requires
        groups(old(list)@, changes, n as nat),
        n < changes.len(),
        n <= u32::MAX,
        changes[n as int] == fill_view(Some(t)),
    ensures
        groups(final(list)@, changes, (n + 1) as nat),
{
    let c: u64 = target_code(t);
    let ghost before = list@;
    let mut low: usize = 0;
    let mut high: usize = list.len();
    while low < high
        invariant
            low <= high <= list@.len(),
            list@ == before,
            groups(before, changes, n as nat),
            forall|a: int|
                0 <= a < low ==> code((#[trigger] before[a]).rgb@, before[a].alpha) < c,
            forall|a: int|
                high <= a < before.len() ==> code((#[trigger] before[a]).rgb@, before[a].alpha)
                    >= c,
        decreases high - low,
    {
        let middle: usize = low + (high - low) / 2;
        let there: u64 = target_code(Target { rgb: list[middle].rgb, alpha: list[middle].alpha });
        if there < c {
            low = middle + 1;
        } else {
            high = middle;
        }
    }
    let here = low < list.len() && target_code(
        Target { rgb: list[low].rgb, alpha: list[low].alpha },
    ) == c;
    if here {
        list[low].pixels.push(n as u32);
    } else {
        let mut pixels: Vec<u32> = Vec::new();
        pixels.push(n as u32);
        proof {
            assert forall|i: int| 0 <= i < n implies code_of(#[trigger] changes[i]) != c by {
                if code_of(changes[i]) == c {
                    assert(changes[i] is Some);
                    assert(has_group(before, c as int));
                    let a = choose|a: int|
                        0 <= a < before.len() && code((#[trigger] before[a]).rgb@, before[a].alpha)
                            == c;
                    assert(a == low);
                }
            }
            lemma_no_code(changes, c as int, n as nat);
        }
        list.insert(low, Recolor { pixels, rgb: t.rgb, alpha: t.alpha });
    }
    proof {
        let now = list@;
        let m = (n + 1) as nat;
        if here {
            assert forall|a: int| 0 <= a < now.len() implies (#[trigger] now[a]).rgb
                == before[a].rgb && now[a].alpha == before[a].alpha by {}
            assert(now.len() == before.len());
            assert forall|a: int| 0 <= a < now.len() implies (#[trigger] now[a]).pixels@
                == with_code(changes, code(now[a].rgb@, now[a].alpha), m)
                && now[a].pixels@.len() > 0 by {
                assert(before[a].pixels@ == with_code(
                    changes,
                    code(before[a].rgb@, before[a].alpha),
                    n as nat,
                ));
                if a < low {
                    assert(code(before[a].rgb@, before[a].alpha) < c);
                } else if a > low {
                    assert(code(before[low as int].rgb@, before[low as int].alpha) < code(
                        before[a].rgb@,
                        before[a].alpha,
                    ));
                }
            }
            assert forall|i: int| 0 <= i < m && (#[trigger] changes[i]) is Some implies has_group(
                now,
                code_of(changes[i]),
            ) by {
                if i < n {
                    assert(has_group(before, code_of(changes[i])));
                    let a = choose|a: int|
                        0 <= a < before.len() && code((#[trigger] before[a]).rgb@, before[a].alpha)
                            == code_of(changes[i]);
                    assert(code(now[a].rgb@, now[a].alpha) == code_of(changes[i]));
                } else {
                    assert(code(now[low as int].rgb@, now[low as int].alpha) == code_of(
                        changes[i],
                    ));
                }
            }
            assert forall|a: int, b: int| 0 <= a < b < now.len() implies code(
                (#[trigger] now[a]).rgb@,
                now[a].alpha,
            ) < code((#[trigger] now[b]).rgb@, now[b].alpha) by {
                assert(code(before[a].rgb@, before[a].alpha) < code(before[b].rgb@, before[b].alpha));
            }
        } else {
            assert(now.len() == before.len() + 1);
            assert forall|a: int| 0 <= a < now.len() implies #[trigger] now[a] == (if a < low {
                before[a]
            } else if a == low {
                now[low as int]
            } else {
                before[a - 1]
            }) by {}
            assert forall|a: int| 0 <= a < now.len() implies (#[trigger] now[a]).pixels@
                == with_code(changes, code(now[a].rgb@, now[a].alpha), m)
                && now[a].pixels@.len() > 0 by {
                if a < low {
                    assert(before[a].pixels@ == with_code(
                        changes,
                        code(before[a].rgb@, before[a].alpha),
                        n as nat,
                    ));
                } else if a > low {
                    let b = a - 1;
                    assert(before[b].pixels@ == with_code(
                        changes,
                        code(before[b].rgb@, before[b].alpha),
                        n as nat,
                    ));
                    assert(code(before[b].rgb@, before[b].alpha) >= c);
                    if b > low {
                        assert(code(before[low as int].rgb@, before[low as int].alpha) < code(
                            before[b].rgb@,
                            before[b].alpha,
                        ));
                    }
                } else {
                    assert(now[a].pixels@ =~= with_code(changes, c as int, m));
                }
            }
            assert forall|i: int| 0 <= i < m && (#[trigger] changes[i]) is Some implies has_group(
                now,
                code_of(changes[i]),
            ) by {
                if i < n {
                    assert(has_group(before, code_of(changes[i])));
                    let a = choose|a: int|
                        0 <= a < before.len() && code((#[trigger] before[a]).rgb@, before[a].alpha)
                            == code_of(changes[i]);
                    let b = if a < low {
                        a
                    } else {
                        a + 1
                    };
                    assert(now[b] == before[a]);
                    assert(code(now[b].rgb@, now[b].alpha) == code_of(changes[i]));
                } else {
                    assert(code(now[low as int].rgb@, now[low as int].alpha) == code_of(
                        changes[i],
                    ));
                }
            }
            assert forall|a: int, b: int| 0 <= a < b < now.len() implies code(
                (#[trigger] now[a]).rgb@,
                now[a].alpha,
            ) < code((#[trigger] now[b]).rgb@, now[b].alpha) by {
                let x = if a < low {
                    a
                } else {
                    a - 1
                };
                let y = if b < low {
                    b
                } else {
                    b - 1
                };
                if a != low && b != low {
                    assert(now[a] == before[x] && now[b] == before[y]);
                    assert(code(before[x].rgb@, before[x].alpha) < code(
                        before[y].rgb@,
                        before[y].alpha,
                    ));
                } else if a == low {
                    assert(now[b] == before[y]);
                    assert(code(before[y].rgb@, before[y].alpha) >= c);
                    if y > low {
                        assert(code(before[low as int].rgb@, before[low as int].alpha) < code(
                            before[y].rgb@,
                            before[y].alpha,
                        ));
                    }
                } else {
                    assert(now[a] == before[x]);
                    assert(code(before[x].rgb@, before[x].alpha) < c);
                }
            }
        }
    }
}

/// What pixel `i` changes to, or nothing.
fn change_at(
    p: [u8; 4],
    dropped: bool,
    band: bool,
    fill: Option<Target>,
    owner: Option<[u8; 3]>,
) -> (t: Option<Target>)
    ensures
        fill_view(t) == ({
            let wanted: Fill = if dropped {
                fill_view(fill)
            } else if band {
                match owner {
                    Some(rgb) => Some((rgb@, None)),
                    None => None,
                }
            } else {
                None
            };
            match wanted {
                Some((rgb, Some(alpha))) => if p@[3] != alpha {
                    Some((rgb, Some(alpha)))
                } else {
                    None
                },
                Some((rgb, None)) => if seq![p@[0], p@[1], p@[2]] != rgb {
                    Some((rgb, None))
                } else {
                    None
                },
                None => None,
            }
        }),
{
    let wanted: Option<Target> = if dropped {
        fill
    } else if band {
        match owner {
            Some(rgb) => Some(Target { rgb, alpha: None }),
            None => None,
        }
    } else {
        None
    };
    match wanted {
        Some(t) => {
            let own: [u8; 3] = [p[0], p[1], p[2]];
            assert(own@ =~= seq![p@[0], p@[1], p@[2]]);
            let changes = match t.alpha {
                Some(alpha) => p[3] != alpha,
                None => !same_rgb(own, t.rgb),
            };
            if changes {
                Some(t)
            } else {
                None
            }
        },
        None => None,
    }
}

/// The recolouring that drops the fill colour `hex` from `working`, the image
/// the engine saw, given the shown document's shapes in paint order; `gone`
/// is the colour's channels, where they can be read. The dropped shapes'
/// pixels, widened by two so that the blended edge goes with them, take the
/// colour of the nearest shape of another colour, or turn transparent where
/// the transparent background is nearest; every pixel within three more takes
/// its own shape's colour. Pixels that hold their target already are left
/// out.
pub fn colour_drop(
    islands: &[Island],
    working: &Raster,
    hex: &str,
    gone: Option<[u8; 3]>,
) -> (list: Vec<Recolor>)
    requires
        working.ok(),
        working.pixels@.len() <= u32::MAX,
        islands_ok(islands@, working.pixels@.len()),
    ensures
        groups(
            list@,
            changes_of(*working, islands@, hex@, gone),
            working.pixels@.len(),
        ),
{
    let count: usize = working.pixels.len();
    let (w, h): (usize, usize) = (working.width, working.height);
    let ghost changes = changes_of(*working, islands@, hex@, gone);
    let mut list: Vec<Recolor> = Vec::new();
    if count == 0 {
        return list;
    }
    proof {
        if w == 0 || h == 0 {
            assert(w * h == 0) by (nonlinear_arith)
                requires
                    w == 0 || h == 0,
            ;
        }
    }
    let (owner, covered) = owners(islands, hex, count);
    let dropped = widen(&covered, w, h);
    let mut band = widen(&dropped, w, h);
    band = widen(&band, w, h);
    band = widen(&band, w, h);
    proof {
        let (wi, hi) = (w as int, h as int);
        let d = dropped@;
        assert(widened_by(d, wi, hi, 0) == d);
        assert(widened_by(d, wi, hi, 1) == widened(d, wi, hi));
        assert(widened_by(d, wi, hi, 2) == widened(widened(d, wi, hi), wi, hi));
        assert(band@ == widened_by(d, wi, hi, 3));
    }
    let fill = flood_fill(working, &owner, &dropped, gone, Ghost(islands@), Ghost(hex@));
    let ghost sd = seeds(*working, islands@, hex@, gone, dropped@);
    let ghost held = flooded(sd, dropped@, w as int, h as int);
    assert(fill_views(fill@).len() == fill@.len());
    proof {
        lemma_flood_ok(sd, dropped@, w as int, h as int, sd.len());
    }
    let mut i: usize = 0;
    while i < count
        invariant
            count == working.pixels@.len() <= u32::MAX,
            w == working.width,
            h == working.height,
            i <= count,
            owner@.len() == dropped@.len() == band@.len() == fill@.len() == count,
            dropped@ == dropped_of(*working, islands@, hex@),
            band@ == widened_by(dropped@, w as int, h as int, 3),
            sd == seeds(*working, islands@, hex@, gone, dropped@),
            held == flooded(sd, dropped@, w as int, h as int),
            fill_views(fill@) == held,
            forall|j: int|
                0 <= j < count ==> #[trigger] owner@[j] == owner_of(islands@, hex@, islands@.len(), j),
            changes == changes_of(*working, islands@, hex@, gone),
            changes.len() == count,
            groups(list@, changes, i as nat),
        decreases count - i,
    {
        assert(fill_views(fill@)[i as int] == fill_view(fill@[i as int]));
        let t = change_at(working.pixels[i], dropped[i], band[i], fill[i], owner[i]);
        assert(fill_view(t) == change(*working, islands@, hex@, gone, i as int));
        assert(changes[i as int] == fill_view(t));
        match t {
            Some(t) => {
                add_change(&mut list, i, t, Ghost(changes));
            },
            None => {
                assert forall|a: int| 0 <= a < list@.len() implies (#[trigger] list@[a]).pixels@
                    == with_code(
                    changes,
                    code(list@[a].rgb@, list@[a].alpha),
                    (i + 1) as nat,
                ) by {}
            },
        }
        i = i + 1;
    }
    list
}

/// Whether pixel `(x, y)` lies at the picture's edge.
pub open spec fn at_edge(r: Raster, x: int, y: int) -> bool {
    x == 0 || y == 0 || x == r.width - 1 || y == r.height - 1
}

/// Whether pixel `(x, y)` lies at the picture's edge; where `opaque` asks for
/// it, also whether it is fully opaque.
pub open spec fn edge_pixel(r: Raster, x: int, y: int, opaque: bool) -> bool {
    at_edge(r, x, y) && (opaque ==> r.pixels@[y * r.width + x]@[3] == 255)
}

/// How many of the first `n` pixels of row `y` are `edge_pixel`s.
pub open spec fn row_edge(r: Raster, y: int, n: nat, opaque: bool) -> nat
    decreases n,
{
    if n == 0 {
        0
    } else {
        row_edge(r, y, (n - 1) as nat, opaque) + (if edge_pixel(r, n - 1, y, opaque) {
            1nat
        } else {
            0nat
        })
    }
}

/// How many pixels of the first `n` rows are `edge_pixel`s: each counts once.
pub open spec fn edge_count(r: Raster, n: nat, opaque: bool) -> nat
    decreases n,
{
    if n == 0 {
        0
    } else {
        edge_count(r, (n - 1) as nat, opaque) + row_edge(r, n - 1, r.width as nat, opaque)
    }
}

proof fn lemma_pixel(r: Raster, x: int, y: int)
    requires
        r.ok(),
        0 <= x < r.width,
        0 <= y < r.height,
    ensures
        0 <= y * r.width <= y * r.width + x < r.pixels@.len(),
{
    let (w, h) = (r.width as int, r.height as int);
    assert(0 <= y * w && y * w + w <= h * w && h * w == w * h) by (nonlinear_arith)
        requires
            0 <= y < h,
            w > 0,
    ;
}

/// A row between the first and the last has two pixels at the edge, or one
/// where it is one pixel long.
proof fn lemma_inner_row(r: Raster, y: int, n: nat, opaque: bool)
    requires
        0 < y < r.height - 1,
        0 < n <= r.width,
    ensures
        row_edge(r, y, n, opaque) == (if edge_pixel(r, 0, y, opaque) {
            1int
        } else {
            0
        }) + (if n == r.width && n > 1 && edge_pixel(r, n - 1, y, opaque) {
            1int
        } else {
            0
        }),
    decreases n,
{
    if n > 1 {
        lemma_inner_row(r, y, (n - 1) as nat, opaque);
    } else {
        assert(row_edge(r, y, 0, opaque) == 0);
    }
}

/// All of the first row and of the last one lies at the edge.
proof fn lemma_outer_row(r: Raster, y: int, n: nat)
    requires
        y == 0 || y == r.height - 1,
    ensures
        row_edge(r, y, n, false) == n,
    decreases n,
{
    if n > 0 {
        lemma_outer_row(r, y, (n - 1) as nat);
    }
}

/// The first `n` rows' share of the edge.
proof fn lemma_edge_rows(r: Raster, n: nat)
    requires
        r.width > 0,
        n <= r.height,
    ensures
        edge_count(r, n, false) == (if n == 0 {
            0int
        } else if n == r.height && n > 1 {
            2 * r.width + (n - 2) * (if r.width > 1 {
                2int
            } else {
                1
            })
        } else {
            r.width + (n - 1) * (if r.width > 1 {
                2int
            } else {
                1
            })
        }),
    decreases n,
{
    if n > 0 {
        lemma_edge_rows(r, (n - 1) as nat);
        if n == 1 || n == r.height {
            lemma_outer_row(r, n - 1, r.width as nat);
        } else {
            lemma_inner_row(r, n - 1, r.width as nat, false);
        }
    }
}

/// A picture of at least two pixels each way has `2 w + 2 h - 4` pixels at its
/// edge; of a single row or column, every pixel lies there.
pub proof fn lemma_edge_total(r: Raster)
    requires
        r.width > 0,
        r.height > 0,
    ensures
        r.width >= 2 && r.height >= 2 ==> edge_count(r, r.height as nat, false) == 2 * r.width + 2
            * r.height - 4,
        r.width == 1 || r.height == 1 ==> edge_count(r, r.height as nat, false) == r.width
            * r.height,
{
    lemma_edge_rows(r, r.height as nat);
    let (w, h) = (r.width as int, r.height as int);
    assert(w == 1 ==> w * h == h) by (nonlinear_arith);
    assert(h == 1 ==> w * h == w) by (nonlinear_arith);
}

/// The opaque pixels of the first or the last row.
fn count_outer_row(r: &Raster, y: usize) -> (n: u64)
    requires
        r.ok(),
        y < r.height,
        y == 0 || y == r.height - 1,
    ensures
        n == row_edge(*r, y as int, r.width as nat, true),
        n <= r.width,
{
    let count: usize = r.pixels.len();
    let mut n: u64 = 0;
    let mut x: usize = 0;
    while x < r.width
        invariant
            r.ok(),
            count == r.pixels@.len(),
            y < r.height,
            y == 0 || y == r.height - 1,
            x <= r.width,
            n <= x,
            n == row_edge(*r, y as int, x as nat, true),
        decreases r.width - x,
    {
        proof {
            lemma_pixel(*r, x as int, y as int);
        }
        if r.pixels[y * r.width + x][3] == 255 {
            n = n + 1;
        }
        x = x + 1;
    }
    n
}

/// The opaque pixels at the two ends of a row between the first and the last.
fn count_inner_row(r: &Raster, y: usize) -> (n: u64)
    requires
        r.ok(),
        r.width > 0,
        0 < y < r.height - 1,
    ensures
        n == row_edge(*r, y as int, r.width as nat, true),
        n <= 2,
{
    let last: usize = r.width - 1;
    proof {
        lemma_inner_row(*r, y as int, r.width as nat, true);
        lemma_pixel(*r, 0, y as int);
        lemma_pixel(*r, last as int, y as int);
    }
    let count: usize = r.pixels.len();
    let mut n: u64 = 0;
    if r.pixels[y * r.width][3] == 255 {
        n = n + 1;
    }
    if last > 0 && r.pixels[y * r.width + last][3] == 255 {
        n = n + 1;
    }
    n
}

/// Whether the picture's edge is opaque enough to hold a background shape:
/// at least half of the border pixels are fully opaque.
pub fn border_opaque(raster: &Raster) -> (yes: bool)
    requires
        raster.ok(),
    ensures
        yes == (raster.width > 0 && raster.height > 0 && 2 * edge_count(
            *raster,
            raster.height as nat,
            true,
        ) >= edge_count(*raster, raster.height as nat, false)),
{
    let (w, h): (usize, usize) = (raster.width, raster.height);
    if w == 0 || h == 0 {
        return false;
    }
    let mut opaque: u128 = 0;
    let mut y: usize = 0;
    while y < h
        invariant
            raster.ok(),
            w == raster.width,
            h == raster.height,
            w > 0,
            y <= h,
            opaque == edge_count(*raster, y as nat, true),
            opaque <= y * u64::MAX,
        decreases h - y,
    {
        let row: u64 = if y == 0 || y == h - 1 {
            count_outer_row(raster, y)
        } else {
            count_inner_row(raster, y)
        };
        assert(opaque + row <= (y + 1) * u64::MAX) by (nonlinear_arith)
            requires
                opaque <= y * u64::MAX,
                row <= u64::MAX,
        ;
        assert((y + 1) * u64::MAX <= u64::MAX * u64::MAX) by (nonlinear_arith)
            requires
                y + 1 <= u64::MAX,
        ;
        opaque = opaque + row as u128;
        y = y + 1;
    }
    proof {
        lemma_edge_total(*raster);
        lemma_edge_bound(*raster, h as nat);
        assert(w == 1 ==> w * h == h) by (nonlinear_arith);
        assert(h == 1 ==> w * h == w) by (nonlinear_arith);
    }
    let total: u128 = if w == 1 {
        h as u128
    } else if h == 1 {
        w as u128
    } else {
        2 * (w as u128) + 2 * (h as u128) - 4
    };
    opaque * 2 >= total
}

/// No more opaque pixels lie at the edge than pixels.
proof fn lemma_edge_bound(r: Raster, n: nat)
    ensures
        edge_count(r, n, true) <= edge_count(r, n, false),
    decreases n,
{
    if n > 0 {
        lemma_edge_bound(r, (n - 1) as nat);
        lemma_row_bound(r, n - 1, r.width as nat);
    }
}

proof fn lemma_row_bound(r: Raster, y: int, n: nat)
    ensures
        row_edge(r, y, n, true) <= row_edge(r, y, n, false),
    decreases n,
{
    if n > 0 {
        lemma_row_bound(r, y, (n - 1) as nat);
    }
}

/// Every target has a code of its own: recolouring by codes, no two targets
/// share a list.
pub proof fn law_each_target_has_its_own_code(
    a: Seq<u8>,
    x: Option<u8>,
    b: Seq<u8>,
    y: Option<u8>,
)
    requires
        a.len() == 3,
        b.len() == 3,
        code(a, x) == code(b, y),
    ensures
        a == b,
        x == y,
{
    assert(a =~= b);
}

/// A dropped pixel never takes the dropped colour: what fills it is another
/// colour, or transparency.
pub proof fn law_dropped_pixels_take_another_colour(
    r: Raster,
    islands: Seq<Island>,
    hex: Seq<char>,
    gone: Option<[u8; 3]>,
    i: int,
)
    requires
        r.ok(),
        r.width > 0,
        r.height > 0,
        0 <= i < r.pixels@.len(),
        dropped_of(r, islands, hex)[i],
    ensures
        wanted(r, islands, hex, gone, i) matches Some((rgb, alpha)) ==> alpha == Some(0u8)
            || !is_rgb(gone, rgb),
{
    let dropped = dropped_of(r, islands, hex);
    let sd = seeds(r, islands, hex, gone, dropped);
    let (w, h) = (r.width as int, r.height as int);
    lemma_fills_from(sd, dropped, w, h, sd.len(), i);
    let held = flooded(sd, dropped, w, h)[i];
    if held is Some {
        let j = choose|j: int| 0 <= j < sd.len() && #[trigger] sd[j] == held;
        assert(sd[j] == held);
    }
}

/// Whatever a pixel holds, a seed held before.
proof fn lemma_fills_from(
    fill: Seq<Fill>,
    dropped: Seq<bool>,
    w: int,
    h: int,
    n: nat,
    i: int,
)
    requires
        w > 0,
        h > 0,
        fill.len() == dropped.len() == w * h,
        0 <= i < fill.len(),
    ensures
        flood(fill, dropped, w, h, n).fill[i] is Some ==> exists|j: int|
            0 <= j < fill.len() && #[trigger] fill[j] == flood(fill, dropped, w, h, n).fill[i],
    decreases n,
{
    if n > 0 {
        let f = flood(fill, dropped, w, h, (n - 1) as nat);
        lemma_flood_ok(fill, dropped, w, h, (n - 1) as nat);
        lemma_fills_from(fill, dropped, w, h, (n - 1) as nat, i);
        if n - 1 < f.queue.len() {
            let from = f.queue[n - 1];
            lemma_fills_from(fill, dropped, w, h, (n - 1) as nat, from);
            lemma_spread_from(f, dropped, w, h, from, 4, i);
        }
    }
}

proof fn lemma_spread_from(
    f: Flood,
    dropped: Seq<bool>,
    w: int,
    h: int,
    from: int,
    k: nat,
    i: int,
)
    requires
        w > 0,
        h > 0,
        dropped.len() == w * h,
        flood_ok(f, dropped.len()),
        0 <= from < dropped.len(),
        f.fill[from] is Some,
        0 <= i < dropped.len(),
        k <= 4,
    ensures
        spread(f, dropped, w, h, from, k).fill[i] == f.fill[i] || spread(
            f,
            dropped,
            w,
            h,
            from,
            k,
        ).fill[i] == f.fill[from],
    decreases k,
{
    if k > 0 {
        lemma_spread_from(f, dropped, w, h, from, (k - 1) as nat, i);
        lemma_spread_ok(f, dropped, w, h, from, (k - 1) as nat);
        lemma_neighbour(w, h, from, k - 1);
    }
}

/// Two texts are the same word exactly when they are as long, and at every
/// place hold one character, or the capital and the small form of one of the
/// letters a to z, which lie 32 apart.
pub proof fn law_words_differ_in_case_alone(a: Seq<char>, b: Seq<char>)
    ensures
        same_word(a, b) <==> a.len() == b.len() && forall|i: int|
            #![trigger a[i]]
            0 <= i < a.len() ==> {
                ||| a[i] == b[i]
                ||| 97 <= a[i] as int <= 122 && a[i] as int == b[i] as int + 32
                ||| 97 <= b[i] as int <= 122 && b[i] as int == a[i] as int + 32
            },
{
}

} // verus!
