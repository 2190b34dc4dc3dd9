//! Which rectangles of a grid are drawn as tiles: most squares first, none
//! over another.
use crate::field::Field;
use crate::grid::{
    grown_from, is_largest, largest_tiled, lemma_grown, lemma_periodic_repeats, periodic,
    repeats_tile, Grid, Period, Rect, MAX_GRID, MAX_PERIOD, MAX_RUNS, MIN_SQUARES, MIN_TILES,
};
use vstd::prelude::*;

verus! {

/// A rectangle of the grid that repeats a tile.
#[derive(Clone, Copy, Debug, PartialEq, Eq, Structural)]
pub struct Patch {
    pub rect: Rect,
    pub period: Period,
}

/// A rectangle that may become a run, and how many squares it holds.
#[derive(Clone, Copy, Debug, PartialEq, Eq, Structural)]
pub struct Candidate {
    pub inked: u32,
    pub patch: Patch,
}

/// The tile sizes from `product` cells and `px` columns on: every size up to
/// `MAX_PERIOD` each way but a single cell, smaller tiles first, then
/// narrower ones.
pub open spec fn periods_from(product: nat, px: nat) -> Seq<Period>
    decreases MAX_PERIOD * MAX_PERIOD + 1 - product, MAX_PERIOD + 1 - px,
{
    if product > MAX_PERIOD * MAX_PERIOD {
        Seq::empty()
    } else if px == 0 || px > MAX_PERIOD {
        periods_from(product + 1, 1)
    } else if product % px == 0 && product / px <= MAX_PERIOD {
        seq![Period { x: px as usize, y: (product / px) as usize }] + periods_from(product, px + 1)
    } else {
        periods_from(product, px + 1)
    }
}

/// Every tile size that is tried, in the order it is tried.
pub open spec fn period_order() -> Seq<Period> {
    periods_from(2, 1)
}

proof fn lemma_periods_ok(product: nat, px: nat)
    requires
        product >= 1,
    ensures
        forall|i: int|
            0 <= i < periods_from(product, px).len() ==> (#[trigger] periods_from(
                product,
                px,
            )[i]).ok(),
    decreases MAX_PERIOD * MAX_PERIOD + 1 - product, MAX_PERIOD + 1 - px,
{
    if product > MAX_PERIOD * MAX_PERIOD {
        assert(periods_from(product, px).len() == 0);
    } else if px == 0 || px > MAX_PERIOD {
        lemma_periods_ok(product + 1, 1);
        assert(periods_from(product, px) == periods_from(product + 1, 1));
    } else {
        lemma_periods_ok(product, px + 1);
        if !(product % px == 0 && product / px <= MAX_PERIOD) {
            assert(periods_from(product, px) == periods_from(product, px + 1));
        }
        if product % px == 0 && product / px <= MAX_PERIOD {
            assert(product / px >= 1) by (nonlinear_arith)
                requires
                    product % px == 0,
                    product >= 1,
                    px >= 1,
            ;
            let first = seq![Period { x: px as usize, y: (product / px) as usize }];
            let rest = periods_from(product, px + 1);
            assert(periods_from(product, px) =~= first + rest);
            assert forall|i: int| 0 <= i < (first + rest).len() implies (#[trigger] (first
                + rest)[i]).ok() by {
                if i > 0 {
                    assert((first + rest)[i] == rest[i - 1]);
                }
            }
        }
    }
}

/// Every tile size of `period_order` is at most `MAX_PERIOD` cells each way.
pub proof fn lemma_period_order_ok()
    ensures
        forall|i: int| 0 <= i < period_order().len() ==> (#[trigger] period_order()[i]).ok(),
{
    lemma_periods_ok(2, 1);
}

/// The tile sizes that are tried, smaller ones first, then narrower ones.
pub fn periods() -> (list: Vec<Period>)
    ensures
        list@ == period_order(),
{
    let mut list: Vec<Period> = Vec::new();
    let mut product: usize = 2;
    while product <= MAX_PERIOD * MAX_PERIOD
        invariant
            2 <= product <= 65,
            list@ + periods_from(product as nat, 1) == period_order(),
        decreases 65 - product,
    {
        let mut px: usize = 1;
        while px <= MAX_PERIOD
            invariant
                2 <= product <= 64,
                1 <= px <= 9,
                list@ + periods_from(product as nat, px as nat) == period_order(),
            decreases 9 - px,
        {
            let ghost before = list@;
            if product % px == 0 && product / px <= MAX_PERIOD {
                list.push(Period { x: px, y: product / px });
            }
            assert(list@ + periods_from(product as nat, (px + 1) as nat) =~= before + periods_from(
                product as nat,
                px as nat,
            ));
            px = px + 1;
        }
        product = product + 1;
    }
    assert(list@ =~= period_order());
    list
}

/// The rectangle of tiles of size `p` that may become a run: the largest one
/// that fits, grown to where the repetition ends.
pub open spec fn candidate(f: Field, taken: Set<(int, int)>, p: Period) -> Option<Rect> {
    if p.x * MIN_TILES > f.w || p.y * MIN_TILES > f.h {
        None
    } else {
        match largest_tiled(f, taken, p) {
            None => None,
            Some(r) => Some(grown_from(f, taken, p, r)),
        }
    }
}

/// The first candidate with the most squares among the first `n` tile sizes
/// of `ps`. A rectangle with every cell inked is a solid block, not a dither.
pub open spec fn best_of(f: Field, taken: Set<(int, int)>, ps: Seq<Period>, n: nat) -> Option<
    Candidate,
>
    decreases n,
{
    if n == 0 {
        None
    } else {
        let before = best_of(f, taken, ps, (n - 1) as nat);
        let p = ps[n - 1];
        match candidate(f, taken, p) {
            None => before,
            Some(rect) => if rect.inked(f) < rect.area() && (before is None || rect.inked(f)
                > before->0.inked) {
                Some(Candidate { inked: rect.inked(f) as u32, patch: Patch { rect, period: p } })
            } else {
                before
            },
        }
    }
}

/// The cells of `r`.
pub open spec fn rect_cells(r: Rect) -> Set<(int, int)> {
    Set::new(|c: (int, int)| r.holds(c.0, c.1))
}

/// What at most `rounds` rounds take, in their order: each takes the best
/// rectangle of the cells that no earlier one took, until it holds too few
/// squares.
pub open spec fn picked(f: Field, taken: Set<(int, int)>, rounds: nat) -> Seq<Patch>
    decreases rounds,
{
    if rounds == 0 {
        Seq::empty()
    } else {
        match best_of(f, taken, period_order(), period_order().len()) {
            None => Seq::empty(),
            Some(c) => if c.inked < MIN_SQUARES || !repeats_tile(
                f,
                c.patch.period,
                c.patch.rect,
            ) {
                Seq::empty()
            } else {
                seq![c.patch] + picked(
                    f,
                    taken.union(rect_cells(c.patch.rect)),
                    (rounds - 1) as nat,
                )
            },
        }
    }
}

/// Where `patch` stands among `list`: behind every rectangle with at least as
/// many squares.
pub open spec fn place(f: Field, list: Seq<Patch>, patch: Patch) -> int
    decreases list.len(),
{
    if list.len() > 0 && list.last().rect.inked(f) < patch.rect.inked(f) {
        place(f, list.drop_last(), patch)
    } else {
        list.len() as int
    }
}

/// `list`, most squares first; of as many squares, the one taken first.
pub open spec fn by_squares(f: Field, list: Seq<Patch>) -> Seq<Patch>
    decreases list.len(),
{
    if list.len() == 0 {
        Seq::empty()
    } else {
        let before = by_squares(f, list.drop_last());
        before.insert(place(f, before, list.last()), list.last())
    }
}

/// The runs of at most `rounds` rounds, most squares first.
pub open spec fn chosen(f: Field, taken: Set<(int, int)>, rounds: nat) -> Seq<Patch> {
    by_squares(f, picked(f, taken, rounds))
}

/// No rectangle of `list` has fewer squares than a later one.
pub open spec fn falling(f: Field, list: Seq<Patch>) -> bool {
    forall|i: int, j: int|
        0 <= i <= j < list.len() ==> (#[trigger] list[i]).rect.inked(f) >= (
        #[trigger] list[j]).rect.inked(f)
}

/// No two rectangles of `list` share a cell.
pub open spec fn apart(list: Seq<Patch>) -> bool {
    forall|i: int, j: int, x: int, y: int|
        #![trigger list[i].rect.holds(x, y), list[j].rect.holds(x, y)]
        0 <= i < list.len() && 0 <= j < list.len() && i != j && list[i].rect.holds(x, y)
            ==> !list[j].rect.holds(x, y)
}

proof fn lemma_place(f: Field, list: Seq<Patch>, patch: Patch)
    requires
        falling(f, list),
    ensures
        0 <= place(f, list, patch) <= list.len(),
        forall|i: int|
            0 <= i < place(f, list, patch) ==> (#[trigger] list[i]).rect.inked(f)
                >= patch.rect.inked(f),
        forall|i: int|
            place(f, list, patch) <= i < list.len() ==> (#[trigger] list[i]).rect.inked(f)
                < patch.rect.inked(f),
    decreases list.len(),
{
    if list.len() > 0 && list.last().rect.inked(f) < patch.rect.inked(f) {
        let less = list.drop_last();
        assert forall|i: int, j: int| 0 <= i <= j < less.len() implies (
        #[trigger] less[i]).rect.inked(f) >= (#[trigger] less[j]).rect.inked(f) by {
            assert(less[i] == list[i] && less[j] == list[j]);
        }
        lemma_place(f, less, patch);
        assert forall|i: int| 0 <= i < place(f, list, patch) implies (
        #[trigger] list[i]).rect.inked(f) >= patch.rect.inked(f) by {
            assert(less[i] == list[i]);
        }
        assert forall|i: int| place(f, list, patch) <= i < list.len() implies (
        #[trigger] list[i]).rect.inked(f) < patch.rect.inked(f) by {
            if i < less.len() {
                assert(less[i] == list[i]);
            }
        }
    } else if list.len() > 0 {
        assert forall|i: int| 0 <= i < list.len() implies (#[trigger] list[i]).rect.inked(f)
            >= patch.rect.inked(f) by {
            assert(list[i].rect.inked(f) >= list[list.len() - 1].rect.inked(f));
        }
    }
}

/// Putting `patch` in its place keeps the order.
proof fn lemma_put_falling(f: Field, list: Seq<Patch>, patch: Patch)
    requires
        falling(f, list),
    ensures
        falling(f, list.insert(place(f, list, patch), patch)),
{
    lemma_place(f, list, patch);
    let at = place(f, list, patch);
    let all = list.insert(at, patch);
    assert forall|i: int, j: int| 0 <= i <= j < all.len() implies (
    #[trigger] all[i]).rect.inked(f) >= (#[trigger] all[j]).rect.inked(f) by {
        if i != at && j != at {
            let a = if i < at {
                i
            } else {
                i - 1
            };
            let b = if j < at {
                j
            } else {
                j - 1
            };
            assert(all[i] == list[a] && all[j] == list[b]);
        } else if i == at && j > at {
            assert(all[j] == list[j - 1]);
        } else if j == at && i < at {
            assert(all[i] == list[i]);
        }
    }
}

/// Neither rectangle holds a cell of the other.
pub open spec fn clear_of(a: Patch, b: Patch) -> bool {
    forall|x: int, y: int| #[trigger] a.rect.holds(x, y) ==> !b.rect.holds(x, y)
}

/// A rectangle clear of those of a list may stand anywhere among them.
proof fn lemma_put_apart(list: Seq<Patch>, at: int, patch: Patch)
    requires
        apart(list),
        0 <= at <= list.len(),
        forall|k: int| 0 <= k < list.len() ==> clear_of(#[trigger] list[k], patch),
    ensures
        apart(list.insert(at, patch)),
{
    let all = list.insert(at, patch);
    assert forall|i: int, j: int, x: int, y: int|
        #![trigger all[i].rect.holds(x, y), all[j].rect.holds(x, y)]
        0 <= i < all.len() && 0 <= j < all.len() && i != j && all[i].rect.holds(
            x,
            y,
        ) implies !all[j].rect.holds(x, y) by {
        let a = if i < at {
            i
        } else {
            i - 1
        };
        let b = if j < at {
            j
        } else {
            j - 1
        };
        if i != at && j != at {
            assert(all[i] == list[a] && all[j] == list[b]);
            assert(list[a].rect.holds(x, y));
            if all[j].rect.holds(x, y) {
                assert(list[b].rect.holds(x, y));
            }
        } else if i == at {
            assert(all[j] == list[b]);
            assert(clear_of(list[b], patch));
        } else {
            assert(all[i] == list[a]);
            assert(clear_of(list[a], patch));
        }
    }
}

/// `a` holds what `b` holds.
pub open spec fn holds_all(a: Seq<Patch>, b: Seq<Patch>) -> bool {
    forall|i: int| 0 <= i < b.len() ==> a.contains(#[trigger] b[i])
}

proof fn lemma_put_holds(list: Seq<Patch>, before: Seq<Patch>, at: int)
    requires
        list.len() > 0,
        0 <= at <= before.len(),
        holds_all(list.drop_last(), before),
        holds_all(before, list.drop_last()),
    ensures
        holds_all(list, before.insert(at, list.last())),
        holds_all(before.insert(at, list.last()), list),
{
    let less = list.drop_last();
    let last = list.last();
    let all = before.insert(at, last);
    assert forall|i: int| 0 <= i < all.len() implies list.contains(#[trigger] all[i]) by {
        if i == at {
            assert(list[list.len() - 1] == all[i]);
        } else {
            let o = if i < at {
                i
            } else {
                i - 1
            };
            assert(all[i] == before[o]);
            assert(less.contains(before[o]));
            let k = choose|k: int| 0 <= k < less.len() && less[k] == before[o];
            assert(list[k] == all[i]);
        }
    }
    assert forall|i: int| 0 <= i < list.len() implies all.contains(#[trigger] list[i]) by {
        if i == list.len() - 1 {
            assert(all[at] == list[i]);
        } else {
            assert(before.contains(less[i]));
            let k = choose|k: int| 0 <= k < before.len() && before[k] == less[i];
            let o = if k < at {
                k
            } else {
                k + 1
            };
            assert(all[o] == list[i]);
        }
    }
}

/// Ordering keeps every rectangle, keeps them apart and brings the most
/// squares to the front.
pub proof fn lemma_by_squares(f: Field, list: Seq<Patch>)
    requires
        apart(list),
    ensures
        by_squares(f, list).len() == list.len(),
        falling(f, by_squares(f, list)),
        apart(by_squares(f, list)),
        holds_all(list, by_squares(f, list)),
        holds_all(by_squares(f, list), list),
    decreases list.len(),
{
    if list.len() > 0 {
        let less = list.drop_last();
        let last = list.last();
        lemma_part_apart(list, list.len() - 1);
        assert(list.take(list.len() - 1) =~= less);
        lemma_by_squares(f, less);
        let before = by_squares(f, less);
        lemma_place(f, before, last);
        let at = place(f, before, last);
        lemma_put_falling(f, before, last);
        lemma_put_holds(list, before, at);
        assert forall|k: int| 0 <= k < before.len() implies clear_of(
            #[trigger] before[k],
            last,
        ) by {
            assert(less.contains(before[k]));
            let m = choose|m: int| 0 <= m < less.len() && less[m] == before[k];
            assert forall|x: int, y: int| #[trigger] before[k].rect.holds(x, y) implies
                !last.rect.holds(x, y) by {
                assert(list[m].rect.holds(x, y));
                if last.rect.holds(x, y) {
                    assert(list[list.len() - 1].rect.holds(x, y));
                }
            }
        }
        lemma_put_apart(before, at, last);
    }
}

/// What is true of a run: at least `MIN_TILES` tiles each way on free cells
/// of the grid, every cell its tile's cell, at least `MIN_SQUARES` squares,
/// not solid.
pub open spec fn run_ok(f: Field, taken: Set<(int, int)>, patch: Patch) -> bool {
    let r = patch.rect;
    let p = patch.period;
    &&& p.ok()
    &&& r.on(f)
    &&& r.width() >= p.x * MIN_TILES
    &&& r.height() >= p.y * MIN_TILES
    &&& repeats_tile(f, p, r)
    &&& MIN_SQUARES <= r.inked(f) < r.area()
    &&& forall|x: int, y: int| r.holds(x, y) ==> !(#[trigger] taken.contains((x, y)))
}

/// The field is small enough to be searched.
pub open spec fn searchable(f: Field) -> bool {
    &&& f.wf()
    &&& 1 <= f.w
    &&& 1 <= f.h
    &&& f.w * f.h <= MAX_GRID
}

pub proof fn lemma_candidate(f: Field, taken: Set<(int, int)>, p: Period)
    requires
        searchable(f),
        p.ok(),
    ensures
        candidate(f, taken, p) is Some ==> periodic(f, taken, p, candidate(f, taken, p)->0)
            && repeats_tile(f, p, candidate(f, taken, p)->0) && candidate(f, taken, p)->0.area()
            <= MAX_GRID && candidate(f, taken, p)->0.inked(f) <= candidate(f, taken, p)->0.area(),
{
    let (w, h) = (f.w, f.h);
    assert(w <= w * h && h <= w * h) by (nonlinear_arith)
        requires
            w >= 1,
            h >= 1,
    ;
    if candidate(f, taken, p) is Some {
        let r = largest_tiled(f, taken, p)->0;
        assert(is_largest(f, taken, p, r));
        crate::grid::lemma_tiled_is_periodic(f, taken, p, r);
        lemma_grown(f, taken, p, r);
        let g = grown_from(f, taken, p, r);
        lemma_periodic_repeats(f, taken, p, g);
        let (gw, gh) = (g.width(), g.height());
        assert(gw * gh <= w * h) by (nonlinear_arith)
            requires
                0 <= gw <= w,
                0 <= gh <= h,
        ;
        f.lemma_count_bounded(g.x0 as int, g.y0 as int, g.x1 as int, g.y1 as int);
    }
}

pub proof fn lemma_best(f: Field, taken: Set<(int, int)>, ps: Seq<Period>, n: nat)
    requires
        searchable(f),
        n <= ps.len(),
        forall|i: int| 0 <= i < ps.len() ==> (#[trigger] ps[i]).ok(),
    ensures
        best_of(f, taken, ps, n) matches Some(c) ==> {
            &&& c.patch.period.ok()
            &&& periodic(f, taken, c.patch.period, c.patch.rect)
            &&& repeats_tile(f, c.patch.period, c.patch.rect)
            &&& c.inked == c.patch.rect.inked(f)
            &&& c.inked < c.patch.rect.area()
        },
    decreases n,
{
    if n > 0 {
        lemma_best(f, taken, ps, (n - 1) as nat);
        assert(ps[n - 1].ok());
        lemma_candidate(f, taken, ps[n - 1]);
    }
}

pub proof fn lemma_picked(f: Field, taken: Set<(int, int)>, rounds: nat)
    requires
        searchable(f),
    ensures
        picked(f, taken, rounds).len() <= rounds,
        forall|i: int|
            0 <= i < picked(f, taken, rounds).len() ==> run_ok(
                f,
                taken,
                #[trigger] picked(f, taken, rounds)[i],
            ),
        apart(picked(f, taken, rounds)),
    decreases rounds,
{
    let best = best_of(f, taken, period_order(), period_order().len());
    if rounds > 0 && best is Some {
        lemma_period_order_ok();
        lemma_best(f, taken, period_order(), period_order().len());
        let c = best->0;
        let after = taken.union(rect_cells(c.patch.rect));
        if c.inked >= MIN_SQUARES {
            let rest = picked(f, after, (rounds - 1) as nat);
            lemma_picked(f, after, (rounds - 1) as nat);
            let all = picked(f, taken, rounds);
            assert(all =~= seq![c.patch] + rest);
            assert(run_ok(f, taken, c.patch));
            assert forall|i: int| 0 <= i < all.len() implies run_ok(
                f,
                taken,
                #[trigger] all[i],
            ) by {
                if i > 0 {
                    assert(all[i] == rest[i - 1]);
                    assert(run_ok(f, after, rest[i - 1]));
                    assert forall|x: int, y: int| all[i].rect.holds(x, y) implies !(
                    #[trigger] taken.contains((x, y))) by {
                        assert(!after.contains((x, y)));
                    }
                }
            }
            assert forall|i: int, j: int, x: int, y: int|
                #![trigger all[i].rect.holds(x, y), all[j].rect.holds(x, y)]
                0 <= i < all.len() && 0 <= j < all.len() && i != j && all[i].rect.holds(
                    x,
                    y,
                ) implies !all[j].rect.holds(x, y) by {
                if i > 0 && j > 0 {
                    assert(all[i] == rest[i - 1] && all[j] == rest[j - 1]);
                    assert(rest[i - 1].rect.holds(x, y));
                    if all[j].rect.holds(x, y) {
                        assert(rest[j - 1].rect.holds(x, y));
                    }
                } else {
                    let o = if i > 0 {
                        i
                    } else {
                        j
                    };
                    assert(all[o] == rest[o - 1]);
                    assert(run_ok(f, after, rest[o - 1]));
                    if c.patch.rect.holds(x, y) {
                        assert(rect_cells(c.patch.rect).contains((x, y)));
                        assert(after.contains((x, y)));
                    }
                }
            }
        }
    }
}

/// Every run repeats its tile over free cells and holds enough squares, no
/// two runs share a cell, and none holds fewer squares than a later one.
pub proof fn lemma_chosen(f: Field, taken: Set<(int, int)>, rounds: nat)
    requires
        searchable(f),
    ensures
        chosen(f, taken, rounds).len() <= rounds,
        forall|i: int|
            0 <= i < chosen(f, taken, rounds).len() ==> run_ok(
                f,
                taken,
                #[trigger] chosen(f, taken, rounds)[i],
            ),
        apart(chosen(f, taken, rounds)),
        falling(f, chosen(f, taken, rounds)),
{
    lemma_picked(f, taken, rounds);
    let list = picked(f, taken, rounds);
    lemma_by_squares(f, list);
    assert forall|i: int| 0 <= i < chosen(f, taken, rounds).len() implies run_ok(
        f,
        taken,
        #[trigger] chosen(f, taken, rounds)[i],
    ) by {
        assert(list.contains(by_squares(f, list)[i]));
        let k = choose|k: int| 0 <= k < list.len() && list[k] == by_squares(f, list)[i];
        assert(run_ok(f, taken, list[k]));
    }
}

impl Grid {
    /// The first candidate with the most squares, over every tile size.
    fn best_candidate(&self, list: &Vec<Period>) -> (best: Option<Candidate>)
        requires
            self.wf(),
            list@ == period_order(),
        ensures
            best == best_of(self@, self.taken_cells(), period_order(), period_order().len()),
    {
        let ghost f = self@;
        let ghost t = self.taken_cells();
        proof {
            self.lemma_small();
            lemma_period_order_ok();
        }
        let mut best: Option<Candidate> = None;
        let mut k: usize = 0;
        while k < list.len()
            invariant
                k <= list@.len(),
                self.wf(),
                searchable(f),
                f == self@,
                t == self.taken_cells(),
                list@ == period_order(),
                forall|i: int| 0 <= i < list@.len() ==> (#[trigger] list@[i]).ok(),
                best == best_of(f, t, period_order(), k as nat),
            decreases list@.len() - k,
        {
            let p: Period = list[k];
            proof {
                lemma_candidate(f, t, p);
                lemma_best(f, t, period_order(), k as nat);
            }
            if p.x * MIN_TILES <= self.w && p.y * MIN_TILES <= self.h {
                if let Some(r) = self.largest(p) {
                    proof {
                        crate::grid::lemma_tiled_is_periodic(f, t, p, r);
                    }
                    let rect: Rect = self.grown(r, p);
                    let inked: u32 = self.count(rect.x0, rect.y0, rect.x1, rect.y1);
                    let area: usize = (rect.x1 - rect.x0) * (rect.y1 - rect.y0);
                    let more = match best {
                        None => true,
                        Some(b) => inked > b.inked,
                    };
                    if (inked as usize) < area && more {
                        best = Some(Candidate { inked, patch: Patch { rect, period: p } });
                    }
                }
            }
            k = k + 1;
        }
        best
    }

    /// Gives the cells of `rect` to a run.
    fn take(&mut self, rect: Rect)
        requires
            old(self).wf(),
            rect.on(old(self)@),
        ensures
            final(self).wf(),
            final(self)@ == old(self)@,
            final(self).w == old(self).w,
            final(self).h == old(self).h,
            final(self).taken_cells() == old(self).taken_cells().union(rect_cells(rect)),
    {
        let ghost was = self.taken@;
        let mut y: usize = rect.y0;
        while y < rect.y1
            invariant
                rect.on(old(self)@),
                rect.y0 <= y <= rect.y1,
                self.w == old(self).w,
                self.h == old(self).h,
                self.ink == old(self).ink,
                self.sums == old(self).sums,
                old(self).wf(),
                was == old(self).taken@,
                crate::grid::shaped(self.taken@, self.w as int, self.h as int),
                forall|i: int, j: int|
                    0 <= i < self.w && 0 <= j < self.h ==> #[trigger] self.taken@[j]@[i] == (
                    was[j]@[i] || rect.holds(i, j) && j < y),
            decreases rect.y1 - y,
        {
            let mut x: usize = rect.x0;
            while x < rect.x1
                invariant
                    rect.on(old(self)@),
                    rect.y0 <= y < rect.y1,
                    rect.x0 <= x <= rect.x1,
                    self.w == old(self).w,
                    self.h == old(self).h,
                    self.ink == old(self).ink,
                    self.sums == old(self).sums,
                    old(self).wf(),
                    was == old(self).taken@,
                    crate::grid::shaped(self.taken@, self.w as int, self.h as int),
                    forall|i: int, j: int|
                        0 <= i < self.w && 0 <= j < self.h ==> #[trigger] self.taken@[j]@[i] == (
                        was[j]@[i] || rect.holds(i, j) && (j < y || j == y && i < x)),
                decreases rect.x1 - x,
            {
                self.taken[y][x] = true;
                x = x + 1;
            }
            y = y + 1;
        }
        assert(self@ == old(self)@);
        assert(self.taken_cells() =~= old(self).taken_cells().union(rect_cells(rect)));
    }

    /// Puts `patch` behind every rectangle of `list` with at least as many
    /// squares.
    fn put(&self, list: &mut Vec<Patch>, patch: Patch)
        requires
            self.wf(),
            falling(self@, old(list)@),
        ensures
            final(list)@ == old(list)@.insert(place(self@, old(list)@, patch), patch),
    {
        let ghost f = self@;
        let ghost was = list@;
        let r: Rect = patch.rect;
        let inked: u32 = self.count(r.x0, r.y0, r.x1, r.y1);
        let mut at: usize = list.len();
        assert(was.take(at as int) =~= was);
        while at > 0
            invariant_except_break
                place(f, was, patch) == place(f, was.take(at as int), patch),
            invariant
                self.wf(),
                f == self@,
                was == list@,
                at <= was.len(),
                inked == patch.rect.inked(f),
            ensures
                place(f, was, patch) == at,
            decreases at,
        {
            let q: Rect = list[at - 1].rect;
            let head: u32 = self.count(q.x0, q.y0, q.x1, q.y1);
            let ghost front = was.take(at as int);
            assert(front.last() == was[at - 1]);
            if head >= inked {
                break;
            }
            assert(front.drop_last() =~= was.take(at - 1));
            at = at - 1;
        }
        list.insert(at, patch);
    }

    /// Runs, most squares first: each round takes, over every tile size, the
    /// largest rectangle that repeats its tile and is not yet taken.
    pub fn runs(&mut self) -> (list: Vec<Patch>)
        requires
            old(self).wf(),
        ensures
            final(self).wf(),
            final(self)@ == old(self)@,
            list@ == chosen(old(self)@, old(self).taken_cells(), MAX_RUNS as nat),
            falling(old(self)@, list@),
            apart(list@),
            forall|i: int|
                0 <= i < list@.len() ==> run_ok(
                    old(self)@,
                    old(self).taken_cells(),
                    #[trigger] list@[i],
                ),
    {
        let ghost f = self@;
        let ghost all = picked(f, self.taken_cells(), MAX_RUNS as nat);
        let ghost mut done: Seq<Patch> = Seq::empty();
        let sizes = periods();
        let mut list: Vec<Patch> = Vec::new();
        let mut round: usize = 0;
        proof {
            self.lemma_small();
            lemma_period_order_ok();
            lemma_chosen(f, self.taken_cells(), MAX_RUNS as nat);
            lemma_picked(f, self.taken_cells(), MAX_RUNS as nat);
            assert(done + all =~= all);
        }
        while round < MAX_RUNS
            invariant_except_break
                done + picked(f, self.taken_cells(), (MAX_RUNS - round) as nat) == all,
            invariant
                round <= MAX_RUNS,
                self.wf(),
                searchable(f),
                self@ == f,
                apart(all),
                sizes@ == period_order(),
                forall|i: int| 0 <= i < period_order().len() ==> (#[trigger] period_order()[i]).ok(),
                list@ == by_squares(f, done),
            ensures
                done == all,
            decreases MAX_RUNS - round,
        {
            let ghost t = self.taken_cells();
            proof {
                lemma_best(f, t, period_order(), period_order().len());
            }
            match self.best_candidate(&sizes) {
                None => {
                    assert(done + Seq::<Patch>::empty() =~= done);
                    break;
                },
                Some(c) => {
                    if (c.inked as usize) < MIN_SQUARES || !self.repeats(
                        c.patch.rect,
                        c.patch.period,
                    ) {
                        assert(done + Seq::<Patch>::empty() =~= done);
                        break;
                    }
                    self.take(c.patch.rect);
                    proof {
                        lemma_part_apart(all, done.len() as int);
                        assert(all.take(done.len() as int) =~= done);
                        lemma_by_squares(f, done);
                    }
                    self.put(&mut list, c.patch);
                    proof {
                        let rest = picked(f, self.taken_cells(), (MAX_RUNS - round - 1) as nat);
                        let next = done.push(c.patch);
                        assert(done + (seq![c.patch] + rest) =~= next + rest);
                        assert(next.drop_last() =~= done);
                        done = next;
                    }
                },
            }
            round = round + 1;
            assert(round == MAX_RUNS ==> done + Seq::<Patch>::empty() =~= done);
        }
        list
    }
}

proof fn lemma_part_apart(list: Seq<Patch>, n: int)
    requires
        apart(list),
        0 <= n <= list.len(),
    ensures
        apart(list.take(n)),
{
    let part = list.take(n);
    assert forall|i: int, j: int, x: int, y: int|
        #![trigger part[i].rect.holds(x, y), part[j].rect.holds(x, y)]
        0 <= i < part.len() && 0 <= j < part.len() && i != j && part[i].rect.holds(
            x,
            y,
        ) implies !part[j].rect.holds(x, y) by {
        assert(list[i].rect.holds(x, y));
        if part[j].rect.holds(x, y) {
            assert(list[j].rect.holds(x, y));
        }
    }
}

} // verus!
