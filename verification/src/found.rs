//! What is found of the repeating areas of a grid: whatever repeats is found,
//! as far as it repeats, and what holds the most squares comes first.
use crate::field::Field;
use crate::grid::{
    fits, grow_round, grown_from, is_largest, largest_tiled, leads, lemma_grown,
    lemma_largest_unique, lemma_tiled_is_periodic, periodic, tiled, Period, Rect, MAX_PERIOD,
    MAX_RUNS,
};
use crate::tiling::{
    best_of, by_squares, candidate, chosen, lemma_best, lemma_by_squares, lemma_candidate,
    lemma_period_order_ok, lemma_picked, period_order, periods_from, picked, rect_cells,
    searchable, Patch,
};
use vstd::prelude::*;

verus! {

/// The inked cells of columns `x0` to `x1` and rows `y0` to `y1`, the last of
/// each not among them.
pub open spec fn window_ink(f: Field, x0: int, y0: int, x1: int, y1: int) -> Set<(int, int)> {
    Set::new(|c: (int, int)| x0 <= c.0 < x1 && y0 <= c.1 < y1 && f.ink.contains(c))
}

proof fn lemma_row_counts(f: Field, y: int, x0: int, x1: int)
    ensures
        window_ink(f, x0, y, x1, y + 1).finite(),
        f.row_count(y, x0, x1) == window_ink(f, x0, y, x1, y + 1).len(),
    decreases x1 - x0,
{
    let now = window_ink(f, x0, y, x1, y + 1);
    if x1 <= x0 {
        assert(now =~= Set::empty());
    } else {
        lemma_row_counts(f, y, x0, x1 - 1);
        let before = window_ink(f, x0, y, x1 - 1, y + 1);
        if f.inked(x1 - 1, y) {
            assert(now =~= before.insert((x1 - 1, y)));
        } else {
            assert(now =~= before);
        }
    }
}

/// The count of a window is how many of its cells are inked.
pub proof fn law_a_window_counts_its_ink(f: Field, x0: int, y0: int, x1: int, y1: int)
    ensures
        window_ink(f, x0, y0, x1, y1).finite(),
        f.count(x0, y0, x1, y1) == window_ink(f, x0, y0, x1, y1).len(),
    decreases y1 - y0,
{
    let now = window_ink(f, x0, y0, x1, y1);
    if y1 <= y0 {
        assert(now =~= Set::empty());
    } else {
        law_a_window_counts_its_ink(f, x0, y0, x1, y1 - 1);
        lemma_row_counts(f, y1 - 1, x0, x1);
        let (a, b) = (window_ink(f, x0, y0, x1, y1 - 1), window_ink(f, x0, y1 - 1, x1, y1));
        assert(now =~= a.union(b));
        assert(a.disjoint(b));
        vstd::set_lib::lemma_set_disjoint_lens(a, b);
    }
}

/// `a` is tried before `b`: it has fewer cells, or as many and is narrower.
pub open spec fn tried_before(a: Period, b: Period) -> bool {
    a.x * a.y < b.x * b.y || a.x * a.y == b.x * b.y && a.x < b.x
}

/// The size is reached from `product` cells and `px` columns on.
spec fn reached(p: Period, product: nat, px: nat) -> bool {
    &&& 1 <= p.x <= 8
    &&& 1 <= p.y <= 8
    &&& p.x * p.y > product || p.x * p.y == product && p.x >= px
}

proof fn lemma_periods_from(product: nat, px: nat)
    requires
        product >= 2,
        px >= 1,
    ensures
        forall|p: Period| #[trigger]
            periods_from(product, px).contains(p) <==> reached(p, product, px),
        forall|i: int, j: int|
            0 <= i < j < periods_from(product, px).len() ==> tried_before(
                #[trigger] periods_from(product, px)[i],
                #[trigger] periods_from(product, px)[j],
            ),
    decreases MAX_PERIOD * MAX_PERIOD + 1 - product, MAX_PERIOD + 1 - px,
{
    let all = periods_from(product, px);
    if product > MAX_PERIOD * MAX_PERIOD {
        assert(all =~= Seq::empty());
        assert forall|p: Period| #[trigger] all.contains(p) <==> reached(p, product, px) by {
            lemma_product(p);
        }
    } else if px > MAX_PERIOD {
        lemma_periods_from(product + 1, 1);
        assert(all == periods_from(product + 1, 1));
        assert forall|p: Period| #[trigger] all.contains(p) <==> reached(p, product, px) by {
            assert(reached(p, product, px) <==> reached(p, product + 1, 1));
        }
    } else {
        let rest = periods_from(product, px + 1);
        lemma_periods_from(product, px + 1);
        let q = product / px;
        vstd::arithmetic::div_mod::lemma_fundamental_div_mod(product as int, px as int);
        if product % px == 0 && product / px <= MAX_PERIOD {
            let first = Period { x: px as usize, y: q as usize };
            assert(all == seq![first] + rest);
            assert(first.x * first.y == product);
            assert(first.y >= 1) by (nonlinear_arith)
                requires
                    first.x * first.y == product,
                    product >= 2,
            ;
            assert forall|p: Period| #[trigger] all.contains(p) <==> reached(p, product, px) by {
                if p == first {
                    assert(all[0] == p);
                } else {
                    if all.contains(p) {
                        let k = choose|k: int| 0 <= k < all.len() && all[k] == p;
                        assert(rest[k - 1] == p);
                        assert(rest.contains(p));
                    }
                    if reached(p, product, px) {
                        if p.x * p.y == product && p.x == px {
                            assert(p.y == q) by (nonlinear_arith)
                                requires
                                    px * p.y == product,
                                    px * q == product,
                                    px >= 1,
                            ;
                        }
                        assert(rest.contains(p));
                        let k = choose|k: int| 0 <= k < rest.len() && rest[k] == p;
                        assert(all[k + 1] == p);
                    }
                }
            }
            assert forall|i: int, j: int| 0 <= i < j < all.len() implies tried_before(
                #[trigger] all[i],
                #[trigger] all[j],
            ) by {
                assert(all[j] == rest[j - 1]);
                assert(rest.contains(rest[j - 1]));
                if i > 0 {
                    assert(all[i] == rest[i - 1]);
                }
            }
        } else {
            assert(all == rest);
            assert forall|p: Period| #[trigger] all.contains(p) <==> reached(p, product, px) by {
                if reached(p, product, px) && p.x * p.y == product && p.x == px {
                    assert(p.y * px == product) by (nonlinear_arith)
                        requires
                            p.x * p.y == product,
                            p.x == px,
                    ;
                    vstd::arithmetic::div_mod::lemma_fundamental_div_mod_converse(
                        product as int,
                        px as int,
                        p.y as int,
                        0,
                    );
                }
            }
        }
    }
}

proof fn lemma_product(p: Period)
    ensures
        1 <= p.x <= 8 && 1 <= p.y <= 8 ==> 1 <= p.x * p.y <= 64,
{
    if 1 <= p.x <= 8 && 1 <= p.y <= 8 {
        assert(1 <= p.x * p.y <= 64) by (nonlinear_arith)
            requires
                1 <= p.x <= 8,
                1 <= p.y <= 8,
        ;
    }
}

/// The tile sizes that are tried: every one from one to eight cells each way
/// but the single cell, each once, those with fewer cells first and of as many
/// the narrower.
pub proof fn law_every_tile_size_is_tried(p: Period)
    ensures
        period_order().contains(p) <==> (1 <= p.x <= 8 && 1 <= p.y <= 8 && !(p.x == 1 && p.y
            == 1)),
        forall|i: int, j: int|
            0 <= i < j < period_order().len() ==> tried_before(
                #[trigger] period_order()[i],
                #[trigger] period_order()[j],
            ),
{
    lemma_periods_from(2, 1);
    lemma_product(p);
    assert(periods_from(2, 1).contains(p) <==> reached(p, 2, 1));
    if p.x == 1 && p.y == 1 {
        assert(p.x * p.y == 1) by (nonlinear_arith)
            requires
                p.x == 1,
                p.y == 1,
        ;
    }
    if 1 <= p.x <= 8 && 1 <= p.y <= 8 && p.x * p.y == 1 {
        assert(p.x == 1 && p.y == 1) by (nonlinear_arith)
            requires
                p.x >= 1,
                p.y >= 1,
                p.x * p.y == 1,
        ;
    }
}

/// The cell goes on repeating a tile: it is free, as the ones a tile to its
/// right and a tile below it are inked or blank, and the tile from it on holds
/// ink.
pub open spec fn goes_on(f: Field, taken: Set<(int, int)>, p: Period, x: int, y: int) -> bool {
    &&& !taken.contains((x, y))
    &&& f.ink.contains((x, y)) <==> f.ink.contains((x + p.x, y))
    &&& f.ink.contains((x, y)) <==> f.ink.contains((x, y + p.y))
    &&& exists|i: int, j: int|
        x <= i < x + p.x && y <= j < y + p.y && #[trigger] f.ink.contains((i, j))
}

/// Every cell of the rectangle, two tiles each way at least, goes on repeating.
pub open spec fn repeats_over(f: Field, taken: Set<(int, int)>, p: Period, r: Rect) -> bool {
    &&& r.x0 <= r.x1 <= f.w
    &&& r.y0 <= r.y1 <= f.h
    &&& r.x1 - r.x0 >= 2 * p.x
    &&& r.y1 - r.y0 >= 2 * p.y
    &&& forall|x: int, y: int|
        r.x0 <= x < r.x1 && r.y0 <= y < r.y1 ==> #[trigger] goes_on(f, taken, p, x, y)
}

proof fn lemma_repeats_is_tiled(f: Field, taken: Set<(int, int)>, p: Period, r: Rect)
    requires
        repeats_over(f, taken, p, r),
    ensures
        tiled(f, taken, p, r),
{
    reveal(fits);
    assert forall|x: int, y: int| r.holds(x, y) implies #[trigger] fits(f, taken, p, x, y) by {
        assert(goes_on(f, taken, p, x, y));
        let (i, j) = choose|i: int, j: int|
            x <= i < x + p.x && y <= j < y + p.y && #[trigger] f.ink.contains((i, j));
        let ink = window_ink(f, x, y, x + p.x, y + p.y);
        law_a_window_counts_its_ink(f, x, y, x + p.x, y + p.y);
        assert(ink.contains((i, j)));
        vstd::set_lib::lemma_set_empty_equivalency_len(ink);
    }
}

/// Of the tiled rectangles one leads all others.
proof fn lemma_one_leads(f: Field, taken: Set<(int, int)>, p: Period, r: Rect) -> (best: Rect)
    requires
        tiled(f, taken, p, r),
        p.ok(),
        0 <= f.w,
        0 <= f.h,
    ensures
        is_largest(f, taken, p, best),
        best.area() >= r.area(),
    decreases f.w * f.h - r.area(), r.y1, r.x1, f.h - r.height(),
{
    if is_largest(f, taken, p, r) {
        r
    } else {
        let o = choose|o: Rect| tiled(f, taken, p, o) && !(#[trigger] leads(r, o));
        assert(o.area() <= f.w * f.h && r.area() <= f.w * f.h) by {
            let (a, b, c, d) = (o.width(), o.height(), r.width(), r.height());
            assert(a * b <= f.w * f.h && c * d <= f.w * f.h) by (nonlinear_arith)
                requires
                    0 <= a <= f.w,
                    0 <= b <= f.h,
                    0 <= c <= f.w,
                    0 <= d <= f.h,
            ;
        }
        lemma_one_leads(f, taken, p, o)
    }
}

/// Cell `a` is taken, or unlike cell `b`.
pub open spec fn unlike(f: Field, taken: Set<(int, int)>, a: (int, int), b: (int, int)) -> bool {
    taken.contains(a) || f.ink.contains(a) != f.ink.contains(b)
}

/// The side of the rectangle can move no further: the column `x` behind it is
/// off the grid, or has a cell that is taken or unlike the one in column
/// `from`, a tile inside.
pub open spec fn column_stops(f: Field, taken: Set<(int, int)>, r: Rect, x: int, from: int) -> bool {
    ||| x < 0
    ||| x >= f.w
    ||| exists|y: int|
        r.y0 <= y < r.y1 && #[trigger] unlike(f, taken, (x, y), (from, y))
}

pub open spec fn row_stops(f: Field, taken: Set<(int, int)>, r: Rect, y: int, from: int) -> bool {
    ||| y < 0
    ||| y >= f.h
    ||| exists|x: int|
        r.x0 <= x < r.x1 && #[trigger] unlike(f, taken, (x, y), (x, from))
}

proof fn lemma_stuck(f: Field, taken: Set<(int, int)>, p: Period, r: Rect)
    requires
        grow_round(f, taken, p, r) == r,
        r.on(f),
        f.w <= usize::MAX,
        f.h <= usize::MAX,
    ensures
        column_stops(f, taken, r, r.x1 as int, r.x1 - p.x),
        column_stops(f, taken, r, r.x0 - 1, r.x0 - 1 + p.x),
        row_stops(f, taken, r, r.y1 as int, r.y1 - p.y),
        row_stops(f, taken, r, r.y0 - 1, r.y0 - 1 + p.y),
{
    let right = crate::grid::grow_right(f, taken, p, r);
    let down = crate::grid::grow_down(f, taken, p, right);
    let left = crate::grid::grow_left(f, taken, p, down);
    assert(right == r && down == r && left == r);
    if r.x1 < f.w {
        let y = choose|y: int|
            r.y0 <= y < r.y1 && !(#[trigger] crate::grid::cell_matches(
                f,
                taken,
                r.x1 as int,
                y,
                r.x1 - p.x,
                y,
            ));
        assert(unlike(f, taken, (r.x1 as int, y), (r.x1 - p.x, y)));
    }
    if r.x0 > 0 {
        let y = choose|y: int|
            r.y0 <= y < r.y1 && !(#[trigger] crate::grid::cell_matches(
                f,
                taken,
                r.x0 - 1,
                y,
                r.x0 - 1 + p.x,
                y,
            ));
        assert(unlike(f, taken, (r.x0 - 1, y), (r.x0 - 1 + p.x, y)));
    }
    if r.y1 < f.h {
        let x = choose|x: int|
            r.x0 <= x < r.x1 && !(#[trigger] crate::grid::cell_matches(
                f,
                taken,
                x,
                r.y1 as int,
                x,
                r.y1 - p.y,
            ));
        assert(unlike(f, taken, (x, r.y1 as int), (x, r.y1 - p.y)));
    }
    if r.y0 > 0 {
        let x = choose|x: int|
            r.x0 <= x < r.x1 && !(#[trigger] crate::grid::cell_matches(
                f,
                taken,
                x,
                r.y0 - 1,
                x,
                r.y0 - 1 + p.y,
            ));
        assert(unlike(f, taken, (x, r.y0 - 1), (x, r.y0 - 1 + p.y)));
    }
}

/// Where a tile repeats, a rectangle is found for it: no smaller than any that
/// repeats, on free cells alone, repeating throughout, and with every side
/// where the repetition stops.
pub proof fn law_what_repeats_is_found(f: Field, taken: Set<(int, int)>, p: Period, o: Rect)
    requires
        searchable(f),
        p.ok(),
        repeats_over(f, taken, p, o),
    ensures
        candidate(f, taken, p) is Some,
        ({
            let r = candidate(f, taken, p)->0;
            &&& r.area() >= o.area()
            &&& periodic(f, taken, p, r)
            &&& column_stops(f, taken, r, r.x1 as int, r.x1 - p.x)
            &&& column_stops(f, taken, r, r.x0 - 1, r.x0 - 1 + p.x)
            &&& row_stops(f, taken, r, r.y1 as int, r.y1 - p.y)
            &&& row_stops(f, taken, r, r.y0 - 1, r.y0 - 1 + p.y)
        }),
{
    lemma_repeats_is_tiled(f, taken, p, o);
    let best = lemma_one_leads(f, taken, p, o);
    let found = largest_tiled(f, taken, p)->0;
    assert(is_largest(f, taken, p, found));
    lemma_largest_unique(f, taken, p, best, found);
    let (w, h) = (f.w, f.h);
    assert(w <= w * h && h <= w * h) by (nonlinear_arith)
        requires
            w >= 1,
            h >= 1,
    ;
    lemma_tiled_is_periodic(f, taken, p, found);
    lemma_grown(f, taken, p, found);
    let r = grown_from(f, taken, p, found);
    lemma_stuck(f, taken, p, r);
    assert(r.area() >= found.area()) by {
        assert(found.width() >= 1 && found.height() >= 1);
        assert(found.holds(found.x0 as int, found.y0 as int));
        assert(found.holds(found.x1 - 1, found.y1 - 1));
        assert(r.holds(found.x0 as int, found.y0 as int));
        assert(r.holds(found.x1 - 1, found.y1 - 1));
        let (a, b, c, d) = (r.width(), r.height(), found.width(), found.height());
        assert(a * b >= c * d) by (nonlinear_arith)
            requires
                a >= c >= 0,
                b >= d >= 0,
        ;
    }
}

proof fn lemma_best_most(f: Field, taken: Set<(int, int)>, ps: Seq<Period>, n: nat, k: int)
    requires
        searchable(f),
        0 <= k < n <= ps.len(),
        forall|i: int| 0 <= i < ps.len() ==> (#[trigger] ps[i]).ok(),
        candidate(f, taken, ps[k]) matches Some(rect) && rect.inked(f) < rect.area(),
    ensures
        best_of(f, taken, ps, n) is Some,
        best_of(f, taken, ps, n)->0.patch.rect.inked(f) >= candidate(f, taken, ps[k])->0.inked(f),
    decreases n,
{
    let m = (n - 1) as nat;
    lemma_best(f, taken, ps, n);
    lemma_best(f, taken, ps, m);
    lemma_candidate(f, taken, ps[n - 1]);
    if k < m {
        lemma_best_most(f, taken, ps, m, k);
    }
}

/// The run with the most squares holds no fewer than any that is found for a
/// tile size by itself: where one of them has 16 squares at least and a blank
/// cell, there is a run, and the first of the runs has as many squares or more.
pub proof fn law_the_first_run_has_the_most_squares(f: Field, p: Period)
    requires
        searchable(f),
        1 <= p.x <= 8,
        1 <= p.y <= 8,
        !(p.x == 1 && p.y == 1),
        candidate(f, Set::empty(), p) matches Some(rect) && 16 <= rect.inked(f) < rect.area(),
    ensures
        chosen(f, Set::empty(), MAX_RUNS as nat).len() > 0,
        chosen(f, Set::empty(), MAX_RUNS as nat)[0].rect.inked(f) >= candidate(
            f,
            Set::empty(),
            p,
        )->0.inked(f),
{
    let none = Set::<(int, int)>::empty();
    let ps = period_order();
    law_every_tile_size_is_tried(p);
    lemma_period_order_ok();
    let k = choose|k: int| 0 <= k < ps.len() && ps[k] == p;
    lemma_best_most(f, none, ps, ps.len(), k);
    lemma_best(f, none, ps, ps.len());
    let list = picked(f, none, MAX_RUNS as nat);
    lemma_picked(f, none, MAX_RUNS as nat);
    assert(list.len() > 0);
    assert(list[0] == best_of(f, none, ps, ps.len())->0.patch);
    lemma_by_squares(f, list);
    let all = by_squares(f, list);
    assert(all.contains(list[0]));
    let i = choose|i: int| 0 <= i < all.len() && all[i] == list[0];
    assert(all[0].rect.inked(f) >= all[i].rect.inked(f));
}

/// The cells that the runs of `list` take.
pub open spec fn cells_of(list: Seq<Patch>) -> Set<(int, int)> {
    Set::new(|c: (int, int)| exists|k: int|
        0 <= k < list.len() && (#[trigger] list[k]).rect.holds(c.0, c.1))
}

proof fn lemma_nothing_left(f: Field, taken: Set<(int, int)>, rounds: nat, p: Period)
    requires
        searchable(f),
        period_order().contains(p),
        picked(f, taken, rounds).len() < rounds,
    ensures
        ({
            let left = taken.union(cells_of(picked(f, taken, rounds)));
            candidate(f, left, p) matches Some(rect) ==> rect.inked(f) < 16 || rect.inked(f)
                == rect.area()
        }),
    decreases rounds,
{
    let ps = period_order();
    let list = picked(f, taken, rounds);
    let best = best_of(f, taken, ps, ps.len());
    lemma_period_order_ok();
    lemma_best(f, taken, ps, ps.len());
    if list.len() == 0 {
        let left = taken.union(cells_of(list));
        assert(left =~= taken);
        let k = choose|k: int| 0 <= k < ps.len() && ps[k] == p;
        lemma_candidate(f, taken, p);
        if let Some(rect) = candidate(f, taken, p) {
            if rect.inked(f) < rect.area() {
                lemma_best_most(f, taken, ps, ps.len(), k);
            }
        }
    } else {
        let c = best->0;
        let after = taken.union(rect_cells(c.patch.rect));
        let rest = picked(f, after, (rounds - 1) as nat);
        assert(list == seq![c.patch] + rest);
        lemma_nothing_left(f, after, (rounds - 1) as nat, p);
        let (a, b) = (taken.union(cells_of(list)), after.union(cells_of(rest)));
        assert forall|s: (int, int)| #[trigger] a.contains(s) <==> b.contains(s) by {
            if cells_of(list).contains(s) {
                let k = choose|k: int|
                    0 <= k < list.len() && (#[trigger] list[k]).rect.holds(s.0, s.1);
                if k > 0 {
                    assert(rest[k - 1].rect.holds(s.0, s.1));
                }
            }
            if cells_of(rest).contains(s) {
                let k = choose|k: int|
                    0 <= k < rest.len() && (#[trigger] rest[k]).rect.holds(s.0, s.1);
                assert(list[k + 1].rect.holds(s.0, s.1));
            }
            if c.patch.rect.holds(s.0, s.1) {
                assert(list[0].rect.holds(s.0, s.1));
            }
        }
        assert(a =~= b);
    }
}

/// Fewer runs than are searched for leave nothing behind: on the cells that no
/// run took, no tile size has a rectangle with 16 squares and a blank cell.
pub proof fn law_no_run_is_left_behind(f: Field, p: Period)
    requires
        searchable(f),
        1 <= p.x <= 8,
        1 <= p.y <= 8,
        !(p.x == 1 && p.y == 1),
        chosen(f, Set::empty(), MAX_RUNS as nat).len() < 256,
    ensures
        candidate(f, cells_of(chosen(f, Set::empty(), MAX_RUNS as nat)), p) matches Some(rect)
            ==> rect.inked(f) < 16 || rect.inked(f) == rect.area(),
{
    let none = Set::<(int, int)>::empty();
    law_every_tile_size_is_tried(p);
    let list = picked(f, none, MAX_RUNS as nat);
    lemma_picked(f, none, MAX_RUNS as nat);
    lemma_by_squares(f, list);
    let all = by_squares(f, list);
    lemma_nothing_left(f, none, MAX_RUNS as nat, p);
    let (a, b) = (none.union(cells_of(list)), cells_of(all));
    assert forall|s: (int, int)| #[trigger] a.contains(s) <==> b.contains(s) by {
        if cells_of(list).contains(s) {
            let k = choose|k: int|
                0 <= k < list.len() && (#[trigger] list[k]).rect.holds(s.0, s.1);
            assert(all.contains(list[k]));
            let i = choose|i: int| 0 <= i < all.len() && all[i] == list[k];
            assert(all[i].rect.holds(s.0, s.1));
        }
        if b.contains(s) {
            let k = choose|k: int| 0 <= k < all.len() && (#[trigger] all[k]).rect.holds(s.0, s.1);
            assert(list.contains(all[k]));
            let i = choose|i: int| 0 <= i < list.len() && list[i] == all[k];
            assert(list[i].rect.holds(s.0, s.1));
        }
    }
    assert(a =~= b);
}

} // verus!
