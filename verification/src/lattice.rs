//! Squares of one size on the lattice of their side: which cell each lies on,
//! and the grid those cells make.
use crate::dither::Square;
use crate::field::Field;
use crate::geometry::{least, lemma_extremes, most, REACH};
use crate::grid::{shaped, Grid, MAX_GRID};
use crate::tiling::searchable;
use vstd::prelude::*;

verus! {

/// The cell of side `side` that starts within a millionth of a side of `v`.
pub open spec fn cell_of(v: int, side: int) -> Option<int> {
    if (v % side) * 1_000_000 < side {
        Some(v / side)
    } else if (side - v % side) * 1_000_000 < side {
        Some(v / side + 1)
    } else {
        None
    }
}

/// A square's cell and its place in the list of squares.
#[derive(Clone, Copy, Debug, PartialEq, Eq, Structural)]
pub struct Spot {
    pub cx: i64,
    pub cy: i64,
    pub index: usize,
}

/// The cell square `i` lies on, when its side is `side` and it lies on one.
pub open spec fn spot_of(squares: Seq<Square>, side: int, i: int) -> Option<Spot> {
    let s = squares[i];
    match (cell_of(s.x as int, side), cell_of(s.y as int, side)) {
        (Some(cx), Some(cy)) => if s.side == side {
            Some(Spot { cx: cx as i64, cy: cy as i64, index: i as usize })
        } else {
            None
        },
        _ => None,
    }
}

/// The spots of the first `n` squares, in their order.
pub open spec fn spots(squares: Seq<Square>, side: int, n: nat) -> Seq<Spot>
    decreases n,
{
    if n == 0 {
        Seq::empty()
    } else {
        let before = spots(squares, side, (n - 1) as nat);
        match spot_of(squares, side, n - 1) {
            Some(spot) => before.push(spot),
            None => before,
        }
    }
}

pub open spec fn columns(g: Seq<Spot>) -> Seq<int> {
    g.map_values(|s: Spot| s.cx as int)
}

pub open spec fn rows(g: Seq<Spot>) -> Seq<int> {
    g.map_values(|s: Spot| s.cy as int)
}

/// Whether one of `g` lies on cell `(cx, cy)`.
pub open spec fn any_on(g: Seq<Spot>, cx: int, cy: int) -> bool {
    exists|k: int| 0 <= k < g.len() && (#[trigger] g[k]).cx == cx && g[k].cy == cy
}

/// The cells of `g`, counted from the corner of the rectangle that bounds
/// them.
pub open spec fn layout(g: Seq<Spot>) -> Field {
    Field {
        w: most(columns(g)) - least(columns(g)) + 1,
        h: most(rows(g)) - least(rows(g)) + 1,
        ink: Set::new(
            |c: (int, int)| any_on(g, least(columns(g)) + c.0, least(rows(g)) + c.1),
        ),
    }
}

/// The first of the first `n` of `g` on cell `(cx, cy)`, as its square's
/// place. A second square on the same cell is not it.
pub open spec fn first_on(g: Seq<Spot>, n: nat, cx: int, cy: int) -> Option<usize>
    decreases n,
{
    if n == 0 {
        None
    } else {
        match first_on(g, (n - 1) as nat, cx, cy) {
            Some(i) => Some(i),
            None => if g[n - 1].cx == cx && g[n - 1].cy == cy {
                Some(g[n - 1].index)
            } else {
                None
            },
        }
    }
}

pub open spec fn squares_ok(squares: Seq<Square>) -> bool {
    forall|i: int| 0 <= i < squares.len() ==> (#[trigger] squares[i]).ok()
}

/// A cell within reach of a coordinate of the page.
pub open spec fn cell_in_reach(c: int) -> bool {
    -REACH - 1 <= c <= REACH + 1
}

proof fn lemma_quotient(v: int, side: int)
    requires
        side > 0,
        -REACH <= v <= REACH,
    ensures
        v == side * (v / side) + v % side,
        0 <= v % side < side,
        -REACH <= v / side <= REACH,
{
    vstd::arithmetic::div_mod::lemma_fundamental_div_mod(v, side);
    let q = v / side;
    assert(-REACH <= q <= REACH) by (nonlinear_arith)
        requires
            side >= 1,
            -REACH <= v <= REACH,
            v == side * q + v % side,
            0 <= v % side < side,
    ;
}

/// A spot's cells are within reach, and its corner lies within a side of the
/// square's.
pub proof fn lemma_cell(v: int, side: int)
    requires
        side > 0,
        -REACH <= v <= REACH,
    ensures
        cell_of(v, side) matches Some(c) ==> cell_in_reach(c) && -side < side * c - v < side,
{
    lemma_quotient(v, side);
    let q = v / side;
    assert(side * (q + 1) == side * q + side) by (nonlinear_arith);
}

/// The cell of side `side` that starts within a millionth of a side of `v`.
pub fn cell(v: i64, side: i64) -> (found: Option<i64>)
    requires
        side > 0,
        -REACH <= v <= REACH,
    ensures
        found is Some <==> cell_of(v as int, side as int) is Some,
        found is Some ==> found->0 == cell_of(v as int, side as int)->0,
{
    proof {
        lemma_quotient(v as int, side as int);
    }
    // Quotient and remainder that round down, below zero too.
    let (q, r): (i64, i64) = if v >= 0 {
        ((v as u64 / side as u64) as i64, (v as u64 % side as u64) as i64)
    } else {
        let up: u64 = (-v) as u64 / side as u64;
        let left: u64 = (-v) as u64 % side as u64;
        proof {
            vstd::arithmetic::div_mod::lemma_fundamental_div_mod(-v as int, side as int);
            let u = up as int;
            assert(-REACH <= u <= REACH) by (nonlinear_arith)
                requires
                    side >= 1,
                    0 <= -v <= REACH,
                    -v == side * u + (-v) % (side as int),
                    0 <= (-v) % (side as int),
                    u >= 0,
            ;
        }
        if left == 0 {
            proof {
                let (u, s) = (up as int, side as int);
                assert(v == s * (-u) + 0) by (nonlinear_arith)
                    requires
                        -v == s * u,
                ;
                vstd::arithmetic::div_mod::lemma_fundamental_div_mod_converse(v as int, s, -u, 0);
            }
            (-(up as i64), 0)
        } else {
            proof {
                let (u, s, l) = (up as int, side as int, left as int);
                assert(v == s * (-u - 1) + (s - l)) by (nonlinear_arith)
                    requires
                        -v == s * u + l,
                ;
                vstd::arithmetic::div_mod::lemma_fundamental_div_mod_converse(
                    v as int,
                    s,
                    -u - 1,
                    s - l,
                );
            }
            (-(up as i64) - 1, side - left as i64)
        }
    };
    if (r as i128) * 1_000_000 < side as i128 {
        Some(q)
    } else if (side as i128 - r as i128) * 1_000_000 < side as i128 {
        Some(q + 1)
    } else {
        None
    }
}

/// The spots of the squares of side `side`, in their order.
pub fn spots_of(squares: &[Square], side: i64) -> (g: Vec<Spot>)
    requires
        side > 0,
        squares_ok(squares@),
    ensures
        g@ == spots(squares@, side as int, squares@.len()),
{
    let mut g: Vec<Spot> = Vec::new();
    let mut i: usize = 0;
    while i < squares.len()
        invariant
            side > 0,
            i <= squares@.len(),
            squares_ok(squares@),
            g@ == spots(squares@, side as int, i as nat),
        decreases squares@.len() - i,
    {
        let s: Square = squares[i];
        assert(squares@[i as int].ok());
        proof {
            lemma_cell(s.x as int, side as int);
            lemma_cell(s.y as int, side as int);
        }
        if s.side == side {
            if let Some(cx) = cell(s.x, side) {
                if let Some(cy) = cell(s.y, side) {
                    g.push(Spot { cx, cy, index: i });
                }
            }
        }
        i = i + 1;
    }
    g
}

/// What is true of every spot: its square's side and cells.
pub open spec fn spots_ok(squares: Seq<Square>, side: int, g: Seq<Spot>) -> bool {
    forall|k: int| 0 <= k < g.len() ==> spot_ok(squares, side, #[trigger] g[k])
}

pub open spec fn spot_ok(squares: Seq<Square>, side: int, s: Spot) -> bool {
    &&& s.index < squares.len()
    &&& squares[s.index as int].side == side
    &&& cell_in_reach(s.cx as int)
    &&& cell_in_reach(s.cy as int)
    &&& spot_of(squares, side, s.index as int) == Some(s)
    &&& -side < side * s.cx - squares[s.index as int].x < side
    &&& -side < side * s.cy - squares[s.index as int].y < side
}

pub proof fn lemma_spots(squares: Seq<Square>, side: int, n: nat)
    requires
        side > 0,
        n <= squares.len(),
        squares.len() <= usize::MAX,
        squares_ok(squares),
    ensures
        spots_ok(squares, side, spots(squares, side, n)),
        spots(squares, side, n).len() <= n,
        forall|k: int|
            0 <= k < spots(squares, side, n).len() ==> (#[trigger] spots(
                squares,
                side,
                n,
            )[k]).index < n,
        forall|k: int, m: int|
            0 <= k < m < spots(squares, side, n).len() ==> (#[trigger] spots(
                squares,
                side,
                n,
            )[k]).index < (#[trigger] spots(squares, side, n)[m]).index,
    decreases n,
{
    if n > 0 {
        lemma_spots(squares, side, (n - 1) as nat);
        assert(squares[n - 1].ok());
        lemma_cell(squares[n - 1].x as int, side);
        lemma_cell(squares[n - 1].y as int, side);
    }
}

/// A cell has a first spot exactly when it has one.
pub proof fn lemma_first_on(g: Seq<Spot>, n: nat, cx: int, cy: int)
    requires
        n <= g.len(),
    ensures
        first_on(g, n, cx, cy) is Some <==> exists|k: int|
            0 <= k < n && (#[trigger] g[k]).cx == cx && g[k].cy == cy,
        first_on(g, n, cx, cy) matches Some(i) ==> exists|k: int|
            0 <= k < n && (#[trigger] g[k]).cx == cx && g[k].cy == cy && g[k].index == i,
    decreases n,
{
    if n > 0 {
        lemma_first_on(g, (n - 1) as nat, cx, cy);
        if g[n - 1].cx == cx && g[n - 1].cy == cy {
            assert(g[n - 1].cx == cx);
        } else if exists|k: int| 0 <= k < n && (#[trigger] g[k]).cx == cx && g[k].cy == cy {
            let k = choose|k: int| 0 <= k < n && (#[trigger] g[k]).cx == cx && g[k].cy == cy;
            assert(0 <= k < n - 1 && g[k].cx == cx);
        }
    }
}

/// The corner and size of the rectangle of cells that bounds some spots.
#[derive(Clone, Copy, Debug, PartialEq, Eq, Structural)]
pub struct Bounds {
    pub left: i64,
    pub right: i64,
    pub top: i64,
    pub bottom: i64,
}

pub open spec fn bounds_of(g: Seq<Spot>, b: Bounds) -> bool {
    &&& b.left == least(columns(g))
    &&& b.right == most(columns(g))
    &&& b.top == least(rows(g))
    &&& b.bottom == most(rows(g))
}

/// The rectangle of cells that bounds `g`.
pub fn bounds(g: &Vec<Spot>) -> (b: Bounds)
    requires
        g@.len() > 0,
    ensures
        bounds_of(g@, b),
        b.left <= b.right,
        b.top <= b.bottom,
{
    let first: Spot = g[0];
    let mut b = Bounds { left: first.cx, right: first.cx, top: first.cy, bottom: first.cy };
    let mut k: usize = 1;
    proof {
        assert(columns(g@.take(1)).len() == 1 && columns(g@.take(1))[0] == first.cx);
        assert(rows(g@.take(1)).len() == 1 && rows(g@.take(1))[0] == first.cy);
    }
    while k < g.len()
        invariant
            1 <= k <= g@.len(),
            bounds_of(g@.take(k as int), b),
            b.left <= b.right,
            b.top <= b.bottom,
        decreases g@.len() - k,
    {
        let s: Spot = g[k];
        proof {
            let n = k + 1;
            assert(columns(g@.take(n)).drop_last() =~= columns(g@.take(k as int)));
            assert(rows(g@.take(n)).drop_last() =~= rows(g@.take(k as int)));
            assert(columns(g@.take(n)).last() == s.cx && rows(g@.take(n)).last() == s.cy);
        }
        if s.cx < b.left {
            b.left = s.cx;
        }
        if s.cx > b.right {
            b.right = s.cx;
        }
        if s.cy < b.top {
            b.top = s.cy;
        }
        if s.cy > b.bottom {
            b.bottom = s.cy;
        }
        k = k + 1;
    }
    assert(g@.take(g@.len() as int) =~= g@);
    b
}

/// A place on the grid of `b` for every spot of `g`.
pub proof fn lemma_bounds(g: Seq<Spot>, b: Bounds)
    requires
        g.len() > 0,
        bounds_of(g, b),
    ensures
        forall|k: int|
            0 <= k < g.len() ==> b.left <= (#[trigger] g[k]).cx <= b.right && b.top <= g[k].cy
                <= b.bottom,
        exists|k: int| 0 <= k < g.len() && (#[trigger] g[k]).cx == b.left,
        exists|k: int| 0 <= k < g.len() && (#[trigger] g[k]).cx == b.right,
        exists|k: int| 0 <= k < g.len() && (#[trigger] g[k]).cy == b.top,
        exists|k: int| 0 <= k < g.len() && (#[trigger] g[k]).cy == b.bottom,
        layout(g).wf(),
        layout(g).w == b.right - b.left + 1,
        layout(g).h == b.bottom - b.top + 1,
{
    let (xs, ys) = (columns(g), rows(g));
    lemma_extremes(xs);
    lemma_extremes(ys);
    assert forall|k: int| 0 <= k < g.len() implies b.left <= (#[trigger] g[k]).cx <= b.right
        && b.top <= g[k].cy <= b.bottom by {
        assert(xs[k] == g[k].cx && ys[k] == g[k].cy);
    }
    let k0 = choose|i: int| 0 <= i < xs.len() && least(xs) == #[trigger] xs[i];
    let k1 = choose|i: int| 0 <= i < xs.len() && most(xs) == #[trigger] xs[i];
    let k2 = choose|i: int| 0 <= i < ys.len() && least(ys) == #[trigger] ys[i];
    let k3 = choose|i: int| 0 <= i < ys.len() && most(ys) == #[trigger] ys[i];
    assert(g[k0].cx == b.left && g[k1].cx == b.right && g[k2].cy == b.top && g[k3].cy == b.bottom);
    assert forall|x: int, y: int| #[trigger] layout(g).ink.contains((x, y)) implies 0 <= x
        < layout(g).w && 0 <= y < layout(g).h by {
        assert(any_on(g, least(xs) + x, least(ys) + y));
    }
}

/// The square on each cell of the rectangle `b`, row by row; a second on the
/// same cell is left out.
pub fn owners(g: &Vec<Spot>, b: Bounds, w: usize, h: usize) -> (owner: Vec<Vec<Option<usize>>>)
    requires
        g@.len() > 0,
        bounds_of(g@, b),
        w == b.right - b.left + 1,
        h == b.bottom - b.top + 1,
    ensures
        shaped(owner@, w as int, h as int),
        forall|x: int, y: int|
            0 <= x < w && 0 <= y < h ==> #[trigger] owner@[y]@[x] == first_on(
                g@,
                g@.len(),
                b.left + x,
                b.top + y,
            ),
{
    let mut owner: Vec<Vec<Option<usize>>> = Vec::new();
    let mut y: usize = 0;
    while y < h
        invariant
            y <= h,
            shaped(owner@, w as int, y as int),
            forall|i: int, j: int|
                0 <= i < w && 0 <= j < y ==> #[trigger] owner@[j]@[i] == first_on(
                    g@,
                    0,
                    b.left + i,
                    b.top + j,
                ),
        decreases h - y,
    {
        let row: Vec<Option<usize>> = vec![None; w];
        owner.push(row);
        y = y + 1;
    }
    proof {
        lemma_bounds(g@, b);
    }
    let mut k: usize = 0;
    while k < g.len()
        invariant
            k <= g@.len(),
            w == b.right - b.left + 1,
            h == b.bottom - b.top + 1,
            forall|i: int|
                0 <= i < g@.len() ==> b.left <= (#[trigger] g@[i]).cx <= b.right && b.top
                    <= g@[i].cy <= b.bottom,
            shaped(owner@, w as int, h as int),
            forall|i: int, j: int|
                0 <= i < w && 0 <= j < h ==> #[trigger] owner@[j]@[i] == first_on(
                    g@,
                    k as nat,
                    b.left + i,
                    b.top + j,
                ),
        decreases g@.len() - k,
    {
        let s: Spot = g[k];
        let x: usize = (s.cx as i128 - b.left as i128) as usize;
        let y: usize = (s.cy as i128 - b.top as i128) as usize;
        if owner[y][x].is_none() {
            owner[y][x] = Some(s.index);
        }
        k = k + 1;
    }
    owner
}

/// The grid of `g`, whose cells are those of `layout`.
pub fn grid_of(g: &Vec<Spot>, b: Bounds, owner: &Vec<Vec<Option<usize>>>, w: usize, h: usize) -> (grid:
    Grid)
    requires
        g@.len() > 0,
        bounds_of(g@, b),
        w == b.right - b.left + 1,
        h == b.bottom - b.top + 1,
        w >= 1,
        h >= 1,
        w * h <= MAX_GRID,
        shaped(owner@, w as int, h as int),
        forall|x: int, y: int|
            0 <= x < w && 0 <= y < h ==> #[trigger] owner@[y]@[x] == first_on(
                g@,
                g@.len(),
                b.left + x,
                b.top + y,
            ),
    ensures
        grid.wf(),
        grid.w == w,
        grid.h == h,
        grid@ == layout(g@),
        searchable(layout(g@)),
        grid.taken_cells() == Set::<(int, int)>::empty(),
{
    let grid = Grid::new(w, h, owner);
    proof {
        lemma_bounds(g@, b);
        grid.lemma_small();
        assert forall|c: (int, int)| grid@.ink.contains(c) == #[trigger] layout(g@).ink.contains(
            c,
        ) by {
            let (x, y) = c;
            if 0 <= x < w && 0 <= y < h {
                assert(grid@.inked(x, y) == (owner@[y]@[x] is Some));
                lemma_first_on(g@, g@.len(), b.left + x, b.top + y);
                assert(any_on(g@, least(columns(g@)) + x, least(rows(g@)) + y) == (owner@[y]@[x]
                    is Some));
            }
            if layout(g@).ink.contains((x, y)) {
                assert(0 <= x < w && 0 <= y < h);
            }
        }
        assert(grid@.ink =~= layout(g@).ink);
    }
    grid
}

} // verus!
