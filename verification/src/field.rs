//! A field of inked and blank cells, and how many inked cells a window of it
//! holds.
use vstd::prelude::*;

verus! {

/// The cells of a grid `w` wide and `h` high; `ink` holds the inked ones as
/// their column and row.
#[verifier::ext_equal]
pub struct Field {
    pub w: int,
    pub h: int,
    pub ink: Set<(int, int)>,
}

impl Field {
    /// Every inked cell lies on the grid.
    pub open spec fn wf(self) -> bool {
        &&& 0 <= self.w
        &&& 0 <= self.h
        &&& forall|x: int, y: int|
            #[trigger] self.ink.contains((x, y)) ==> 0 <= x < self.w && 0 <= y < self.h
    }

    pub open spec fn inked(self, x: int, y: int) -> bool {
        self.ink.contains((x, y))
    }

    /// Inked cells of row `y` in columns `x0` to `x1`, the last not counted.
    pub open spec fn row_count(self, y: int, x0: int, x1: int) -> nat
        decreases x1 - x0,
    {
        if x1 <= x0 {
            0
        } else {
            self.row_count(y, x0, x1 - 1) + (if self.inked(x1 - 1, y) {
                1nat
            } else {
                0nat
            })
        }
    }

    /// Inked cells in the window `[x0, x1) x [y0, y1)`.
    pub open spec fn count(self, x0: int, y0: int, x1: int, y1: int) -> nat
        decreases y1 - y0,
    {
        if y1 <= y0 {
            0
        } else {
            self.count(x0, y0, x1, y1 - 1) + self.row_count(y1 - 1, x0, x1)
        }
    }

    pub proof fn lemma_row_splits(self, y: int, a: int, b: int, c: int)
        requires
            a <= b <= c,
        ensures
            self.row_count(y, a, c) == self.row_count(y, a, b) + self.row_count(y, b, c),
        decreases c - b,
    {
        if b < c {
            self.lemma_row_splits(y, a, b, c - 1);
        }
    }

    pub proof fn lemma_row_bounded(self, y: int, x0: int, x1: int)
        requires
            x0 <= x1,
        ensures
            self.row_count(y, x0, x1) <= x1 - x0,
        decreases x1 - x0,
    {
        if x0 < x1 {
            self.lemma_row_bounded(y, x0, x1 - 1);
        }
    }

    /// A row holds an inked cell exactly when its count is not zero.
    pub proof fn lemma_row_positive(self, y: int, x0: int, x1: int)
        ensures
            self.row_count(y, x0, x1) > 0 <==> exists|x: int| x0 <= x < x1 && self.inked(x, y),
        decreases x1 - x0,
    {
        if x0 < x1 {
            self.lemma_row_positive(y, x0, x1 - 1);
            if self.inked(x1 - 1, y) {
                assert(x0 <= x1 - 1 < x1 && self.inked(x1 - 1, y));
            } else if exists|x: int| x0 <= x < x1 && self.inked(x, y) {
                let x = choose|x: int| x0 <= x < x1 && self.inked(x, y);
                assert(x0 <= x < x1 - 1);
            }
        }
    }

    /// A window holds an inked cell exactly when its count is not zero.
    pub proof fn lemma_count_positive(self, x0: int, y0: int, x1: int, y1: int)
        ensures
            self.count(x0, y0, x1, y1) > 0 <==> exists|x: int, y: int|
                x0 <= x < x1 && y0 <= y < y1 && self.inked(x, y),
        decreases y1 - y0,
    {
        if y0 < y1 {
            self.lemma_count_positive(x0, y0, x1, y1 - 1);
            self.lemma_row_positive(y1 - 1, x0, x1);
            if self.row_count(y1 - 1, x0, x1) > 0 {
                let y = y1 - 1;
                let x = choose|x: int| x0 <= x < x1 && self.inked(x, y);
                assert(x0 <= x < x1 && y0 <= y < y1 && self.inked(x, y));
            } else if exists|x: int, y: int|
                x0 <= x < x1 && y0 <= y < y1 && self.inked(x, y) {
                let (x, y) = choose|x: int, y: int|
                    x0 <= x < x1 && y0 <= y < y1 && self.inked(x, y);
                assert(y != y1 - 1);
                assert(x0 <= x < x1 && y0 <= y < y1 - 1 && self.inked(x, y));
            }
        }
    }

    pub proof fn lemma_count_splits_columns(self, a: int, b: int, c: int, y0: int, y1: int)
        requires
            a <= b <= c,
        ensures
            self.count(a, y0, c, y1) == self.count(a, y0, b, y1) + self.count(b, y0, c, y1),
        decreases y1 - y0,
    {
        if y0 < y1 {
            self.lemma_count_splits_columns(a, b, c, y0, y1 - 1);
            self.lemma_row_splits(y1 - 1, a, b, c);
        }
    }

    pub proof fn lemma_count_splits_rows(self, x0: int, x1: int, a: int, b: int, c: int)
        requires
            a <= b <= c,
        ensures
            self.count(x0, a, x1, c) == self.count(x0, a, x1, b) + self.count(x0, b, x1, c),
        decreases c - b,
    {
        if b < c {
            self.lemma_count_splits_rows(x0, x1, a, b, c - 1);
        }
    }

    pub proof fn lemma_count_bounded(self, x0: int, y0: int, x1: int, y1: int)
        requires
            x0 <= x1,
            y0 <= y1,
        ensures
            self.count(x0, y0, x1, y1) <= (x1 - x0) * (y1 - y0),
        decreases y1 - y0,
    {
        if y0 < y1 {
            self.lemma_count_bounded(x0, y0, x1, y1 - 1);
            self.lemma_row_bounded(y1 - 1, x0, x1);
            assert((x1 - x0) * (y1 - y0) == (x1 - x0) * (y1 - 1 - y0) + (x1 - x0))
                by (nonlinear_arith);
        } else {
            assert((x1 - x0) * (y1 - y0) == 0) by (nonlinear_arith)
                requires
                    y0 == y1,
            ;
        }
    }

    /// A window's count from the counts of the four windows that start at
    /// the grid's corner.
    pub proof fn lemma_count_from_corner(self, x0: int, y0: int, x1: int, y1: int)
        requires
            0 <= x0 <= x1,
            0 <= y0 <= y1,
        ensures
            self.count(x0, y0, x1, y1) == self.count(0, 0, x1, y1) + self.count(0, 0, x0, y0)
                - self.count(0, 0, x0, y1) - self.count(0, 0, x1, y0),
    {
        self.lemma_count_splits_columns(0, x0, x1, 0, y1);
        self.lemma_count_splits_columns(0, x0, x1, 0, y0);
        self.lemma_count_splits_rows(x0, x1, 0, y0, y1);
    }

    pub proof fn lemma_row_clipped(self, y: int, x0: int, x1: int)
        requires
            self.wf(),
            x0 <= self.w <= x1,
        ensures
            self.row_count(y, x0, x1) == self.row_count(y, x0, self.w),
        decreases x1 - self.w,
    {
        if self.w < x1 {
            self.lemma_row_clipped(y, x0, x1 - 1);
        }
    }

    pub proof fn lemma_row_blank(self, y: int, x0: int, x1: int)
        requires
            self.wf(),
            y >= self.h || x0 >= self.w,
        ensures
            self.row_count(y, x0, x1) == 0,
        decreases x1 - x0,
    {
        if x0 < x1 {
            self.lemma_row_blank(y, x0, x1 - 1);
        }
    }

    /// No cell outside the grid is counted.
    pub proof fn lemma_count_clipped(self, x0: int, y0: int, x1: int, y1: int)
        requires
            self.wf(),
            0 <= x0,
            0 <= y0,
        ensures
            self.count(x0, y0, x1, y1) == self.count(
                x0,
                y0,
                if x1 <= self.w {
                    x1
                } else {
                    self.w
                },
                if y1 <= self.h {
                    y1
                } else {
                    self.h
                },
            ),
        decreases y1 - y0,
    {
        if y0 < y1 {
            self.lemma_count_clipped(x0, y0, x1, y1 - 1);
            if y1 > self.h {
                self.lemma_row_blank(y1 - 1, x0, x1);
            } else if x0 >= self.w {
                self.lemma_row_blank(y1 - 1, x0, x1);
                self.lemma_row_blank(y1 - 1, x0, self.w);
            } else if x1 > self.w {
                self.lemma_row_clipped(y1 - 1, x0, x1);
            }
        }
    }
}

} // verus!
