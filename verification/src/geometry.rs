//! Points and paths. Coordinates are whole millionths of a point, the finest
//! step that is ever written.
use vstd::prelude::*;

verus! {

/// Millionths in a point.
pub const MICRO: i64 = 1_000_000;

/// The largest coordinate, in millionths of a point: a million kilometres,
/// far past any page, and small enough that sums of a few stay exact.
pub const REACH: i64 = 1_000_000_000_000_000_000;

/// A point on the page.
#[derive(Clone, Copy, Debug, PartialEq, Eq, Structural)]
pub struct Xy {
    pub x: i64,
    pub y: i64,
}

impl Xy {
    pub open spec fn ok(self) -> bool {
        &&& -REACH <= self.x <= REACH
        &&& -REACH <= self.y <= REACH
    }
}

/// One step of a path, absolute.
#[derive(Clone, Copy, Debug, PartialEq, Eq, Structural)]
pub enum Segment {
    Move(Xy),
    Line(Xy),
    Cubic(Xy, Xy, Xy),
    Close,
}

impl Segment {
    pub open spec fn ok(self) -> bool {
        match self {
            Segment::Move(p) => p.ok(),
            Segment::Line(p) => p.ok(),
            Segment::Cubic(a, b, p) => a.ok() && b.ok() && p.ok(),
            Segment::Close => true,
        }
    }
}

pub open spec fn path_ok(segments: Seq<Segment>) -> bool {
    forall|i: int| 0 <= i < segments.len() ==> (#[trigger] segments[i]).ok()
}

/// One painted path of a page: its fill and stroke colours and its steps.
#[derive(Debug)]
pub struct Shape {
    pub fill: Option<[u8; 3]>,
    pub stroke: Option<[u8; 3]>,
    pub segments: Vec<Segment>,
}

/// A page: its size and its shapes in paint order, y down.
#[derive(Debug)]
pub struct Page {
    pub width: i64,
    pub height: i64,
    pub shapes: Vec<Shape>,
}

impl Page {
    pub open spec fn ok(self) -> bool {
        &&& 0 <= self.width <= REACH
        &&& 0 <= self.height <= REACH
        &&& forall|i: int| 0 <= i < self.shapes@.len() ==> path_ok(
            (#[trigger] self.shapes@[i]).segments@,
        )
    }
}

/// The smallest of `xs`.
pub open spec fn least(xs: Seq<int>) -> int
    decreases xs.len(),
{
    if xs.len() <= 1 {
        xs[0]
    } else if xs.last() < least(xs.drop_last()) {
        xs.last()
    } else {
        least(xs.drop_last())
    }
}

/// The largest of `xs`.
pub open spec fn most(xs: Seq<int>) -> int
    decreases xs.len(),
{
    if xs.len() <= 1 {
        xs[0]
    } else if xs.last() > most(xs.drop_last()) {
        xs.last()
    } else {
        most(xs.drop_last())
    }
}

/// `least` and `most` bound every element and are elements.
pub proof fn lemma_extremes(xs: Seq<int>)
    requires
        xs.len() > 0,
    ensures
        forall|i: int| 0 <= i < xs.len() ==> least(xs) <= #[trigger] xs[i] <= most(xs),
        exists|i: int| 0 <= i < xs.len() && least(xs) == #[trigger] xs[i],
        exists|i: int| 0 <= i < xs.len() && most(xs) == #[trigger] xs[i],
    decreases xs.len(),
{
    if xs.len() == 1 {
        assert(least(xs) == xs[0] && most(xs) == xs[0]);
    } else {
        let rest = xs.drop_last();
        lemma_extremes(rest);
        assert forall|i: int| 0 <= i < xs.len() implies least(xs) <= #[trigger] xs[i] <= most(
            xs,
        ) by {
            if i < rest.len() {
                assert(xs[i] == rest[i]);
            }
        }
        let i = choose|i: int| 0 <= i < rest.len() && least(rest) == #[trigger] rest[i];
        let j = choose|j: int| 0 <= j < rest.len() && most(rest) == #[trigger] rest[j];
        assert(xs[i] == rest[i] && xs[j] == rest[j]);
        assert(xs[xs.len() - 1] == xs.last());
    }
}

} // verus!
