//! Subpaths in DXF coordinates, y up.
use crate::geometry::{path_ok, Segment, Xy, REACH};
use vstd::prelude::*;

verus! {

/// One piece of an outline, from where the piece before it ends.
#[derive(Clone, Copy, Debug, PartialEq, Eq, Structural)]
pub enum Piece {
    Line(Xy),
    Cubic(Xy, Xy, Xy),
}

/// Within reach of the drawing: page coordinates flipped about the page.
pub open spec fn drawn_ok(p: Xy) -> bool {
    &&& -5 * REACH <= p.x <= 5 * REACH
    &&& -5 * REACH <= p.y <= 5 * REACH
}

impl Piece {
    pub open spec fn ok(self) -> bool {
        match self {
            Piece::Line(p) => drawn_ok(p),
            Piece::Cubic(a, b, p) => drawn_ok(a) && drawn_ok(b) && drawn_ok(p),
        }
    }

    /// Where the piece ends.
    pub open spec fn finish(self) -> Xy {
        match self {
            Piece::Line(p) => p,
            Piece::Cubic(_, _, p) => p,
        }
    }

    /// Where the piece ends.
    pub fn end(self) -> (p: Xy)
        ensures
            p == self.finish(),
    {
        match self {
            Piece::Line(p) => p,
            Piece::Cubic(_, _, p) => p,
        }
    }
}

/// A subpath in DXF coordinates: where it starts and its pieces.
#[derive(Debug)]
pub struct Outline {
    /// Its colour's index in the layer list.
    pub layer: usize,
    pub start: Xy,
    pub pieces: Vec<Piece>,
    pub closed: bool,
}

/// What an outline is: `Outline` with its pieces as a sequence.
#[verifier::ext_equal]
pub struct OutlineView {
    pub layer: int,
    pub start: Xy,
    pub pieces: Seq<Piece>,
    pub closed: bool,
}

impl View for Outline {
    type V = OutlineView;

    open spec fn view(&self) -> OutlineView {
        OutlineView {
            layer: self.layer as int,
            start: self.start,
            pieces: self.pieces@,
            closed: self.closed,
        }
    }
}

impl OutlineView {
    pub open spec fn ok(self) -> bool {
        &&& drawn_ok(self.start)
        &&& forall|i: int| 0 <= i < self.pieces.len() ==> (#[trigger] self.pieces[i]).ok()
    }

    /// Where the outline ends before it is closed.
    pub open spec fn finish(self) -> Xy {
        if self.pieces.len() == 0 {
            self.start
        } else {
            self.pieces.last().finish()
        }
    }
}

pub open spec fn outline_views(list: Seq<Outline>) -> Seq<OutlineView> {
    list.map_values(|o: Outline| o@)
}

/// `p` with y up on a page `height` high.
pub open spec fn flipped(p: Xy, height: int) -> Xy {
    Xy { x: p.x, y: (height - p.y) as i64 }
}

/// A path being traced: the outlines done, the one being drawn, and where a
/// piece without a move before it starts.
#[verifier::ext_equal]
pub struct Trace {
    pub done: Seq<OutlineView>,
    pub current: Option<OutlineView>,
    pub at: Xy,
}

/// `done` with `outline`, unless it has no pieces.
pub open spec fn with_outline(done: Seq<OutlineView>, outline: Option<OutlineView>) -> Seq<
    OutlineView,
> {
    match outline {
        Some(o) => if o.pieces.len() > 0 {
            done.push(o)
        } else {
            done
        },
        None => done,
    }
}

/// A path to trace: its layer, whether it is filled (a fill closes every
/// subpath) and the height of its page.
#[derive(Clone, Copy)]
pub struct Setting {
    pub layer: usize,
    pub filled: bool,
    pub height: i64,
}

pub open spec fn fresh(setting: Setting, start: Xy) -> OutlineView {
    OutlineView {
        layer: setting.layer as int,
        start,
        pieces: Seq::empty(),
        closed: setting.filled,
    }
}

/// The outline being drawn, with one more piece.
pub open spec fn extended(setting: Setting, t: Trace, piece: Piece) -> Trace {
    let outline = match t.current {
        Some(o) => o,
        None => fresh(setting, t.at),
    };
    Trace {
        done: t.done,
        current: Some(OutlineView { pieces: outline.pieces.push(piece), ..outline }),
        at: piece.finish(),
    }
}

/// One step of a path: a move ends the outline being drawn and starts a new
/// one, a close closes and ends it (what follows starts where it started),
/// and a line or a curve extends it.
pub open spec fn traced(setting: Setting, t: Trace, segment: Segment) -> Trace {
    let h = setting.height as int;
    match segment {
        Segment::Move(p) => Trace {
            done: with_outline(t.done, t.current),
            current: Some(fresh(setting, flipped(p, h))),
            at: flipped(p, h),
        },
        Segment::Close => match t.current {
            Some(o) => Trace {
                done: with_outline(t.done, Some(OutlineView { closed: true, ..o })),
                current: None,
                at: o.start,
            },
            None => t,
        },
        Segment::Line(p) => extended(setting, t, Piece::Line(flipped(p, h))),
        Segment::Cubic(a, b, p) => extended(
            setting,
            t,
            Piece::Cubic(flipped(a, h), flipped(b, h), flipped(p, h)),
        ),
    }
}

/// The trace of the first `n` steps.
pub open spec fn trace(setting: Setting, segments: Seq<Segment>, n: nat) -> Trace
    decreases n,
{
    if n == 0 {
        Trace {
            done: Seq::empty(),
            current: None,
            at: flipped(Xy { x: 0, y: 0 }, setting.height as int),
        }
    } else {
        traced(setting, trace(setting, segments, (n - 1) as nat), segments[n - 1])
    }
}

/// The outlines of one path, y up.
pub open spec fn outlines_of(setting: Setting, segments: Seq<Segment>) -> Seq<OutlineView> {
    let t = trace(setting, segments, segments.len());
    with_outline(t.done, t.current)
}

fn flip(p: Xy, height: i64) -> (q: Xy)
    requires
        p.ok(),
        0 <= height <= REACH,
    ensures
        q == flipped(p, height as int),
        drawn_ok(q),
{
    Xy { x: p.x, y: height - p.y }
}

/// Ends `outline`: it is kept when it has pieces.
fn keep(out: &mut Vec<Outline>, outline: Option<Outline>)
    ensures
        outline_views(final(out)@) == with_outline(
            outline_views(old(out)@),
            match outline {
                Some(o) => Some(o@),
                None => None,
            },
        ),
        outline is None ==> final(out)@ == old(out)@,
        outline matches Some(o) ==> (if o.pieces@.len() > 0 {
            final(out)@ == old(out)@.push(o)
        } else {
            final(out)@ == old(out)@
        }),
{
    if let Some(o) = outline {
        if o.pieces.len() > 0 {
            let ghost view = o@;
            out.push(o);
            assert(outline_views(out@) =~= outline_views(old(out)@).push(view));
        }
    }
}

/// What every outline of a path is: on its layer, with pieces, within reach.
pub open spec fn traced_ok(setting: Setting, o: OutlineView) -> bool {
    o.layer == setting.layer && o.ok()
}

/// The outlines of one path's `segments` on a layer, y up on its page.
pub fn outlines(segments: &[Segment], setting: Setting) -> (out: Vec<Outline>)
    requires
        path_ok(segments@),
        0 <= setting.height <= REACH,
    ensures
        outline_views(out@) == outlines_of(setting, segments@),
        forall|i: int|
            0 <= i < out@.len() ==> traced_ok(setting, (#[trigger] out@[i])@) && out@[i].pieces@.len()
                > 0,
{
    let height: i64 = setting.height;
    let mut out: Vec<Outline> = Vec::new();
    let mut current: Option<Outline> = None;
    let mut at: Xy = flip(Xy { x: 0, y: 0 }, height);
    let mut i: usize = 0;
    assert(outline_views(out@) =~= Seq::<OutlineView>::empty());
    while i < segments.len()
        invariant
            i <= segments@.len(),
            path_ok(segments@),
            height == setting.height,
            0 <= height <= REACH,
            drawn_ok(at),
            current matches Some(o) ==> traced_ok(setting, o@),
            forall|k: int|
                0 <= k < out@.len() ==> traced_ok(setting, (#[trigger] out@[k])@)
                    && out@[k].pieces@.len() > 0,
            ({
                let t = trace(setting, segments@, i as nat);
                &&& outline_views(out@) == t.done
                &&& t.at == at
                &&& current is Some <==> t.current is Some
                &&& current matches Some(o) ==> t.current == Some(o@)
            }),
        decreases segments@.len() - i,
    {
        assert(segments@[i as int].ok());
        let ghost t = trace(setting, segments@, i as nat);
        let piece = match segments[i] {
            Segment::Move(p) => {
                keep(&mut out, current);
                at = flip(p, height);
                let pieces: Vec<Piece> = Vec::new();
                let outline = Outline {
                    layer: setting.layer,
                    start: at,
                    pieces,
                    closed: setting.filled,
                };
                assert(outline@ =~= fresh(setting, at));
                current = Some(outline);
                i = i + 1;
                continue ;
            },
            Segment::Close => {
                if let Some(mut outline) = current {
                    let ghost open = outline@;
                    outline.closed = true;
                    assert(outline@ =~= (OutlineView { closed: true, ..open }));
                    at = outline.start;
                    keep(&mut out, Some(outline));
                }
                current = None;
                i = i + 1;
                continue ;
            },
            Segment::Line(p) => Piece::Line(flip(p, height)),
            Segment::Cubic(a, b, p) => Piece::Cubic(
                flip(a, height),
                flip(b, height),
                flip(p, height),
            ),
        };
        let mut outline = match current {
            Some(outline) => outline,
            None => {
                let pieces: Vec<Piece> = Vec::new();
                let outline = Outline {
                    layer: setting.layer,
                    start: at,
                    pieces,
                    closed: setting.filled,
                };
                assert(outline@ =~= fresh(setting, at));
                outline
            },
        };
        let ghost short = outline@;
        outline.pieces.push(piece);
        proof {
            assert(outline@ =~= (OutlineView { pieces: short.pieces.push(piece), ..short }));
            assert forall|k: int| 0 <= k < outline@.pieces.len() implies (
            #[trigger] outline@.pieces[k]).ok() by {
                assert(k < short.pieces.len() ==> short.pieces[k].ok());
            }
        }
        current = Some(outline);
        at = piece.end();
        i = i + 1;
    }
    keep(&mut out, current);
    out
}

} // verus!
