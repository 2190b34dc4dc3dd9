//! What a conversion does to a picture, step by step, and what is drawn from
//! the curves it traced.
use crate::auto::{detect, Detection};
use crate::desktop::{Bow, Derive, Tolerance};
use crate::picture::Raster;
use crate::recolor::Recolor;
use crate::settings::{ConversionSettings, Manual, Preparation, Sliders};
use vstd::prelude::*;

verus! {

/// A conversion's plan, made once the picture is prepared.
#[derive(Debug)]
pub struct Plan {
    /// What the automatic settings found in the prepared picture.
    pub detected: Option<Manual>,
    /// What it is traced as.
    pub preset: Manual,
    pub sliders: Option<Sliders>,
    /// The colours that recoloured pixels were given: the traced fills near
    /// them are made exactly them.
    pub targets: Vec<[u8; 3]>,
    /// The simplification's tolerance is picked, as if its Auto was pressed.
    pub pick: bool,
    /// Every pixel is opaque.
    pub opaque: bool,
}

/// The colours that the first `n` recolourings give. Pixels made transparent
/// are traced as no fill.
pub open spec fn targets_of(list: Seq<Recolor>, n: nat) -> Seq<[u8; 3]>
    decreases n,
{
    if n == 0 {
        Seq::empty()
    } else {
        let before = targets_of(list, (n - 1) as nat);
        if list[n - 1].alpha is None {
            before.push(list[n - 1].rgb)
        } else {
            before
        }
    }
}

pub open spec fn all_opaque(r: Raster) -> bool {
    forall|i: int| 0 <= i < r.pixels@.len() ==> (#[trigger] r.pixels@[i])[3] == 255
}

fn is_opaque(r: &Raster) -> (yes: bool)
    ensures
        yes == all_opaque(*r),
{
    let mut i: usize = 0;
    while i < r.pixels.len()
        invariant
            i <= r.pixels@.len(),
            forall|j: int| 0 <= j < i ==> (#[trigger] r.pixels@[j])[3] == 255,
        decreases r.pixels@.len() - i,
    {
        let p: [u8; 4] = r.pixels[i];
        if p[3] != 255 {
            assert(r.pixels@[i as int][3] != 255);
            return false;
        }
        i = i + 1;
    }
    true
}

fn targets(list: &Vec<Recolor>) -> (found: Vec<[u8; 3]>)
    ensures
        found@ == targets_of(list@, list@.len()),
{
    let mut found: Vec<[u8; 3]> = Vec::new();
    let mut i: usize = 0;
    assert(found@ =~= targets_of(list@, 0));
    while i < list.len()
        invariant
            i <= list@.len(),
            found@ == targets_of(list@, i as nat),
        decreases list@.len() - i,
    {
        if list[i].alpha.is_none() {
            found.push(list[i].rgb);
        }
        i = i + 1;
    }
    found
}

/// Plans the conversion of the prepared picture `working`: the automatic
/// settings look at what is traced, and pick the tolerance of a
/// simplification that is on. `chosen` is what is traced without them.
pub fn plan(
    working: &Raster,
    prep: &Preparation,
    settings: &ConversionSettings,
    chosen: Manual,
    simplify: bool,
) -> (plan: Plan)
    requires
        working.ok(),
    ensures
        settings.automatic ==> plan.detected == Some(
            Manual {
                category: crate::auto::detection_of(*working).category,
                quality: crate::auto::detection_of(*working).quality,
            },
        ),
        !settings.automatic ==> plan.detected is None,
        plan.preset == (match plan.detected {
            Some(d) => d,
            None => chosen,
        }),
        plan.sliders == settings.sliders,
        plan.targets@ == targets_of(prep.recolors@, prep.recolors@.len()),
        plan.pick == (settings.automatic && simplify),
        plan.opaque == all_opaque(*working),
{
    let detected: Option<Manual> = if settings.automatic {
        let d: Detection = detect(working);
        Some(Manual { category: d.category, quality: d.quality })
    } else {
        None
    };
    Plan {
        detected,
        preset: match detected {
            Some(d) => d,
            None => chosen,
        },
        sliders: settings.sliders,
        targets: targets(&prep.recolors),
        pick: settings.automatic && simplify,
        opaque: is_opaque(working),
    }
}

/// A step from the traced document to the shown one.
#[derive(Clone, Copy, Debug, PartialEq, Eq, Structural)]
pub enum Pass {
    /// The deleted shapes are taken out.
    WithoutShapes,
    /// Neighbouring pieces are merged within the tolerance, which the person
    /// set by hand or the app did.
    Simplify { tolerance: Tolerance, by_hand: bool },
    /// True lines and circles, straightening and true shapes.
    Regular { lines: bool, straighten: Option<Bow>, shapes: bool },
    MoveNodes,
    WithoutNodes,
    RoundCorners,
}

/// The steps that draw the shown document from the traced one, in order: the
/// shapes deleted, the simplification, the regular shapes, the nodes moved,
/// then deleted, and the corners rounded last, where there are any.
pub open spec fn passes_of(d: Derive) -> Seq<Pass> {
    seq![Pass::WithoutShapes] + (match d.simplify {
        Some(tolerance) => seq![Pass::Simplify { tolerance, by_hand: d.simplify_by_hand }],
        None => Seq::empty(),
    }) + seq![
        Pass::Regular { lines: d.regularize, straighten: d.straighten, shapes: d.primitives },
        Pass::MoveNodes,
        Pass::WithoutNodes,
    ] + (if d.rounded@.len() > 0 {
        seq![Pass::RoundCorners]
    } else {
        Seq::empty()
    })
}

/// The steps that draw the shown document from the traced one.
pub fn derive(d: &Derive) -> (passes: Vec<Pass>)
    ensures
        passes@ == passes_of(*d),
{
    let mut passes: Vec<Pass> = Vec::new();
    passes.push(Pass::WithoutShapes);
    if let Some(tolerance) = d.simplify {
        passes.push(Pass::Simplify { tolerance, by_hand: d.simplify_by_hand });
    }
    passes.push(
        Pass::Regular { lines: d.regularize, straighten: d.straighten, shapes: d.primitives },
    );
    passes.push(Pass::MoveNodes);
    passes.push(Pass::WithoutNodes);
    if d.rounded.len() > 0 {
        passes.push(Pass::RoundCorners);
    }
    assert(passes@ =~= passes_of(*d));
    passes
}

/// Rounding comes after the moves and the deletions, since a rounded corner is
/// known by where they left its node.
pub proof fn law_rounding_comes_last(d: Derive, i: int)
    requires
        0 <= i < passes_of(d).len(),
        passes_of(d)[i] is RoundCorners,
    ensures
        i == passes_of(d).len() - 1,
        exists|m: int| 0 <= m < i && passes_of(d)[m] is MoveNodes,
        exists|m: int| 0 <= m < i && passes_of(d)[m] is WithoutNodes,
{
    let p = passes_of(d);
    let n = p.len() as int;
    if d.rounded@.len() > 0 {
        assert(p[n - 3] is MoveNodes);
        assert(p[n - 2] is WithoutNodes);
    }
}

} // verus!
