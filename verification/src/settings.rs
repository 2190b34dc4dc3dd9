//! The settings of a conversion and of what is drawn from it, and a snapshot
//! of them with the edits by hand.
use crate::hand::{
    copy_removal, removal_views, same_point, NodeMove, Point, Removal, RemovalView, Rounded,
};
use crate::picture::{ImageCategory, Quality};
use crate::recolor::Recolor;
use vstd::prelude::*;

verus! {

/// A colour.
#[derive(Clone, Copy, Debug, PartialEq, Eq, Structural)]
pub struct Rgb {
    pub r: u8,
    pub g: u8,
    pub b: u8,
}

/// The advanced sliders, each from 1 to 12, and the corner detection.
#[derive(Clone, Copy, Debug, PartialEq, Eq, Structural)]
pub struct Sliders {
    pub segmentation: u8,
    pub smoothness: u8,
    pub curves: u8,
    pub corners: bool,
}

/// The image type and quality chosen by hand.
#[derive(Clone, Copy, Debug, PartialEq, Eq, Structural)]
pub struct Manual {
    pub category: ImageCategory,
    pub quality: Quality,
}

/// What a conversion is run with, apart from the preparation.
#[derive(Clone, Copy, Debug, PartialEq, Eq, Structural)]
pub struct ConversionSettings {
    pub automatic: bool,
    /// The chosen image type and quality; ignored under automatic settings,
    /// so left out then.
    pub manual: Option<Manual>,
    pub overlap_opaque_photos: bool,
    pub optional_optimizer: bool,
    /// The advanced sliders when they are on.
    pub sliders: Option<Sliders>,
}

/// What is drawn from the traced curves. The tolerances are the bits of their
/// numbers.
#[derive(Clone, Copy, Debug, PartialEq, Eq, Structural)]
pub struct Curves {
    pub simplify: bool,
    pub simplify_tolerance: u32,
    pub regularize: bool,
    pub primitives: bool,
    pub straighten: bool,
    pub straighten_tolerance: u32,
    pub straighten_auto: bool,
}

/// The sticker around the shapes. The widths are the bits of their numbers.
#[derive(Clone, Copy, Debug, PartialEq, Eq, Structural)]
pub struct Sticker {
    pub on: bool,
    /// Its widths can be drawn.
    pub drawable: bool,
    pub border: u64,
    pub edge: u64,
    pub border_rgb: Rgb,
    pub edge_rgb: Rgb,
    pub shadow: bool,
}

/// What is done to the picture before it is traced: a limit of colours, a
/// background under its transparency, and pixels recoloured.
#[derive(Debug)]
pub struct Preparation {
    pub colors: Option<usize>,
    pub background: Option<Rgb>,
    pub recolors: Vec<Recolor>,
}

#[verifier::ext_equal]
pub struct RecolorView {
    pub pixels: Seq<u32>,
    pub rgb: Seq<u8>,
    pub alpha: Option<u8>,
}

#[verifier::ext_equal]
pub struct PreparationView {
    pub colors: Option<usize>,
    pub background: Option<Rgb>,
    pub recolors: Seq<RecolorView>,
}

impl View for Recolor {
    type V = RecolorView;

    open spec fn view(&self) -> RecolorView {
        RecolorView { pixels: self.pixels@, rgb: self.rgb@, alpha: self.alpha }
    }
}

pub open spec fn recolor_views(list: Seq<Recolor>) -> Seq<RecolorView> {
    Seq::new(list.len(), |i: int| list[i]@)
}

impl View for Preparation {
    type V = PreparationView;

    open spec fn view(&self) -> PreparationView {
        PreparationView {
            colors: self.colors,
            background: self.background,
            recolors: recolor_views(self.recolors@),
        }
    }
}

/// The edits and settings that are undone and redone.
#[derive(Debug)]
pub struct Edits {
    pub rounded: Vec<Rounded>,
    pub straightened: Vec<Point>,
    pub moved: Vec<NodeMove>,
    pub deleted_nodes: Vec<Point>,
    pub deleted: Vec<Removal>,
    pub prep: Preparation,
    pub conversion: ConversionSettings,
    pub curves: Curves,
    pub sticker: Sticker,
}

#[verifier::ext_equal]
pub struct EditsView {
    pub rounded: Seq<Rounded>,
    pub straightened: Seq<Point>,
    pub moved: Seq<NodeMove>,
    pub deleted_nodes: Seq<Point>,
    pub deleted: Seq<RemovalView>,
    pub prep: PreparationView,
    pub conversion: ConversionSettings,
    pub curves: Curves,
    pub sticker: Sticker,
}

impl View for Edits {
    type V = EditsView;

    open spec fn view(&self) -> EditsView {
        EditsView {
            rounded: self.rounded@,
            straightened: self.straightened@,
            moved: self.moved@,
            deleted_nodes: self.deleted_nodes@,
            deleted: removal_views(self.deleted@),
            prep: self.prep@,
            conversion: self.conversion,
            curves: self.curves,
            sticker: self.sticker,
        }
    }
}

/// What a conversion was started with: the preparation and the settings.
#[derive(Debug)]
pub struct Inputs {
    pub prep: Preparation,
    pub settings: ConversionSettings,
}

#[verifier::ext_equal]
pub struct InputsView {
    pub prep: PreparationView,
    pub settings: ConversionSettings,
}

impl View for Inputs {
    type V = InputsView;

    open spec fn view(&self) -> InputsView {
        InputsView { prep: self.prep@, settings: self.settings }
    }
}

/// The same values in a list of its own.
pub fn copied<T: Copy>(list: &Vec<T>) -> (copy: Vec<T>)
    ensures
        copy@ == list@,
{
    let mut copy: Vec<T> = Vec::new();
    let mut i: usize = 0;
    while i < list.len()
        invariant
            i <= list@.len(),
            copy@ == list@.take(i as int),
        decreases list@.len() - i,
    {
        copy.push(list[i]);
        assert(copy@ =~= list@.take(i + 1));
        i = i + 1;
    }
    assert(copy@ =~= list@);
    copy
}

pub fn copy_removals(list: &Vec<Removal>) -> (copy: Vec<Removal>)
    ensures
        removal_views(copy@) == removal_views(list@),
{
    let mut copy: Vec<Removal> = Vec::new();
    let mut i: usize = 0;
    while i < list.len()
        invariant
            i <= list@.len(),
            copy@.len() == i,
            forall|j: int| 0 <= j < i ==> (#[trigger] copy@[j])@ == list@[j]@,
        decreases list@.len() - i,
    {
        copy.push(copy_removal(&list[i]));
        i = i + 1;
    }
    assert(removal_views(copy@) =~= removal_views(list@));
    copy
}

pub fn copy_recolors(list: &Vec<Recolor>) -> (copy: Vec<Recolor>)
    ensures
        recolor_views(copy@) == recolor_views(list@),
{
    let mut copy: Vec<Recolor> = Vec::new();
    let mut i: usize = 0;
    while i < list.len()
        invariant
            i <= list@.len(),
            copy@.len() == i,
            forall|j: int| 0 <= j < i ==> (#[trigger] copy@[j])@ == list@[j]@,
        decreases list@.len() - i,
    {
        let r = &list[i];
        copy.push(Recolor { pixels: copied(&r.pixels), rgb: r.rgb, alpha: r.alpha });
        i = i + 1;
    }
    assert(recolor_views(copy@) =~= recolor_views(list@));
    copy
}

fn same_pixels(a: &Vec<u32>, b: &Vec<u32>) -> (same: bool)
    ensures
        same == (a@ == b@),
{
    if a.len() != b.len() {
        return false;
    }
    let mut i: usize = 0;
    while i < a.len()
        invariant
            i <= a@.len() == b@.len(),
            forall|j: int| 0 <= j < i ==> #[trigger] a@[j] == b@[j],
        decreases a@.len() - i,
    {
        if a[i] != b[i] {
            assert(a@[i as int] != b@[i as int]);
            return false;
        }
        i = i + 1;
    }
    assert(a@ =~= b@);
    true
}

fn same_recolor(a: &Recolor, b: &Recolor) -> (same: bool)
    ensures
        same == (a@ == b@),
{
    let rgb = a.rgb[0] == b.rgb[0] && a.rgb[1] == b.rgb[1] && a.rgb[2] == b.rgb[2];
    assert(rgb == (a.rgb@ == b.rgb@)) by {
        if rgb {
            assert(a.rgb@ =~= b.rgb@);
        }
    }
    let alpha = match (a.alpha, b.alpha) {
        (Some(x), Some(y)) => x == y,
        (None, None) => true,
        _ => false,
    };
    rgb && alpha && same_pixels(&a.pixels, &b.pixels)
}

/// Whether two lists recolour the same pixels in the same way.
pub fn same_recolors(a: &Vec<Recolor>, b: &Vec<Recolor>) -> (same: bool)
    ensures
        same == (recolor_views(a@) == recolor_views(b@)),
{
    if a.len() != b.len() {
        assert(recolor_views(a@).len() != recolor_views(b@).len());
        return false;
    }
    let mut i: usize = 0;
    while i < a.len()
        invariant
            i <= a@.len() == b@.len(),
            forall|j: int| 0 <= j < i ==> (#[trigger] a@[j])@ == b@[j]@,
        decreases a@.len() - i,
    {
        if !same_recolor(&a[i], &b[i]) {
            assert(recolor_views(a@)[i as int] != recolor_views(b@)[i as int]);
            return false;
        }
        i = i + 1;
    }
    assert(recolor_views(a@) =~= recolor_views(b@));
    true
}

pub fn same_removals(a: &Vec<Removal>, b: &Vec<Removal>) -> (same: bool)
    ensures
        same == (removal_views(a@) == removal_views(b@)),
{
    if a.len() != b.len() {
        assert(removal_views(a@).len() != removal_views(b@).len());
        return false;
    }
    let mut i: usize = 0;
    while i < a.len()
        invariant
            i <= a@.len() == b@.len(),
            forall|j: int| 0 <= j < i ==> (#[trigger] a@[j])@ == b@[j]@,
        decreases a@.len() - i,
    {
        if !(a[i].color == b[i].color && same_point(&a[i].at, &b[i].at)) {
            assert(removal_views(a@)[i as int] != removal_views(b@)[i as int]);
            return false;
        }
        i = i + 1;
    }
    assert(removal_views(a@) =~= removal_views(b@));
    true
}

pub fn same_points(a: &Vec<Point>, b: &Vec<Point>) -> (same: bool)
    ensures
        same == (a@ == b@),
{
    if a.len() != b.len() {
        return false;
    }
    let mut i: usize = 0;
    while i < a.len()
        invariant
            i <= a@.len() == b@.len(),
            forall|j: int| 0 <= j < i ==> #[trigger] a@[j] == b@[j],
        decreases a@.len() - i,
    {
        if a[i] != b[i] {
            assert(a@[i as int] != b@[i as int]);
            return false;
        }
        i = i + 1;
    }
    assert(a@ =~= b@);
    true
}

pub fn same_moves(a: &Vec<NodeMove>, b: &Vec<NodeMove>) -> (same: bool)
    ensures
        same == (a@ == b@),
{
    if a.len() != b.len() {
        return false;
    }
    let mut i: usize = 0;
    while i < a.len()
        invariant
            i <= a@.len() == b@.len(),
            forall|j: int| 0 <= j < i ==> #[trigger] a@[j] == b@[j],
        decreases a@.len() - i,
    {
        if a[i] != b[i] {
            assert(a@[i as int] != b@[i as int]);
            return false;
        }
        i = i + 1;
    }
    assert(a@ =~= b@);
    true
}

pub fn same_roundings(a: &Vec<Rounded>, b: &Vec<Rounded>) -> (same: bool)
    ensures
        same == (a@ == b@),
{
    if a.len() != b.len() {
        return false;
    }
    let mut i: usize = 0;
    while i < a.len()
        invariant
            i <= a@.len() == b@.len(),
            forall|j: int| 0 <= j < i ==> #[trigger] a@[j] == b@[j],
        decreases a@.len() - i,
    {
        if a[i] != b[i] {
            assert(a@[i as int] != b@[i as int]);
            return false;
        }
        i = i + 1;
    }
    assert(a@ =~= b@);
    true
}

impl PreparationView {
    /// Nothing is done to the picture.
    pub open spec fn is_identity(self) -> bool {
        self.colors is None && self.background is None && self.recolors.len() == 0
    }

    pub open spec fn empty() -> PreparationView {
        PreparationView { colors: None, background: None, recolors: Seq::empty() }
    }
}

impl Preparation {
    pub fn new() -> (prep: Preparation)
        ensures
            prep@ == PreparationView::empty(),
    {
        let prep = Preparation { colors: None, background: None, recolors: Vec::new() };
        assert(recolor_views(prep.recolors@) =~= Seq::<RecolorView>::empty());
        prep
    }

    /// Whether nothing is done to the picture.
    pub fn is_identity(&self) -> (yes: bool)
        ensures
            yes == self@.is_identity(),
    {
        self.colors.is_none() && self.background.is_none() && self.recolors.len() == 0
    }

    pub fn copy(&self) -> (copy: Preparation)
        ensures
            copy@ == self@,
    {
        Preparation {
            colors: self.colors,
            background: self.background,
            recolors: copy_recolors(&self.recolors),
        }
    }

    pub fn is_same(&self, other: &Preparation) -> (same: bool)
        ensures
            same == (self@ == other@),
    {
        let colors = match (self.colors, other.colors) {
            (Some(a), Some(b)) => a == b,
            (None, None) => true,
            _ => false,
        };
        let background = match (self.background, other.background) {
            (Some(a), Some(b)) => a == b,
            (None, None) => true,
            _ => false,
        };
        colors && background && same_recolors(&self.recolors, &other.recolors)
    }
}

impl ConversionSettings {
    pub fn is_same(&self, other: &ConversionSettings) -> (same: bool)
        ensures
            same == (*self == *other),
    {
        let manual = match (self.manual, other.manual) {
            (Some(a), Some(b)) => a == b,
            (None, None) => true,
            _ => false,
        };
        let sliders = match (self.sliders, other.sliders) {
            (Some(a), Some(b)) => a == b,
            (None, None) => true,
            _ => false,
        };
        manual && sliders && self.automatic == other.automatic && self.overlap_opaque_photos
            == other.overlap_opaque_photos && self.optional_optimizer == other.optional_optimizer
    }
}

impl Inputs {
    pub fn is_same(&self, other: &Inputs) -> (same: bool)
        ensures
            same == (self@ == other@),
    {
        self.settings.is_same(&other.settings) && self.prep.is_same(&other.prep)
    }

    pub fn copy(&self) -> (copy: Inputs)
        ensures
            copy@ == self@,
    {
        Inputs { prep: self.prep.copy(), settings: self.settings }
    }
}

impl Edits {
    pub fn copy(&self) -> (copy: Edits)
        ensures
            copy@ == self@,
    {
        Edits {
            rounded: copied(&self.rounded),
            straightened: copied(&self.straightened),
            moved: copied(&self.moved),
            deleted_nodes: copied(&self.deleted_nodes),
            deleted: copy_removals(&self.deleted),
            prep: self.prep.copy(),
            conversion: self.conversion,
            curves: self.curves,
            sticker: self.sticker,
        }
    }

    pub fn is_same(&self, other: &Edits) -> (same: bool)
        ensures
            same == (self@ == other@),
    {
        same_roundings(&self.rounded, &other.rounded) && same_points(
            &self.straightened,
            &other.straightened,
        ) && same_moves(&self.moved, &other.moved) && same_points(
            &self.deleted_nodes,
            &other.deleted_nodes,
        ) && same_removals(&self.deleted, &other.deleted) && self.prep.is_same(&other.prep)
            && self.conversion.is_same(&other.conversion) && self.curves == other.curves
            && self.sticker == other.sticker
    }
}

} // verus!
