//! Which pictures are shown, and what can be open over them.
use vstd::prelude::*;

verus! {

/// The two pictures next to each other, or one of them at a time.
#[derive(Clone, Copy, Debug, PartialEq, Eq, Structural)]
pub enum View {
    SideBySide,
    Overlay,
}

/// What can be open over the workspace.
#[derive(Clone, Copy, Debug, PartialEq, Eq, Structural)]
pub enum Overlay {
    Save,
    Size,
    Colors,
    NodeMenu,
    /// Shape editing on, the shape at the centre selected and its menu open.
    Shapes,
    /// The first-run question: personal or commercial use.
    Licence,
    /// The Appearance popup: light, dark or the system's.
    Appearance,
}

} // verus!
