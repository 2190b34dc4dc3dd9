//! Pictures as pixels, and what kind of picture one is.
use vstd::prelude::*;

verus! {

/// A picture: red, green, blue and alpha of every pixel, row by row.
#[derive(Debug)]
pub struct Raster {
    pub width: usize,
    pub height: usize,
    pub pixels: Vec<[u8; 4]>,
}

impl Raster {
    /// Every row has its pixels.
    pub open spec fn ok(self) -> bool {
        self.pixels@.len() == self.width * self.height
    }
}

/// What a picture shows.
#[derive(Clone, Copy, Debug, PartialEq, Eq, Structural)]
pub enum ImageCategory {
    AntiAliasedArtwork,
    AliasedArtwork,
    Photograph,
}

/// How well a picture was made.
#[derive(Clone, Copy, Debug, PartialEq, Eq, Structural)]
pub enum Quality {
    Low,
    Medium,
    High,
}

} // verus!
