//! Colour swatches: a colour and the number of pixels it stands for.

use vstd::prelude::*;

use crate::color::{hex_string, Rgb};

verus! {

/// A colour swatch extracted from an image: the dominant colour and the
/// number of pixels assigned to it.
#[derive(Debug, Clone, Copy, PartialEq, Eq, Structural)]
pub struct Swatch {
    pub color: Rgb,
    pub population: u32,
}

impl Swatch {
    pub fn new(color: Rgb, population: u32) -> (s: Self)
        ensures
            s == (Swatch { color, population }),
    {
        Swatch { color, population }
    }

    /// Returns the colour as a lowercase hex string (e.g. `"#ff0000"`).
    pub fn hex(&self) -> (s: String)
        ensures
            s@ == hex_string(self.color),
    {
        self.color.to_hex()
    }
}

} // verus!
