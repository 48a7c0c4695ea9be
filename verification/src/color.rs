//! Colours.

use vstd::prelude::*;

verus! {

/// One pixel: red, green, blue and alpha, eight bits each.
#[derive(Debug, Copy, Clone, PartialEq, Eq, Structural)]
pub struct Rgba {
    pub r: u8,
    pub g: u8,
    pub b: u8,
    pub a: u8,
}

impl Rgba {
    /// The fully opaque colour with the given channels.
    pub open spec fn opaque(r: u8, g: u8, b: u8) -> Rgba {
        Rgba { r, g, b, a: 255 }
    }

    /// Opaque black, the colour of a fresh canvas.
    pub open spec fn black() -> Rgba {
        Rgba { r: 0, g: 0, b: 0, a: 255 }
    }

    /// The channel with the given index: 0 red, 1 green, 2 blue, else alpha.
    pub open spec fn channel(&self, index: int) -> u8 {
        if index == 0 {
            self.r
        } else if index == 1 {
            self.g
        } else if index == 2 {
            self.b
        } else {
            self.a
        }
    }
}

} // verus!
