//! Colours: linear red, green and blue.

use vstd::prelude::*;
use crate::vec3::{Scalar, ZERO};

verus! {

/// A colour, or an amount of light, channel by channel.
#[derive(Clone, Copy, Debug, PartialEq, Eq, Structural)]
pub struct Color {
    pub r: Scalar,
    pub g: Scalar,
    pub b: Scalar,
}

impl Color {
    /// No light at all.
    pub open spec fn black() -> Color {
        Color { r: ZERO, g: ZERO, b: ZERO }
    }

    /// The colour with the given channels, each on the scale from 0 to 1.
    pub fn new_01_range(r: Scalar, g: Scalar, b: Scalar) -> (c: Color)
        ensures
            c == (Color { r, g, b }),
    {
        Color { r, g, b }
    }
}

} // verus!
