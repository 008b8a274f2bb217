//! Colours of the output image.

use vstd::prelude::*;

verus! {

/// One pixel's colour: red, green and blue, a byte each.
#[derive(Clone, Copy, Debug, PartialEq, Eq, Structural)]
pub struct Color {
    pub r: u8,
    pub g: u8,
    pub b: u8,
}

impl Color {
    /// The colour of a point that never escaped.
    pub open spec fn spec_black() -> Color {
        Color { r: 0, g: 0, b: 0 }
    }

    /// The colour of a point that never escaped.
    #[verifier::when_used_as_spec(spec_black)]
    pub fn black() -> (c: Color)
        ensures
            c == Color::spec_black(),
    {
        Color { r: 0, g: 0, b: 0 }
    }

    /// Whether this is exactly black.
    pub fn is_black(&self) -> (b: bool)
        ensures
            b == (*self == Color::spec_black()),
    {
        self.r == 0 && self.g == 0 && self.b == 0
    }
}

} // verus!
