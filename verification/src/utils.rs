//! Colours for drawing the overlay.

use vstd::prelude::*;

verus! {

/// A colour by its red, green, blue and alpha channels.
#[derive(Debug, Clone, Copy, PartialEq, Eq, Structural)]
pub struct Color {
    pub r: i32,
    pub g: i32,
    pub b: i32,
    pub a: i32,
}

impl Color {
    /// The colour with the given channels.
    pub fn rgba(r: i32, g: i32, b: i32, a: i32) -> (color: Color)
        ensures
            color == (Color { r, g, b, a }),
    {
        Color { r, g, b, a }
    }

    /// The channels in the order blue, green, red, alpha, in which the
    /// image library takes them.
    pub fn to_bgra(&self) -> (channels: (i32, i32, i32, i32))
        ensures
            channels == (self.b, self.g, self.r, self.a),
    {
        (self.b, self.g, self.r, self.a)
    }
}

/// The colour key that the overlay window treats as transparent: the
/// channels packed as the window uses them.
pub fn rgb(r: u32, g: u32, b: u32) -> (key: u32)
    ensures
        key == (b << 8 | g << 4 | r),
{
    b << 8 | g << 4 | r
}

} // verus!
