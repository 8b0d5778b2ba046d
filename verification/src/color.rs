use vstd::prelude::*;

verus! {

/// An RGB color with one integer channel per component.
///
/// The PPM text format stores each channel as a decimal integer, so this
/// is the value type the writer consumes. Channels are signed and are not
/// clamped to the 0..=255 range the format declares: the writer emits
/// whatever it is handed, and the producer of a buffer is responsible for
/// keeping channels in range.
#[derive(Clone, Copy, Debug, PartialEq, Eq, Structural)]
pub struct Color {
    pub r: i32,
    pub g: i32,
    pub b: i32,
}

impl Color {
    /// Returns a new color from the three channel values.
    pub fn new(r: i32, g: i32, b: i32) -> (c: Color)
        ensures
            c == (Color { r, g, b }),
    {
        Color { r, g, b }
    }
}

} // verus!
