use vstd::prelude::*;

use crate::color::Color;

verus! {

/// The one failure the serializer itself can detect: the pixel buffer
/// does not hold exactly `width * height` entries. Filesystem failures
/// are a concern of whoever persists the returned bytes, not of the
/// serializer, so they have no variant here.
#[derive(Clone, Copy, Debug, PartialEq, Eq, Structural)]
pub enum WriteError {
    InvalidData,
}

/// An image writer: turns an ordered, row-major pixel buffer into the
/// serialized bytes of an image file.
pub trait Writer {
    /// Serializes `data` (row 0 first, columns left to right within a
    /// row) and returns the file contents, or an error when the buffer
    /// does not match the writer's dimensions.
    fn write(&self, data: &[Color]) -> Result<Vec<u8>, WriteError>;
}

} // verus!
