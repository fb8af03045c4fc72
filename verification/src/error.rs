//! The ways in which a render or its output can be refused.

use vstd::prelude::*;

verus! {

/// Why a render was not set up, or why its result is not written.
#[derive(Clone, Copy, Debug, PartialEq, Eq, Structural)]
pub enum RenderError {
    /// The image's height, rounded from its width and the aspect ratio,
    /// is not a pixel count that an image can have.
    InvalidDimensions,
    /// The output path's extension does not name the raster format.
    UnrecognizedOutputFormat,
}

} // verus!
