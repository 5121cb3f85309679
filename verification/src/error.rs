//! What can go wrong between a scene and its image.

use vstd::prelude::*;

verus! {

/// The reasons for which no image is made.
#[derive(Clone, Copy, PartialEq, Eq, Debug, Structural)]
pub enum RenderError {
    /// What was measured of a ray against node `node` is not a number: a
    /// ray without direction, a transform that cannot be inverted.
    DegenerateGeometry { node: usize },
    /// The camera's image does not fit in memory.
    ImageTooLarge,
}

impl RenderError {
    /// A short description of the error.
    pub fn describe(&self) -> (text: &'static str)
        ensures
            text@ == match *self {
                RenderError::DegenerateGeometry { .. } => "degenerate geometry"@,
                RenderError::ImageTooLarge => "image too large"@,
            },
    {
        match self {
            RenderError::DegenerateGeometry { .. } => "degenerate geometry",
            RenderError::ImageTooLarge => "image too large",
        }
    }
}

} // verus!
