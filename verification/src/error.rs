//! The failures that end a render.

use vstd::prelude::*;

verus! {

/// The part of a render in which a failure was found.
#[derive(Clone, Copy, Debug, PartialEq, Eq, Structural)]
pub enum Stage {
    Setup,
    Trace,
    Merge,
}

/// A fault in the structure of a render. None of them is recovered from: to
/// go on would give a wrong image.
#[derive(Clone, Copy, Debug, PartialEq, Eq, Structural)]
pub enum RenderError {
    /// An object that was to go into a bounding-volume hierarchy has no
    /// bounding box. `index` is its place in the list of objects.
    MissingBounds { index: usize },
    /// A hit names a material that the registry does not hold.
    UnknownMaterial { id: i64 },
    /// The rows that came back do not make up the image: `expected` bytes
    /// were due, and `actual` came.
    BufferSizeMismatch { expected: u128, actual: usize },
}

impl RenderError {
    /// The stage that the failure belongs to.
    pub open spec fn stage_of(self) -> Stage {
        match self {
            RenderError::MissingBounds { .. } => Stage::Setup,
            RenderError::UnknownMaterial { .. } => Stage::Trace,
            RenderError::BufferSizeMismatch { .. } => Stage::Merge,
        }
    }

    pub fn stage(&self) -> (s: Stage)
        ensures
            s == self.stage_of(),
    {
        match self {
            RenderError::MissingBounds { .. } => Stage::Setup,
            RenderError::UnknownMaterial { .. } => Stage::Trace,
            RenderError::BufferSizeMismatch { .. } => Stage::Merge,
        }
    }
}

} // verus!
