//! The scenes that can be rendered, as far as the image depends on them:
//! each scene fixes the shape of its image.

use vstd::prelude::*;

verus! {

/// The shape of an image: its width to its height.
#[derive(Clone, Copy, Debug, PartialEq, Eq, Structural)]
pub struct AspectRatio {
    pub width: u32,
    pub height: u32,
}

/// A scene to render.
pub trait Scene {
    /// The shape of the scene's image. Sixteen to nine unless the scene
    /// says otherwise.
    fn get_aspect_ratio(&self) -> (ratio: AspectRatio)
        ensures
            self.has_default_shape() ==> ratio == default_shape(),
    {
        AspectRatio { width: 16, height: 9 }
    }

    /// Whether the scene leaves the shape of its image at the default. A
    /// scene that does may say so here, and its shape is then known to be
    /// the default one. A scene that gives a shape of its own does not, and
    /// states that shape where it gives it.
    open spec fn has_default_shape(&self) -> bool {
        false
    }
}

/// The shape of an image whose scene does not say otherwise: sixteen to
/// nine.
pub open spec fn default_shape() -> AspectRatio {
    AspectRatio { width: 16, height: 9 }
}

/// One triangle, seen from below.
#[derive(Clone, Copy, Debug)]
pub struct CornellBox {}

/// Spheres of glass, metal and chalk on a large ground sphere, seen through
/// a lens with a short depth of field.
#[derive(Clone, Copy, Debug)]
pub struct DofSpheresGlass {}

/// A field of small random spheres around three large ones.
#[derive(Clone, Copy, Debug)]
pub struct RandomSpheres {}

impl Scene for CornellBox {
    fn get_aspect_ratio(&self) -> (ratio: AspectRatio)
        ensures
            ratio == (AspectRatio { width: 1, height: 1 }),
    {
        AspectRatio { width: 1, height: 1 }
    }
}

impl Scene for DofSpheresGlass {
    /// This scene keeps the default shape.
    open spec fn has_default_shape(&self) -> bool {
        true
    }
}

impl Scene for RandomSpheres {
    fn get_aspect_ratio(&self) -> (ratio: AspectRatio)
        ensures
            ratio == (AspectRatio { width: 3, height: 2 }),
    {
        AspectRatio { width: 3, height: 2 }
    }
}

/// The number of rows of an image that is `target_width` pixels wide and
/// has the shape `ratio`: the width divided by the ratio, rounded down and
/// held to what a `u32` can take. A ratio of zero height has no rows; one
/// of zero width has as many as there can be, unless the image has no width
/// either.
pub open spec fn rows_for(target_width: u32, ratio: AspectRatio) -> int {
    if ratio.height == 0 || target_width == 0 {
        0
    } else if ratio.width == 0 {
        u32::MAX as int
    } else if target_width * ratio.height / (ratio.width as int) > u32::MAX {
        u32::MAX as int
    } else {
        target_width * ratio.height / (ratio.width as int)
    }
}

/// The height in pixels of the image of the given width and shape.
pub fn target_height(target_width: u32, ratio: &AspectRatio) -> (rows: u32)
    ensures
        rows == rows_for(target_width, *ratio),
{
    if ratio.height == 0 || target_width == 0 {
        0
    } else if ratio.width == 0 {
        u32::MAX
    } else {
        proof {
            assert(target_width * ratio.height <= 0xFFFF_FFFF * 0xFFFF_FFFF) by (nonlinear_arith)
                requires
                    target_width <= 0xFFFF_FFFF,
                    ratio.height <= 0xFFFF_FFFF,
            ;
        }
        let rows: u64 = (target_width as u64) * (ratio.height as u64) / (ratio.width as u64);
        if rows > u32::MAX as u64 {
            u32::MAX
        } else {
            rows as u32
        }
    }
}

} // verus!
