//! Rays: an origin and a direction, carried from the camera to the
//! primitives.

use vstd::prelude::*;
use crate::vec3::Vec3;

verus! {

/// The ray `orig + t * dir`. The scene graph hands it on to the primitives
/// and never looks inside.
#[derive(Clone, Copy, Debug, PartialEq, Eq, Structural)]
pub struct Ray {
    pub orig: Vec3,
    pub dir: Vec3,
}

impl Ray {
    pub fn new(origin: Vec3, direction: Vec3) -> (r: Ray)
        ensures
            r == (Ray { orig: origin, dir: direction }),
    {
        Ray { orig: origin, dir: direction }
    }
}

} // verus!
