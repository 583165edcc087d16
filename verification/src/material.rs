//! What a surface does to the light that reaches it.

use vstd::prelude::*;
use rand_chacha::ChaCha20Rng;
use crate::color::Color;
use crate::hittable::HitRecord;
use crate::ray::Ray;
use crate::vec3::{Scalar, Vec3};

verus! {

/// What a material made of a ray.
#[derive(Clone, Copy, Debug, PartialEq, Eq, Structural)]
pub enum Scattering {
    /// The ray ends at the surface.
    Absorbed,
    /// The ray goes on as `scattered`, with `attenuation` left of its
    /// light.
    Scattered { attenuation: Color, scattered: Ray },
}

/// A material decides how a ray goes on from a hit, and how much light the
/// surface gives off by itself.
///
/// A material may draw its answer at random, so its answers are not named
/// but bounded: the two model functions say which answers the material can
/// give, and each method gives one of them. A material that does not say is
/// taken to be able to give any.
pub trait Material {
    /// Whether the material can make `outcome` of `ray_in` at the hit
    /// `rec`.
    open spec fn may_scatter(&self, ray_in: Ray, rec: HitRecord, outcome: Scattering) -> bool {
        true
    }

    /// Whether the material can give off `light` at the point `p`, whose
    /// texture coordinates are `u` and `v`.
    open spec fn may_emit(&self, u: Scalar, v: Scalar, p: Vec3, light: Color) -> bool {
        true
    }

    /// Scatters `ray_in` at the hit `rec`. `true` says that the ray goes
    /// on: `attenuation` then holds what is left of the light, channel by
    /// channel, and `scattered` the new ray. `false` says that the ray was
    /// absorbed. The outcome may depend on `rng`.
    fn scatter(
        &self,
        ray_in: &Ray,
        rec: &HitRecord,
        attenuation: &mut Color,
        scattered: &mut Ray,
        rng: &mut ChaCha20Rng,
    ) -> (goes_on: bool)
        ensures
            self.may_scatter(
                *ray_in,
                *rec,
                if goes_on {
                    Scattering::Scattered {
                        attenuation: *final(attenuation),
                        scattered: *final(scattered),
                    }
                } else {
                    Scattering::Absorbed
                },
            ),
    ;

    /// The light that the surface gives off at the point `p`, whose
    /// texture coordinates are `u` and `v`.
    fn emitted(&self, u: Scalar, v: Scalar, p: &Vec3) -> (light: Color)
        ensures
            self.may_emit(u, v, *p, light),
    ;
}

} // verus!
