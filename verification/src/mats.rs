//! The material registry: materials are registered once, during scene
//! setup, and from then on named by the handle that the registry gave them.

use vstd::prelude::*;
use rand_chacha::ChaCha20Rng;
use crate::color::Color;
use crate::hittable::HitRecord;
use crate::material::{Material, Scattering};
use crate::ray::Ray;
use crate::vec3::{above, is_above, Scalar, Vec3, ONE, ZERO};

verus! {

/// A light: a surface that gives off `emit` everywhere and scatters
/// nothing.
#[derive(Clone, Copy, Debug)]
pub struct DiffuseLight {
    pub emit: Color,
}

impl Material for DiffuseLight {
    open spec fn may_scatter(&self, ray_in: Ray, rec: HitRecord, outcome: Scattering) -> bool {
        outcome == Scattering::Absorbed
    }

    open spec fn may_emit(&self, u: Scalar, v: Scalar, p: Vec3, light: Color) -> bool {
        light == self.emit
    }

    /// Every ray is absorbed; `attenuation` and `scattered` stay as they
    /// were.
    fn scatter(
        &self,
        ray_in: &Ray,
        rec: &HitRecord,
        attenuation: &mut Color,
        scattered: &mut Ray,
        rng: &mut ChaCha20Rng,
    ) -> (goes_on: bool)
        ensures
            !goes_on,
            *final(attenuation) == *old(attenuation),
            *final(scattered) == *old(scattered),
    {
        false
    }

    fn emitted(&self, u: Scalar, v: Scalar, p: &Vec3) -> (light: Color)
        ensures
            light == self.emit,
    {
        self.emit
    }
}

/// The ray that leaves the hit `rec` in the direction `direction`, or
/// along the normal where that direction is too short to be one.
pub open spec fn leaving(rec: HitRecord, direction: Vec3) -> Ray {
    Ray {
        orig: rec.point,
        dir: if direction.is_near_zero() {
            rec.normal
        } else {
            direction
        },
    }
}

/// Makes the ray that leaves the hit `rec` in the direction `direction`.
pub fn leave(rec: &HitRecord, direction: Vec3) -> (ray: Ray)
    ensures
        ray == leaving(*rec, direction),
{
    if direction.near_zero() {
        Ray::new(rec.point, rec.normal)
    } else {
        Ray::new(rec.point, direction)
    }
}

/// Chalk: a surface that scatters every ray to a random side and leaves
/// `albedo` of its light.
#[derive(Clone, Copy, Debug)]
pub struct LambertianMat {
    pub albedo: Color,
}

impl LambertianMat {
    /// Scatters a ray at the hit `rec`. `scatter_dir` is the direction
    /// drawn for it: the normal plus a random vector of the hemisphere
    /// about the normal. The ray always goes on, along that direction, or
    /// along the normal where the two cancel.
    pub fn scatter(&self, rec: &HitRecord, scatter_dir: Vec3) -> (out: Scattering)
        ensures
            out == (Scattering::Scattered {
                attenuation: self.albedo,
                scattered: leaving(*rec, scatter_dir),
            }),
    {
        Scattering::Scattered { attenuation: self.albedo, scattered: leave(rec, scatter_dir) }
    }
}

/// Metal: a mirror of the colour `albedo`, blurred by `fuzz`.
#[derive(Clone, Copy, Debug)]
pub struct MetalMat {
    pub albedo: Color,
    pub fuzz: Scalar,
}

impl MetalMat {
    /// Scatters a ray at the hit `rec`. `direction` is the direction drawn
    /// for it: the mirror image of the incoming one, plus `fuzz` times a
    /// random vector of the unit ball. The ray always goes on along it,
    /// also where it points into the surface.
    pub fn scatter(&self, rec: &HitRecord, direction: Vec3) -> (out: Scattering)
        ensures
            out == (Scattering::Scattered {
                attenuation: self.albedo,
                scattered: Ray { orig: rec.point, dir: direction },
            }),
    {
        Scattering::Scattered {
            attenuation: self.albedo,
            scattered: Ray::new(rec.point, direction),
        }
    }
}

/// Glass: a clear surface that reflects or refracts, with the refractive
/// index `refract_index`.
#[derive(Clone, Copy, Debug)]
pub struct DielectricMat {
    pub refract_index: Scalar,
}

impl DielectricMat {
    /// The ray is reflected: it cannot be refracted, because the ratio of
    /// the refractive indices times the sine of the angle of incidence,
    /// `bend`, is above one; or the reflectance at that angle is above the
    /// number drawn, `draw`.
    pub open spec fn reflects(bend: Scalar, reflectance: Scalar, draw: Scalar) -> bool {
        above(bend, ONE) || above(reflectance, draw)
    }

    /// Scatters a ray at the hit `rec`, along `reflected` or along
    /// `refracted`. The ray always goes on, with all of its light.
    pub fn scatter(
        &self,
        rec: &HitRecord,
        reflected: Vec3,
        refracted: Vec3,
        bend: Scalar,
        reflectance: Scalar,
        draw: Scalar,
    ) -> (out: Scattering)
        ensures
            out == (Scattering::Scattered {
                attenuation: Color { r: ONE, g: ONE, b: ONE },
                scattered: Ray {
                    orig: rec.point,
                    dir: if Self::reflects(bend, reflectance, draw) {
                        reflected
                    } else {
                        refracted
                    },
                },
            }),
    {
        let direction = if is_above(bend, ONE) || is_above(reflectance, draw) {
            reflected
        } else {
            refracted
        };
        Scattering::Scattered {
            attenuation: Color::new_01_range(ONE, ONE, ONE),
            scattered: Ray::new(rec.point, direction),
        }
    }
}

/// A material for finding faults in geometry: it scatters as chalk does,
/// and colours a surface by the side from which it is seen.
#[derive(Clone, Copy, Debug)]
pub struct DebugFrontMat {}

impl DebugFrontMat {
    /// Red for a surface seen from the front, green for one seen from
    /// behind.
    pub open spec fn face_color(front_face: bool) -> Color {
        if front_face {
            Color { r: ONE, g: ZERO, b: ZERO }
        } else {
            Color { r: ZERO, g: ONE, b: ZERO }
        }
    }

    /// Scatters a ray at the hit `rec` as chalk does, along `scatter_dir`
    /// or along the normal, and leaves the colour of the side that was
    /// hit.
    pub fn scatter(&self, rec: &HitRecord, scatter_dir: Vec3) -> (out: Scattering)
        ensures
            out == (Scattering::Scattered {
                attenuation: Self::face_color(rec.front_face),
                scattered: leaving(*rec, scatter_dir),
            }),
    {
        let attenuation = if rec.front_face {
            Color::new_01_range(ONE, ZERO, ZERO)
        } else {
            Color::new_01_range(ZERO, ONE, ZERO)
        };
        Scattering::Scattered { attenuation, scattered: leave(rec, scatter_dir) }
    }
}

/// An append-only registry of materials. Handles are given out in order,
/// from zero, and a handle never changes what it names.
pub struct MatManager<M> {
    pub mat_map: Vec<M>,
}

impl<M> MatManager<M> {
    /// The registry holds a material under the handle `mat`.
    pub open spec fn holds(self, mat: i64) -> bool {
        0 <= mat < self.mat_map@.len()
    }

    /// The material under the handle `mat`.
    pub open spec fn material(self, mat: i64) -> M
        recommends
            self.holds(mat),
    {
        self.mat_map@[mat as int]
    }

    /// A registry with one material, `default_mat`, under the handle zero:
    /// the handle of a hit record that no primitive has written to.
    pub fn new(default_mat: M) -> (mats: MatManager<M>)
        ensures
            mats.mat_map@ == seq![default_mat],
    {
        let mut mat_map: Vec<M> = Vec::new();
        mat_map.push(default_mat);
        MatManager { mat_map }
    }

    /// Registers `mat` and returns its handle: the number of materials
    /// registered before it. The materials registered before keep their
    /// handles.
    pub fn gen_mat(&mut self, mat: M) -> (handle: i64)
        requires
            old(self).mat_map@.len() < i64::MAX,
        ensures
            handle == old(self).mat_map@.len(),
            final(self).mat_map@ == old(self).mat_map@.push(mat),
            final(self).holds(handle),
            final(self).material(handle) == mat,
            forall|id: i64|
                old(self).holds(id) ==> final(self).holds(id) && final(self).material(id) == old(
                    self,
                ).material(id),
    {
        let handle = self.mat_map.len() as i64;
        self.mat_map.push(mat);
        handle
    }

    /// The material under a handle that the registry gave out.
    pub fn get_mat(&self, mat: &i64) -> (m: &M)
        requires
            self.holds(*mat),
        ensures
            *m == self.material(*mat),
    {
        proof {
            assert(self.mat_map@.len() == self.mat_map.len());
        }
        let index = *mat as usize;
        &self.mat_map[index]
    }

    /// The material under the handle `mat`, if the registry holds one.
    pub fn find_mat(&self, mat: i64) -> (m: Option<&M>)
        ensures
            self.holds(mat) ==> m == Some(&self.material(mat)),
            !self.holds(mat) ==> m.is_none(),
    {
        if mat >= 0 && (mat as u64) < (self.mat_map.len() as u64) {
            let index = mat as usize;
            Some(&self.mat_map[index])
        } else {
            None
        }
    }
}

} // verus!
