//! Triangles, and the part of the ray-triangle test that needs no
//! arithmetic: whether the determinant, the barycentric coordinates and the
//! distance that the caller has computed make a hit, and what the record of
//! the hit holds.

use vstd::prelude::*;
use crate::aabb::AABB;
use crate::hittable::HitRecord;
use crate::sphere::in_range;
use crate::vec3::{negated, negative, Scalar, Vec3, EPSILON, INFINITY, NEGATIVE_ZERO, ONE};

verus! {

/// A triangle, given by its corners.
#[derive(Clone, Copy, Debug, PartialEq, Eq, Structural)]
pub struct Triangle {
    pub v0: Vec3,
    pub v1: Vec3,
    pub v2: Vec3,
    /// The handle of the triangle's material in the registry.
    pub material: i64,
}

impl Triangle {
    /// A triangle reports no box, and so takes no part in a hierarchy;
    /// `output_box` is left as it was.
    pub fn bounds(&self, output_box: &mut AABB) -> (found: bool)
        ensures
            !found,
            *final(output_box) == *old(output_box),
    {
        false
    }

    /// The record of the hit that `crossing` makes on this triangle.
    /// `point` is the point of the ray at the distance of the crossing,
    /// `outward_normal` the cross product of the two edges, and `facing`
    /// the dot product of the ray's direction and that normal. The
    /// barycentric coordinates become the texture coordinates, and the
    /// normal of the record is turned against the ray.
    pub fn record(&self, crossing: &Crossing, point: Vec3, outward_normal: Vec3, facing: Scalar) -> (rec:
        HitRecord)
        ensures
            rec == (HitRecord {
                point,
                normal: if negative(facing) {
                    outward_normal
                } else {
                    Vec3 {
                        x: negated(outward_normal.x),
                        y: negated(outward_normal.y),
                        z: negated(outward_normal.z),
                    }
                },
                trace_len: crossing.t,
                front_face: negative(facing),
                material: self.material,
                tex_u: crossing.u,
                tex_v: crossing.v,
            }),
    {
        let mut rec = HitRecord::default();
        rec.tex_u = crossing.u;
        rec.tex_v = crossing.v;
        rec.trace_len = crossing.t;
        rec.set_face_normal(facing, &outward_normal);
        rec.material = self.material;
        rec.point = point;
        rec
    }
}

/// What the Möller-Trumbore test computes for one ray and one triangle.
#[derive(Clone, Copy, Debug, PartialEq, Eq, Structural)]
pub struct Crossing {
    /// The determinant of the ray's direction and the two edges.
    pub det: Scalar,
    /// The first barycentric coordinate of the crossing point.
    pub u: Scalar,
    /// The second barycentric coordinate.
    pub v: Scalar,
    /// The sum of the two coordinates.
    pub u_plus_v: Scalar,
    /// The distance along the ray.
    pub t: Scalar,
}

impl Crossing {
    /// The ray meets the front of the triangle, inside it, at a distance in
    /// `[t_min, t_max]`. A determinant below `EPSILON` is a miss: the ray
    /// runs along the triangle's plane, or meets it from behind. The
    /// point is inside where neither coordinate is below zero and their sum
    /// is not above one; a coordinate that is no number is outside.
    pub open spec fn is_hit(self, t_min: Scalar, t_max: Scalar) -> bool {
        &&& EPSILON <= self.det <= INFINITY
        &&& NEGATIVE_ZERO <= self.u <= ONE
        &&& NEGATIVE_ZERO <= self.v <= ONE
        &&& NEGATIVE_ZERO <= self.u_plus_v <= ONE
        &&& in_range(self.t, t_min, t_max)
    }

    /// Decides whether the crossing is a hit, by the tests of `is_hit` in
    /// their order.
    pub fn accepts(&self, t_min: Scalar, t_max: Scalar) -> (hit: bool)
        ensures
            hit == self.is_hit(t_min, t_max),
    {
        if self.det < EPSILON || self.det > INFINITY {
            return false;
        }
        if self.u < NEGATIVE_ZERO || self.u > ONE {
            return false;
        }
        if self.v < NEGATIVE_ZERO || self.v > ONE {
            return false;
        }
        if self.u_plus_v < NEGATIVE_ZERO || self.u_plus_v > ONE {
            return false;
        }
        if self.t < t_min || t_max < self.t {
            return false;
        }
        true
    }
}

} // verus!
