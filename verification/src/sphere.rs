//! Spheres, and the part of the ray-sphere test that needs no arithmetic:
//! which of the two roots of the quadratic is the hit, and what the record
//! of the hit holds.

use vstd::prelude::*;
use crate::hittable::HitRecord;
use crate::vec3::{negated, negative, Scalar, Vec3, INFINITY, NEGATIVE_ZERO, ZERO};

verus! {

/// A sphere. A negative radius turns the surface inside out: the normals
/// point to the centre, as on the inner wall of a hollow ball.
#[derive(Clone, Copy, Debug, PartialEq, Eq, Structural)]
pub struct Sphere {
    pub center: Vec3,
    pub radius: Scalar,
    /// The handle of the sphere's material in the registry.
    pub material: i64,
}

impl Sphere {
    pub fn new(_center: Vec3, _radius: Scalar, material: &i64) -> (s: Sphere)
        ensures
            s == (Sphere { center: _center, radius: _radius, material: *material }),
    {
        Sphere { center: _center, radius: _radius, material: *material }
    }

    pub fn new_box(_center: Vec3, _radius: Scalar, material: &i64) -> (s: Box<Sphere>)
        ensures
            *s == (Sphere { center: _center, radius: _radius, material: *material }),
    {
        Box::new(Sphere { center: _center, radius: _radius, material: *material })
    }

    /// The sphere has no extent: its radius is zero. Nothing hits such a
    /// sphere.
    pub fn is_point(&self) -> (r: bool)
        ensures
            r == (self.radius == ZERO || self.radius == NEGATIVE_ZERO),
    {
        self.radius == ZERO || self.radius == NEGATIVE_ZERO
    }

    /// The record of a hit on this sphere at the distance `root`. `point`
    /// is the point of the ray at that distance, `outward_normal` the
    /// normal of the sphere there, `facing` the dot product of the ray's
    /// direction and that normal, and `tex_u` and `tex_v` the texture
    /// coordinates of the point. The normal of the record is turned
    /// against the ray.
    pub fn record(
        &self,
        root: Scalar,
        point: Vec3,
        outward_normal: Vec3,
        facing: Scalar,
        tex_u: Scalar,
        tex_v: Scalar,
    ) -> (rec: HitRecord)
        ensures
            rec == (HitRecord {
                point,
                normal: if negative(facing) {
                    outward_normal
                } else {
                    Vec3 {
                        x: negated(outward_normal.x),
                        y: negated(outward_normal.y),
                        z: negated(outward_normal.z),
                    }
                },
                trace_len: root,
                front_face: negative(facing),
                material: self.material,
                tex_u,
                tex_v,
            }),
    {
        let mut rec = HitRecord::default();
        rec.trace_len = root;
        rec.point = point;
        rec.set_face_normal(facing, &outward_normal);
        rec.material = self.material;
        rec.tex_u = tex_u;
        rec.tex_v = tex_v;
        rec
    }
}

/// The quadratic of a ray and a sphere has roots: its leading coefficient
/// `a`, the squared length of the ray's direction, is above zero, and its
/// discriminant is not below zero. Both are numbers: what a division of
/// zero by zero leaves is neither.
pub open spec fn solvable(a: Scalar, discriminant: Scalar) -> bool {
    ZERO < a <= INFINITY && NEGATIVE_ZERO <= discriminant <= INFINITY
}

/// Whether the quadratic has roots. Without them the ray misses the
/// sphere, or has no direction to go in.
pub fn has_roots(a: Scalar, discriminant: Scalar) -> (r: bool)
    ensures
        r == solvable(a, discriminant),
{
    ZERO < a && a <= INFINITY && NEGATIVE_ZERO <= discriminant && discriminant <= INFINITY
}

/// `t` lies in `[t_min, t_max]`.
pub open spec fn in_range(t: Scalar, t_min: Scalar, t_max: Scalar) -> bool {
    t_min <= t <= t_max
}

/// The root that counts as the hit: the nearer one where it lies in the
/// interval, else the farther one where that does, else none.
pub open spec fn chosen_root(near: Scalar, far: Scalar, t_min: Scalar, t_max: Scalar) -> Option<
    Scalar,
> {
    if in_range(near, t_min, t_max) {
        Some(near)
    } else if in_range(far, t_min, t_max) {
        Some(far)
    } else {
        None
    }
}

/// Chooses between the two distances at which a ray crosses a sphere, the
/// nearer given first.
pub fn select_root(near: Scalar, far: Scalar, t_min: Scalar, t_max: Scalar) -> (root: Option<
    Scalar,
>)
    ensures
        root == chosen_root(near, far, t_min, t_max),
{
    let mut root = near;
    if root < t_min || t_max < root {
        root = far;
        if root < t_min || t_max < root {
            return None;
        }
    }
    Some(root)
}

/// Where the roots are in order, the chosen root is the least root in the
/// interval: a root that was passed over lies outside it or behind the
/// chosen one.
pub proof fn lemma_chosen_root_is_least(near: Scalar, far: Scalar, t_min: Scalar, t_max: Scalar)
    requires
        near <= far,
    ensures
        chosen_root(near, far, t_min, t_max) matches Some(t) ==> in_range(t, t_min, t_max) && (t
            == near || t == far) && (in_range(near, t_min, t_max) ==> t <= near),
        chosen_root(near, far, t_min, t_max).is_none() ==> !in_range(near, t_min, t_max)
            && !in_range(far, t_min, t_max),
        forall|shorter: Scalar|
            shorter <= t_max ==> #[trigger] chosen_root(near, far, t_min, shorter) == (match chosen_root(
                near,
                far,
                t_min,
                t_max,
            ) {
                Some(t) => if t <= shorter {
                    Some(t)
                } else {
                    None
                },
                None => None,
            }),
{
}

} // verus!
