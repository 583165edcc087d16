//! Axis-aligned boxes: the union of two boxes, containment, and the slab
//! test on the parametric distances at which a ray crosses a box's planes.

use vstd::prelude::*;
use crate::hittable::Hittable;
use crate::ray::Ray;
use crate::vec3::{larger, max_of, min_of, smaller, Scalar, Vec3};

verus! {

/// An axis-aligned box, given by its two corners.
#[derive(Clone, Copy, Debug, PartialEq, Eq, Structural)]
pub struct AABB {
    pub min: Vec3,
    pub max: Vec3,
}

/// The distances along a ray at which it crosses the two planes that bound
/// a box on one axis.
///
/// `t0` belongs to the plane through the box's minimum corner and `t1` to
/// the one through its maximum corner. `reversed` says that the ray runs
/// against the axis, so that it enters through the second plane. A distance
/// that is undefined (the ray lies in the plane) is given as negative
/// infinity where it is the entry and as positive infinity where it is the
/// exit.
#[derive(Clone, Copy, Debug, PartialEq, Eq, Structural)]
pub struct Slab {
    pub t0: Scalar,
    pub t1: Scalar,
    pub reversed: bool,
}

/// The slabs of one ray and one box, axis by axis.
#[derive(Clone, Copy, Debug, PartialEq, Eq, Structural)]
pub struct Slabs {
    pub x: Slab,
    pub y: Slab,
    pub z: Slab,
}

impl Slab {
    /// The distance at which the ray enters the slab.
    pub open spec fn entry(self) -> Scalar {
        if self.reversed { self.t1 } else { self.t0 }
    }

    /// The distance at which the ray leaves the slab.
    pub open spec fn exit(self) -> Scalar {
        if self.reversed { self.t0 } else { self.t1 }
    }

    /// The part of `[lo, hi]` that lies in the slab: it starts at the
    /// later of `lo` and the entry, and ends at the earlier of `hi` and the
    /// exit.
    pub fn narrow(&self, lo: Scalar, hi: Scalar) -> (part: (Scalar, Scalar))
        ensures
            part.0 == max_of(lo, self.entry()),
            part.1 == min_of(hi, self.exit()),
    {
        if self.reversed {
            (larger(lo, self.t1), smaller(hi, self.t0))
        } else {
            (larger(lo, self.t0), smaller(hi, self.t1))
        }
    }
}

impl Slabs {
    /// The start of the part of `[t_min, ..]` that lies in all three slabs.
    pub open spec fn lower(self, t_min: Scalar) -> Scalar {
        max_of(max_of(max_of(t_min, self.x.entry()), self.y.entry()), self.z.entry())
    }

    /// The end of the part of `[.., t_max]` that lies in all three slabs.
    pub open spec fn upper(self, t_max: Scalar) -> Scalar {
        min_of(min_of(min_of(t_max, self.x.exit()), self.y.exit()), self.z.exit())
    }

    /// The ray is inside all three slabs at once over a stretch of
    /// `[t_min, t_max]` that is more than a point.
    pub open spec fn overlaps(self, t_min: Scalar, t_max: Scalar) -> bool {
        self.lower(t_min) < self.upper(t_max)
    }

    /// The slab test: narrows `[t_min, t_max]` axis by axis and gives up as
    /// soon as nothing is left.
    pub fn hit(&self, t_min: Scalar, t_max: Scalar) -> (r: bool)
        ensures
            r == self.overlaps(t_min, t_max),
    {
        let (lo, hi) = self.x.narrow(t_min, t_max);
        if hi <= lo {
            return false;
        }
        let (lo, hi) = self.y.narrow(lo, hi);
        if hi <= lo {
            return false;
        }
        let (lo, hi) = self.z.narrow(lo, hi);
        if hi <= lo {
            return false;
        }
        true
    }

    /// A ray that is inside every slab at `t_min`, and stays there for a
    /// while, passes the slab test on any interval that starts at `t_min`
    /// and is more than a point. This is the case of a ray whose origin lies
    /// inside the box, with `t_min` zero.
    pub proof fn lemma_hit_from_inside(self, t_min: Scalar, t_max: Scalar)
        requires
            t_min < t_max,
            self.x.entry() <= t_min < self.x.exit(),
            self.y.entry() <= t_min < self.y.exit(),
            self.z.entry() <= t_min < self.z.exit(),
        ensures
            self.overlaps(t_min, t_max),
    {
    }

    /// A ray that has left one of the slabs by `t_min` fails the slab test.
    /// This is the case of a box that lies behind the ray's origin.
    pub proof fn lemma_miss_behind(self, t_min: Scalar, t_max: Scalar)
        requires
            self.x.exit() <= t_min || self.y.exit() <= t_min || self.z.exit() <= t_min,
        ensures
            !self.overlaps(t_min, t_max),
    {
    }
}

impl AABB {
    /// `self` reaches at least as far as `inner` in every direction.
    pub open spec fn contains_box(self, inner: AABB) -> bool {
        &&& self.min.x <= inner.min.x
        &&& self.min.y <= inner.min.y
        &&& self.min.z <= inner.min.z
        &&& inner.max.x <= self.max.x
        &&& inner.max.y <= self.max.y
        &&& inner.max.z <= self.max.z
    }

    /// The box with the smaller of the two minimum corners and the larger
    /// of the two maximum corners, component by component.
    pub open spec fn union(self, other: AABB) -> AABB {
        AABB {
            min: Vec3 {
                x: min_of(self.min.x, other.min.x),
                y: min_of(self.min.y, other.min.y),
                z: min_of(self.min.z, other.min.z),
            },
            max: Vec3 {
                x: max_of(self.max.x, other.max.x),
                y: max_of(self.max.y, other.max.y),
                z: max_of(self.max.z, other.max.z),
            },
        }
    }

    /// Whether `ray` runs inside the box over a stretch of
    /// `[t_min, t_max]`: the slab test, on the distances that `H` computes
    /// for the ray and the box.
    pub fn hit<H: Hittable>(&self, ray: &Ray, t_min: Scalar, t_max: Scalar) -> (r: bool)
        ensures
            r == H::slabs_model(*self, *ray).overlaps(t_min, t_max),
    {
        H::slabs(self, ray).hit(t_min, t_max)
    }

    /// The smallest box that encloses both `b1` and `b2`.
    pub fn surrounding_box(b1: &AABB, b2: &AABB) -> (out: AABB)
        ensures
            out == b1.union(*b2),
    {
        AABB {
            min: Vec3::new(
                smaller(b1.min.x, b2.min.x),
                smaller(b1.min.y, b2.min.y),
                smaller(b1.min.z, b2.min.z),
            ),
            max: Vec3::new(
                larger(b1.max.x, b2.max.x),
                larger(b1.max.y, b2.max.y),
                larger(b1.max.z, b2.max.z),
            ),
        }
    }

    /// The union encloses both boxes, and every box that encloses both
    /// encloses the union.
    pub proof fn lemma_union_is_least(self, other: AABB, outer: AABB)
        ensures
            self.union(other).contains_box(self),
            self.union(other).contains_box(other),
            outer.contains_box(self) && outer.contains_box(other) ==> outer.contains_box(
                self.union(other),
            ),
    {
    }
}

} // verus!
