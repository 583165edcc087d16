//! The scene graph, the path control and the scanline scheduling of a Monte
//! Carlo ray tracer, with the contracts that they are proved to meet.
//!
//! Geometry enters through the [`hittable::Hittable`] trait and leaves as
//! hit records; what this crate decides on the way (which hit is nearest,
//! which subtree can be skipped, when a path ends, where a row goes in the
//! image) is stated over ordered scalar keys and proved.

pub mod aabb;
pub mod bvh_node;
pub mod color;
pub mod error;
pub mod hittable;
pub mod integrator;
pub mod material;
pub mod mats;
pub mod rand_double;
pub mod ray;
pub mod scenes;
pub mod scheduler;
pub mod sort;
pub mod sphere;
pub mod triangle;
pub mod vec3;
