use rand_chacha::rand_core::{RngCore, SeedableRng};
use rand_chacha::ChaCha20Rng;
use raytracer::aabb::{Slab, Slabs, AABB};
use raytracer::bvh_node::{BvhChildren, BvhNode};
use raytracer::error::RenderError;
use raytracer::hittable::{HitRecord, Hittable, HittableList};
use raytracer::rand_double::{axis_of, random_axis};
use raytracer::ray::Ray;
use raytracer::sphere::{has_roots, select_root, Sphere};
use raytracer::triangle::{Crossing, Triangle};
use raytracer::vec3::{Scalar, Vec3, EPSILON, INFINITY, NEAR_ZERO, ONE, TRACE_EPSILON, ZERO};

fn key(f: f32) -> Scalar {
    let bits = f.to_bits() as i32;
    if bits < 0 {
        bits ^ 0x7FFF_FFFF
    } else {
        bits
    }
}

fn val(k: Scalar) -> f32 {
    f32::from_bits((if k < 0 { k ^ 0x7FFF_FFFF } else { k }) as u32)
}

fn keys(v: [f32; 3]) -> Vec3 {
    Vec3::new(key(v[0]), key(v[1]), key(v[2]))
}

fn vals(v: &Vec3) -> [f32; 3] {
    [val(v.x), val(v.y), val(v.z)]
}

fn dot(a: [f32; 3], b: [f32; 3]) -> f32 {
    a[0] * b[0] + a[1] * b[1] + a[2] * b[2]
}

fn sub(a: [f32; 3], b: [f32; 3]) -> [f32; 3] {
    [a[0] - b[0], a[1] - b[1], a[2] - b[2]]
}

fn along(o: [f32; 3], d: [f32; 3], t: f32) -> [f32; 3] {
    [o[0] + t * d[0], o[1] + t * d[1], o[2] + t * d[2]]
}

fn ray(orig: [f32; 3], dir: [f32; 3]) -> Ray {
    Ray::new(keys(orig), keys(dir))
}

/// The slabs of a ray and a box, by the arithmetic that a caller does.
fn slabs_of(bound: &AABB, r: &Ray) -> Slabs {
    let (min, max, orig, dir) = (vals(&bound.min), vals(&bound.max), vals(&r.orig), vals(&r.dir));
    let one = |i: usize| {
        let invd = 1.0 / dir[i];
        let reversed = invd < 0.0;
        let mut t0 = (min[i] - orig[i]) * invd;
        let mut t1 = (max[i] - orig[i]) * invd;
        if t0.is_nan() {
            t0 = if reversed { f32::INFINITY } else { f32::NEG_INFINITY };
        }
        if t1.is_nan() {
            t1 = if reversed { f32::NEG_INFINITY } else { f32::INFINITY };
        }
        Slab { t0: key(t0), t1: key(t1), reversed }
    };
    Slabs { x: one(0), y: one(1), z: one(2) }
}

/// A sphere in single precision, or a sheet that nothing hits and that has
/// no box.
#[derive(Clone, Copy, Debug, PartialEq)]
enum Shape {
    Ball { center: [f32; 3], radius: f32, material: i64 },
    Sheet,
}

fn ball(center: [f32; 3], radius: f32, material: i64) -> Shape {
    Shape::Ball { center, radius, material }
}

impl Hittable for Shape {
    fn hit_model(&self, r: Ray, trace_len_min: Scalar, trace_len_max: Scalar) -> Option<HitRecord> {
        let (center, radius, material) = match *self {
            Shape::Ball { center, radius, material } => (center, radius, material),
            Shape::Sheet => return None,
        };
        let (orig, dir) = (vals(&r.orig), vals(&r.dir));
        let oc = sub(orig, center);
        let a = dot(dir, dir);
        let b_half = dot(oc, dir);
        let c = dot(oc, oc) - radius * radius;
        let discriminant = b_half * b_half - a * c;
        if !(discriminant >= 0.0) || !(a > 0.0) {
            return None;
        }
        let sqrt_disc = discriminant.sqrt();
        let near = (-b_half - sqrt_disc) / a;
        let far = (-b_half + sqrt_disc) / a;
        let root = val(select_root(key(near), key(far), trace_len_min, trace_len_max)?);
        let point = along(orig, dir, root);
        let outward = [
            (point[0] - center[0]) / radius,
            (point[1] - center[1]) / radius,
            (point[2] - center[2]) / radius,
        ];
        let front_face = dot(dir, outward) < 0.0;
        let normal = if front_face { outward } else { [-outward[0], -outward[1], -outward[2]] };
        let pi = std::f32::consts::PI;
        Some(HitRecord {
            point: keys(point),
            normal: keys(normal),
            trace_len: key(root),
            front_face,
            material,
            tex_u: key((-outward[2]).atan2(-outward[0]) / (2.0 * pi)),
            tex_v: key((-outward[1]).acos() / pi),
        })
    }

    fn bounds_model(&self) -> Option<AABB> {
        match *self {
            Shape::Ball { center, radius, .. } => {
                let r = radius.abs();
                Some(AABB {
                    min: keys([center[0] - r, center[1] - r, center[2] - r]),
                    max: keys([center[0] + r, center[1] + r, center[2] + r]),
                })
            }
            Shape::Sheet => None,
        }
    }

    fn slabs_model(bound: AABB, r: Ray) -> Slabs {
        slabs_of(&bound, &r)
    }

    fn hit(&self, r: &Ray, trace_len_min: Scalar, trace_len_max: Scalar, rec: &mut HitRecord) -> bool {
        match self.hit_model(*r, trace_len_min, trace_len_max) {
            Some(found) => {
                *rec = found;
                true
            }
            None => false,
        }
    }

    fn bounds(&self, output_box: &mut AABB) -> bool {
        match self.bounds_model() {
            Some(found) => {
                *output_box = found;
                true
            }
            None => false,
        }
    }

    fn slabs(bound: &AABB, r: &Ray) -> Slabs {
        slabs_of(bound, r)
    }
}

fn unit(rng: &mut ChaCha20Rng) -> f32 {
    (rng.next_u64() >> 40) as f32 / (1u64 << 24) as f32
}

fn world(objs: Vec<Shape>) -> HittableList<Shape> {
    HittableList { objs }
}

fn blank() -> AABB {
    AABB { min: Vec3::new(0, 0, 0), max: Vec3::new(0, 0, 0) }
}

fn leaves(node: &BvhNode<Shape>, out: &mut Vec<Shape>) {
    match &node.children {
        BvhChildren::Leaf(object) => out.push(*object),
        BvhChildren::Pair(left, right) => {
            leaves(left, out);
            leaves(right, out);
        }
    }
}

/// Walks the tree and checks every box and every split; returns the number
/// of objects.
fn checked(node: &BvhNode<Shape>) -> usize {
    match &node.children {
        BvhChildren::Leaf(object) => {
            assert_eq!(object.bounds_model(), Some(node.bound));
            1
        }
        BvhChildren::Pair(left, right) => {
            let (n_left, n_right) = (checked(left), checked(right));
            assert_eq!(node.bound, AABB::surrounding_box(&left.bound, &right.bound));
            for child in [&left.bound, &right.bound] {
                assert!(node.bound.min.x <= child.min.x && child.max.x <= node.bound.max.x);
                assert!(node.bound.min.y <= child.min.y && child.max.y <= node.bound.max.y);
                assert!(node.bound.min.z <= child.min.z && child.max.z <= node.bound.max.z);
            }
            assert_eq!(n_left, (n_left + n_right) / 2);
            let (mut l, mut r) = (Vec::new(), Vec::new());
            leaves(left, &mut l);
            leaves(right, &mut r);
            let split_on = |axis: i8| {
                l.iter().all(|a| {
                    r.iter().all(|b| {
                        a.bounds_model().unwrap().min.idx(axis) <= b.bounds_model().unwrap().min.idx(axis)
                    })
                })
            };
            assert!(split_on(0) || split_on(1) || split_on(2));
            n_left + n_right
        }
    }
}

fn scattered_balls(n: usize, seed: u64) -> Vec<Shape> {
    let mut rng = ChaCha20Rng::seed_from_u64(seed);
    (0..n)
        .map(|i| {
            let center = [
                20.0 * unit(&mut rng) - 10.0,
                20.0 * unit(&mut rng) - 10.0,
                20.0 * unit(&mut rng) - 10.0,
            ];
            ball(center, 0.5 + 2.0 * unit(&mut rng), i as i64)
        })
        .collect()
}

#[test]
fn default_record_is_all_zero() {
    let rec = HitRecord::default();
    assert_eq!(rec.point, Vec3::new(ZERO, ZERO, ZERO));
    assert_eq!(rec.normal, Vec3::new(ZERO, ZERO, ZERO));
    assert_eq!(rec.trace_len, ZERO);
    assert!(!rec.front_face);
    assert_eq!(rec.material, 0);
    assert_eq!((rec.tex_u, rec.tex_v), (ZERO, ZERO));
}

#[test]
fn face_normal_is_turned_against_the_ray() {
    let outward = keys([0.0, 0.6, -0.8]);
    let mut rec = HitRecord::default();
    rec.material = 4;
    rec.trace_len = key(2.0);
    rec.set_face_normal(key(-0.3), &outward);
    assert!(rec.front_face);
    assert_eq!(rec.normal, outward);
    rec.set_face_normal(key(0.3), &outward);
    assert!(!rec.front_face);
    assert_eq!(vals(&rec.normal), [0.0, -0.6, 0.8]);
    rec.set_face_normal(key(0.0), &outward);
    assert!(!rec.front_face);
    rec.set_face_normal(key(-0.0), &outward);
    assert!(!rec.front_face);
    rec.set_face_normal(key(-1e-30), &outward);
    assert!(rec.front_face);
    rec.set_face_normal(key(-f32::NAN), &outward);
    assert!(!rec.front_face);
    assert_eq!((rec.material, rec.trace_len), (4, key(2.0)));
}

#[test]
fn box_is_hit_from_inside_and_missed_when_behind() {
    let bound = AABB { min: keys([-1.0, -1.0, -1.0]), max: keys([1.0, 1.0, 1.0]) };
    let mut rng = ChaCha20Rng::seed_from_u64(2);
    for _ in 0..200 {
        let orig = [1.8 * unit(&mut rng) - 0.9, 1.8 * unit(&mut rng) - 0.9, 1.8 * unit(&mut rng) - 0.9];
        let dir = [2.0 * unit(&mut rng) - 1.0, 2.0 * unit(&mut rng) - 1.0, 2.0 * unit(&mut rng) - 1.0];
        assert!(bound.hit::<Shape>(&ray(orig, dir), ZERO, INFINITY));
        let outside = [orig[0], orig[1], orig[2] + 5.0];
        assert!(!bound.hit::<Shape>(&ray(outside, [0.1 * dir[0], 0.1 * dir[1], 1.0]), ZERO, INFINITY));
        assert!(bound.hit::<Shape>(&ray(outside, [0.0, 0.0, -1.0]), ZERO, INFINITY));
    }
    let flat = AABB { min: keys([-1.0, 0.0, -1.0]), max: keys([1.0, 0.0, 1.0]) };
    assert!(!flat.hit::<Shape>(&ray([0.0, 1.0, 0.0], [0.0, -1.0, 0.0]), ZERO, INFINITY));
    assert!(!flat.hit::<Shape>(&ray([0.0, 1.0, 0.0], [1.0, 0.0, 0.0]), ZERO, INFINITY));
}

#[test]
fn sphere_is_made_of_its_parts() {
    let s = Sphere::new(keys([1.0, 2.0, 3.0]), key(-0.5), &7);
    assert_eq!(s, Sphere { center: keys([1.0, 2.0, 3.0]), radius: key(-0.5), material: 7 });
    assert_eq!(*Sphere::new_box(keys([1.0, 2.0, 3.0]), key(-0.5), &7), s);
}

#[test]
fn quadratic_has_roots_for_a_discriminant_from_zero_on() {
    assert!(has_roots(key(1.0), key(0.0)));
    assert!(has_roots(key(1.0), key(-0.0)));
    assert!(has_roots(key(0.5), key(9.0)));
    assert!(has_roots(key(f32::INFINITY), key(f32::INFINITY)));
    assert!(!has_roots(key(1.0), key(-1e-30)));
    assert!(!has_roots(key(1.0), key(-4.0)));
    assert!(!has_roots(key(0.0), key(4.0)));
    assert!(!has_roots(key(-0.0), key(4.0)));
    assert!(!has_roots(key(1.0), key(f32::NAN)));
    assert!(!has_roots(key(1.0), key(-f32::NAN)));
    assert!(!has_roots(key(f32::NAN), key(1.0)));
}

#[test]
fn sphere_without_a_radius_is_a_point() {
    assert!(Sphere::new(keys([1.0, 2.0, 3.0]), key(0.0), &1).is_point());
    assert!(Sphere::new(keys([1.0, 2.0, 3.0]), key(-0.0), &1).is_point());
    assert!(!Sphere::new(keys([1.0, 2.0, 3.0]), key(1e-30), &1).is_point());
    assert!(!Sphere::new(keys([1.0, 2.0, 3.0]), key(-0.45), &1).is_point());
}

#[test]
fn sphere_records_a_hit_with_the_normal_against_the_ray() {
    let s = Sphere::new(keys([0.0, 0.0, 0.0]), key(1.0), &7);
    let rec = s.record(key(4.0), keys([0.0, 0.0, 1.0]), keys([0.0, 0.0, 1.0]), key(-1.0), key(0.25), key(0.5));
    let expected = HitRecord {
        point: keys([0.0, 0.0, 1.0]),
        normal: keys([0.0, 0.0, 1.0]),
        trace_len: key(4.0),
        front_face: true,
        material: 7,
        tex_u: key(0.25),
        tex_v: key(0.5),
    };
    assert_eq!(rec, expected);
    let inside = s.record(key(6.0), keys([0.0, 0.0, -1.0]), keys([0.0, 0.0, -1.0]), key(1.0), key(0.75), key(0.5));
    assert!(!inside.front_face);
    assert_eq!(vals(&inside.normal), [0.0, 0.0, 1.0]);
    assert_eq!((inside.trace_len, inside.material), (key(6.0), 7));
}

#[test]
fn triangle_has_no_box() {
    let t = Triangle { v0: keys([0.0, 0.0, 0.0]), v1: keys([1.0, 0.0, 0.0]), v2: keys([0.0, 0.0, 1.0]), material: 2 };
    let mut out = AABB { min: Vec3::new(1, 2, 3), max: Vec3::new(4, 5, 6) };
    assert!(!t.bounds(&mut out));
    assert_eq!(out, AABB { min: Vec3::new(1, 2, 3), max: Vec3::new(4, 5, 6) });
}

#[test]
fn triangle_records_a_hit_with_its_barycentric_coordinates() {
    let t = Triangle { v0: keys([0.0, 0.0, 0.0]), v1: keys([1.0, 0.0, 0.0]), v2: keys([0.0, 0.0, 1.0]), material: 2 };
    let third = 1.0 / 3.0;
    let c = crossing_with_unit_triangle([third, -1.0, third], [0.0, 1.0, 0.0]);
    let rec = t.record(&c, keys([third, 0.0, third]), keys([0.0, -1.0, 0.0]), key(-1.0));
    assert_eq!((rec.tex_u, rec.tex_v, rec.trace_len), (c.u, c.v, key(1.0)));
    assert_eq!((rec.material, rec.front_face), (2, true));
    assert_eq!(vals(&rec.normal), [0.0, -1.0, 0.0]);
    assert_eq!(vals(&rec.point), [third, 0.0, third]);
    let behind = t.record(&c, keys([third, 0.0, third]), keys([0.0, -1.0, 0.0]), key(1.0));
    assert!(!behind.front_face);
    assert_eq!(vals(&behind.normal), [0.0, 1.0, 0.0]);
}

#[test]
fn select_root_prefers_the_nearer_root_in_range() {
    assert_eq!(select_root(key(2.0), key(4.0), key(0.0), key(9.0)), Some(key(2.0)));
    assert_eq!(select_root(key(2.0), key(4.0), key(3.0), key(9.0)), Some(key(4.0)));
    assert_eq!(select_root(key(2.0), key(4.0), key(0.0), key(1.0)), None);
    assert_eq!(select_root(key(2.0), key(4.0), key(5.0), key(9.0)), None);
    assert_eq!(select_root(key(2.0), key(4.0), key(2.5), key(3.5)), None);
    assert_eq!(select_root(key(2.0), key(4.0), key(2.0), key(2.0)), Some(key(2.0)));
    assert_eq!(select_root(key(-1.0), key(1.0), key(0.0), key(9.0)), Some(key(1.0)));
}

#[test]
fn crossing_is_a_hit_inside_the_triangle() {
    let inside = Crossing { det: key(1.0), u: key(0.25), v: key(0.25), u_plus_v: key(0.5), t: key(1.0) };
    assert!(inside.accepts(key(0.0), key(9.0)));
    assert!(!inside.accepts(key(2.0), key(9.0)));
    assert!(!inside.accepts(key(0.0), key(0.5)));
    assert!(inside.accepts(key(1.0), key(1.0)));
    assert!((Crossing { u: key(0.0), v: key(0.0), u_plus_v: key(0.0), ..inside }).accepts(ZERO, INFINITY));
    assert!((Crossing { u: key(1.0), v: key(0.0), u_plus_v: key(1.0), ..inside }).accepts(ZERO, INFINITY));
}

#[test]
fn crossing_outside_the_triangle_is_a_miss() {
    let inside = Crossing { det: key(1.0), u: key(0.25), v: key(0.25), u_plus_v: key(0.5), t: key(1.0) };
    assert!(!(Crossing { u: key(-0.1), ..inside }).accepts(ZERO, INFINITY));
    assert!(!(Crossing { u: key(1.1), ..inside }).accepts(ZERO, INFINITY));
    assert!(!(Crossing { v: key(-0.1), ..inside }).accepts(ZERO, INFINITY));
    assert!(!(Crossing { u_plus_v: key(1.1), ..inside }).accepts(ZERO, INFINITY));
}

#[test]
fn crossing_that_is_no_number_is_a_miss() {
    let inside = Crossing { det: key(1.0), u: key(0.25), v: key(0.25), u_plus_v: key(0.5), t: key(1.0) };
    for nan in [f32::NAN, -f32::NAN] {
        assert!(!(Crossing { det: key(nan), ..inside }).accepts(ZERO, INFINITY));
        assert!(!(Crossing { u: key(nan), ..inside }).accepts(ZERO, INFINITY));
        assert!(!(Crossing { v: key(nan), ..inside }).accepts(ZERO, INFINITY));
        assert!(!(Crossing { u_plus_v: key(nan), ..inside }).accepts(ZERO, INFINITY));
        assert!(!(Crossing { t: key(nan), ..inside }).accepts(ZERO, INFINITY));
    }
    assert!((Crossing { u: key(-0.0), v: key(-0.0), u_plus_v: key(-0.0), ..inside }).accepts(ZERO, INFINITY));
}

#[test]
fn crossing_from_behind_or_along_the_plane_is_a_miss() {
    let inside = Crossing { det: key(1.0), u: key(0.25), v: key(0.25), u_plus_v: key(0.5), t: key(1.0) };
    assert!(!(Crossing { det: key(-1.0), ..inside }).accepts(ZERO, INFINITY));
    assert!(!(Crossing { det: key(0.0), ..inside }).accepts(ZERO, INFINITY));
    assert!(!(Crossing { det: key(1e-8), ..inside }).accepts(ZERO, INFINITY));
    assert!((Crossing { det: EPSILON, ..inside }).accepts(ZERO, INFINITY));
    assert_eq!(EPSILON, key(f32::EPSILON));
    assert_eq!(ONE, key(1.0));
}

/// The crossing of a ray with the triangle (0,0,0), (1,0,0), (0,0,1).
fn crossing_with_unit_triangle(orig: [f32; 3], dir: [f32; 3]) -> Crossing {
    let cross = |a: [f32; 3], b: [f32; 3]| {
        [a[1] * b[2] - a[2] * b[1], a[2] * b[0] - a[0] * b[2], a[0] * b[1] - a[1] * b[0]]
    };
    let (v0v1, v0v2) = ([1.0, 0.0, 0.0], [0.0, 0.0, 1.0]);
    let pvec = cross(dir, v0v2);
    let det = dot(v0v1, pvec);
    let idet = 1.0 / det;
    let tvec = orig;
    let u = dot(tvec, pvec) * idet;
    let qvec = cross(tvec, v0v1);
    let v = dot(dir, qvec) * idet;
    Crossing { det: key(det), u: key(u), v: key(v), u_plus_v: key(u + v), t: key(dot(v0v2, qvec) * idet) }
}

#[test]
fn ray_at_the_centroid_of_a_triangle_hits_its_front() {
    let third = 1.0 / 3.0;
    let c = crossing_with_unit_triangle([third, -1.0, third], [0.0, 1.0, 0.0]);
    assert!(c.accepts(ZERO, INFINITY));
    assert!(val(c.u) >= 0.0 && val(c.v) >= 0.0 && val(c.u_plus_v) <= 1.0);
    assert_eq!(c.t, key(1.0));
    let from_behind = crossing_with_unit_triangle([third, 1.0, third], [0.0, -1.0, 0.0]);
    assert!(!from_behind.accepts(ZERO, INFINITY));
    assert!(val(from_behind.u) >= 0.0 && val(from_behind.v) >= 0.0);
    assert!(val(from_behind.u_plus_v) <= 1.0);
}

#[test]
fn near_zero_asks_for_every_component_to_be_small() {
    assert!(keys([0.0, 0.0, 0.0]).near_zero());
    assert!(keys([-0.0, 9e-9, -9e-9]).near_zero());
    assert!(!keys([1e-8, 0.0, 0.0]).near_zero());
    assert!(!keys([0.0, -1e-8, 0.0]).near_zero());
    assert!(!keys([0.0, 0.0, 1.0]).near_zero());
    assert!(!keys([-5.0, -5.0, -5.0]).near_zero());
    assert_eq!(NEAR_ZERO, key(1e-8));
}

#[test]
fn sphere_is_hit_at_five_minus_its_radius() {
    for radius in [0.5f32, 1.0, 2.0, 4.0] {
        let w = world(vec![ball([0.0, 0.0, 0.0], radius, 3)]);
        let mut rec = HitRecord::default();
        assert!(w.hit(&ray([0.0, 0.0, 5.0], [0.0, 0.0, -1.0]), ZERO, INFINITY, &mut rec));
        assert_eq!(rec.trace_len, key(5.0 - radius));
        assert_eq!(vals(&rec.normal), [0.0, 0.0, 1.0]);
        assert_eq!(vals(&rec.point), [0.0, 0.0, radius]);
        assert!(rec.front_face);
        assert_eq!(rec.material, 3);
    }
}

#[test]
fn ray_without_a_direction_hits_nothing() {
    let objs = vec![ball([0.0, 0.0, 0.0], 1.0, 1), ball([0.0, 0.0, -3.0], 1.0, 2)];
    let mut rng = ChaCha20Rng::seed_from_u64(1);
    let node = BvhNode::new(&objs, 0, 2, &mut rng).unwrap();
    let still = ray([0.0, 0.0, 0.0], [0.0, 0.0, 0.0]);
    let mut rec = HitRecord::default();
    assert!(!world(objs).hit(&still, TRACE_EPSILON, INFINITY, &mut rec));
    assert!(!node.hit(&still, TRACE_EPSILON, INFINITY, &mut rec));
    assert_eq!(rec, HitRecord::default());
}

#[test]
fn sphere_of_negative_radius_turns_its_normal_inward() {
    let w = world(vec![ball([0.0, 0.0, 0.0], -1.0, 3)]);
    let mut rec = HitRecord::default();
    assert!(w.hit(&ray([0.0, 0.0, 5.0], [0.0, 0.0, -1.0]), ZERO, INFINITY, &mut rec));
    assert_eq!(rec.trace_len, key(4.0));
    assert!(!rec.front_face);
    assert_eq!(vals(&rec.normal), [0.0, 0.0, 1.0]);
    let mut out = blank();
    assert!(w.bounds(&mut out));
    assert_eq!((vals(&out.min), vals(&out.max)), ([-1.0, -1.0, -1.0], [1.0, 1.0, 1.0]));
}

#[test]
fn list_returns_the_nearest_hit() {
    let w = world(vec![
        ball([0.0, 0.0, -9.0], 1.0, 1),
        ball([0.0, 0.0, -3.0], 1.0, 2),
        ball([0.0, 0.0, -6.0], 1.0, 3),
        ball([5.0, 0.0, -1.0], 1.0, 4),
    ]);
    let mut rec = HitRecord::default();
    assert!(w.hit(&ray([0.0, 0.0, 0.0], [0.0, 0.0, -1.0]), TRACE_EPSILON, INFINITY, &mut rec));
    assert_eq!(rec.material, 2);
    assert_eq!(rec.trace_len, key(2.0));
    assert!(w.hit(&ray([0.0, 0.0, 0.0], [0.0, 0.0, -1.0]), key(4.5), INFINITY, &mut rec));
    assert_eq!(rec.material, 3);
    assert_eq!(rec.trace_len, key(5.0));
    assert!(w.hit(&ray([0.0, 0.0, 0.0], [0.0, 0.0, -1.0]), key(2.5), key(4.5), &mut rec));
    assert_eq!(rec.material, 2);
    assert_eq!(rec.trace_len, key(4.0));
    assert!(!rec.front_face);
}

#[test]
fn list_leaves_the_record_alone_on_a_miss() {
    let w = world(vec![ball([0.0, 0.0, -3.0], 1.0, 2), Shape::Sheet]);
    let mut rec = HitRecord::default();
    rec.material = 77;
    rec.trace_len = key(12.0);
    let before = rec;
    assert!(!w.hit(&ray([0.0, 0.0, 0.0], [0.0, 0.0, 1.0]), TRACE_EPSILON, INFINITY, &mut rec));
    assert_eq!(rec, before);
    assert!(!w.hit(&ray([0.0, 0.0, 0.0], [0.0, 0.0, -1.0]), TRACE_EPSILON, key(1.5), &mut rec));
    assert_eq!(rec, before);
    assert!(!world(Vec::new()).hit(&ray([0.0, 0.0, 0.0], [0.0, 0.0, -1.0]), ZERO, INFINITY, &mut rec));
    assert_eq!(rec, before);
}

#[test]
fn list_takes_the_later_of_two_hits_at_one_distance() {
    let w = world(vec![ball([0.0, 0.0, -3.0], 1.0, 1), ball([0.0, 0.0, -3.0], 1.0, 2)]);
    let mut rec = HitRecord::default();
    assert!(w.hit(&ray([0.0, 0.0, 0.0], [0.0, 0.0, -1.0]), TRACE_EPSILON, INFINITY, &mut rec));
    assert_eq!(rec.material, 2);
}

#[test]
fn list_add_appends() {
    let mut w = world(Vec::new());
    w.add(ball([0.0, 0.0, -3.0], 1.0, 1));
    w.add(Shape::Sheet);
    assert_eq!(w.objs, vec![ball([0.0, 0.0, -3.0], 1.0, 1), Shape::Sheet]);
}

#[test]
fn list_bounds_is_the_union_of_the_members() {
    let w = world(vec![
        ball([0.0, 0.0, 0.0], 1.0, 1),
        ball([4.0, -2.0, 0.5], 0.5, 1),
        ball([-1.0, 3.0, 0.0], 2.0, 1),
    ]);
    let mut out = blank();
    assert!(w.bounds(&mut out));
    assert_eq!(vals(&out.min), [-3.0, -2.5, -2.0]);
    assert_eq!(vals(&out.max), [4.5, 5.0, 2.0]);
    let single = world(vec![ball([1.0, 2.0, 3.0], 1.0, 1)]);
    assert!(single.bounds(&mut out));
    assert_eq!((vals(&out.min), vals(&out.max)), ([0.0, 1.0, 2.0], [2.0, 3.0, 4.0]));
}

#[test]
fn list_without_members_or_with_an_unbounded_member_has_no_bounds() {
    let mut out = AABB { min: Vec3::new(1, 2, 3), max: Vec3::new(4, 5, 6) };
    let before = out;
    assert!(!world(Vec::new()).bounds(&mut out));
    assert_eq!(out, before);
    assert!(!world(vec![ball([0.0, 0.0, 0.0], 1.0, 1), Shape::Sheet]).bounds(&mut out));
    assert_eq!(out, before);
    assert!(!world(vec![Shape::Sheet, ball([0.0, 0.0, 0.0], 1.0, 1)]).bounds(&mut out));
    assert_eq!(out, before);
}

#[test]
fn axis_is_the_remainder_by_three() {
    assert_eq!(axis_of(0), 0);
    assert_eq!(axis_of(1), 1);
    assert_eq!(axis_of(2), 2);
    assert_eq!(axis_of(3), 0);
    assert_eq!(axis_of(u64::MAX), 0);
    assert_eq!(axis_of(u64::MAX - 1), 2);
}

#[test]
fn random_axis_draws_every_axis() {
    let mut rng = ChaCha20Rng::seed_from_u64(1);
    let mut seen = [0usize; 3];
    for _ in 0..300 {
        let axis = random_axis(&mut rng);
        assert!((0..3).contains(&axis));
        seen[axis as usize] += 1;
    }
    assert!(seen.iter().all(|&n| n > 50));
}

#[test]
fn random_axis_follows_the_stream() {
    let mut a = ChaCha20Rng::seed_from_u64(9);
    let mut b = ChaCha20Rng::seed_from_u64(9);
    for _ in 0..20 {
        assert_eq!(random_axis(&mut a), (b.next_u64() % 3) as i8);
    }
}

#[test]
fn tree_of_one_object_is_a_leaf() {
    let objs = vec![ball([9.0, 9.0, 9.0], 1.0, 0), ball([1.0, 2.0, 3.0], 1.0, 5)];
    let mut rng = ChaCha20Rng::seed_from_u64(3);
    let node = BvhNode::new(&objs, 1, 2, &mut rng).unwrap();
    assert_eq!(node.bound, objs[1].bounds_model().unwrap());
    assert!(matches!(node.children, BvhChildren::Leaf(object) if object == objs[1]));
}

#[test]
fn tree_of_two_objects_orders_them_on_the_axis() {
    let objs = vec![ball([3.0, 3.0, 3.0], 1.0, 0), ball([0.0, 0.0, 0.0], 1.0, 1)];
    for seed in 0..8 {
        let mut rng = ChaCha20Rng::seed_from_u64(seed);
        let node = BvhNode::new(&objs, 0, 2, &mut rng).unwrap();
        let mut found = Vec::new();
        leaves(&node, &mut found);
        assert_eq!(found, vec![objs[1], objs[0]]);
        assert_eq!(checked(&node), 2);
    }
}

#[test]
fn tree_keeps_the_order_of_objects_that_tie() {
    let objs = vec![ball([0.0, 0.0, 0.0], 1.0, 0), ball([0.0, 0.0, 0.0], 1.0, 1)];
    for seed in 0..8 {
        let mut rng = ChaCha20Rng::seed_from_u64(seed);
        let node = BvhNode::new(&objs, 0, 2, &mut rng).unwrap();
        let mut found = Vec::new();
        leaves(&node, &mut found);
        assert_eq!(found, objs);
    }
}

#[test]
fn tree_holds_the_objects_of_the_range_with_their_boxes() {
    for n in [1usize, 2, 3, 4, 5, 8, 13, 64] {
        let objs = scattered_balls(n + 4, n as u64);
        let mut rng = ChaCha20Rng::seed_from_u64(100 + n as u64);
        let node = BvhNode::new(&objs, 2, n + 2, &mut rng).unwrap();
        assert_eq!(checked(&node), n);
        let mut found = Vec::new();
        leaves(&node, &mut found);
        let material = |s: &Shape| match s {
            Shape::Ball { material, .. } => *material,
            Shape::Sheet => -1,
        };
        let mut ids: Vec<i64> = found.iter().map(material).collect();
        ids.sort();
        assert_eq!(ids, (2..n as i64 + 2).collect::<Vec<i64>>());
        let mut out = blank();
        assert!(node.bounds(&mut out));
        let mut whole = blank();
        assert!(world(objs[2..n + 2].to_vec()).bounds(&mut whole));
        assert_eq!(out, whole);
    }
}

#[test]
fn tree_build_fails_at_the_first_object_without_a_box() {
    let objs = vec![
        ball([0.0, 0.0, 0.0], 1.0, 0),
        Shape::Sheet,
        ball([1.0, 0.0, 0.0], 1.0, 0),
        Shape::Sheet,
    ];
    let mut rng = ChaCha20Rng::seed_from_u64(3);
    assert!(matches!(BvhNode::new(&objs, 0, 4, &mut rng), Err(RenderError::MissingBounds { index: 1 })));
    assert!(matches!(BvhNode::new(&objs, 2, 4, &mut rng), Err(RenderError::MissingBounds { index: 3 })));
    assert!(BvhNode::new(&objs, 2, 3, &mut rng).is_ok());
}

#[test]
fn tree_finds_what_the_list_finds() {
    let objs = scattered_balls(60, 7);
    let mut rng = ChaCha20Rng::seed_from_u64(11);
    let node = BvhNode::new(&objs, 0, objs.len(), &mut rng).unwrap();
    let list = world(objs);
    let (mut hits, mut misses) = (0, 0);
    for _ in 0..2000 {
        let orig = [30.0 * unit(&mut rng) - 15.0, 30.0 * unit(&mut rng) - 15.0, 30.0 * unit(&mut rng) - 15.0];
        let toward = [20.0 * unit(&mut rng) - 10.0, 20.0 * unit(&mut rng) - 10.0, 20.0 * unit(&mut rng) - 10.0];
        let r = ray(orig, sub(toward, orig));
        let far = if unit(&mut rng) < 0.5 { INFINITY } else { key(2.0 * unit(&mut rng)) };
        let (mut by_list, mut by_tree) = (HitRecord::default(), HitRecord::default());
        let in_list = list.hit(&r, TRACE_EPSILON, far, &mut by_list);
        let in_tree = node.hit(&r, TRACE_EPSILON, far, &mut by_tree);
        assert_eq!(in_list, in_tree);
        assert_eq!(by_list, by_tree);
        if in_list {
            hits += 1;
        } else {
            misses += 1;
        }
    }
    assert!(hits > 100 && misses > 100);
}

#[test]
fn tree_skips_what_the_ray_cannot_reach() {
    let objs = vec![ball([0.0, 0.0, -3.0], 1.0, 1), ball([0.0, 0.0, -8.0], 1.0, 2)];
    let mut rng = ChaCha20Rng::seed_from_u64(5);
    let node = BvhNode::new(&objs, 0, 2, &mut rng).unwrap();
    let mut rec = HitRecord::default();
    rec.material = 42;
    assert!(!node.hit(&ray([0.0, 0.0, 0.0], [0.0, 0.0, 1.0]), TRACE_EPSILON, INFINITY, &mut rec));
    assert_eq!(rec.material, 42);
    assert!(!node.hit(&ray([0.0, 0.0, 0.0], [0.0, 0.0, -1.0]), TRACE_EPSILON, key(1.0), &mut rec));
    assert_eq!(rec.material, 42);
    assert!(node.hit(&ray([0.0, 0.0, 0.0], [0.0, 0.0, -1.0]), TRACE_EPSILON, INFINITY, &mut rec));
    assert_eq!((rec.material, rec.trace_len), (1, key(2.0)));
    assert!(node.hit(&ray([0.0, 0.0, -5.0], [0.0, 0.0, -1.0]), TRACE_EPSILON, INFINITY, &mut rec));
    assert_eq!((rec.material, rec.trace_len), (2, key(2.0)));
}
