use raytracer::aabb::{Slab, Slabs, AABB};
use raytracer::ray::Ray;
use raytracer::scenes::{target_height, AspectRatio, CornellBox, DofSpheresGlass, RandomSpheres, Scene};
use raytracer::vec3::{
    is_above, is_negative, larger, negate, smaller, Scalar, Vec3, INFINITY, NEGATIVE_INFINITY,
    NEGATIVE_ZERO, TRACE_EPSILON, ZERO,
};

fn key(f: f32) -> Scalar {
    let bits = f.to_bits() as i32;
    if bits < 0 {
        bits ^ 0x7FFF_FFFF
    } else {
        bits
    }
}

fn slab(t0: f32, t1: f32, reversed: bool) -> Slab {
    Slab { t0: key(t0), t1: key(t1), reversed }
}

/// The slabs of a ray and a box, by the arithmetic that a caller does.
fn slabs_of(min: [f32; 3], max: [f32; 3], orig: [f32; 3], dir: [f32; 3]) -> Slabs {
    let one = |i: usize| {
        let invd = 1.0 / dir[i];
        let reversed = invd < 0.0;
        let mut t0 = (min[i] - orig[i]) * invd;
        let mut t1 = (max[i] - orig[i]) * invd;
        if t0.is_nan() {
            t0 = if reversed { f32::INFINITY } else { f32::NEG_INFINITY };
        }
        if t1.is_nan() {
            t1 = if reversed { f32::NEG_INFINITY } else { f32::INFINITY };
        }
        slab(t0, t1, reversed)
    };
    Slabs { x: one(0), y: one(1), z: one(2) }
}

#[test]
fn keys_order_as_the_numbers_do() {
    let values = [f32::NEG_INFINITY, -2.5, -1.0, -1e-9, 0.0, 1e-9, 0.5, 1.0, 3.0, f32::INFINITY];
    for pair in values.windows(2) {
        assert!(key(pair[0]) < key(pair[1]));
    }
    assert_eq!(key(0.0), ZERO);
    assert_eq!(key(f32::INFINITY), INFINITY);
    assert_eq!(key(1e-9), TRACE_EPSILON);
}

#[test]
fn larger_and_smaller_pick_by_order() {
    assert_eq!(larger(key(-1.0), key(2.0)), key(2.0));
    assert_eq!(smaller(key(-1.0), key(2.0)), key(-1.0));
    assert_eq!(larger(5, 5), 5);
    assert_eq!(smaller(5, 5), 5);
}

#[test]
fn negate_gives_the_key_of_the_negative() {
    for v in [0.0f32, 1.0, 1e-9, 2.5, 1e30, f32::INFINITY, f32::MIN_POSITIVE] {
        assert_eq!(negate(key(v)), key(-v));
        assert_eq!(negate(key(-v)), key(v));
    }
    assert_eq!(negate(ZERO), NEGATIVE_ZERO);
    assert_eq!(key(-0.0), NEGATIVE_ZERO);
    assert_eq!(negate(i32::MIN), i32::MAX);
    assert_eq!(negate(i32::MAX), i32::MIN);
}

#[test]
fn negative_are_the_numbers_below_zero() {
    for v in [-1e-30f32, -1.0, -2.5e20, f32::NEG_INFINITY] {
        assert!(is_negative(key(v)));
    }
    for v in [-0.0f32, 0.0, 1e-30, 1.0, f32::INFINITY, f32::NAN, -f32::NAN] {
        assert!(!is_negative(key(v)));
    }
    assert_eq!(key(f32::NEG_INFINITY), NEGATIVE_INFINITY);
    assert_eq!(negate(INFINITY), NEGATIVE_INFINITY);
}

#[test]
fn above_compares_numbers() {
    assert!(is_above(key(1.5), key(1.0)));
    assert!(is_above(key(f32::INFINITY), key(1.0)));
    assert!(!is_above(key(1.0), key(1.0)));
    assert!(!is_above(key(0.5), key(1.0)));
    assert!(!is_above(key(f32::NAN), key(1.0)));
    assert!(!is_above(key(-f32::NAN), key(1.0)));
}

#[test]
fn neg_turns_every_component() {
    let v = Vec3::new(key(1.0), key(-2.0), key(0.0)).neg();
    assert_eq!(v, Vec3::new(key(-1.0), key(2.0), key(-0.0)));
    assert_eq!(v.neg(), Vec3::new(key(1.0), key(-2.0), key(0.0)));
}

#[test]
fn idx_counts_modulo_three() {
    let v = Vec3::new(10, 20, 30);
    assert_eq!(v.idx(0), 10);
    assert_eq!(v.idx(1), 20);
    assert_eq!(v.idx(2), 30);
    assert_eq!(v.idx(3), 10);
    assert_eq!(v.idx(4), 20);
    assert_eq!(v.idx(5), 30);
    assert_eq!(v.idx(-3), 10);
    assert_eq!(v.idx(-1), 30);
    assert_eq!(v.idx(-2), 30);
    assert_eq!(v.idx(i8::MIN), 30);
    assert_eq!(v.idx(i8::MAX), 20);
}

#[test]
fn ray_new_keeps_its_parts() {
    let r = Ray::new(Vec3::new(1, 2, 3), Vec3::new(4, 5, 6));
    assert_eq!(r.orig, Vec3 { x: 1, y: 2, z: 3 });
    assert_eq!(r.dir, Vec3 { x: 4, y: 5, z: 6 });
}

#[test]
fn surrounding_box_takes_each_extreme() {
    let a = AABB { min: Vec3::new(0, 5, -3), max: Vec3::new(4, 6, 0) };
    let b = AABB { min: Vec3::new(-1, 7, -2), max: Vec3::new(3, 9, 1) };
    let u = AABB::surrounding_box(&a, &b);
    assert_eq!(u, AABB { min: Vec3::new(-1, 5, -3), max: Vec3::new(4, 9, 1) });
    assert_eq!(AABB::surrounding_box(&b, &a), u);
    assert_eq!(AABB::surrounding_box(&a, &a), a);
}

#[test]
fn slab_test_passes_from_inside_the_box() {
    let dirs = [[1.0, 0.3, -0.2], [-1.0, -1.0, -1.0], [0.0, 0.0, 1.0], [0.0, -2.0, 0.0]];
    for dir in dirs.iter() {
        let s = slabs_of([-1.0, -1.0, -1.0], [1.0, 1.0, 1.0], [0.2, -0.3, 0.5], *dir);
        assert!(s.hit(key(0.0), key(f32::INFINITY)));
        assert!(s.hit(key(0.0), key(0.001)));
    }
}

#[test]
fn slab_test_fails_for_a_box_behind_the_ray() {
    let s = slabs_of([-1.0, -1.0, -6.0], [1.0, 1.0, -4.0], [0.0, 0.0, 0.0], [0.0, 0.0, 1.0]);
    assert!(!s.hit(key(0.0), key(f32::INFINITY)));
    let toward = slabs_of([-1.0, -1.0, -6.0], [1.0, 1.0, -4.0], [0.0, 0.0, 0.0], [0.0, 0.0, -1.0]);
    assert!(toward.hit(key(0.0), key(f32::INFINITY)));
    assert!(!toward.hit(key(0.0), key(3.5)));
    assert!(toward.hit(key(0.0), key(4.5)));
    assert!(!toward.hit(key(6.5), key(f32::INFINITY)));
}

#[test]
fn slab_test_swaps_entry_and_exit_for_a_reversed_ray() {
    let forward = Slabs { x: slab(1.0, 2.0, false), y: slab(0.0, 9.0, false), z: slab(0.0, 9.0, false) };
    let backward = Slabs { x: slab(2.0, 1.0, true), y: slab(0.0, 9.0, false), z: slab(0.0, 9.0, false) };
    let wrong = Slabs { x: slab(2.0, 1.0, false), y: slab(0.0, 9.0, false), z: slab(0.0, 9.0, false) };
    assert!(forward.hit(key(0.0), key(5.0)));
    assert!(backward.hit(key(0.0), key(5.0)));
    assert!(!wrong.hit(key(0.0), key(5.0)));
}

#[test]
fn slab_narrows_an_interval_to_its_inside() {
    assert_eq!(slab(1.0, 4.0, false).narrow(key(0.0), key(9.0)), (key(1.0), key(4.0)));
    assert_eq!(slab(4.0, 1.0, true).narrow(key(0.0), key(9.0)), (key(1.0), key(4.0)));
    assert_eq!(slab(1.0, 4.0, false).narrow(key(2.0), key(3.0)), (key(2.0), key(3.0)));
    assert_eq!(slab(1.0, 4.0, true).narrow(key(0.0), key(9.0)), (key(4.0), key(1.0)));
    assert_eq!(
        slab(f32::NEG_INFINITY, f32::INFINITY, false).narrow(key(0.0), key(9.0)),
        (key(0.0), key(9.0))
    );
}

#[test]
fn slab_test_needs_more_than_a_point() {
    let flat = Slabs { x: slab(1.0, 1.0, false), y: slab(0.0, 9.0, false), z: slab(0.0, 9.0, false) };
    assert!(!flat.hit(key(0.0), key(5.0)));
    let open = Slabs { x: slab(0.0, 9.0, false), y: slab(0.0, 9.0, false), z: slab(0.0, 9.0, false) };
    assert!(!open.hit(key(2.0), key(2.0)));
    assert!(!open.hit(key(3.0), key(2.0)));
    assert!(open.hit(key(2.0), key(2.5)));
}

#[test]
fn slab_test_meets_across_axes() {
    let miss = Slabs { x: slab(0.0, 1.0, false), y: slab(2.0, 3.0, false), z: slab(0.0, 9.0, false) };
    assert!(!miss.hit(key(0.0), key(9.0)));
    let graze = Slabs { x: slab(0.0, 2.5, false), y: slab(2.0, 3.0, false), z: slab(0.0, 9.0, false) };
    assert!(graze.hit(key(0.0), key(9.0)));
}

#[test]
fn scenes_fix_the_shape_of_the_image() {
    assert_eq!(CornellBox {}.get_aspect_ratio(), AspectRatio { width: 1, height: 1 });
    assert_eq!(DofSpheresGlass {}.get_aspect_ratio(), AspectRatio { width: 16, height: 9 });
    assert_eq!(RandomSpheres {}.get_aspect_ratio(), AspectRatio { width: 3, height: 2 });
}

struct Plain;

impl Scene for Plain {}

#[test]
fn a_scene_is_sixteen_to_nine_by_default() {
    assert_eq!(Plain.get_aspect_ratio(), AspectRatio { width: 16, height: 9 });
}

#[test]
fn target_height_divides_the_width_by_the_ratio() {
    assert_eq!(target_height(1920, &AspectRatio { width: 3, height: 2 }), 1280);
    assert_eq!(target_height(1920, &AspectRatio { width: 16, height: 9 }), 1080);
    assert_eq!(target_height(400, &AspectRatio { width: 1, height: 1 }), 400);
    assert_eq!(target_height(100, &AspectRatio { width: 3, height: 1 }), 33);
    assert_eq!(target_height(2, &AspectRatio { width: 3, height: 1 }), 0);
}

#[test]
fn target_height_at_the_edges() {
    assert_eq!(target_height(0, &AspectRatio { width: 3, height: 2 }), 0);
    assert_eq!(target_height(10, &AspectRatio { width: 3, height: 0 }), 0);
    assert_eq!(target_height(10, &AspectRatio { width: 0, height: 2 }), u32::MAX);
    assert_eq!(target_height(0, &AspectRatio { width: 0, height: 2 }), 0);
    assert_eq!(target_height(u32::MAX, &AspectRatio { width: 1, height: 2 }), u32::MAX);
    assert_eq!(target_height(u32::MAX, &AspectRatio { width: 1, height: 1 }), u32::MAX);
    assert_eq!(target_height(u32::MAX, &AspectRatio { width: u32::MAX, height: u32::MAX }), u32::MAX);
}
