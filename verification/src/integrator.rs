//! The path tracer's control: a ray is followed from hit to hit until it
//! leaves the scene, is absorbed, or has used up its bounces.
//!
//! What comes out is the path: the light given off and the attenuation at
//! each bounce, and how the path ended. The light that the path carries to
//! the camera is, from the end backwards, the light of the end, times the
//! attenuation of each bounce, plus the light given off there.

use vstd::prelude::*;
use rand_chacha::ChaCha20Rng;
use crate::color::Color;
use crate::error::RenderError;
use crate::hittable::{HitRecord, Hittable, HittableList};
use crate::material::{Material, Scattering};
use crate::mats::MatManager;
use crate::ray::Ray;
use crate::vec3::{Scalar, Vec3, INFINITY, TRACE_EPSILON, ZERO};

verus! {

/// One scattering on the way: the light that the surface gave off, and what
/// it left of the light that came along the scattered ray.
#[derive(Clone, Copy, Debug, PartialEq, Eq, Structural)]
pub struct Bounce {
    pub emitted: Color,
    pub attenuation: Color,
}

/// How a path ended.
#[derive(Clone, Copy, Debug, PartialEq, Eq, Structural)]
pub enum PathEnd {
    /// The bounces were used up. Such a path carries no light.
    Exhausted,
    /// The ray left the scene. It carries the light of the background in
    /// its direction.
    Escaped { ray: Ray },
    /// A surface absorbed the ray. The path carries what that surface gave
    /// off.
    Absorbed { emitted: Color },
}

/// A path from the camera into the scene.
#[derive(Debug)]
pub struct LightPath {
    pub bounces: Vec<Bounce>,
    pub end: PathEnd,
}

impl PathEnd {
    /// The light of the end, where it does not depend on the background:
    /// black for a path that used up its bounces, and what the last surface
    /// gave off for one that was absorbed.
    pub fn light(&self) -> (c: Option<Color>)
        ensures
            c == match *self {
                PathEnd::Exhausted => Some(Color::black()),
                PathEnd::Escaped { ray } => None,
                PathEnd::Absorbed { emitted } => Some(emitted),
            },
    {
        match self {
            PathEnd::Exhausted => Some(Color::new_01_range(ZERO, ZERO, ZERO)),
            PathEnd::Escaped { ray } => None,
            PathEnd::Absorbed { emitted } => Some(*emitted),
        }
    }
}

/// What a ray meets first: the nearest hit at a distance from
/// `TRACE_EPSILON` on, which keeps a scattered ray from hitting the surface
/// that it starts on.
pub open spec fn first_hit<H: Hittable>(world: Seq<H>, ray: Ray) -> Option<HitRecord> {
    HittableList::<H>::scan(world, ray, TRACE_EPSILON, INFINITY)
}

/// The ray `from` meets a surface whose material the registry holds, and
/// that material can give off the light of `bounce` there and scatter the
/// ray into `to` with the attenuation of `bounce`.
pub open spec fn scatters_to<H: Hittable, M: Material>(
    world: Seq<H>,
    mats: MatManager<M>,
    from: Ray,
    bounce: Bounce,
    to: Ray,
) -> bool {
    first_hit(world, from) matches Some(rec) && mats.holds(rec.material) && mats.material(
        rec.material,
    ).may_emit(rec.tex_u, rec.tex_v, rec.point, bounce.emitted) && mats.material(
        rec.material,
    ).may_scatter(
        from,
        rec,
        Scattering::Scattered { attenuation: bounce.attenuation, scattered: to },
    )
}

/// A path that starts along `start` can have made `bounces` and now run
/// along `ray`: each bounce is what the material of the surface that the ray
/// met there can have answered.
pub open spec fn follows<H: Hittable, M: Material>(
    world: Seq<H>,
    mats: MatManager<M>,
    start: Ray,
    bounces: Seq<Bounce>,
    ray: Ray,
) -> bool
    decreases bounces.len(),
{
    if bounces.len() == 0 {
        ray == start
    } else {
        exists|before: Ray|
            follows(world, mats, start, bounces.drop_last(), before) && #[trigger] scatters_to(
                world,
                mats,
                before,
                bounces.last(),
                ray,
            )
    }
}

/// The ray `ray` ends a path in `end`: by leaving the scene, or at a
/// surface whose material can absorb it and give off the light of the end.
pub open spec fn stops<H: Hittable, M: Material>(
    world: Seq<H>,
    mats: MatManager<M>,
    ray: Ray,
    end: PathEnd,
) -> bool {
    match end {
        PathEnd::Exhausted => false,
        PathEnd::Escaped { ray: gone } => gone == ray && first_hit(world, ray).is_none(),
        PathEnd::Absorbed { emitted } => first_hit(world, ray) matches Some(rec) && mats.holds(
            rec.material,
        ) && mats.material(rec.material).may_emit(rec.tex_u, rec.tex_v, rec.point, emitted)
            && mats.material(rec.material).may_scatter(ray, rec, Scattering::Absorbed),
    }
}

/// The scene and its materials allow the path of `bounces` and `end` for
/// the ray `start` with `depth` bounces to spend: the bounces follow each
/// other from `start`, and the path either has spent all its bounces or
/// stops before.
pub open spec fn allows<H: Hittable, M: Material>(
    world: Seq<H>,
    mats: MatManager<M>,
    start: Ray,
    depth: u64,
    bounces: Seq<Bounce>,
    end: PathEnd,
) -> bool {
    exists|ray: Ray| #[trigger]
        follows(world, mats, start, bounces, ray) && if end == PathEnd::Exhausted {
            bounces.len() == depth
        } else {
            bounces.len() < depth && stops(world, mats, ray, end)
        }
}

/// The scene and its materials let the tracing of `start` fail with `e`:
/// some path from `start` that has bounces left to spend meets a surface
/// whose material the registry does not hold, and `e` names that material.
pub open spec fn fails<H: Hittable, M: Material>(
    world: Seq<H>,
    mats: MatManager<M>,
    start: Ray,
    depth: u64,
    e: RenderError,
) -> bool {
    exists|bounces: Seq<Bounce>, ray: Ray| #[trigger]
        follows(world, mats, start, bounces, ray) && bounces.len() < depth && (first_hit(
            world,
            ray,
        ) matches Some(rec) && !mats.holds(rec.material) && e == (RenderError::UnknownMaterial {
            id: rec.material,
        }))
}

/// Looks for the surface that `ray` meets first, and for its material. A
/// hit whose material the registry does not hold is an error.
pub fn find_surface<'a, H: Hittable, M>(
    ray: &Ray,
    world: &HittableList<H>,
    mats: &'a MatManager<M>,
) -> (out: Result<Option<(HitRecord, &'a M)>, RenderError>)
    ensures
        out == match first_hit(world.objs@, *ray) {
            None => Ok(None),
            Some(rec) => if mats.holds(rec.material) {
                Ok(Some((rec, &mats.material(rec.material))))
            } else {
                Err(RenderError::UnknownMaterial { id: rec.material })
            },
        },
{
    let mut rec = HitRecord::default();
    if world.hit(ray, TRACE_EPSILON, INFINITY, &mut rec) {
        match mats.find_mat(rec.material) {
            Some(mat) => Ok(Some((rec, mat))),
            None => Err(RenderError::UnknownMaterial { id: rec.material }),
        }
    } else {
        Ok(None)
    }
}

/// A path under way: the bounces so far, the ray to follow next, and the
/// number of bounces that are left to spend.
#[derive(Debug)]
pub struct Walk {
    pub bounces: Vec<Bounce>,
    pub ray: Ray,
    pub left: u64,
}

/// A path after a step: still under way, or at its end.
#[derive(Debug)]
pub enum Step {
    Next(Walk),
    Done(LightPath),
}

/// Starts a path along `ray` with `depth` bounces to spend. With none, the
/// path is at its end at once, exhausted and without a bounce.
pub fn begin(ray: &Ray, depth: u64) -> (step: Step)
    ensures
        match step {
            Step::Next(walk) => depth > 0 && walk.bounces@.len() == 0 && walk.ray == *ray
                && walk.left == depth,
            Step::Done(path) => depth == 0 && path.bounces@.len() == 0 && path.end
                == PathEnd::Exhausted,
        },
{
    if depth == 0 {
        Step::Done(LightPath { bounces: Vec::new(), end: PathEnd::Exhausted })
    } else {
        Step::Next(Walk { bounces: Vec::new(), ray: *ray, left: depth })
    }
}

impl Walk {
    /// The ray met nothing: the path ends as escaped, with the ray that
    /// left.
    pub fn escape(self) -> (path: LightPath)
        ensures
            path.bounces@ == self.bounces@,
            path.end == (PathEnd::Escaped { ray: self.ray }),
    {
        LightPath { bounces: self.bounces, end: PathEnd::Escaped { ray: self.ray } }
    }

    /// The ray met a surface that gave off `emitted` and made `outcome` of
    /// the ray. An absorbed ray ends the path. A scattered one adds a
    /// bounce; the path then goes on along the scattered ray with one
    /// bounce less to spend, or ends as exhausted where that was the last.
    pub fn scatter(self, emitted: Color, outcome: Scattering) -> (step: Step)
        ensures
            match outcome {
                Scattering::Absorbed => step matches Step::Done(path) && path.bounces@
                    == self.bounces@ && path.end == (PathEnd::Absorbed { emitted }),
                Scattering::Scattered { attenuation, scattered } => if self.left <= 1 {
                    step matches Step::Done(path) && path.bounces@ == self.bounces@.push(
                        Bounce { emitted, attenuation },
                    ) && path.end == PathEnd::Exhausted
                } else {
                    step matches Step::Next(walk) && walk.bounces@ == self.bounces@.push(
                        Bounce { emitted, attenuation },
                    ) && walk.ray == scattered && walk.left == self.left - 1
                },
            },
    {
        let mut bounces = self.bounces;
        match outcome {
            Scattering::Absorbed => Step::Done(
                LightPath { bounces, end: PathEnd::Absorbed { emitted } },
            ),
            Scattering::Scattered { attenuation, scattered } => {
                bounces.push(Bounce { emitted, attenuation });
                if self.left <= 1 {
                    Step::Done(LightPath { bounces, end: PathEnd::Exhausted })
                } else {
                    Step::Next(Walk { bounces, ray: scattered, left: self.left - 1 })
                }
            },
        }
    }
}

/// Asks `mat` what it gives off at the hit `rec` and what it makes of
/// `ray_in` there.
pub fn shade<M: Material>(mat: &M, ray_in: &Ray, rec: &HitRecord, rng: &mut ChaCha20Rng) -> (out: (
    Color,
    Scattering,
))
    ensures
        mat.may_emit(rec.tex_u, rec.tex_v, rec.point, out.0),
        mat.may_scatter(*ray_in, *rec, out.1),
{
    let emitted = mat.emitted(rec.tex_u, rec.tex_v, &rec.point);
    let mut attenuation = Color::new_01_range(ZERO, ZERO, ZERO);
    let mut scattered = Ray::new(Vec3::new(ZERO, ZERO, ZERO), Vec3::new(ZERO, ZERO, ZERO));
    if mat.scatter(ray_in, rec, &mut attenuation, &mut scattered, rng) {
        (emitted, Scattering::Scattered { attenuation, scattered })
    } else {
        (emitted, Scattering::Absorbed)
    }
}

/// Follows `ray` through the scene for at most `depth` bounces.
///
/// At each step the ray is tried on the scene. Without a hit the path ends
/// as escaped, with the ray that left. With one, the material of the hit
/// gives off its light and scatters the ray: if it declines, the path ends
/// as absorbed; otherwise the bounce is recorded and the scattered ray goes
/// on, with one bounce less to spend. With none left the path ends as
/// exhausted. A hit whose material the registry does not hold ends the
/// tracing with an error.
///
/// Materials may answer at random, so the contract does not name the path
/// but bounds it: it is one that the scene and the materials allow.
pub fn trace_path<H: Hittable, M: Material>(
    ray: &Ray,
    world: &HittableList<H>,
    rng: &mut ChaCha20Rng,
    mats: &MatManager<M>,
    depth: u64,
) -> (out: Result<LightPath, RenderError>)
    ensures
        match out {
            Ok(path) => allows(world.objs@, *mats, *ray, depth, path.bounces@, path.end),
            Err(e) => fails(world.objs@, *mats, *ray, depth, e),
        },
        depth == 0 ==> (out matches Ok(path) && path.bounces@.len() == 0 && path.end
            == PathEnd::Exhausted),
{
    let mut walk = match begin(ray, depth) {
        Step::Done(path) => {
            proof {
                assert(follows(world.objs@, *mats, *ray, path.bounces@, *ray));
            }
            return Ok(path);
        },
        Step::Next(walk) => walk,
    };
    loop
        invariant
            0 < walk.left <= depth,
            walk.bounces@.len() == depth - walk.left,
            follows(world.objs@, *mats, *ray, walk.bounces@, walk.ray),
        decreases walk.left,
    {
        let ghost so_far = walk.bounces@;
        let ghost from = walk.ray;
        match find_surface(&walk.ray, world, mats) {
            Err(e) => {
                return Err(e);
            },
            Ok(None) => {
                return Ok(walk.escape());
            },
            Ok(Some((rec, mat))) => {
                let (emitted, outcome) = shade(mat, &walk.ray, &rec, rng);
                match walk.scatter(emitted, outcome) {
                    Step::Done(path) => {
                        proof {
                            if let Scattering::Scattered { attenuation, scattered } = outcome {
                                assert(path.bounces@.drop_last() =~= so_far);
                                assert(scatters_to(
                                    world.objs@,
                                    *mats,
                                    from,
                                    path.bounces@.last(),
                                    scattered,
                                ));
                                assert(follows(
                                    world.objs@,
                                    *mats,
                                    *ray,
                                    path.bounces@,
                                    scattered,
                                ));
                            }
                        }
                        return Ok(path);
                    },
                    Step::Next(next) => {
                        proof {
                            assert(next.bounces@.drop_last() =~= so_far);
                            assert(scatters_to(
                                world.objs@,
                                *mats,
                                from,
                                next.bounces@.last(),
                                next.ray,
                            ));
                        }
                        walk = next;
                    },
                }
            },
        }
    }
}

/// A path that spends no bounce starts and ends along the same ray.
pub proof fn lemma_path_without_bounce<H: Hittable, M: Material>(
    world: Seq<H>,
    mats: MatManager<M>,
    start: Ray,
    depth: u64,
    bounces: Seq<Bounce>,
    end: PathEnd,
)
    requires
        allows(world, mats, start, depth, bounces, end),
    ensures
        depth == 0 ==> bounces.len() == 0 && end == PathEnd::Exhausted,
        depth > 0 && first_hit(world, start).is_none() ==> bounces.len() == 0 && end
            == (PathEnd::Escaped { ray: start }),
        bounces.len() <= depth,
        end == PathEnd::Exhausted <==> bounces.len() == depth,
{
    if depth > 0 && first_hit(world, start).is_none() {
        lemma_no_bounce_without_hit(world, mats, start, bounces);
    }
}

/// A ray that meets nothing makes no bounce.
proof fn lemma_no_bounce_without_hit<H: Hittable, M: Material>(
    world: Seq<H>,
    mats: MatManager<M>,
    start: Ray,
    bounces: Seq<Bounce>,
)
    requires
        first_hit(world, start).is_none(),
        exists|ray: Ray| follows(world, mats, start, bounces, ray),
    ensures
        bounces.len() == 0,
    decreases bounces.len(),
{
    if bounces.len() > 0 {
        let ray = choose|ray: Ray| follows(world, mats, start, bounces, ray);
        let before = choose|before: Ray|
            follows(world, mats, start, bounces.drop_last(), before) && #[trigger] scatters_to(
                world,
                mats,
                before,
                bounces.last(),
                ray,
            );
        lemma_no_bounce_without_hit(world, mats, start, bounces.drop_last());
    }
}

/// No channel of `c` is above that of `cap`.
pub open spec fn within(c: Color, cap: Color) -> bool {
    c.r <= cap.r && c.g <= cap.g && c.b <= cap.b
}

/// The material gives off no light and scatters every ray, leaving no
/// more of its light than `cap`.
pub open spec fn dull<M: Material>(mat: M, cap: Color) -> bool {
    &&& forall|u: Scalar, v: Scalar, p: Vec3, light: Color| #[trigger]
        mat.may_emit(u, v, p, light) ==> light == Color::black()
    &&& forall|ray_in: Ray, rec: HitRecord, outcome: Scattering| #[trigger]
        mat.may_scatter(ray_in, rec, outcome) ==> (outcome matches Scattering::Scattered {
            attenuation,
            scattered,
        } && within(attenuation, cap))
}

/// In a scene of dull materials no path picks up light on its way: every
/// bounce gives off nothing and leaves no more than `cap` of the light
/// that comes in, and no path is absorbed. The light of such a path is
/// that of the background, once attenuated for each bounce, or none.
pub proof fn lemma_dull_scene<H: Hittable, M: Material>(
    world: Seq<H>,
    mats: MatManager<M>,
    cap: Color,
    start: Ray,
    depth: u64,
    bounces: Seq<Bounce>,
    end: PathEnd,
)
    requires
        forall|id: i64| mats.holds(id) ==> dull(#[trigger] mats.material(id), cap),
        allows(world, mats, start, depth, bounces, end),
    ensures
        forall|i: int|
            0 <= i < bounces.len() ==> (#[trigger] bounces[i]).emitted == Color::black() && within(
                bounces[i].attenuation,
                cap,
            ),
        !(end is Absorbed),
{
    let ray = choose|ray: Ray| #[trigger]
        follows(world, mats, start, bounces, ray) && if end == PathEnd::Exhausted {
            bounces.len() == depth
        } else {
            bounces.len() < depth && stops(world, mats, ray, end)
        };
    lemma_dull_bounces(world, mats, cap, start, bounces, ray);
    if let PathEnd::Absorbed { emitted } = end {
        let rec = first_hit(world, ray).unwrap();
        assert(dull(mats.material(rec.material), cap));
    }
}

/// Along dull materials every bounce gives off nothing and leaves no more
/// than `cap`.
proof fn lemma_dull_bounces<H: Hittable, M: Material>(
    world: Seq<H>,
    mats: MatManager<M>,
    cap: Color,
    start: Ray,
    bounces: Seq<Bounce>,
    ray: Ray,
)
    requires
        forall|id: i64| mats.holds(id) ==> dull(#[trigger] mats.material(id), cap),
        follows(world, mats, start, bounces, ray),
    ensures
        forall|i: int|
            0 <= i < bounces.len() ==> (#[trigger] bounces[i]).emitted == Color::black() && within(
                bounces[i].attenuation,
                cap,
            ),
    decreases bounces.len(),
{
    if bounces.len() > 0 {
        let before = choose|before: Ray|
            follows(world, mats, start, bounces.drop_last(), before) && #[trigger] scatters_to(
                world,
                mats,
                before,
                bounces.last(),
                ray,
            );
        lemma_dull_bounces(world, mats, cap, start, bounces.drop_last(), before);
        let rec = first_hit(world, before).unwrap();
        assert(dull(mats.material(rec.material), cap));
        assert forall|i: int| 0 <= i < bounces.len() implies (#[trigger] bounces[i]).emitted
            == Color::black() && within(bounces[i].attenuation, cap) by {
            if i < bounces.len() - 1 {
                assert(bounces[i] == bounces.drop_last()[i]);
            }
        }
    }
}

} // verus!
