//! What a ray can hit: the record of a hit, the capability that every
//! primitive offers, and the flat list that asks each of its members in
//! turn.

use vstd::prelude::*;
use crate::aabb::{Slabs, AABB};
use crate::ray::Ray;
use crate::vec3::{is_negative, negated, negative, Scalar, Vec3, ZERO};

verus! {

/// Where and how a ray met a surface.
#[derive(Clone, Copy, Debug, PartialEq, Eq, Structural)]
pub struct HitRecord {
    pub point: Vec3,
    pub normal: Vec3,
    /// The distance along the ray.
    pub trace_len: Scalar,
    pub front_face: bool,
    /// The handle of the surface's material in the registry.
    pub material: i64,
    pub tex_u: Scalar,
    pub tex_v: Scalar,
}

impl HitRecord {
    /// Orients the normal against the ray. `facing` is the dot product of
    /// the ray's direction and `outward_normal`: where it is negative, the
    /// ray meets the surface from outside, and the normal is the outward
    /// one; otherwise the normal is turned round.
    pub fn set_face_normal(&mut self, facing: Scalar, outward_normal: &Vec3)
        ensures
            final(self).front_face == negative(facing),
            final(self).normal == if negative(facing) {
                *outward_normal
            } else {
                Vec3 {
                    x: negated(outward_normal.x),
                    y: negated(outward_normal.y),
                    z: negated(outward_normal.z),
                }
            },
            final(self).point == old(self).point,
            final(self).trace_len == old(self).trace_len,
            final(self).material == old(self).material,
            final(self).tex_u == old(self).tex_u,
            final(self).tex_v == old(self).tex_v,
    {
        self.front_face = is_negative(facing);
        if self.front_face {
            self.normal = *outward_normal;
        } else {
            self.normal = outward_normal.neg();
        }
    }

    /// The record that a search starts from: all zero, material zero.
    pub fn default() -> (rec: HitRecord)
        ensures
            rec == (HitRecord {
                point: Vec3 { x: ZERO, y: ZERO, z: ZERO },
                normal: Vec3 { x: ZERO, y: ZERO, z: ZERO },
                trace_len: ZERO,
                front_face: false,
                material: 0,
                tex_u: ZERO,
                tex_v: ZERO,
            }),
    {
        HitRecord {
            point: Vec3::new(ZERO, ZERO, ZERO),
            normal: Vec3::new(ZERO, ZERO, ZERO),
            trace_len: ZERO,
            front_face: false,
            material: 0,
            tex_u: ZERO,
            tex_v: ZERO,
        }
    }
}

/// The distance up to which a search still looks, once `best` has been
/// found: the distance of `best`, or `t_max` where nothing was found yet.
pub open spec fn limit_after(best: Option<HitRecord>, t_max: Scalar) -> Scalar {
    match best {
        Some(h) => h.trace_len,
        None => t_max,
    }
}

/// The later of two answers where there is one, otherwise the earlier.
pub open spec fn or_earlier(later: Option<HitRecord>, earlier: Option<HitRecord>) -> Option<
    HitRecord,
> {
    match later {
        Some(h) => Some(h),
        None => earlier,
    }
}

/// Something a ray can hit.
///
/// An implementation computes in its own arithmetic. The three model
/// functions name its answers, so that the contracts of the scene graph can
/// say which of them it passes on; each method returns what its model says.
/// What this crate proves of an implementation from outside it holds as far
/// as that implementation keeps to this.
pub trait Hittable {
    /// The hit of `r` on this object at a distance in
    /// `[trace_len_min, trace_len_max]`, if there is one.
    spec fn hit_model(&self, r: Ray, trace_len_min: Scalar, trace_len_max: Scalar) -> Option<
        HitRecord,
    >;

    /// The box that encloses this object, if it has one.
    spec fn bounds_model(&self) -> Option<AABB>;

    /// The distances at which `r` crosses the planes of `bound`.
    spec fn slabs_model(bound: AABB, r: Ray) -> Slabs;

    /// Looks for a hit and writes it to `rec`. Where there is none, `rec`
    /// may hold anything afterwards.
    fn hit(&self, r: &Ray, trace_len_min: Scalar, trace_len_max: Scalar, rec: &mut HitRecord) -> (found:
        bool)
        ensures
            found == self.hit_model(*r, trace_len_min, trace_len_max).is_some(),
            found ==> *final(rec) == self.hit_model(*r, trace_len_min, trace_len_max).unwrap(),
    ;

    /// Writes the enclosing box to `output_box`. Where there is none,
    /// `output_box` may hold anything afterwards.
    fn bounds(&self, output_box: &mut AABB) -> (found: bool)
        ensures
            found == self.bounds_model().is_some(),
            found ==> *final(output_box) == self.bounds_model().unwrap(),
    ;

    /// Computes the slabs of `r` and `bound`.
    fn slabs(bound: &AABB, r: &Ray) -> (s: Slabs)
        ensures
            s == Self::slabs_model(*bound, *r),
    ;
}

/// A flat list of objects, asked one after the other.
pub struct HittableList<H> {
    pub objs: Vec<H>,
}

impl<H: Hittable> HittableList<H> {
    /// What a scan of `objs` finds: each object is asked up to the distance
    /// of the best hit so far, and a later hit replaces an earlier one.
    pub open spec fn scan(objs: Seq<H>, r: Ray, t_min: Scalar, t_max: Scalar) -> Option<HitRecord>
        decreases objs.len(),
    {
        if objs.len() == 0 {
            None
        } else {
            let before = Self::scan(objs.drop_last(), r, t_min, t_max);
            or_earlier(objs.last().hit_model(r, t_min, limit_after(before, t_max)), before)
        }
    }

    /// The union of the boxes of `objs`; none where the list is empty or an
    /// object has no box.
    pub open spec fn enclosing(objs: Seq<H>) -> Option<AABB>
        decreases objs.len(),
    {
        if objs.len() == 0 {
            None
        } else if objs.len() == 1 {
            objs[0].bounds_model()
        } else {
            match (Self::enclosing(objs.drop_last()), objs.last().bounds_model()) {
                (Some(a), Some(b)) => Some(b.union(a)),
                _ => None,
            }
        }
    }

    /// The nearest hit of `ray` on any member, at a distance in
    /// `[trace_len_min, trace_len_max]`. Without a hit `rec` is left as it
    /// was.
    pub fn hit(
        &self,
        ray: &Ray,
        trace_len_min: Scalar,
        trace_len_max: Scalar,
        rec: &mut HitRecord,
    ) -> (hit_anything: bool)
        ensures
            hit_anything == Self::scan(self.objs@, *ray, trace_len_min, trace_len_max).is_some(),
            hit_anything ==> *final(rec) == Self::scan(
                self.objs@,
                *ray,
                trace_len_min,
                trace_len_max,
            ).unwrap(),
            !hit_anything ==> *final(rec) == *old(rec),
    {
        let mut hit_anything = false;
        let mut closest_so_far = trace_len_max;
        let mut i: usize = 0;
        while i < self.objs.len()
            invariant
                i <= self.objs.len(),
                hit_anything == Self::scan(
                    self.objs@.take(i as int),
                    *ray,
                    trace_len_min,
                    trace_len_max,
                ).is_some(),
                hit_anything ==> *rec == Self::scan(
                    self.objs@.take(i as int),
                    *ray,
                    trace_len_min,
                    trace_len_max,
                ).unwrap(),
                !hit_anything ==> *rec == *old(rec),
                closest_so_far == limit_after(
                    Self::scan(self.objs@.take(i as int), *ray, trace_len_min, trace_len_max),
                    trace_len_max,
                ),
            decreases self.objs.len() - i,
        {
            let mut tmp_rec = HitRecord::default();
            proof {
                assert(self.objs@.take(i + 1).drop_last() =~= self.objs@.take(i as int));
            }
            if self.objs[i].hit(ray, trace_len_min, closest_so_far, &mut tmp_rec) {
                hit_anything = true;
                closest_so_far = tmp_rec.trace_len;
                *rec = tmp_rec;
            }
            i += 1;
        }
        proof {
            assert(self.objs@.take(i as int) =~= self.objs@);
        }
        hit_anything
    }

    /// The box that encloses every member. There is none where the list is
    /// empty or a member has no box; `output` is then left as it was.
    pub fn bounds(&self, output: &mut AABB) -> (found: bool)
        ensures
            found == Self::enclosing(self.objs@).is_some(),
            found ==> *final(output) == Self::enclosing(self.objs@).unwrap(),
            !found ==> *final(output) == *old(output),
    {
        if self.objs.len() == 0 {
            return false;
        }
        let mut tmp = AABB { min: Vec3::new(ZERO, ZERO, ZERO), max: Vec3::new(ZERO, ZERO, ZERO) };
        let mut acc = tmp;
        let mut i: usize = 0;
        while i < self.objs.len()
            invariant
                i <= self.objs.len(),
                self.objs.len() > 0,
                i > 0 ==> Self::enclosing(self.objs@.take(i as int)) == Some(acc),
            decreases self.objs.len() - i,
        {
            proof {
                assert(self.objs@.take(i + 1).drop_last() =~= self.objs@.take(i as int));
                assert(self.objs@.take(i + 1).last() == self.objs@[i as int]);
            }
            if !self.objs[i].bounds(&mut tmp) {
                proof {
                    Self::lemma_enclosing_needs_every_box(self.objs@, i as int);
                }
                return false;
            }
            if i == 0 {
                acc = tmp;
            } else {
                acc = AABB::surrounding_box(&tmp, &acc);
            }
            i += 1;
        }
        proof {
            assert(self.objs@.take(i as int) =~= self.objs@);
        }
        *output = acc;
        true
    }

    pub fn add(&mut self, obj: H)
        ensures
            final(self).objs@ == old(self).objs@.push(obj),
    {
        self.objs.push(obj);
    }

    /// A list with a member that has no box has no enclosing box.
    pub proof fn lemma_enclosing_needs_every_box(objs: Seq<H>, i: int)
        requires
            0 <= i < objs.len(),
            objs[i].bounds_model().is_none(),
        ensures
            Self::enclosing(objs).is_none(),
        decreases objs.len(),
    {
        if objs.len() > 1 && i < objs.len() - 1 {
            Self::lemma_enclosing_needs_every_box(objs.drop_last(), i);
        }
    }

    /// The enclosing box is there exactly when the list is not empty and
    /// every member has a box; it then encloses the box of every member,
    /// and so does no smaller box: whatever encloses them all encloses it.
    pub proof fn lemma_enclosing_is_least(objs: Seq<H>, outer: AABB)
        ensures
            Self::enclosing(objs).is_some() <==> objs.len() > 0 && forall|i: int|
                0 <= i < objs.len() ==> (#[trigger] objs[i]).bounds_model().is_some(),
            Self::enclosing(objs).is_some() ==> forall|i: int|
                0 <= i < objs.len() ==> Self::enclosing(objs).unwrap().contains_box(
                    (#[trigger] objs[i]).bounds_model().unwrap(),
                ),
            Self::enclosing(objs).is_some() && (forall|i: int|
                0 <= i < objs.len() ==> outer.contains_box(
                    (#[trigger] objs[i]).bounds_model().unwrap(),
                )) ==> outer.contains_box(Self::enclosing(objs).unwrap()),
        decreases objs.len(),
    {
        if objs.len() > 1 {
            let front = objs.drop_last();
            Self::lemma_enclosing_is_least(front, outer);
            assert forall|i: int| 0 <= i < front.len() implies front[i] == objs[i] by {}
            if Self::enclosing(objs).is_some() {
                let a = Self::enclosing(front).unwrap();
                let b = objs.last().bounds_model().unwrap();
                b.lemma_union_is_least(a, outer);
                assert forall|i: int| 0 <= i < objs.len() implies Self::enclosing(
                    objs,
                ).unwrap().contains_box((#[trigger] objs[i]).bounds_model().unwrap()) by {
                    if i < front.len() {
                        assert(front[i] == objs[i]);
                    }
                }
                if forall|i: int|
                    0 <= i < objs.len() ==> outer.contains_box(
                        (#[trigger] objs[i]).bounds_model().unwrap(),
                    ) {
                    assert forall|i: int| 0 <= i < front.len() implies outer.contains_box(
                        (#[trigger] front[i]).bounds_model().unwrap(),
                    ) by {
                        assert(front[i] == objs[i]);
                    }
                }
            } else {
                if objs.last().bounds_model().is_some() {
                    assert(Self::enclosing(front).is_none());
                    let j = choose|j: int|
                        0 <= j < front.len() && (#[trigger] front[j]).bounds_model().is_none();
                    assert(front[j] == objs[j]);
                }
            }
        }
    }
}

/// An answer, cut off at `t_max`: a hit beyond it is no hit.
pub open spec fn clip(answer: Option<HitRecord>, t_max: Scalar) -> Option<HitRecord> {
    match answer {
        Some(h) => if h.trace_len <= t_max {
            Some(h)
        } else {
            None
        },
        None => None,
    }
}

/// The object answers as a shape in space does: on a shorter interval it
/// gives the answer of the longer one, cut off at the shorter interval's
/// end. Intervals that start at `t_min` are meant.
pub open spec fn consistent<H: Hittable>(object: H, r: Ray, t_min: Scalar) -> bool {
    forall|shorter: Scalar, longer: Scalar|
        shorter <= longer ==> #[trigger] object.hit_model(r, t_min, shorter) == clip(
            #[trigger] object.hit_model(r, t_min, longer),
            shorter,
        )
}

/// The slab test is on the safe side for the object: where the ray hits
/// it within an interval, the ray passes the slab test on that interval for
/// every box that contains the object's own.
pub open spec fn conservative<H: Hittable>(object: H, r: Ray) -> bool {
    forall|bound: AABB, t_min: Scalar, t_max: Scalar|
        (#[trigger] object.hit_model(r, t_min, t_max)).is_some() && object.bounds_model().is_some()
            && bound.contains_box(object.bounds_model().unwrap()) ==> (#[trigger] H::slabs_model(
            bound,
            r,
        )).overlaps(t_min, t_max)
}

/// `answer` is the nearest of the hits of `objs` on `[t_min, t_max]`: the
/// hit of one of them, with none of the others nearer; or none, where none
/// of them is hit.
pub open spec fn nearest<H: Hittable>(
    objs: Seq<H>,
    r: Ray,
    t_min: Scalar,
    t_max: Scalar,
    answer: Option<HitRecord>,
) -> bool {
    match answer {
        Some(h) => {
            &&& exists|k: int|
                0 <= k < objs.len() && (#[trigger] objs[k]).hit_model(r, t_min, t_max) == Some(h)
            &&& forall|i: int|
                0 <= i < objs.len() ==> ((#[trigger] objs[i]).hit_model(r, t_min, t_max) matches Some(
                    g,
                ) ==> h.trace_len <= g.trace_len)
        },
        None => forall|i: int|
            0 <= i < objs.len() ==> (#[trigger] objs[i]).hit_model(r, t_min, t_max).is_none(),
    }
}

/// No two objects are hit at the same distance with different records.
pub open spec fn untied<H: Hittable>(objs: Seq<H>, r: Ray, t_min: Scalar, t_max: Scalar) -> bool {
    forall|i: int, j: int|
        0 <= i < objs.len() && 0 <= j < objs.len() ==> ((#[trigger] objs[i]).hit_model(
            r,
            t_min,
            t_max,
        ) matches Some(g) ==> ((#[trigger] objs[j]).hit_model(r, t_min, t_max) matches Some(h)
            ==> (g.trace_len == h.trace_len ==> g == h)))
}

/// The scan of a list of consistent objects finds the nearest of their
/// hits.
pub proof fn lemma_scan_is_nearest<H: Hittable>(objs: Seq<H>, r: Ray, t_min: Scalar, t_max: Scalar)
    requires
        forall|i: int| 0 <= i < objs.len() ==> consistent(#[trigger] objs[i], r, t_min),
    ensures
        nearest(objs, r, t_min, t_max, HittableList::<H>::scan(objs, r, t_min, t_max)),
    decreases objs.len(),
{
    if objs.len() > 0 {
        let front = objs.drop_last();
        let last = objs.last();
        assert forall|i: int| 0 <= i < front.len() implies consistent(#[trigger] front[i], r, t_min) by {
            assert(front[i] == objs[i]);
        }
        lemma_scan_is_nearest(front, r, t_min, t_max);
        let before = HittableList::<H>::scan(front, r, t_min, t_max);
        let limit = limit_after(before, t_max);
        let current = last.hit_model(r, t_min, limit);
        let answer = or_earlier(current, before);
        assert(consistent(objs[objs.len() - 1], r, t_min));
        lemma_nearest_extended(front, last, r, t_min, t_max, before);
        assert(front.push(last) =~= objs);
    }
}

/// One more object, asked up to the distance of the nearest hit so far,
/// leaves the nearest hit of all.
pub proof fn lemma_nearest_extended<H: Hittable>(
    front: Seq<H>,
    last: H,
    r: Ray,
    t_min: Scalar,
    t_max: Scalar,
    before: Option<HitRecord>,
)
    requires
        nearest(front, r, t_min, t_max, before),
        consistent(last, r, t_min),
        forall|i: int| 0 <= i < front.len() ==> consistent(#[trigger] front[i], r, t_min),
    ensures
        nearest(
            front.push(last),
            r,
            t_min,
            t_max,
            or_earlier(last.hit_model(r, t_min, limit_after(before, t_max)), before),
        ),
{
    let objs = front.push(last);
    let limit = limit_after(before, t_max);
    let current = last.hit_model(r, t_min, limit);
    let answer = or_earlier(current, before);
    let full = last.hit_model(r, t_min, t_max);
    assert(objs[front.len() as int] == last);
    assert forall|i: int| 0 <= i < front.len() implies objs[i] == front[i] by {}
    match before {
        Some(p) => {
            let k = choose|k: int|
                0 <= k < front.len() && (#[trigger] front[k]).hit_model(r, t_min, t_max) == Some(p);
            assert(consistent(front[k], r, t_min));
            assert(front[k].hit_model(r, t_min, t_max) == clip(
                front[k].hit_model(r, t_min, t_max),
                t_max,
            ));
            assert(p.trace_len <= t_max);
            assert(current == clip(full, limit));
            match current {
                Some(h) => {
                    assert(objs[front.len() as int].hit_model(r, t_min, t_max) == Some(h));
                    assert forall|i: int| 0 <= i < objs.len() implies ((#[trigger] objs[i]).hit_model(
                        r,
                        t_min,
                        t_max,
                    ) matches Some(g) ==> h.trace_len <= g.trace_len) by {
                        if i < front.len() {
                            assert(objs[i] == front[i]);
                        }
                    }
                },
                None => {
                    assert(objs[k] == front[k]);
                    assert forall|i: int| 0 <= i < objs.len() implies ((#[trigger] objs[i]).hit_model(
                        r,
                        t_min,
                        t_max,
                    ) matches Some(g) ==> p.trace_len <= g.trace_len) by {
                        if i < front.len() {
                            assert(objs[i] == front[i]);
                        }
                    }
                },
            }
        },
        None => {
            assert(current == full);
            match current {
                Some(h) => {
                    assert(objs[front.len() as int].hit_model(r, t_min, t_max) == Some(h));
                    assert forall|i: int| 0 <= i < objs.len() implies ((#[trigger] objs[i]).hit_model(
                        r,
                        t_min,
                        t_max,
                    ) matches Some(g) ==> h.trace_len <= g.trace_len) by {
                        if i < front.len() {
                            assert(objs[i] == front[i]);
                        }
                    }
                },
                None => {
                    assert forall|i: int| 0 <= i < objs.len() implies (#[trigger] objs[i]).hit_model(
                        r,
                        t_min,
                        t_max,
                    ).is_none() by {
                        if i < front.len() {
                            assert(objs[i] == front[i]);
                        }
                    }
                },
            }
        },
    }
}

/// The nearest hit is the same for every order of the objects: two
/// nearest answers for lists that hold the same objects agree on whether
/// there is a hit and on its distance, and, where no two objects tie, on
/// the whole record.
pub proof fn lemma_nearest_agree<H: Hittable>(
    a: Seq<H>,
    b: Seq<H>,
    r: Ray,
    t_min: Scalar,
    t_max: Scalar,
    of_a: Option<HitRecord>,
    of_b: Option<HitRecord>,
)
    requires
        a.to_multiset() == b.to_multiset(),
        nearest(a, r, t_min, t_max, of_a),
        nearest(b, r, t_min, t_max, of_b),
    ensures
        of_a.is_some() == of_b.is_some(),
        of_a.is_some() ==> of_a.unwrap().trace_len == of_b.unwrap().trace_len,
        untied(a, r, t_min, t_max) ==> of_a == of_b,
{
    match of_a {
        Some(h) => {
            let k = choose|k: int|
                0 <= k < a.len() && (#[trigger] a[k]).hit_model(r, t_min, t_max) == Some(h);
            let k2 = crate::sort::lemma_item_of_permutation(b, a, k);
            assert(b[k2].hit_model(r, t_min, t_max) == Some(h));
            match of_b {
                Some(g) => {
                    let m = choose|m: int|
                        0 <= m < b.len() && (#[trigger] b[m]).hit_model(r, t_min, t_max) == Some(g);
                    let m2 = crate::sort::lemma_item_of_permutation(a, b, m);
                    assert(a[m2].hit_model(r, t_min, t_max) == Some(g));
                    assert(h.trace_len <= g.trace_len);
                    assert(g.trace_len <= h.trace_len);
                    if untied(a, r, t_min, t_max) {
                        assert(a[k].hit_model(r, t_min, t_max) == Some(h));
                        assert(h == g);
                    }
                },
                None => {
                    assert(b[k2].hit_model(r, t_min, t_max).is_none());
                },
            }
        },
        None => {
            match of_b {
                Some(g) => {
                    let m = choose|m: int|
                        0 <= m < b.len() && (#[trigger] b[m]).hit_model(r, t_min, t_max) == Some(g);
                    let m2 = crate::sort::lemma_item_of_permutation(a, b, m);
                    assert(a[m2].hit_model(r, t_min, t_max) == Some(g));
                },
                None => {},
            }
        },
    }
}

/// The order of a list does not matter to what a scan of it finds: two
/// lists that hold the same consistent objects give hits at the same
/// distance, or both none, and the same record where no two objects tie.
pub proof fn lemma_scan_ignores_order<H: Hittable>(
    a: Seq<H>,
    b: Seq<H>,
    r: Ray,
    t_min: Scalar,
    t_max: Scalar,
)
    requires
        a.to_multiset() == b.to_multiset(),
        forall|i: int| 0 <= i < a.len() ==> consistent(#[trigger] a[i], r, t_min),
    ensures
        HittableList::<H>::scan(a, r, t_min, t_max).is_some() == HittableList::<H>::scan(
            b,
            r,
            t_min,
            t_max,
        ).is_some(),
        HittableList::<H>::scan(a, r, t_min, t_max).is_some() ==> HittableList::<H>::scan(
            a,
            r,
            t_min,
            t_max,
        ).unwrap().trace_len == HittableList::<H>::scan(b, r, t_min, t_max).unwrap().trace_len,
        untied(a, r, t_min, t_max) ==> HittableList::<H>::scan(a, r, t_min, t_max)
            == HittableList::<H>::scan(b, r, t_min, t_max),
{
    assert forall|i: int| 0 <= i < b.len() implies consistent(#[trigger] b[i], r, t_min) by {
        let j = crate::sort::lemma_item_of_permutation(a, b, i);
    }
    lemma_scan_is_nearest(a, r, t_min, t_max);
    lemma_scan_is_nearest(b, r, t_min, t_max);
    lemma_nearest_agree(
        a,
        b,
        r,
        t_min,
        t_max,
        HittableList::<H>::scan(a, r, t_min, t_max),
        HittableList::<H>::scan(b, r, t_min, t_max),
    );
}

/// Asking a second object up to the distance of a first answer commutes
/// with cutting off: where the first answer and the second object both
/// give, on the shorter interval, what they give on the longer one, cut
/// off, so does the two together. `second` is the second object's answer
/// as a function of the end of the interval.
pub proof fn lemma_joined_clips(
    first_short: Option<HitRecord>,
    first_long: Option<HitRecord>,
    second: spec_fn(Scalar) -> Option<HitRecord>,
    shorter: Scalar,
    longer: Scalar,
)
    requires
        shorter <= longer,
        first_short == clip(first_long, shorter),
        first_long == clip(first_long, longer),
        forall|x: Scalar, y: Scalar| x <= y ==> #[trigger] second(x) == clip(#[trigger] second(y), x),
    ensures
        or_earlier(second(limit_after(first_short, shorter)), first_short) == clip(
            or_earlier(second(limit_after(first_long, longer)), first_long),
            shorter,
        ),
{
    match first_long {
        None => {
            assert(second(shorter) == clip(second(longer), shorter));
        },
        Some(p) => {
            if p.trace_len <= shorter {
                assert(second(p.trace_len) == clip(second(p.trace_len), p.trace_len));
            } else {
                assert(second(shorter) == clip(second(p.trace_len), shorter));
            }
        },
    }
}

/// The scan of a list of consistent objects is consistent: on a shorter
/// interval it finds what it finds on the longer one, cut off.
pub proof fn lemma_scan_is_consistent<H: Hittable>(
    objs: Seq<H>,
    r: Ray,
    t_min: Scalar,
    shorter: Scalar,
    longer: Scalar,
)
    requires
        forall|i: int| 0 <= i < objs.len() ==> consistent(#[trigger] objs[i], r, t_min),
        shorter <= longer,
    ensures
        HittableList::<H>::scan(objs, r, t_min, shorter) == clip(
            HittableList::<H>::scan(objs, r, t_min, longer),
            shorter,
        ),
    decreases objs.len(),
{
    if objs.len() > 0 {
        let front = objs.drop_last();
        let last = objs.last();
        assert forall|i: int| 0 <= i < front.len() implies consistent(#[trigger] front[i], r, t_min) by {
            assert(front[i] == objs[i]);
        }
        lemma_scan_is_consistent(front, r, t_min, shorter, longer);
        lemma_scan_is_consistent(front, r, t_min, longer, longer);
        assert(consistent(objs[objs.len() - 1], r, t_min));
        let second = |t: Scalar| last.hit_model(r, t_min, t);
        assert forall|x: Scalar, y: Scalar| x <= y implies #[trigger] second(x) == clip(
            #[trigger] second(y),
            x,
        ) by {
            assert(last.hit_model(r, t_min, x) == clip(last.hit_model(r, t_min, y), x));
        }
        lemma_joined_clips(
            HittableList::<H>::scan(front, r, t_min, shorter),
            HittableList::<H>::scan(front, r, t_min, longer),
            second,
            shorter,
            longer,
        );
    }
}

} // verus!
