//! The bounding-volume hierarchy: a binary tree over a set of objects, each
//! node with the box that encloses everything below it, so that a ray that
//! misses the box can skip the subtree.

use vstd::prelude::*;
use rand_chacha::ChaCha20Rng;
use crate::aabb::{Slabs, AABB};
use crate::error::RenderError;
use crate::hittable::{
    clip, conservative, consistent, lemma_joined_clips, lemma_nearest_agree,
    lemma_scan_is_nearest, limit_after, nearest, or_earlier, untied, HitRecord, Hittable,
    HittableList,
};
use crate::rand_double::random_axis;
use crate::ray::Ray;
use crate::sort::{
    lemma_item_of_permutation, lemma_map_permuted, lemma_sorted, sort_range, sorted, Keyed,
};
use crate::vec3::{Scalar, Vec3, ZERO};

verus! {

/// A node of the hierarchy, with the box of everything below it.
pub struct BvhNode<H> {
    pub bound: AABB,
    pub children: BvhChildren<H>,
}

/// What stands below a node: one object, or two nodes.
pub enum BvhChildren<H> {
    Leaf(H),
    Pair(Box<BvhNode<H>>, Box<BvhNode<H>>),
}

/// An object on its way into the tree, with its box.
pub struct Entry<H> {
    pub object: H,
    pub bound: AABB,
}

impl<H: Hittable> Entry<H> {
    /// The box is the object's own.
    pub open spec fn wf(self) -> bool {
        self.object.bounds_model() == Some(self.bound)
    }
}

impl<H> Keyed for Entry<H> {
    /// An entry is ordered by the minimum corner of its box, on the axis
    /// `by`.
    open spec fn key(&self, by: int) -> int {
        self.bound.min.component(by) as int
    }

    fn key_exceeds(&self, other: &Self, by: i8) -> (r: bool) {
        self.bound.min.idx(by) > other.bound.min.idx(by)
    }
}

/// The objects of `entries`, in their order.
pub open spec fn objects_of<H>(entries: Seq<Entry<H>>) -> Seq<H> {
    entries.map_values(|e: Entry<H>| e.object)
}

/// The objects of `objs` with their boxes, in their order.
pub open spec fn entries_of<H: Hittable>(objs: Seq<H>) -> Seq<Entry<H>> {
    objs.map_values(|object: H| Entry { object, bound: object.bounds_model().unwrap() })
}

/// The minimum corner of the object's box on `axis`: the key by which the
/// tree orders its objects.
pub open spec fn axis_key<H: Hittable>(object: H, axis: int) -> int {
    object.bounds_model().unwrap().min.component(axis) as int
}

/// On `axis`, no object of `left` starts behind an object of `right`.
pub open spec fn separated<H: Hittable>(left: Seq<H>, right: Seq<H>, axis: int) -> bool {
    forall|i: int, j: int|
        0 <= i < left.len() && 0 <= j < right.len() ==> axis_key(#[trigger] left[i], axis)
            <= axis_key(#[trigger] right[j], axis)
}

impl<H: Hittable> BvhNode<H> {
    /// The objects of the tree, from left to right.
    pub open spec fn leaves(self) -> Seq<H>
        decreases self,
    {
        match self.children {
            BvhChildren::Leaf(object) => seq![object],
            BvhChildren::Pair(left, right) => left.leaves() + right.leaves(),
        }
    }

    /// Every box is what it has to be: that of a leaf is the object's own,
    /// and that of an inner node is the union of its children's boxes.
    pub open spec fn well_formed(self) -> bool
        decreases self,
    {
        match self.children {
            BvhChildren::Leaf(object) => object.bounds_model() == Some(self.bound),
            BvhChildren::Pair(left, right) => {
                &&& left.well_formed()
                &&& right.well_formed()
                &&& self.bound == left.bound.union(right.bound)
            },
        }
    }

    /// The box of every inner node contains the boxes of both its children.
    pub open spec fn bounded(self) -> bool
        decreases self,
    {
        match self.children {
            BvhChildren::Leaf(object) => true,
            BvhChildren::Pair(left, right) => {
                &&& left.bounded()
                &&& right.bounded()
                &&& self.bound.contains_box(left.bound)
                &&& self.bound.contains_box(right.bound)
            },
        }
    }

    /// The tree is one that grows from `entries`: a leaf from a single
    /// entry, and an inner node from more, sorted by the minimum corners of
    /// their boxes on one of the three axes, entries that tie staying in
    /// their order, and split in the middle, with the left child grown from
    /// the first half, rounded down, the right child from the rest, and
    /// the union of the children's boxes as its box.
    pub open spec fn grows_from(self, entries: Seq<Entry<H>>) -> bool
        decreases self,
    {
        match self.children {
            BvhChildren::Leaf(object) => {
                &&& entries.len() == 1
                &&& object == entries[0].object
                &&& self.bound == entries[0].bound
            },
            BvhChildren::Pair(left, right) => {
                &&& entries.len() >= 2
                &&& self.bound == left.bound.union(right.bound)
                &&& exists|axis: int|
                    0 <= axis < 3 && left.grows_from(
                        (#[trigger] sorted(entries, axis)).take(entries.len() as int / 2),
                    ) && right.grows_from(sorted(entries, axis).skip(entries.len() as int / 2))
            },
        }
    }

    /// Every inner node halves its objects along one axis: the left child
    /// gets the half, rounded down, that starts first on that axis.
    pub open spec fn halved(self) -> bool
        decreases self,
    {
        match self.children {
            BvhChildren::Leaf(object) => true,
            BvhChildren::Pair(left, right) => {
                &&& left.halved()
                &&& right.halved()
                &&& left.leaves().len() == (left.leaves().len() + right.leaves().len()) / 2
                &&& exists|axis: int|
                    0 <= axis < 3 && #[trigger] separated(left.leaves(), right.leaves(), axis)
            },
        }
    }

    /// In a well-formed tree the box of every inner node contains the boxes
    /// of both its children.
    pub proof fn lemma_well_formed_is_bounded(self)
        requires
            self.well_formed(),
        ensures
            self.bounded(),
        decreases self,
    {
        match self.children {
            BvhChildren::Leaf(object) => {},
            BvhChildren::Pair(left, right) => {
                left.lemma_well_formed_is_bounded();
                right.lemma_well_formed_is_bounded();
                left.bound.lemma_union_is_least(right.bound, self.bound);
            },
        }
    }

    /// A tree has at least one object.
    pub proof fn lemma_leaves_nonempty(self)
        ensures
            self.leaves().len() >= 1,
        decreases self,
    {
        match self.children {
            BvhChildren::Leaf(object) => {},
            BvhChildren::Pair(left, right) => {
                left.lemma_leaves_nonempty();
            },
        }
    }

    /// In a well-formed tree the box of a node is no larger than it has to
    /// be: a box that contains the box of every object below the node
    /// contains the node's box.
    pub proof fn lemma_bound_is_least(self, outer: AABB)
        requires
            self.well_formed(),
            forall|i: int|
                0 <= i < self.leaves().len() ==> outer.contains_box(
                    (#[trigger] self.leaves()[i]).bounds_model().unwrap(),
                ),
        ensures
            outer.contains_box(self.bound),
        decreases self,
    {
        match self.children {
            BvhChildren::Leaf(object) => {
                assert(self.leaves()[0] == object);
            },
            BvhChildren::Pair(left, right) => {
                assert forall|i: int| 0 <= i < left.leaves().len() implies outer.contains_box(
                    (#[trigger] left.leaves()[i]).bounds_model().unwrap(),
                ) by {
                    assert(self.leaves()[i] == left.leaves()[i]);
                }
                assert forall|i: int| 0 <= i < right.leaves().len() implies outer.contains_box(
                    (#[trigger] right.leaves()[i]).bounds_model().unwrap(),
                ) by {
                    assert(self.leaves()[left.leaves().len() + i] == right.leaves()[i]);
                }
                left.lemma_bound_is_least(outer);
                right.lemma_bound_is_least(outer);
                left.bound.lemma_union_is_least(right.bound, outer);
            },
        }
    }

    /// The box of a well-formed tree is the box of the list of its
    /// objects, in whatever order the list holds them.
    pub proof fn lemma_bound_is_enclosing(self, objs: Seq<H>)
        requires
            self.well_formed(),
            self.leaves().to_multiset() == objs.to_multiset(),
        ensures
            HittableList::<H>::enclosing(objs) == Some(self.bound),
    {
        let leaves = self.leaves();
        self.lemma_leaves_nonempty();
        vstd::seq_lib::to_multiset_len(leaves);
        vstd::seq_lib::to_multiset_len(objs);
        assert forall|i: int| 0 <= i < objs.len() implies (#[trigger] objs[i]).bounds_model().is_some()
            && self.bound.contains_box(objs[i].bounds_model().unwrap()) by {
            let j = lemma_item_of_permutation(leaves, objs, i);
            self.lemma_bound_encloses_leaves(j);
        }
        HittableList::<H>::lemma_enclosing_is_least(objs, self.bound);
        let whole = HittableList::<H>::enclosing(objs).unwrap();
        assert forall|i: int| 0 <= i < leaves.len() implies whole.contains_box(
            (#[trigger] leaves[i]).bounds_model().unwrap(),
        ) by {
            let j = lemma_item_of_permutation(objs, leaves, i);
        }
        self.lemma_bound_is_least(whole);
    }

    /// In a well-formed tree the box of a node contains the box of every
    /// object below it.
    pub proof fn lemma_bound_encloses_leaves(self, i: int)
        requires
            self.well_formed(),
            0 <= i < self.leaves().len(),
        ensures
            self.leaves()[i].bounds_model().is_some(),
            self.bound.contains_box(self.leaves()[i].bounds_model().unwrap()),
        decreases self,
    {
        match self.children {
            BvhChildren::Leaf(object) => {},
            BvhChildren::Pair(left, right) => {
                left.bound.lemma_union_is_least(right.bound, self.bound);
                if i < left.leaves().len() {
                    left.lemma_bound_encloses_leaves(i);
                } else {
                    right.lemma_bound_encloses_leaves(i - left.leaves().len());
                }
            },
        }
    }
}

impl<H: Hittable + Copy> BvhNode<H> {
    /// Builds the tree over the objects of `src_objs` from `start` up to
    /// `end`.
    ///
    /// One object becomes a leaf. More are sorted by the minimum corner of
    /// their boxes on an axis drawn from `rng`, objects that tie staying in
    /// their order, and split in the middle; each half becomes a subtree by
    /// the same rule, with an axis of its own. The build fails at the first
    /// object that has no box.
    pub fn new(src_objs: &Vec<H>, start: usize, end: usize, rng: &mut ChaCha20Rng) -> (out: Result<
        BvhNode<H>,
        RenderError,
    >)
        requires
            start < end <= src_objs.len(),
        ensures
            match out {
                Ok(node) => {
                    &&& forall|i: int| start <= i < end ==> src_objs@[i].bounds_model().is_some()
                    &&& node.grows_from(entries_of(src_objs@.subrange(start as int, end as int)))
                    &&& node.leaves().to_multiset() == src_objs@.subrange(
                        start as int,
                        end as int,
                    ).to_multiset()
                    &&& node.well_formed()
                    &&& node.bounded()
                    &&& node.halved()
                },
                Err(e) => {
                    &&& e matches RenderError::MissingBounds { index }
                    &&& start <= index < end
                    &&& src_objs@[index as int].bounds_model().is_none()
                    &&& forall|i: int| start <= i < index ==> src_objs@[i].bounds_model().is_some()
                },
            },
    {
        let mut entries: Vec<Entry<H>> = Vec::new();
        let mut i: usize = start;
        while i < end
            invariant
                start <= i <= end <= src_objs.len(),
                entries@ == entries_of(src_objs@.subrange(start as int, i as int)),
                forall|k: int| start <= k < i ==> src_objs@[k].bounds_model().is_some(),
            decreases end - i,
        {
            let object = src_objs[i];
            let mut bound = AABB {
                min: Vec3::new(ZERO, ZERO, ZERO),
                max: Vec3::new(ZERO, ZERO, ZERO),
            };
            if !object.bounds(&mut bound) {
                return Err(RenderError::MissingBounds { index: i });
            }
            entries.push(Entry { object, bound });
            proof {
                assert(entries@ =~= entries_of(src_objs@.subrange(start as int, i + 1)));
            }
            i += 1;
        }
        let ghost given = entries@;
        let n = entries.len();
        let node = Self::build(&mut entries, 0, n, rng);
        proof {
            let objs = src_objs@.subrange(start as int, end as int);
            assert(given.subrange(0, n as int) =~= given);
            assert forall|k: int| 0 <= k < given.len() implies (#[trigger] given[k]).wf() by {
                assert(objs[k] == src_objs@[start + k]);
            }
            node.lemma_grown(given);
            node.lemma_well_formed_is_bounded();
            assert(objects_of(given) =~= objs);
        }
        Ok(node)
    }

    /// Builds the subtree over `entries` from `lo` up to `hi`, reordering
    /// them on the way.
    fn build(entries: &mut Vec<Entry<H>>, lo: usize, hi: usize, rng: &mut ChaCha20Rng) -> (node:
        BvhNode<H>)
        requires
            lo < hi <= old(entries)@.len(),
        ensures
            final(entries)@.len() == old(entries)@.len(),
            final(entries)@.take(lo as int) == old(entries)@.take(lo as int),
            final(entries)@.skip(hi as int) == old(entries)@.skip(hi as int),
            node.grows_from(old(entries)@.subrange(lo as int, hi as int)),
        decreases hi - lo,
    {
        if hi - lo == 1 {
            let object = entries[lo].object;
            let bound = entries[lo].bound;
            BvhNode { bound, children: BvhChildren::Leaf(object) }
        } else {
            let ghost given = entries@;
            let ghost part = given.subrange(lo as int, hi as int);
            let axis = random_axis(rng);
            sort_range(entries, lo, hi, axis);
            let ghost ordered = entries@;
            proof {
                lemma_sorted(part, axis as int);
                assert(ordered.subrange(lo as int, hi as int) =~= sorted(part, axis as int));
                assert(ordered.take(lo as int) =~= given.take(lo as int));
                assert(ordered.skip(hi as int) =~= given.skip(hi as int));
            }
            let mid = lo + (hi - lo) / 2;
            let left = Self::build(entries, lo, mid, rng);
            let ghost halfway = entries@;
            let right = Self::build(entries, mid, hi, rng);
            let bound = AABB::surrounding_box(&left.bound, &right.bound);
            let node = BvhNode {
                bound,
                children: BvhChildren::Pair(Box::new(left), Box::new(right)),
            };
            proof {
                let done = entries@;
                let all = sorted(part, axis as int);
                assert(ordered.subrange(lo as int, mid as int) =~= all.take(part.len() as int / 2));
                let second = halfway.subrange(mid as int, hi as int);
                assert(second =~= all.skip(part.len() as int / 2)) by {
                    assert forall|k: int| 0 <= k < hi - mid implies #[trigger] second[k] == all[mid
                        - lo + k] by {
                        assert(halfway[mid + k] == halfway.skip(mid as int)[k]);
                        assert(ordered[mid + k] == ordered.skip(mid as int)[k]);
                        assert(ordered[mid + k] == ordered.subrange(lo as int, hi as int)[mid
                            - lo + k]);
                    }
                }
                assert(done.take(lo as int) =~= given.take(lo as int)) by {
                    assert forall|k: int| 0 <= k < lo implies done[k] == given[k] by {
                        assert(done[k] == done.take(mid as int)[k]);
                        assert(halfway[k] == halfway.take(mid as int)[k]);
                        assert(halfway[k] == halfway.take(lo as int)[k]);
                        assert(ordered[k] == ordered.take(lo as int)[k]);
                        assert(given[k] == given.take(lo as int)[k]);
                    }
                }
                assert(done.skip(hi as int) =~= given.skip(hi as int)) by {
                    assert forall|k: int| hi <= k < done.len() implies done[k] == given[k] by {
                        assert(done[k] == done.skip(hi as int)[k - hi]);
                        assert(halfway[k] == halfway.skip(hi as int)[k - hi]);
                        assert(halfway[k] == halfway.skip(mid as int)[k - mid]);
                        assert(ordered[k] == ordered.skip(mid as int)[k - mid]);
                        assert(ordered[k] == ordered.skip(hi as int)[k - hi]);
                        assert(given[k] == given.skip(hi as int)[k - hi]);
                    }
                }
            }
            node
        }
    }
}

impl<H: Hittable> BvhNode<H> {
    /// A tree that grows from entries that carry the boxes of their
    /// objects holds those objects, each as often as the entries do, has
    /// the right box at every node, and halves its objects at every inner
    /// node.
    pub proof fn lemma_grown(self, entries: Seq<Entry<H>>)
        requires
            self.grows_from(entries),
            forall|i: int| 0 <= i < entries.len() ==> (#[trigger] entries[i]).wf(),
        ensures
            self.leaves().len() == entries.len(),
            self.leaves().to_multiset() == objects_of(entries).to_multiset(),
            self.well_formed(),
            self.halved(),
        decreases self,
    {
        match self.children {
            BvhChildren::Leaf(object) => {
                assert(self.leaves() =~= objects_of(entries));
            },
            BvhChildren::Pair(left, right) => {
                let half = entries.len() as int / 2;
                let axis = choose|axis: int|
                    0 <= axis < 3 && left.grows_from((#[trigger] sorted(entries, axis)).take(half))
                        && right.grows_from(sorted(entries, axis).skip(half));
                let all = sorted(entries, axis);
                let first = all.take(half);
                let second = all.skip(half);
                lemma_sorted(entries, axis);
                assert forall|i: int| 0 <= i < all.len() implies (#[trigger] all[i]).wf() by {
                    let j = lemma_item_of_permutation(entries, all, i);
                }
                assert forall|i: int| 0 <= i < first.len() implies (#[trigger] first[i]).wf() by {
                    assert(first[i] == all[i]);
                }
                assert forall|i: int| 0 <= i < second.len() implies (#[trigger] second[i]).wf() by {
                    assert(second[i] == all[half + i]);
                }
                left.lemma_grown(first);
                right.lemma_grown(second);
                // the same objects
                assert(all =~= first + second);
                assert(objects_of(first + second) =~= objects_of(first) + objects_of(second));
                vstd::seq_lib::lemma_multiset_commutative(left.leaves(), right.leaves());
                vstd::seq_lib::lemma_multiset_commutative(objects_of(first), objects_of(second));
                lemma_map_permuted(entries, all, |e: Entry<H>| e.object);
                // separated on the axis
                assert(separated(left.leaves(), right.leaves(), axis)) by {
                    assert forall|i: int, j: int|
                        0 <= i < left.leaves().len() && 0 <= j < right.leaves().len() implies axis_key(
                        #[trigger] left.leaves()[i],
                        axis,
                    ) <= axis_key(#[trigger] right.leaves()[j], axis) by {
                        let a = lemma_item_of_permutation(objects_of(first), left.leaves(), i);
                        let b = lemma_item_of_permutation(objects_of(second), right.leaves(), j);
                        assert(first[a] == all[a]);
                        assert(second[b] == all[half + b]);
                        assert(all[a].key(axis) <= all[half + b].key(axis));
                        assert(first[a].wf());
                        assert(second[b].wf());
                    }
                }
            },
        }
    }
}

impl<H: Hittable> Hittable for BvhNode<H> {
    /// A ray that fails the slab test on the node's box hits nothing below
    /// the node. One that passes it is tried on the left child, and then on
    /// the right child up to the distance of the left child's hit; the
    /// right child's hit, where there is one, is the nearer.
    open spec fn hit_model(&self, r: Ray, trace_len_min: Scalar, trace_len_max: Scalar) -> Option<
        HitRecord,
    >
        decreases self,
    {
        if !H::slabs_model(self.bound, r).overlaps(trace_len_min, trace_len_max) {
            None
        } else {
            match self.children {
                BvhChildren::Leaf(object) => object.hit_model(r, trace_len_min, trace_len_max),
                BvhChildren::Pair(left, right) => {
                    let first = left.hit_model(r, trace_len_min, trace_len_max);
                    or_earlier(
                        right.hit_model(r, trace_len_min, limit_after(first, trace_len_max)),
                        first,
                    )
                },
            }
        }
    }

    open spec fn bounds_model(&self) -> Option<AABB> {
        Some(self.bound)
    }

    open spec fn slabs_model(bound: AABB, r: Ray) -> Slabs {
        H::slabs_model(bound, r)
    }

    /// Without a hit `rec` is left as it was.
    fn hit(&self, r: &Ray, trace_len_min: Scalar, trace_len_max: Scalar, rec: &mut HitRecord) -> (found:
        bool)
        ensures
            !found ==> *final(rec) == *old(rec),
        decreases self,
    {
        if !self.bound.hit::<H>(r, trace_len_min, trace_len_max) {
            return false;
        }
        let mut tmp_rec = HitRecord::default();
        match &self.children {
            BvhChildren::Leaf(object) => {
                let found = object.hit(r, trace_len_min, trace_len_max, &mut tmp_rec);
                if found {
                    *rec = tmp_rec;
                }
                found
            },
            BvhChildren::Pair(left, right) => {
                let hit_left = left.hit(r, trace_len_min, trace_len_max, &mut tmp_rec);
                let mut limit = trace_len_max;
                if hit_left {
                    limit = tmp_rec.trace_len;
                    *rec = tmp_rec;
                }
                let hit_right = right.hit(r, trace_len_min, limit, &mut tmp_rec);
                if hit_right {
                    *rec = tmp_rec;
                }
                hit_left || hit_right
            },
        }
    }

    fn bounds(&self, output_box: &mut AABB) -> (found: bool)
        ensures
            found,
    {
        *output_box = self.bound;
        true
    }

    fn slabs(bound: &AABB, r: &Ray) -> (s: Slabs) {
        H::slabs(bound, r)
    }
}

/// The traversal of a well-formed tree finds the nearest of the hits of
/// its objects, provided that the objects are consistent and the slab test
/// is conservative for them.
pub proof fn lemma_traversal_is_nearest<H: Hittable>(
    node: BvhNode<H>,
    r: Ray,
    t_min: Scalar,
    t_max: Scalar,
)
    requires
        node.well_formed(),
        forall|i: int|
            0 <= i < node.leaves().len() ==> consistent(#[trigger] node.leaves()[i], r, t_min)
                && conservative(node.leaves()[i], r),
    ensures
        nearest(node.leaves(), r, t_min, t_max, node.hit_model(r, t_min, t_max)),
    decreases node,
{
    let objs = node.leaves();
    if !H::slabs_model(node.bound, r).overlaps(t_min, t_max) {
        assert forall|i: int| 0 <= i < objs.len() implies (#[trigger] objs[i]).hit_model(
            r,
            t_min,
            t_max,
        ).is_none() by {
            node.lemma_bound_encloses_leaves(i);
            assert(conservative(objs[i], r));
        }
    } else {
        match node.children {
            BvhChildren::Leaf(object) => {
                assert(objs[0] == object);
            },
            BvhChildren::Pair(left, right) => {
                let l = left.leaves();
                let rt = right.leaves();
                assert forall|i: int| 0 <= i < l.len() implies consistent(
                    #[trigger] l[i],
                    r,
                    t_min,
                ) && conservative(l[i], r) by {
                    assert(objs[i] == l[i]);
                }
                assert forall|i: int| 0 <= i < rt.len() implies consistent(
                    #[trigger] rt[i],
                    r,
                    t_min,
                ) && conservative(rt[i], r) by {
                    assert(objs[l.len() + i] == rt[i]);
                }
                let first = left.hit_model(r, t_min, t_max);
                let limit = limit_after(first, t_max);
                let second = right.hit_model(r, t_min, limit);
                lemma_traversal_is_nearest(*left, r, t_min, t_max);
                lemma_traversal_is_nearest(*right, r, t_min, limit);
                lemma_nearest_joined(l, rt, r, t_min, t_max, first, second);
            },
        }
    }
}

/// The nearest hit of one list, and the nearest hit of a second list up to
/// the distance of the first, give the nearest hit of both lists.
pub proof fn lemma_nearest_joined<H: Hittable>(
    left: Seq<H>,
    right: Seq<H>,
    r: Ray,
    t_min: Scalar,
    t_max: Scalar,
    first: Option<HitRecord>,
    second: Option<HitRecord>,
)
    requires
        nearest(left, r, t_min, t_max, first),
        nearest(right, r, t_min, limit_after(first, t_max), second),
        forall|i: int| 0 <= i < left.len() ==> consistent(#[trigger] left[i], r, t_min),
        forall|i: int| 0 <= i < right.len() ==> consistent(#[trigger] right[i], r, t_min),
    ensures
        nearest(left + right, r, t_min, t_max, or_earlier(second, first)),
{
    let objs = left + right;
    let limit = limit_after(first, t_max);
    assert forall|i: int| 0 <= i < left.len() implies objs[i] == left[i] by {}
    assert forall|i: int| 0 <= i < right.len() implies objs[left.len() + i] == right[i] by {}
    assert(limit <= t_max) by {
        if let Some(p) = first {
            let k = choose|k: int|
                0 <= k < left.len() && (#[trigger] left[k]).hit_model(r, t_min, t_max) == Some(p);
            assert(consistent(left[k], r, t_min));
            assert(left[k].hit_model(r, t_min, t_max) == clip(
                left[k].hit_model(r, t_min, t_max),
                t_max,
            ));
        }
    }
    assert forall|j: int| 0 <= j < right.len() implies (#[trigger] right[j]).hit_model(
        r,
        t_min,
        limit,
    ) == clip(right[j].hit_model(r, t_min, t_max), limit) by {
        assert(consistent(right[j], r, t_min));
    }
    match second {
        Some(h) => {
            let k = choose|k: int|
                0 <= k < right.len() && (#[trigger] right[k]).hit_model(r, t_min, limit) == Some(h);
            assert(right[k].hit_model(r, t_min, limit) == clip(
                right[k].hit_model(r, t_min, t_max),
                limit,
            ));
            assert(objs[left.len() + k].hit_model(r, t_min, t_max) == Some(h));
            assert forall|i: int| 0 <= i < objs.len() implies ((#[trigger] objs[i]).hit_model(
                r,
                t_min,
                t_max,
            ) matches Some(g) ==> h.trace_len <= g.trace_len) by {
                if i < left.len() {
                    assert(objs[i] == left[i]);
                } else {
                    assert(objs[i] == right[i - left.len()]);
                }
            }
        },
        None => {
            match first {
                Some(p) => {
                    let k = choose|k: int|
                        0 <= k < left.len() && (#[trigger] left[k]).hit_model(r, t_min, t_max)
                            == Some(p);
                    assert(objs[k].hit_model(r, t_min, t_max) == Some(p));
                    assert forall|i: int| 0 <= i < objs.len() implies ((
                    #[trigger] objs[i]).hit_model(r, t_min, t_max) matches Some(g) ==> p.trace_len
                        <= g.trace_len) by {
                        if i < left.len() {
                            assert(objs[i] == left[i]);
                        } else {
                            assert(objs[i] == right[i - left.len()]);
                        }
                    }
                },
                None => {
                    assert forall|i: int| 0 <= i < objs.len() implies (#[trigger] objs[i]).hit_model(
                        r,
                        t_min,
                        t_max,
                    ).is_none() by {
                        if i < left.len() {
                            assert(objs[i] == left[i]);
                        } else {
                            assert(objs[i] == right[i - left.len()]);
                        }
                    }
                },
            }
        },
    }
}

/// The hierarchy finds what the flat list finds. For a well-formed tree
/// and a list that hold the same objects, all of them consistent and with
/// a conservative slab test, the traversal and the scan agree on whether
/// the ray hits anything and on the distance of the hit; where no two
/// objects tie at one distance, they return the same record.
pub proof fn lemma_traversal_matches_scan<H: Hittable>(
    node: BvhNode<H>,
    objs: Seq<H>,
    r: Ray,
    t_min: Scalar,
    t_max: Scalar,
)
    requires
        node.well_formed(),
        node.leaves().to_multiset() == objs.to_multiset(),
        forall|i: int|
            0 <= i < objs.len() ==> consistent(#[trigger] objs[i], r, t_min) && conservative(
                objs[i],
                r,
            ),
    ensures
        node.hit_model(r, t_min, t_max).is_some() == HittableList::<H>::scan(
            objs,
            r,
            t_min,
            t_max,
        ).is_some(),
        node.hit_model(r, t_min, t_max).is_some() ==> node.hit_model(
            r,
            t_min,
            t_max,
        ).unwrap().trace_len == HittableList::<H>::scan(objs, r, t_min, t_max).unwrap().trace_len,
        untied(objs, r, t_min, t_max) ==> node.hit_model(r, t_min, t_max) == HittableList::<H>::scan(
            objs,
            r,
            t_min,
            t_max,
        ),
{
    assert forall|i: int| 0 <= i < node.leaves().len() implies consistent(
        #[trigger] node.leaves()[i],
        r,
        t_min,
    ) && conservative(node.leaves()[i], r) by {
        let j = crate::sort::lemma_item_of_permutation(objs, node.leaves(), i);
    }
    lemma_traversal_is_nearest(node, r, t_min, t_max);
    lemma_scan_is_nearest(objs, r, t_min, t_max);
    lemma_nearest_agree(
        objs,
        node.leaves(),
        r,
        t_min,
        t_max,
        HittableList::<H>::scan(objs, r, t_min, t_max),
        node.hit_model(r, t_min, t_max),
    );
}

/// On a shorter interval the traversal finds what it finds on the longer
/// one, cut off.
pub proof fn lemma_traversal_clips<H: Hittable>(
    node: BvhNode<H>,
    r: Ray,
    t_min: Scalar,
    shorter: Scalar,
    longer: Scalar,
)
    requires
        node.well_formed(),
        forall|i: int|
            0 <= i < node.leaves().len() ==> consistent(#[trigger] node.leaves()[i], r, t_min)
                && conservative(node.leaves()[i], r),
        shorter <= longer,
    ensures
        node.hit_model(r, t_min, shorter) == clip(node.hit_model(r, t_min, longer), shorter),
    decreases node,
{
    let objs = node.leaves();
    let short = node.hit_model(r, t_min, shorter);
    let long = node.hit_model(r, t_min, longer);
    lemma_traversal_is_nearest(node, r, t_min, shorter);
    lemma_traversal_is_nearest(node, r, t_min, longer);
    let passes_short = H::slabs_model(node.bound, r).overlaps(t_min, shorter);
    let passes_long = H::slabs_model(node.bound, r).overlaps(t_min, longer);
    if !passes_short {
        if let Some(h) = long {
            if h.trace_len <= shorter {
                let k = choose|k: int|
                    0 <= k < objs.len() && (#[trigger] objs[k]).hit_model(r, t_min, longer) == Some(
                        h,
                    );
                assert(consistent(objs[k], r, t_min));
                assert(objs[k].hit_model(r, t_min, shorter) == clip(
                    objs[k].hit_model(r, t_min, longer),
                    shorter,
                ));
                node.lemma_bound_encloses_leaves(k);
                assert(conservative(objs[k], r));
                assert(false);
            }
        }
    } else if !passes_long {
        if let Some(g) = short {
            let k = choose|k: int|
                0 <= k < objs.len() && (#[trigger] objs[k]).hit_model(r, t_min, shorter) == Some(g);
            assert(consistent(objs[k], r, t_min));
            assert(objs[k].hit_model(r, t_min, shorter) == clip(
                objs[k].hit_model(r, t_min, longer),
                shorter,
            ));
            node.lemma_bound_encloses_leaves(k);
            assert(conservative(objs[k], r));
            assert(false);
        }
    } else {
        match node.children {
            BvhChildren::Leaf(object) => {
                assert(objs[0] == object);
                assert(consistent(objs[0], r, t_min));
            },
            BvhChildren::Pair(left, right) => {
                let l = left.leaves();
                let rt = right.leaves();
                assert forall|i: int| 0 <= i < l.len() implies consistent(
                    #[trigger] l[i],
                    r,
                    t_min,
                ) && conservative(l[i], r) by {
                    assert(objs[i] == l[i]);
                }
                assert forall|i: int| 0 <= i < rt.len() implies consistent(
                    #[trigger] rt[i],
                    r,
                    t_min,
                ) && conservative(rt[i], r) by {
                    assert(objs[l.len() + i] == rt[i]);
                }
                lemma_traversal_clips(*left, r, t_min, shorter, longer);
                lemma_traversal_clips(*left, r, t_min, longer, longer);
                let second = |t: Scalar| right.hit_model(r, t_min, t);
                assert forall|x: Scalar, y: Scalar| x <= y implies #[trigger] second(x) == clip(
                    #[trigger] second(y),
                    x,
                ) by {
                    lemma_traversal_clips(*right, r, t_min, x, y);
                }
                lemma_joined_clips(
                    left.hit_model(r, t_min, shorter),
                    left.hit_model(r, t_min, longer),
                    second,
                    shorter,
                    longer,
                );
            },
        }
    }
}

/// A well-formed tree over consistent objects, with a slab test that is
/// conservative for them, is a consistent object itself.
pub proof fn lemma_tree_is_consistent<H: Hittable>(node: BvhNode<H>, r: Ray, t_min: Scalar)
    requires
        node.well_formed(),
        forall|i: int|
            0 <= i < node.leaves().len() ==> consistent(#[trigger] node.leaves()[i], r, t_min)
                && conservative(node.leaves()[i], r),
    ensures
        consistent(node, r, t_min),
{
    assert forall|shorter: Scalar, longer: Scalar| shorter <= longer implies #[trigger] node.hit_model(
        r,
        t_min,
        shorter,
    ) == clip(#[trigger] node.hit_model(r, t_min, longer), shorter) by {
        lemma_traversal_clips(node, r, t_min, shorter, longer);
    }
}

/// A ray that hits a well-formed tree hits one of its objects, on an
/// interval that ends no later.
pub proof fn lemma_hit_has_a_leaf<H: Hittable>(
    node: BvhNode<H>,
    r: Ray,
    t_min: Scalar,
    t_max: Scalar,
) -> (found: (int, Scalar))
    requires
        node.hit_model(r, t_min, t_max).is_some(),
    ensures
        0 <= found.0 < node.leaves().len(),
        found.1 <= t_max,
        node.leaves()[found.0].hit_model(r, t_min, found.1).is_some(),
    decreases node,
{
    match node.children {
        BvhChildren::Leaf(object) => (0, t_max),
        BvhChildren::Pair(left, right) => {
            let first = left.hit_model(r, t_min, t_max);
            if first.is_some() {
                let (i, t) = lemma_hit_has_a_leaf(*left, r, t_min, t_max);
                assert(node.leaves()[i] == left.leaves()[i]);
                (i, t)
            } else {
                let (i, t) = lemma_hit_has_a_leaf(*right, r, t_min, t_max);
                assert(node.leaves()[left.leaves().len() + i] == right.leaves()[i]);
                (left.leaves().len() + i, t)
            }
        },
    }
}

/// The slab test is conservative for a well-formed tree where it is so
/// for the objects of the tree.
pub proof fn lemma_tree_is_conservative<H: Hittable>(node: BvhNode<H>, r: Ray)
    requires
        node.well_formed(),
        forall|i: int| 0 <= i < node.leaves().len() ==> conservative(#[trigger] node.leaves()[i], r),
    ensures
        conservative(node, r),
{
    assert forall|bound: AABB, t_min: Scalar, t_max: Scalar|
        (#[trigger] node.hit_model(r, t_min, t_max)).is_some() && node.bounds_model().is_some()
            && bound.contains_box(node.bounds_model().unwrap()) implies (
    #[trigger] BvhNode::<H>::slabs_model(bound, r)).overlaps(t_min, t_max) by {
        let (i, t) = lemma_hit_has_a_leaf(node, r, t_min, t_max);
        node.lemma_bound_encloses_leaves(i);
        assert(conservative(node.leaves()[i], r));
        assert(H::slabs_model(bound, r).overlaps(t_min, t));
    }
}

} // verus!
