//! The bounding volume hierarchy: a binary tree of boxes over the primitives
//! of a scene, which lets a ray skip whole groups of them.
use vstd::prelude::*;
use vstd::seq_lib::lemma_multiset_commutative;
use crate::aabb::{
    lemma_encloses_transitive, lemma_union_all_concat, lemma_union_all_same_members,
    lemma_union_encloses, members_within, surrounding_box, union_all, AABB,
};
use crate::hitable::{HitRecord, Hitable};
use crate::ray::Ray;
use crate::sorting::{
    all_below, comes_before, copy_range, lemma_member_of_both, sort_along,
};
use crate::world::{
    all_bounded, all_wf, closest_hit, far_end, is_nearest_hit, lemma_closest_concat,
    lemma_closest_inside, lemma_closest_is_nearest, lemma_closest_narrowed, nearest_at, World,
};

verus! {

/// One node of the hierarchy. Leaves name one or two primitives by their
/// index; a branch owns its two subtrees. Every node caches the box that
/// bounds all it holds.
pub enum Tree {
    Single { primitive: usize, bounds: AABB },
    Pair { first: usize, second: usize, bounds: AABB },
    Branch { left: Box<Tree>, right: Box<Tree>, bounds: AABB },
}

impl Tree {
    /// The cached box of the node.
    pub open spec fn bounds_spec(self) -> AABB {
        match self {
            Tree::Single { bounds, .. } => bounds,
            Tree::Pair { bounds, .. } => bounds,
            Tree::Branch { bounds, .. } => bounds,
        }
    }

    /// The indices of the primitives below the node, from left to right.
    pub open spec fn leaves(self) -> Seq<usize>
        decreases self,
    {
        match self {
            Tree::Single { primitive, .. } => seq![primitive],
            Tree::Pair { first, second, .. } => seq![first, second],
            Tree::Branch { left, right, .. } => left.leaves() + right.leaves(),
        }
    }

    /// Every leaf names a primitive that has a box over the time span, and
    /// every cached box is the union of the boxes below it.
    pub open spec fn wf<H: Hitable>(self, primitives: Seq<H>, t0: i64, t1: i64) -> bool
        decreases self,
    {
        match self {
            Tree::Single { primitive, bounds } => {
                &&& primitive < primitives.len()
                &&& primitives[primitive as int].bounding_box_spec(t0, t1) == Some(bounds)
            },
            Tree::Pair { first, second, bounds } => {
                &&& first < primitives.len()
                &&& second < primitives.len()
                &&& primitives[first as int].bounding_box_spec(t0, t1) is Some
                &&& primitives[second as int].bounding_box_spec(t0, t1) is Some
                &&& bounds == primitives[first as int].bounding_box_spec(t0, t1)->0.union(
                    primitives[second as int].bounding_box_spec(t0, t1)->0,
                )
            },
            Tree::Branch { left, right, bounds } => {
                &&& left.wf(primitives, t0, t1)
                &&& right.wf(primitives, t0, t1)
                &&& bounds == left.bounds_spec().union(right.bounds_spec())
            },
        }
    }

    /// The traversal. A node whose box the ray misses reports nothing. Below
    /// a box that is met, the left side is asked first, and the right side is
    /// asked only for something nearer than what the left side found.
    pub open spec fn hit_spec<H: Hitable>(
        self,
        primitives: Seq<H>,
        ray: Ray,
        position_min: i64,
        position_max: i64,
    ) -> Option<HitRecord>
        decreases self,
    {
        if !self.bounds_spec().hit_spec(ray, position_min as int, position_max as int) {
            None
        } else {
            match self {
                Tree::Single { primitive, .. } => primitives[primitive as int].hit_spec(
                    ray,
                    position_min,
                    position_max,
                ),
                Tree::Pair { first, second, .. } => {
                    let near = primitives[first as int].hit_spec(ray, position_min, position_max);
                    match primitives[second as int].hit_spec(
                        ray,
                        position_min,
                        far_end(near, position_max),
                    ) {
                        Some(h) => Some(h),
                        None => near,
                    }
                },
                Tree::Branch { left, right, .. } => {
                    let near = left.hit_spec(primitives, ray, position_min, position_max);
                    match right.hit_spec(
                        primitives,
                        ray,
                        position_min,
                        far_end(near, position_max),
                    ) {
                        Some(h) => Some(h),
                        None => near,
                    }
                },
            }
        }
    }

    /// Every node holds at least one primitive.
    pub proof fn lemma_leaves_not_empty(self)
        ensures
            self.leaves().len() > 0,
        decreases self,
    {
        match self {
            Tree::Single { .. } => {},
            Tree::Pair { .. } => {},
            Tree::Branch { left, right, .. } => {
                left.lemma_leaves_not_empty();
            },
        }
    }

    /// The primitives below the node, from left to right.
    pub open spec fn members<H: Hitable>(self, primitives: Seq<H>) -> Seq<H> {
        Seq::new(self.leaves().len(), |k: int| primitives[self.leaves()[k] as int])
    }

    fn bounds(&self) -> (b: AABB)
        ensures
            b == self.bounds_spec(),
    {
        match self {
            Tree::Single { bounds, .. } => *bounds,
            Tree::Pair { bounds, .. } => *bounds,
            Tree::Branch { bounds, .. } => *bounds,
        }
    }

    /// Every leaf names a primitive, and the node's box encloses the box of
    /// every primitive below it.
    pub proof fn lemma_bounds_enclose<H: Hitable>(self, primitives: Seq<H>, t0: i64, t1: i64, k: int)
        requires
            self.wf(primitives, t0, t1),
            0 <= k < self.leaves().len(),
        ensures
            self.leaves()[k] < primitives.len(),
            primitives[self.leaves()[k] as int].bounding_box_spec(t0, t1) is Some,
            self.bounds_spec().encloses(
                primitives[self.leaves()[k] as int].bounding_box_spec(t0, t1)->0,
            ),
        decreases self,
    {
        match self {
            Tree::Single { primitive, bounds } => {},
            Tree::Pair { first, second, bounds } => {
                lemma_union_encloses(
                    primitives[first as int].bounding_box_spec(t0, t1)->0,
                    primitives[second as int].bounding_box_spec(t0, t1)->0,
                );
            },
            Tree::Branch { left, right, bounds } => {
                lemma_union_encloses(left.bounds_spec(), right.bounds_spec());
                if k < left.leaves().len() {
                    left.lemma_bounds_enclose(primitives, t0, t1, k);
                    lemma_encloses_transitive(
                        bounds,
                        left.bounds_spec(),
                        primitives[self.leaves()[k] as int].bounding_box_spec(t0, t1)->0,
                    );
                } else {
                    let kr = k - left.leaves().len();
                    right.lemma_bounds_enclose(primitives, t0, t1, kr);
                    assert(self.leaves()[k] == right.leaves()[kr]);
                    lemma_encloses_transitive(
                        bounds,
                        right.bounds_spec(),
                        primitives[self.leaves()[k] as int].bounding_box_spec(t0, t1)->0,
                    );
                }
            },
        }
    }

    /// The primitives below a well-formed node are fit to be queried when all
    /// primitives are.
    pub proof fn lemma_members_wf<H: Hitable>(self, primitives: Seq<H>, t0: i64, t1: i64)
        requires
            self.wf(primitives, t0, t1),
            all_wf(primitives),
        ensures
            all_wf(self.members(primitives)),
    {
        assert forall|k: int| 0 <= k < self.members(primitives).len() implies (
        #[trigger] self.members(primitives)[k]).wf() by {
            self.lemma_bounds_enclose(primitives, t0, t1, k);
        }
    }

    /// Pruning loses nothing: the traversal of a node reports exactly what a
    /// linear scan of the primitives below it, from left to right, reports.
    pub proof fn lemma_traversal_is_scan<H: Hitable>(
        self,
        primitives: Seq<H>,
        t0: i64,
        t1: i64,
        ray: Ray,
        position_min: i64,
        position_max: i64,
    )
        requires
            self.wf(primitives, t0, t1),
            all_wf(primitives),
            ray.wf(),
        ensures
            self.hit_spec(primitives, ray, position_min, position_max) == closest_hit(
                self.members(primitives),
                ray,
                position_min,
                position_max,
            ),
        decreases self,
    {
        let members = self.members(primitives);
        self.lemma_members_wf(primitives, t0, t1);
        if !self.bounds_spec().hit_spec(ray, position_min as int, position_max as int) {
            lemma_closest_is_nearest(members, ray, position_min, position_max);
            let found = closest_hit(members, ray, position_min, position_max);
            if found is Some {
                let k = choose|k: int|
                    nearest_at(members, ray, position_min, position_max, k, found->0);
                self.lemma_bounds_enclose(primitives, t0, t1, k);
                members[k].lemma_hit_enclosed(ray, position_min, position_max, t0, t1);
                self.bounds_spec().lemma_hit_monotonic(
                    members[k].bounding_box_spec(t0, t1)->0,
                    ray,
                    position_min as int,
                    position_max as int,
                );
            }
        } else {
            match self {
                Tree::Single { primitive, bounds } => {
                    assert(members =~= seq![primitives[primitive as int]]);
                    assert(members.drop_last() =~= Seq::<H>::empty());
                    assert(closest_hit(members.drop_last(), ray, position_min, position_max)
                        is None);
                },
                Tree::Pair { first, second, bounds } => {
                    let one = seq![primitives[first as int]];
                    assert(members =~= seq![primitives[first as int], primitives[second as int]]);
                    assert(members.drop_last() =~= one);
                    assert(one.drop_last() =~= Seq::<H>::empty());
                    assert(closest_hit(one.drop_last(), ray, position_min, position_max) is None);
                },
                Tree::Branch { left, right, bounds } => {
                    let near = left.hit_spec(primitives, ray, position_min, position_max);
                    left.lemma_traversal_is_scan(primitives, t0, t1, ray, position_min, position_max);
                    right.lemma_traversal_is_scan(
                        primitives,
                        t0,
                        t1,
                        ray,
                        position_min,
                        far_end(near, position_max),
                    );
                    assert(members =~= left.members(primitives) + right.members(primitives));
                    lemma_closest_concat(
                        left.members(primitives),
                        right.members(primitives),
                        ray,
                        position_min,
                        position_max,
                    );
                },
            }
        }
    }

    /// Walk the tree below this node for the nearest hit inside the interval.
    fn hit<H: Hitable>(
        &self,
        primitives: &Vec<H>,
        ray: &Ray,
        position_min: i64,
        position_max: i64,
        Ghost(t0): Ghost<i64>,
        Ghost(t1): Ghost<i64>,
    ) -> (record: Option<HitRecord>)
        requires
            self.wf(primitives@, t0, t1),
            all_wf(primitives@),
            ray.wf(),
        ensures
            record == self.hit_spec(primitives@, *ray, position_min, position_max),
        decreases self,
    {
        if !self.bounds().hit(ray, position_min, position_max) {
            return None;
        }
        match self {
            Tree::Single { primitive, .. } => primitives[*primitive].hit(
                ray,
                position_min,
                position_max,
            ),
            Tree::Pair { first, second, .. } => {
                let near = primitives[*first].hit(ray, position_min, position_max);
                let limit = match near {
                    Some(h) => h.parameter,
                    None => position_max,
                };
                match primitives[*second].hit(ray, position_min, limit) {
                    Some(h) => Some(h),
                    None => near,
                }
            },
            Tree::Branch { left, right, .. } => {
                let near = left.hit(primitives, ray, position_min, position_max, Ghost(t0), Ghost(t1));
                let limit = match near {
                    Some(h) => h.parameter,
                    None => position_max,
                };
                match right.hit(primitives, ray, position_min, limit, Ghost(t0), Ghost(t1)) {
                    Some(h) => Some(h),
                    None => near,
                }
            },
        }
    }
}

/// `boxes` holds, for every primitive, its bounding box over the time span.
pub open spec fn boxes_match<H: Hitable>(boxes: Seq<AABB>, primitives: Seq<H>, t0: i64, t1: i64) -> bool {
    &&& boxes.len() == primitives.len()
    &&& forall|i: int|
        0 <= i < primitives.len() ==> (#[trigger] primitives[i]).bounding_box_spec(t0, t1) == Some(
            boxes[i],
        )
}

/// The boxes of the primitives that `indices` names, in that order.
pub open spec fn picked(boxes: Seq<AABB>, indices: Seq<usize>) -> Seq<AABB> {
    Seq::new(indices.len(), |k: int| boxes[indices[k] as int])
}

/// The indices `0, 1, ..., n - 1`.
pub open spec fn index_range(n: nat) -> Seq<usize> {
    Seq::new(n, |i: int| i as usize)
}

/// Rearranged indices pick the same boxes.
proof fn lemma_picked_same_members(boxes: Seq<AABB>, first: Seq<usize>, second: Seq<usize>)
    requires
        first.to_multiset() == second.to_multiset(),
    ensures
        members_within(picked(boxes, first), picked(boxes, second)),
        members_within(picked(boxes, second), picked(boxes, first)),
{
    let pf = picked(boxes, first);
    let ps = picked(boxes, second);
    assert forall|i: int| 0 <= i < pf.len() implies ps.contains(#[trigger] pf[i]) by {
        lemma_member_of_both(first, second, i);
        let j = choose|j: int| 0 <= j < second.len() && #[trigger] second[j] == first[i];
        assert(ps[j] == pf[i]);
    }
    assert forall|i: int| 0 <= i < ps.len() implies pf.contains(#[trigger] ps[i]) by {
        lemma_member_of_both(second, first, i);
        let j = choose|j: int| 0 <= j < first.len() && #[trigger] first[j] == second[i];
        assert(pf[j] == ps[i]);
    }
}

impl Tree {
    /// The construction policy. Below every node the primitives are ordered
    /// along the axis on which the node's box stretches furthest, by the
    /// minimum corner of their boxes and, where those are equal, by their
    /// index. A pair holds its two primitives in that order. A branch splits
    /// at the median: its left subtree holds the lower half, rounded down,
    /// and everything in it comes before everything in the right subtree.
    pub open spec fn follows_policy(self, boxes: Seq<AABB>) -> bool
        decreases self,
    {
        match self {
            Tree::Single { .. } => true,
            Tree::Pair { first, second, bounds } => comes_before(
                boxes,
                bounds.longest_axis_spec(),
                first,
                second,
            ),
            Tree::Branch { left, right, bounds } => {
                &&& left.follows_policy(boxes)
                &&& right.follows_policy(boxes)
                &&& left.leaves().len() + right.leaves().len() >= 3
                &&& left.leaves().len() == (left.leaves().len() + right.leaves().len()) / 2
                &&& forall|a: int, b: int|
                    0 <= a < left.leaves().len() && 0 <= b < right.leaves().len() ==> comes_before(
                        boxes,
                        bounds.longest_axis_spec(),
                        #[trigger] left.leaves()[a],
                        #[trigger] right.leaves()[b],
                    )
            },
        }
    }
}

/// The union of the boxes that `indices` names.
fn bounds_of(boxes: &Vec<AABB>, indices: &Vec<usize>) -> (bounds: AABB)
    requires
        indices.len() >= 1,
        all_below(indices@, boxes.len() as int),
    ensures
        bounds == union_all(picked(boxes@, indices@)),
{
    let ghost all = picked(boxes@, indices@);
    let mut bounds: AABB = boxes[indices[0]];
    let mut k: usize = 1;
    assert(all.take(1) =~= seq![all[0]]);
    while k < indices.len()
        invariant
            1 <= k <= indices.len(),
            all_below(indices@, boxes.len() as int),
            all == picked(boxes@, indices@),
            bounds == union_all(all.take(k as int)),
        decreases indices.len() - k,
    {
        assert(all.take(k + 1).drop_last() =~= all.take(k as int));
        assert(all.take(k + 1).last() == boxes@[indices@[k as int] as int]);
        bounds = surrounding_box(&bounds, &boxes[indices[k]]);
        k += 1;
    }
    assert(all.take(k as int) =~= all);
    bounds
}

/// Build the subtree over the primitives that `indices` names.
fn build_tree<H: Hitable>(
    boxes: &Vec<AABB>,
    indices: Vec<usize>,
    Ghost(primitives): Ghost<Seq<H>>,
    Ghost(t0): Ghost<i64>,
    Ghost(t1): Ghost<i64>,
) -> (tree: Tree)
    requires
        indices.len() >= 1,
        all_below(indices@, boxes.len() as int),
        boxes_match(boxes@, primitives, t0, t1),
    ensures
        tree.wf(primitives, t0, t1),
        tree.leaves().to_multiset() == indices@.to_multiset(),
        tree.leaves().len() == indices.len(),
        tree.bounds_spec() == union_all(picked(boxes@, indices@)),
        tree.follows_policy(boxes@),
    decreases indices.len(),
{
    let n = indices.len();
    if n == 1 {
        let primitive = indices[0];
        assert(picked(boxes@, indices@) =~= seq![boxes@[primitive as int]]);
        assert(indices@ =~= seq![primitive]);
        return Tree::Single { primitive, bounds: boxes[primitive] };
    }
    let whole = bounds_of(boxes, &indices);
    let axis = whole.longest_axis();
    let sorted = sort_along(boxes, axis, &indices);
    proof {
        lemma_picked_same_members(boxes@, sorted@, indices@);
        lemma_union_all_same_members(picked(boxes@, sorted@), picked(boxes@, indices@));
    }
    if n == 2 {
        let first = sorted[0];
        let second = sorted[1];
        let bounds = surrounding_box(&boxes[first], &boxes[second]);
        proof {
            let both = picked(boxes@, sorted@);
            assert(sorted@ =~= seq![first, second]);
            assert(both.drop_last() =~= seq![boxes@[first as int]]);
            assert(both.last() == boxes@[second as int]);
            assert(union_all(both.drop_last()) == boxes@[first as int]);
            assert(bounds == union_all(both));
        }
        return Tree::Pair { first, second, bounds };
    }
    let mid = n / 2;
    let left_indices = copy_range(&sorted, 0, mid);
    let right_indices = copy_range(&sorted, mid, n);
    proof {
        assert(sorted@ =~= left_indices@ + right_indices@);
        lemma_multiset_commutative(left_indices@, right_indices@);
    }
    let left = build_tree::<H>(boxes, left_indices, Ghost(primitives), Ghost(t0), Ghost(t1));
    let right = build_tree::<H>(boxes, right_indices, Ghost(primitives), Ghost(t0), Ghost(t1));
    let bounds = surrounding_box(&left.bounds(), &right.bounds());
    proof {
        let lb = picked(boxes@, left_indices@);
        let rb = picked(boxes@, right_indices@);
        assert(picked(boxes@, sorted@) =~= lb + rb);
        lemma_union_all_concat(lb, rb);
        assert(bounds == whole);
        lemma_multiset_commutative(left.leaves(), right.leaves());
        assert forall|a: int, b: int|
            0 <= a < left.leaves().len() && 0 <= b < right.leaves().len() implies comes_before(
            boxes@,
            axis as int,
            #[trigger] left.leaves()[a],
            #[trigger] right.leaves()[b],
        ) by {
            lemma_member_of_both(left.leaves(), left_indices@, a);
            lemma_member_of_both(right.leaves(), right_indices@, b);
            let a2 = choose|j: int|
                0 <= j < left_indices@.len() && #[trigger] left_indices@[j] == left.leaves()[a];
            let b2 = choose|j: int|
                0 <= j < right_indices@.len() && #[trigger] right_indices@[j] == right.leaves()[b];
            assert(sorted@[a2] == left_indices@[a2]);
            assert(sorted@[mid + b2] == right_indices@[b2]);
        }
    }
    Tree::Branch { left: Box::new(left), right: Box::new(right), bounds }
}

/// The bounding box of every primitive over the time span, or nothing if
/// one of them has none.
fn collect_boxes<H: Hitable>(primitives: &Vec<H>, t0: i64, t1: i64) -> (boxes: Option<Vec<AABB>>)
    requires
        all_wf(primitives@),
    ensures
        boxes is Some <==> all_bounded(primitives@, t0, t1),
        boxes matches Some(b) ==> boxes_match(b@, primitives@, t0, t1),
{
    let mut boxes: Vec<AABB> = Vec::new();
    let mut i: usize = 0;
    while i < primitives.len()
        invariant
            i <= primitives.len(),
            all_wf(primitives@),
            boxes.len() == i,
            forall|j: int|
                0 <= j < i ==> (#[trigger] primitives@[j]).bounding_box_spec(t0, t1)
                    == Some(boxes@[j]),
        decreases primitives.len() - i,
    {
        match primitives[i].bounding_box(t0, t1) {
            Some(b) => {
                boxes.push(b);
            },
            None => {
                return None;
            },
        }
        i += 1;
    }
    Some(boxes)
}

fn indices_up_to(n: usize) -> (indices: Vec<usize>)
    ensures
        indices@ == index_range(n as nat),
{
    let mut indices: Vec<usize> = Vec::new();
    let mut i: usize = 0;
    while i < n
        invariant
            i <= n,
            indices@ == index_range(i as nat),
        decreases n - i,
    {
        indices.push(i);
        assert(indices@ =~= index_range((i + 1) as nat));
        i += 1;
    }
    indices
}

/// The hierarchy over a collection of primitives. The primitives stay in the
/// order in which they were given; the tree names them by index.
pub struct BVH<H: Hitable> {
    pub primitives: Vec<H>,
    /// The root of the tree; an empty hierarchy has none.
    pub root: Option<Tree>,
    /// The time span over which the cached boxes bound the primitives.
    pub t0: i64,
    pub t1: i64,
}

impl<H: Hitable> BVH<H> {
    /// The primitives in the order in which the traversal meets them.
    pub open spec fn members(self) -> Seq<H> {
        match self.root {
            Some(tree) => tree.members(self.primitives@),
            None => Seq::empty(),
        }
    }

    /// The tree was built by the construction policy.
    pub open spec fn follows_policy(self) -> bool {
        match self.root {
            Some(tree) => tree.follows_policy(
                crate::world::boxes_of(self.primitives@, self.t0, self.t1),
            ),
            None => true,
        }
    }

    /// Build the hierarchy over `primitives` for the time span `t0 ..= t1`.
    ///
    /// No primitives give an empty hierarchy. One primitive gives a leaf that
    /// holds it, two give a leaf that holds both in order. More are ordered
    /// along the axis of the largest extent of their common box, by the
    /// minimum corner of their boxes, and split at the median into two
    /// subtrees. A primitive without a bounding box cannot be placed: the
    /// construction then fails.
    pub fn new(primitives: Vec<H>, t0: i64, t1: i64) -> (built: Option<BVH<H>>)
        requires
            all_wf(primitives@),
        ensures
            built is Some <==> all_bounded(primitives@, t0, t1),
            built matches Some(bvh) ==> {
                &&& bvh.wf()
                &&& bvh.primitives@ == primitives@
                &&& bvh.t0 == t0
                &&& bvh.t1 == t1
                &&& (bvh.root is None <==> primitives.len() == 0)
                &&& bvh.follows_policy()
            },
    {
        let boxes = match collect_boxes(&primitives, t0, t1) {
            Some(b) => b,
            None => {
                return None;
            },
        };
        if primitives.len() == 0 {
            return Some(BVH { primitives, root: None, t0, t1 });
        }
        let indices = indices_up_to(primitives.len());
        let tree = build_tree::<H>(&boxes, indices, Ghost(primitives@), Ghost(t0), Ghost(t1));
        assert(boxes@ =~= crate::world::boxes_of(primitives@, t0, t1));
        Some(BVH { primitives, root: Some(tree), t0, t1 })
    }

    /// Every primitive is met by the traversal, and the traversal meets
    /// nothing else.
    pub proof fn lemma_members_are_primitives(self)
        requires
            self.wf(),
        ensures
            forall|i: int|
                0 <= i < self.primitives@.len() ==> self.members().contains(
                    #[trigger] self.primitives@[i],
                ),
            forall|k: int|
                0 <= k < self.members().len() ==> self.primitives@.contains(
                    #[trigger] self.members()[k],
                ),
            self.members().len() == self.primitives@.len(),
    {
        match self.root {
            Some(tree) => {
                let leaves = tree.leaves();
                let range = index_range(self.primitives@.len());
                leaves.to_multiset_ensures();
                range.to_multiset_ensures();
                assert forall|i: int| 0 <= i < self.primitives@.len() implies self.members().contains(
                    #[trigger] self.primitives@[i],
                ) by {
                    assert(range[i] == i as usize);
                    lemma_member_of_both(range, leaves, i);
                    let k = choose|k: int| 0 <= k < leaves.len() && #[trigger] leaves[k] == range[i];
                    assert(self.members()[k] == self.primitives@[i]);
                }
                assert forall|k: int| 0 <= k < self.members().len() implies self.primitives@.contains(
                    #[trigger] self.members()[k],
                ) by {
                    tree.lemma_bounds_enclose(self.primitives@, self.t0, self.t1, k);
                    assert(self.primitives@[leaves[k] as int] == self.members()[k]);
                }
            },
            None => {},
        }
    }
}

impl<H: Hitable> Hitable for BVH<H> {
    /// Every primitive can be queried, the cached boxes are right, and the
    /// tree holds every primitive exactly once.
    open spec fn wf(&self) -> bool {
        &&& all_wf(self.primitives@)
        &&& match self.root {
            Some(tree) => {
                &&& self.primitives@.len() <= usize::MAX
                &&& tree.wf(self.primitives@, self.t0, self.t1)
                &&& tree.leaves().to_multiset() == index_range(
                    self.primitives@.len(),
                ).to_multiset()
            },
            None => self.primitives@.len() == 0,
        }
    }

    open spec fn hit_spec(&self, ray: Ray, position_min: i64, position_max: i64) -> Option<
        HitRecord,
    > {
        match self.root {
            Some(tree) => tree.hit_spec(self.primitives@, ray, position_min, position_max),
            None => None,
        }
    }

    /// The cached box of the root, which bounds the primitives over the time
    /// span of the construction. An empty hierarchy has no box.
    open spec fn bounding_box_spec(&self, t0: i64, t1: i64) -> Option<AABB> {
        match self.root {
            Some(tree) => Some(tree.bounds_spec()),
            None => None,
        }
    }

    open spec fn samples_as_light(&self) -> bool {
        false
    }

    /// Walk the tree for the nearest hit inside the interval. The answer is
    /// that of a linear scan of the primitives in the order of the leaves.
    fn hit(&self, ray: &Ray, position_min: i64, position_max: i64) -> (record: Option<HitRecord>)
        ensures
            record == closest_hit(self.members(), *ray, position_min, position_max),
            is_nearest_hit(self.members(), *ray, position_min, position_max, record),
    {
        match &self.root {
            Some(tree) => {
                proof {
                    tree.lemma_traversal_is_scan(
                        self.primitives@,
                        self.t0,
                        self.t1,
                        *ray,
                        position_min,
                        position_max,
                    );
                    tree.lemma_members_wf(self.primitives@, self.t0, self.t1);
                    lemma_closest_is_nearest(self.members(), *ray, position_min, position_max);
                }
                tree.hit(
                    &self.primitives,
                    ray,
                    position_min,
                    position_max,
                    Ghost(self.t0),
                    Ghost(self.t1),
                )
            },
            None => None,
        }
    }

    fn bounding_box(&self, t0: i64, t1: i64) -> (bounds: Option<AABB>) {
        match &self.root {
            Some(tree) => Some(tree.bounds()),
            None => None,
        }
    }

    proof fn lemma_hit_inside(&self, ray: Ray, position_min: i64, position_max: i64) {
        match self.root {
            Some(tree) => {
                tree.lemma_traversal_is_scan(
                    self.primitives@,
                    self.t0,
                    self.t1,
                    ray,
                    position_min,
                    position_max,
                );
                tree.lemma_members_wf(self.primitives@, self.t0, self.t1);
                lemma_closest_inside(self.members(), ray, position_min, position_max);
            },
            None => {},
        }
    }

    proof fn lemma_hit_narrowed(&self, ray: Ray, position_min: i64, position_max: i64, cut: i64) {
        match self.root {
            Some(tree) => {
                tree.lemma_traversal_is_scan(
                    self.primitives@,
                    self.t0,
                    self.t1,
                    ray,
                    position_min,
                    position_max,
                );
                tree.lemma_traversal_is_scan(
                    self.primitives@,
                    self.t0,
                    self.t1,
                    ray,
                    position_min,
                    cut,
                );
                tree.lemma_members_wf(self.primitives@, self.t0, self.t1);
                lemma_closest_narrowed(self.members(), ray, position_min, position_max, cut);
            },
            None => {},
        }
    }

    proof fn lemma_hit_enclosed(
        &self,
        ray: Ray,
        position_min: i64,
        position_max: i64,
        t0: i64,
        t1: i64,
    ) {
    }
}

/// No ray hits anything in a hierarchy without primitives, and such a
/// hierarchy has no box.
pub proof fn lemma_empty_bvh_misses<H: Hitable>(
    bvh: BVH<H>,
    ray: Ray,
    position_min: i64,
    position_max: i64,
)
    requires
        bvh.wf(),
        bvh.primitives@.len() == 0,
    ensures
        bvh.root is None,
        bvh.hit_spec(ray, position_min, position_max) is None,
        bvh.bounding_box_spec(position_min, position_max) is None,
{
    match bvh.root {
        Some(tree) => {
            tree.leaves().to_multiset_ensures();
            index_range(0).to_multiset_ensures();
            tree.lemma_leaves_not_empty();
        },
        None => {},
    }
}

/// Two hits at the same parameter carry the same record: where several
/// members are hit equally near, it does not matter which of them is reported.
pub open spec fn ties_agree<H: Hitable>(
    objects: Seq<H>,
    ray: Ray,
    position_min: i64,
    position_max: i64,
) -> bool {
    forall|i: int, j: int|
        0 <= i < objects.len() && 0 <= j < objects.len() ==> {
            let a = (#[trigger] objects[i]).hit_spec(ray, position_min, position_max);
            let b = (#[trigger] objects[j]).hit_spec(ray, position_min, position_max);
            a is Some && b is Some && a->0.parameter == b->0.parameter ==> a == b
        }
}

/// The hierarchy and the linear aggregate over the same primitives answer
/// every query alike: both miss, or both hit at the same parameter. The two
/// records are the same whenever hits at equal parameters carry equal
/// records, in particular whenever the nearest hit is the only one at its
/// parameter.
pub proof fn lemma_bvh_matches_world<H: Hitable>(
    bvh: BVH<H>,
    world: World<H>,
    ray: Ray,
    position_min: i64,
    position_max: i64,
)
    requires
        bvh.wf(),
        ray.wf(),
        bvh.primitives@ == world.objects@,
    ensures
        bvh.hit_spec(ray, position_min, position_max) is Some <==> world.hit_spec(
            ray,
            position_min,
            position_max,
        ) is Some,
        bvh.hit_spec(ray, position_min, position_max) is Some ==> bvh.hit_spec(
            ray,
            position_min,
            position_max,
        )->0.parameter == world.hit_spec(ray, position_min, position_max)->0.parameter,
        ties_agree(world.objects@, ray, position_min, position_max) ==> bvh.hit_spec(
            ray,
            position_min,
            position_max,
        ) == world.hit_spec(ray, position_min, position_max),
{
    let objects = world.objects@;
    let members = bvh.members();
    let in_bvh = bvh.hit_spec(ray, position_min, position_max);
    let in_world = world.hit_spec(ray, position_min, position_max);
    bvh.lemma_members_are_primitives();
    lemma_closest_is_nearest(objects, ray, position_min, position_max);
    match bvh.root {
        Some(tree) => {
            tree.lemma_traversal_is_scan(
                objects,
                bvh.t0,
                bvh.t1,
                ray,
                position_min,
                position_max,
            );
            tree.lemma_members_wf(objects, bvh.t0, bvh.t1);
            lemma_closest_is_nearest(members, ray, position_min, position_max);
            assert(is_nearest_hit(members, ray, position_min, position_max, in_bvh));
            assert(is_nearest_hit(objects, ray, position_min, position_max, in_world));
            match in_bvh {
                Some(hb) => {
                    let kb = choose|k: int|
                        nearest_at(members, ray, position_min, position_max, k, hb);
                    assert(objects.contains(members[kb]));
                    let ib = choose|i: int| 0 <= i < objects.len() && objects[i] == members[kb];
                    assert(objects[ib].hit_spec(ray, position_min, position_max) == Some(hb));
                    assert(in_world is Some);
                    let hw = in_world->0;
                    let kw = choose|k: int|
                        nearest_at(objects, ray, position_min, position_max, k, hw);
                    assert(members.contains(objects[kw]));
                    let iw = choose|i: int| 0 <= i < members.len() && members[i] == objects[kw];
                    assert(members[iw].hit_spec(ray, position_min, position_max) == Some(hw));
                    assert(hw.parameter <= hb.parameter);
                    assert(hb.parameter <= hw.parameter);
                },
                None => {
                    if in_world is Some {
                        let hw = in_world->0;
                        let kw = choose|k: int|
                            nearest_at(objects, ray, position_min, position_max, k, hw);
                        assert(members.contains(objects[kw]));
                        let iw = choose|i: int| 0 <= i < members.len() && members[i] == objects[kw];
                        assert(members[iw].hit_spec(ray, position_min, position_max) == Some(hw));
                    }
                },
            }
        },
        None => {
            assert(objects =~= Seq::<H>::empty());
        },
    }
}

} // verus!
