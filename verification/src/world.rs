//! The linear aggregate: every member is tested against every ray.
use vstd::prelude::*;
use crate::aabb::{lemma_union_all_encloses, surrounding_box, union_all, AABB};
use crate::hitable::{narrowed, HitRecord, Hitable};
use crate::ray::Ray;

verus! {

/// The objects of a scene, kept in the order in which they were added.
pub struct World<H: Hitable> {
    pub objects: Vec<H>,
}

/// Every member is fit to be queried.
pub open spec fn all_wf<H: Hitable>(objects: Seq<H>) -> bool {
    forall|i: int| 0 <= i < objects.len() ==> (#[trigger] objects[i]).wf()
}

/// Every member has a bounding box over the time span.
pub open spec fn all_bounded<H: Hitable>(objects: Seq<H>, t0: i64, t1: i64) -> bool {
    forall|i: int| 0 <= i < objects.len() ==> (#[trigger] objects[i]).bounding_box_spec(t0, t1) is Some
}

/// The bounding boxes of the members, in order.
pub open spec fn boxes_of<H: Hitable>(objects: Seq<H>, t0: i64, t1: i64) -> Seq<AABB> {
    Seq::new(objects.len(), |i: int| objects[i].bounding_box_spec(t0, t1)->0)
}

/// The far end of the interval once `found` is known: the parameter of the
/// hit found so far, or the far end as given.
pub open spec fn far_end(found: Option<HitRecord>, position_max: i64) -> i64 {
    match found {
        Some(h) => h.parameter,
        None => position_max,
    }
}

/// The scan of a linear aggregate: each member in turn is asked for a hit
/// nearer than the nearest found so far.
pub open spec fn closest_hit<H: Hitable>(
    objects: Seq<H>,
    ray: Ray,
    position_min: i64,
    position_max: i64,
) -> Option<HitRecord>
    decreases objects.len(),
{
    if objects.len() == 0 {
        None
    } else {
        let before = closest_hit(objects.drop_last(), ray, position_min, position_max);
        match objects.last().hit_spec(ray, position_min, far_end(before, position_max)) {
            Some(h) => Some(h),
            None => before,
        }
    }
}

/// `h` is what member `k` reports on the whole interval, no member reports
/// anything nearer, and no earlier member reports anything as near.
pub open spec fn nearest_at<H: Hitable>(
    objects: Seq<H>,
    ray: Ray,
    position_min: i64,
    position_max: i64,
    k: int,
    h: HitRecord,
) -> bool {
    &&& 0 <= k < objects.len()
    &&& objects[k].hit_spec(ray, position_min, position_max) == Some(h)
    &&& forall|j: int|
        0 <= j < objects.len() ==> match (#[trigger] objects[j]).hit_spec(
            ray,
            position_min,
            position_max,
        ) {
            Some(g) => h.parameter <= g.parameter && (j < k ==> h.parameter < g.parameter),
            None => true,
        }
}

/// `found` is the globally nearest hit among the members: nothing, when no
/// member is hit; otherwise the record of the first member among those hit
/// at the least parameter.
pub open spec fn is_nearest_hit<H: Hitable>(
    objects: Seq<H>,
    ray: Ray,
    position_min: i64,
    position_max: i64,
    found: Option<HitRecord>,
) -> bool {
    match found {
        Some(h) => exists|k: int| nearest_at(objects, ray, position_min, position_max, k, h),
        None => forall|j: int|
            0 <= j < objects.len() ==> (#[trigger] objects[j]).hit_spec(
                ray,
                position_min,
                position_max,
            ) is None,
    }
}

/// The scan finds the globally nearest hit, never merely the first.
pub proof fn lemma_closest_is_nearest<H: Hitable>(
    objects: Seq<H>,
    ray: Ray,
    position_min: i64,
    position_max: i64,
)
    requires
        all_wf(objects),
        ray.wf(),
    ensures
        is_nearest_hit(
            objects,
            ray,
            position_min,
            position_max,
            closest_hit(objects, ray, position_min, position_max),
        ),
    decreases objects.len(),
{
    if objects.len() > 0 {
        let front = objects.drop_last();
        let last = objects.last();
        let n = objects.len() - 1;
        assert(all_wf(front)) by {
            assert forall|i: int| 0 <= i < front.len() implies (#[trigger] front[i]).wf() by {
                assert(front[i] == objects[i]);
            }
        }
        assert(objects[n] == last);
        lemma_closest_is_nearest(front, ray, position_min, position_max);
        let before = closest_hit(front, ray, position_min, position_max);
        let limit = far_end(before, position_max);
        let whole = last.hit_spec(ray, position_min, position_max);
        if before is Some {
            let kb = choose|k: int|
                nearest_at(front, ray, position_min, position_max, k, before->0);
            assert(front[kb] == objects[kb]);
            front[kb].lemma_hit_inside(ray, position_min, position_max);
        }
        last.lemma_hit_narrowed(ray, position_min, position_max, limit);
        last.lemma_hit_inside(ray, position_min, limit);
        let part = last.hit_spec(ray, position_min, limit);
        assert(part == narrowed(whole, limit));
        match part {
            Some(x) => {
                assert(whole == Some(x));
                assert forall|j: int| 0 <= j < objects.len() implies match (
                #[trigger] objects[j]).hit_spec(ray, position_min, position_max) {
                    Some(g) => x.parameter <= g.parameter && (j < n ==> x.parameter < g.parameter),
                    None => true,
                } by {
                    if j < n {
                        assert(front[j] == objects[j]);
                        if before is Some {
                            let kb = choose|k: int|
                                nearest_at(front, ray, position_min, position_max, k, before->0);
                            assert(front[kb] == objects[kb]);
                        }
                    }
                }
                assert(nearest_at(objects, ray, position_min, position_max, n, x));
            },
            None => {
                match before {
                    Some(h) => {
                        let kb = choose|k: int|
                            nearest_at(front, ray, position_min, position_max, k, h);
                        assert(front[kb] == objects[kb]);
                        assert forall|j: int| 0 <= j < objects.len() implies match (
                        #[trigger] objects[j]).hit_spec(ray, position_min, position_max) {
                            Some(g) => h.parameter <= g.parameter && (j < kb ==> h.parameter
                                < g.parameter),
                            None => true,
                        } by {
                            if j < n {
                                assert(front[j] == objects[j]);
                            }
                        }
                        assert(nearest_at(objects, ray, position_min, position_max, kb, h));
                    },
                    None => {
                        assert forall|j: int| 0 <= j < objects.len() implies (
                        #[trigger] objects[j]).hit_spec(ray, position_min, position_max) is None by {
                            if j < n {
                                assert(front[j] == objects[j]);
                            }
                        }
                    },
                }
            },
        }
    }
}

/// Pulling in the far end of the interval narrows the answer of the scan as
/// it narrows the answer of a single member.
pub proof fn lemma_closest_narrowed<H: Hitable>(
    objects: Seq<H>,
    ray: Ray,
    position_min: i64,
    position_max: i64,
    cut: i64,
)
    requires
        all_wf(objects),
        ray.wf(),
        cut <= position_max,
    ensures
        closest_hit(objects, ray, position_min, cut) == narrowed(
            closest_hit(objects, ray, position_min, position_max),
            cut,
        ),
    decreases objects.len(),
{
    if objects.len() > 0 {
        let front = objects.drop_last();
        let last = objects.last();
        assert(all_wf(front)) by {
            assert forall|i: int| 0 <= i < front.len() implies (#[trigger] front[i]).wf() by {
                assert(front[i] == objects[i]);
            }
        }
        assert(objects[objects.len() - 1] == last);
        lemma_closest_narrowed(front, ray, position_min, position_max, cut);
        let before = closest_hit(front, ray, position_min, position_max);
        let limit = far_end(before, position_max);
        let before_cut = closest_hit(front, ray, position_min, cut);
        let limit_cut = far_end(before_cut, cut);
        assert(limit_cut <= limit);
        last.lemma_hit_narrowed(ray, position_min, limit, limit_cut);
        last.lemma_hit_inside(ray, position_min, limit);
        last.lemma_hit_inside(ray, position_min, limit_cut);
    }
}

/// What the scan reports lies strictly inside the interval.
pub proof fn lemma_closest_inside<H: Hitable>(
    objects: Seq<H>,
    ray: Ray,
    position_min: i64,
    position_max: i64,
)
    requires
        all_wf(objects),
        ray.wf(),
    ensures
        closest_hit(objects, ray, position_min, position_max) matches Some(h) ==> position_min
            < h.parameter < position_max,
{
    lemma_closest_is_nearest(objects, ray, position_min, position_max);
    let found = closest_hit(objects, ray, position_min, position_max);
    if found is Some {
        let k = choose|k: int| nearest_at(objects, ray, position_min, position_max, k, found->0);
        objects[k].lemma_hit_inside(ray, position_min, position_max);
    }
}

/// Scanning one sequence and then another is scanning the second for
/// something nearer than what the first gave.
pub proof fn lemma_closest_concat<H: Hitable>(
    first: Seq<H>,
    second: Seq<H>,
    ray: Ray,
    position_min: i64,
    position_max: i64,
)
    ensures
        closest_hit(first + second, ray, position_min, position_max) == (match closest_hit(
            second,
            ray,
            position_min,
            far_end(closest_hit(first, ray, position_min, position_max), position_max),
        ) {
            Some(h) => Some(h),
            None => closest_hit(first, ray, position_min, position_max),
        }),
    decreases second.len(),
{
    if second.len() == 0 {
        assert(first + second =~= first);
    } else {
        assert((first + second).drop_last() =~= first + second.drop_last());
        assert((first + second).last() == second.last());
        lemma_closest_concat(first, second.drop_last(), ray, position_min, position_max);
    }
}

/// No ray hits anything in a world without objects.
pub proof fn lemma_empty_world_misses<H: Hitable>(
    world: World<H>,
    ray: Ray,
    position_min: i64,
    position_max: i64,
)
    requires
        world.objects@.len() == 0,
    ensures
        world.hit_spec(ray, position_min, position_max) is None,
        world.bounding_box_spec(position_min, position_max) is None,
{
}

impl<H: Hitable> World<H> {
    /// A world without objects.
    pub fn new() -> (world: World<H>)
        ensures
            world.objects@ == Seq::<H>::empty(),
    {
        World { objects: Vec::new() }
    }

    /// Add an object after those already there.
    pub fn add(&mut self, object: H)
        ensures
            final(self).objects@ == old(self).objects@.push(object),
    {
        self.objects.push(object);
    }
}

impl<H: Hitable> Hitable for World<H> {
    open spec fn wf(&self) -> bool {
        all_wf(self.objects@)
    }

    open spec fn hit_spec(&self, ray: Ray, position_min: i64, position_max: i64) -> Option<
        HitRecord,
    > {
        closest_hit(self.objects@, ray, position_min, position_max)
    }

    /// The union of the members' boxes. An empty world has no box, and
    /// neither has a world with a member that has none.
    open spec fn bounding_box_spec(&self, t0: i64, t1: i64) -> Option<AABB> {
        if self.objects@.len() == 0 || !all_bounded(self.objects@, t0, t1) {
            None
        } else {
            Some(union_all(boxes_of(self.objects@, t0, t1)))
        }
    }

    open spec fn samples_as_light(&self) -> bool {
        false
    }

    /// Determine whether the ray hits any of the objects, and which of the
    /// hits is nearest.
    fn hit(&self, ray: &Ray, position_min: i64, position_max: i64) -> (record: Option<HitRecord>)
        ensures
            is_nearest_hit(self.objects@, *ray, position_min, position_max, record),
    {
        let mut record: Option<HitRecord> = None;
        let mut closest_so_far: i64 = position_max;
        let mut i: usize = 0;
        while i < self.objects.len()
            invariant
                i <= self.objects.len(),
                all_wf(self.objects@),
                ray.wf(),
                record == closest_hit(self.objects@.take(i as int), *ray, position_min, position_max),
                closest_so_far == far_end(record, position_max),
            decreases self.objects.len() - i,
        {
            assert(self.objects@.take(i + 1).drop_last() =~= self.objects@.take(i as int));
            assert(self.objects@.take(i + 1).last() == self.objects@[i as int]);
            match self.objects[i].hit(ray, position_min, closest_so_far) {
                None => (),
                Some(hit_record) => {
                    closest_so_far = hit_record.parameter;
                    record = Some(hit_record);
                },
            }
            i += 1;
        }
        proof {
            assert(self.objects@.take(i as int) =~= self.objects@);
            lemma_closest_is_nearest(self.objects@, *ray, position_min, position_max);
        }
        record
    }

    fn bounding_box(&self, t0: i64, t1: i64) -> (bounds: Option<AABB>) {
        if self.objects.len() == 0 {
            return None;
        }
        let ghost boxes = boxes_of(self.objects@, t0, t1);
        let first = self.objects[0].bounding_box(t0, t1);
        if first.is_none() {
            return None;
        }
        let mut accumulated_box: AABB = first.unwrap();
        let mut i: usize = 1;
        assert(boxes.take(1) =~= seq![boxes[0]]);
        while i < self.objects.len()
            invariant
                1 <= i <= self.objects.len(),
                all_wf(self.objects@),
                boxes == boxes_of(self.objects@, t0, t1),
                forall|j: int|
                    0 <= j < i ==> (#[trigger] self.objects@[j]).bounding_box_spec(
                        t0,
                        t1,
                    ) is Some,
                accumulated_box == union_all(boxes.take(i as int)),
            decreases self.objects.len() - i,
        {
            match self.objects[i].bounding_box(t0, t1) {
                Some(new_box) => {
                    assert(boxes.take(i + 1).drop_last() =~= boxes.take(i as int));
                    assert(boxes.take(i + 1).last() == new_box);
                    accumulated_box = surrounding_box(&accumulated_box, &new_box);
                },
                None => {
                    return None;
                },
            }
            i += 1;
        }
        assert(boxes.take(i as int) =~= boxes);
        Some(accumulated_box)
    }

    proof fn lemma_hit_inside(&self, ray: Ray, position_min: i64, position_max: i64) {
        lemma_closest_inside(self.objects@, ray, position_min, position_max);
    }

    proof fn lemma_hit_narrowed(&self, ray: Ray, position_min: i64, position_max: i64, cut: i64) {
        lemma_closest_narrowed(self.objects@, ray, position_min, position_max, cut);
    }

    proof fn lemma_hit_enclosed(
        &self,
        ray: Ray,
        position_min: i64,
        position_max: i64,
        t0: i64,
        t1: i64,
    ) {
        lemma_closest_is_nearest(self.objects@, ray, position_min, position_max);
        let found = closest_hit(self.objects@, ray, position_min, position_max);
        let k = choose|k: int|
            nearest_at(self.objects@, ray, position_min, position_max, k, found->0);
        let boxes = boxes_of(self.objects@, t0, t1);
        self.objects@[k].lemma_hit_enclosed(ray, position_min, position_max, t0, t1);
        lemma_union_all_encloses(boxes, k);
        union_all(boxes).lemma_hit_monotonic(boxes[k], ray, position_min as int, position_max as int);
    }
}

} // verus!
