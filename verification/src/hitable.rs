//! The intersection protocol shared by every shape and every aggregate.
use vstd::prelude::*;
use crate::aabb::AABB;
use crate::fixed::ONE;
use crate::ray::Ray;
use crate::vec3::Vec3;

verus! {

/// The thread-local random generator of the `rand` crate,
/// `rand::rngs::ThreadRng`. The library only hands it on to the sampling
/// methods of shapes and materials; nothing is claimed about what it yields.
#[verifier::external_type_specification]
#[verifier::external_body]
pub struct ExThreadRng(rand::rngs::ThreadRng);

/// What is known about one intersection of a ray with a surface.
#[derive(Clone, Copy, Debug, PartialEq, Eq, Structural)]
pub struct HitRecord {
    /// The ray parameter of the intersection, in units of `1 / ONE`.
    pub parameter: i64,
    /// The surface coordinates, in units of `1 / ONE`.
    pub u: i32,
    pub v: i32,
    /// The lattice point of the intersection.
    pub point: Vec3,
    /// The normal of the true surface, scaled to length `ONE`.
    pub geometric_normal: Vec3,
    /// The normal used for shading; adapters may turn it round.
    pub shading_normal: Vec3,
    /// The index of the surface's material in the scene's table of materials.
    pub material: usize,
}

impl HitRecord {
    /// The record of a given ray-geometry intersection.
    pub fn new(
        parameter: i64,
        u: i32,
        v: i32,
        point: Vec3,
        geometric_normal: Vec3,
        shading_normal: Vec3,
        material: usize,
    ) -> (record: HitRecord)
        ensures
            record == (HitRecord {
                parameter,
                u,
                v,
                point,
                geometric_normal,
                shading_normal,
                material,
            }),
    {
        HitRecord { parameter, u, v, point, geometric_normal, shading_normal, material }
    }

    /// The same intersection seen from the other side of the surface.
    pub open spec fn flipped(self) -> HitRecord {
        HitRecord {
            geometric_normal: self.geometric_normal.negated_spec(),
            shading_normal: self.shading_normal.negated_spec(),
            ..self
        }
    }
}

/// A parameter can be reported: it lies ahead of the origin and strictly
/// inside the interval.
pub open spec fn reportable(t: int, position_min: int, position_max: int) -> bool {
    0 < t && position_min < t < position_max
}

/// What a hit test that found `found` answers once the far end of its
/// interval is pulled in to `cut`: the same record if it still lies inside,
/// nothing otherwise.
pub open spec fn narrowed(found: Option<HitRecord>, cut: i64) -> Option<HitRecord> {
    match found {
        Some(h) => if h.parameter < cut {
            Some(h)
        } else {
            None
        },
        None => None,
    }
}

/// Anything a ray can hit: a shape, an adapter round a shape, or an aggregate
/// of shapes.
///
/// An implementation fixes, as a function of the ray and the open interval
/// `(position_min, position_max)`, the nearest intersection it reports, and
/// proves the three laws that aggregates rely on.
pub trait Hitable {
    /// The value is fit to be queried.
    spec fn wf(&self) -> bool;

    /// The intersection reported for `ray` within the open interval
    /// `(position_min, position_max)`, if any.
    spec fn hit_spec(&self, ray: Ray, position_min: i64, position_max: i64) -> Option<HitRecord>;

    /// The box that bounds the value over the time span `t0 ..= t1`, if it
    /// has one.
    spec fn bounding_box_spec(&self, t0: i64, t1: i64) -> Option<AABB>;

    /// The value is an area light that the integrator may sample directly.
    /// Only such values answer `pdf_value` and `pdf_random` in their own way.
    spec fn samples_as_light(&self) -> bool;

    /// Determine whether the ray meets the value strictly inside the
    /// interval, and where it does so first.
    fn hit(&self, ray: &Ray, position_min: i64, position_max: i64) -> (record: Option<HitRecord>)
        requires
            self.wf(),
            ray.wf(),
        ensures
            record == self.hit_spec(*ray, position_min, position_max),
    ;

    fn bounding_box(&self, t0: i64, t1: i64) -> (bounds: Option<AABB>)
        requires
            self.wf(),
        ensures
            bounds == self.bounding_box_spec(t0, t1),
    ;

    /// The density of sampling direction `v` from `origin`. Values that are
    /// not sampled as lights have density zero.
    fn pdf_value(&self, origin: Vec3, v: Vec3) -> (density: i32)
        ensures
            !self.samples_as_light() ==> density == 0,
    {
        0
    }

    /// A direction from `origin` towards the value. Values that are not
    /// sampled as lights answer with the x axis.
    fn pdf_random(&self, origin: Vec3, rng: &mut rand::rngs::ThreadRng) -> (direction: Vec3)
        ensures
            !self.samples_as_light() ==> direction == (Vec3 { x: ONE, y: 0, z: 0 }),
    {
        Vec3::new(ONE, 0, 0)
    }

    /// A reported intersection lies strictly inside the queried interval.
    proof fn lemma_hit_inside(&self, ray: Ray, position_min: i64, position_max: i64)
        requires
            self.wf(),
            ray.wf(),
        ensures
            self.hit_spec(ray, position_min, position_max) matches Some(h) ==> position_min
                < h.parameter < position_max,
    ;

    /// Pulling in the far end of the interval keeps the reported intersection
    /// while it stays inside, and reports nothing once it falls outside: what
    /// is reported is the nearest intersection.
    proof fn lemma_hit_narrowed(&self, ray: Ray, position_min: i64, position_max: i64, cut: i64)
        requires
            self.wf(),
            ray.wf(),
            cut <= position_max,
        ensures
            self.hit_spec(ray, position_min, cut) == narrowed(
                self.hit_spec(ray, position_min, position_max),
                cut,
            ),
    ;

    /// A ray that hits the value within an interval meets the value's
    /// bounding box within that interval.
    proof fn lemma_hit_enclosed(
        &self,
        ray: Ray,
        position_min: i64,
        position_max: i64,
        t0: i64,
        t1: i64,
    )
        requires
            self.wf(),
            ray.wf(),
            self.hit_spec(ray, position_min, position_max) is Some,
            self.bounding_box_spec(t0, t1) is Some,
        ensures
            self.bounding_box_spec(t0, t1)->0.hit_spec(ray, position_min as int, position_max as int),
    ;
}

/// An adapter that reports the hits of the wrapped value with both normals
/// turned round.
pub struct FlipNormals<H: Hitable> {
    pub hitable: H,
}

impl<H: Hitable> FlipNormals<H> {
    pub fn of(hitable: H) -> (flip: FlipNormals<H>)
        ensures
            flip.hitable == hitable,
    {
        FlipNormals { hitable }
    }
}

impl<H: Hitable> Hitable for FlipNormals<H> {
    open spec fn wf(&self) -> bool {
        self.hitable.wf()
    }

    open spec fn hit_spec(&self, ray: Ray, position_min: i64, position_max: i64) -> Option<
        HitRecord,
    > {
        match self.hitable.hit_spec(ray, position_min, position_max) {
            Some(h) => Some(h.flipped()),
            None => None,
        }
    }

    open spec fn bounding_box_spec(&self, t0: i64, t1: i64) -> Option<AABB> {
        self.hitable.bounding_box_spec(t0, t1)
    }

    open spec fn samples_as_light(&self) -> bool {
        false
    }

    fn hit(&self, ray: &Ray, position_min: i64, position_max: i64) -> (record: Option<HitRecord>) {
        if let Some(mut hit) = self.hitable.hit(ray, position_min, position_max) {
            hit.geometric_normal = hit.geometric_normal.negated();
            hit.shading_normal = hit.shading_normal.negated();
            Some(hit)
        } else {
            None
        }
    }

    fn bounding_box(&self, t0: i64, t1: i64) -> (bounds: Option<AABB>) {
        self.hitable.bounding_box(t0, t1)
    }

    proof fn lemma_hit_inside(&self, ray: Ray, position_min: i64, position_max: i64) {
        self.hitable.lemma_hit_inside(ray, position_min, position_max);
    }

    proof fn lemma_hit_narrowed(&self, ray: Ray, position_min: i64, position_max: i64, cut: i64) {
        self.hitable.lemma_hit_narrowed(ray, position_min, position_max, cut);
    }

    proof fn lemma_hit_enclosed(
        &self,
        ray: Ray,
        position_min: i64,
        position_max: i64,
        t0: i64,
        t1: i64,
    ) {
        self.hitable.lemma_hit_enclosed(ray, position_min, position_max, t0, t1);
    }
}

} // verus!
