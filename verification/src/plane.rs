//! Rectangles that lie in a plane normal to one of the three axes.
use vstd::prelude::*;
use crate::aabb::{Bound, AABB};
use crate::fixed::{div_floor, COORD_LIMIT, ONE};
use crate::hitable::{reportable, HitRecord, Hitable};
use crate::ray::Ray;
use crate::vec3::Vec3;

verus! {

/// The two axes that span a rectangle. The rectangle is normal to the third.
#[derive(Clone, Copy, Debug, PartialEq, Eq, Structural)]
pub enum Axis {
    XY,
    YZ,
    XZ,
}

impl Axis {
    /// The first axis of the plane.
    pub open spec fn first_spec(self) -> int {
        match self {
            Axis::XY => 0,
            Axis::YZ => 1,
            Axis::XZ => 0,
        }
    }

    /// The second axis of the plane.
    pub open spec fn second_spec(self) -> int {
        match self {
            Axis::XY => 1,
            Axis::YZ => 2,
            Axis::XZ => 2,
        }
    }

    /// The axis to which the plane is normal.
    pub open spec fn normal_spec(self) -> int {
        match self {
            Axis::XY => 2,
            Axis::YZ => 0,
            Axis::XZ => 1,
        }
    }

    /// The vector that has `a` and `b` along the two axes of the plane and
    /// `c` along its normal.
    pub open spec fn place_spec(self, a: i32, b: i32, c: i32) -> Vec3 {
        match self {
            Axis::XY => Vec3 { x: a, y: b, z: c },
            Axis::YZ => Vec3 { x: c, y: a, z: b },
            Axis::XZ => Vec3 { x: a, y: c, z: b },
        }
    }

    pub fn first(&self) -> (axis: usize)
        ensures
            axis == self.first_spec(),
    {
        match self {
            Axis::XY => 0,
            Axis::YZ => 1,
            Axis::XZ => 0,
        }
    }

    pub fn second(&self) -> (axis: usize)
        ensures
            axis == self.second_spec(),
    {
        match self {
            Axis::XY => 1,
            Axis::YZ => 2,
            Axis::XZ => 2,
        }
    }

    pub fn normal(&self) -> (axis: usize)
        ensures
            axis == self.normal_spec(),
    {
        match self {
            Axis::XY => 2,
            Axis::YZ => 0,
            Axis::XZ => 1,
        }
    }

    pub fn place(&self, a: i32, b: i32, c: i32) -> (v: Vec3)
        ensures
            v == self.place_spec(a, b, c),
    {
        match self {
            Axis::XY => Vec3 { x: a, y: b, z: c },
            Axis::YZ => Vec3 { x: c, y: a, z: b },
            Axis::XZ => Vec3 { x: a, y: c, z: b },
        }
    }
}

/// The rectangle `a0 ..= a1` by `b0 ..= b1` in the plane at height `k` along
/// the normal axis. Its normal points along that axis.
#[derive(Clone, Copy, Debug, PartialEq, Eq, Structural)]
pub struct Plane {
    pub axis: Axis,
    pub a0: i32,
    pub a1: i32,
    pub b0: i32,
    pub b1: i32,
    pub k: i32,
    pub material: usize,
}

/// `w.den` times the exact coordinate along `axis` of the point of the ray at
/// the exact parameter `w`.
pub open spec fn along(ray: Ray, axis: int, w: Bound) -> int {
    ray.origin.get(axis) * w.den + w.num * ray.direction.get(axis)
}

/// A surface coordinate: how far `at` lies from `from` towards `to`, in units
/// of `1 / ONE`, rounded down.
pub open spec fn share(at: int, from: int, to: int) -> int {
    ((at - from) * ONE) / (to - from)
}

fn share_of(at: i32, from: i32, to: i32) -> (s: i32)
    requires
        from <= at <= to,
        from < to,
    ensures
        s == share(at as int, from as int, to as int),
        0 <= s <= ONE,
{
    assert(0 <= (at - from) * ONE <= 0x400_0000_0000 && (at - from) * ONE == (at - from) * 1024)
        by (nonlinear_arith)
        requires
            0 <= at - from <= 0x1_0000_0000,
            ONE == 1024,
    ;
    let num: i128 = (at as i128 - from as i128) * (ONE as i128);
    let den: i128 = to as i128 - from as i128;
    let q: i128 = div_floor(num, den);
    assert(0 <= q <= 1024) by (nonlinear_arith)
        requires
            q * den <= num < q * den + den,
            num == (at - from) * 1024,
            den == to - from,
            0 <= at - from <= to - from,
            den > 0,
    ;
    q as i32
}

impl Plane {
    pub fn new(axis: Axis, a0: i32, a1: i32, b0: i32, b1: i32, k: i32, material: usize) -> (plane:
        Plane)
        ensures
            plane == (Plane { axis, a0, a1, b0, b1, k, material }),
    {
        Plane { axis, a0, a1, b0, b1, k, material }
    }

    /// Whether the rectangle can be queried: it has a positive extent both
    /// ways and lies within the coordinate limit.
    pub fn is_wf(&self) -> (b: bool)
        ensures
            b == self.wf(),
    {
        self.a0 < self.a1 && self.b0 < self.b1 && -COORD_LIMIT <= self.a0 && self.a1 <= COORD_LIMIT
            && -COORD_LIMIT <= self.b0 && self.b1 <= COORD_LIMIT && -COORD_LIMIT <= self.k && self.k
            <= COORD_LIMIT
    }

    /// The exact parameter at which a ray that is not parallel to the plane
    /// crosses it, with a positive denominator.
    pub open spec fn crossing(self, ray: Ray) -> Bound {
        let d = ray.direction.get(self.axis.normal_spec());
        let o = ray.origin.get(self.axis.normal_spec());
        if d > 0 {
            Bound { num: self.k - o, den: d }
        } else {
            Bound { num: o - self.k, den: -d }
        }
    }

    /// The ray crosses the plane, and does so within the rectangle, edges
    /// included.
    pub open spec fn covers(self, ray: Ray) -> bool {
        let w = self.crossing(ray);
        &&& ray.direction.get(self.axis.normal_spec()) != 0
        &&& self.a0 * w.den <= along(ray, self.axis.first_spec(), w) <= self.a1 * w.den
        &&& self.b0 * w.den <= along(ray, self.axis.second_spec(), w) <= self.b1 * w.den
    }

    /// The parameter that is reported for the crossing: the exact one in
    /// units of `1 / ONE`, rounded down.
    pub open spec fn parameter(self, ray: Ray) -> int {
        (self.crossing(ray).num * ONE) / self.crossing(ray).den
    }

    /// The record of the crossing: the point in the plane, with its two
    /// coordinates rounded down, its share of the rectangle as surface
    /// coordinates, and the normal axis as normal.
    pub open spec fn record_at(self, ray: Ray) -> HitRecord {
        let w = self.crossing(ray);
        let a = (along(ray, self.axis.first_spec(), w) / w.den) as i32;
        let b = (along(ray, self.axis.second_spec(), w) / w.den) as i32;
        HitRecord {
            parameter: self.parameter(ray) as i64,
            u: share(a as int, self.a0 as int, self.a1 as int) as i32,
            v: share(b as int, self.b0 as int, self.b1 as int) as i32,
            point: self.axis.place_spec(a, b, self.k),
            geometric_normal: self.axis.place_spec(0, 0, ONE),
            shading_normal: self.axis.place_spec(0, 0, ONE),
            material: self.material,
        }
    }

    /// The box round the rectangle, one lattice unit wider on every side, so
    /// that the rectangle lies strictly inside.
    pub open spec fn bounds(self) -> AABB {
        AABB {
            minimum: self.axis.place_spec(
                (self.a0 - 1) as i32,
                (self.b0 - 1) as i32,
                (self.k - 1) as i32,
            ),
            maximum: self.axis.place_spec(
                (self.a1 + 1) as i32,
                (self.b1 + 1) as i32,
                (self.k + 1) as i32,
            ),
        }
    }

    /// `w.den` times a coordinate of the crossing point, and that coordinate
    /// rounded down.
    fn coordinate(ray: &Ray, axis: usize, num: i128, den: i128, low: i32, high: i32) -> (c: Option<
        i32,
    >)
        requires
            axis < 3,
            0 < den <= 0x8000_0000,
            -0x1_0000_0000 <= num <= 0x1_0000_0000,
        ensures
            c is Some <==> low * den <= along(*ray, axis as int, Bound { num: num as int, den: den as int })
                <= high * den,
            c matches Some(v) ==> v == along(
                *ray,
                axis as int,
                Bound { num: num as int, den: den as int },
            ) / (den as int) && low <= v <= high,
    {
        let o: i128 = ray.origin.component(axis) as i128;
        let d: i128 = ray.direction.component(axis) as i128;
        assert(-0x8000_0000_0000_0000_0000 <= o * den <= 0x8000_0000_0000_0000_0000
            && -0x8000_0000_0000_0000_0000 <= num * d <= 0x8000_0000_0000_0000_0000
            && -0x8000_0000_0000_0000_0000 <= low * den <= 0x8000_0000_0000_0000_0000
            && -0x8000_0000_0000_0000_0000 <= high * den <= 0x8000_0000_0000_0000_0000)
            by (nonlinear_arith)
            requires
                0 < den <= 0x8000_0000,
                -0x1_0000_0000 <= num <= 0x1_0000_0000,
                -0x8000_0000 <= o <= 0x7fff_ffff,
                -0x8000_0000 <= d <= 0x7fff_ffff,
                -0x8000_0000 <= low <= 0x7fff_ffff,
                -0x8000_0000 <= high <= 0x7fff_ffff,
        ;
        let x: i128 = o * den + num * d;
        if (low as i128) * den <= x && x <= (high as i128) * den {
            let q: i128 = div_floor(x, den);
            assert(low <= q <= high) by (nonlinear_arith)
                requires
                    q * den <= x < q * den + den,
                    low * den <= x <= high * den,
                    den > 0,
            ;
            Some(q as i32)
        } else {
            None
        }
    }

    /// The point of the ray at its crossing lies strictly inside the box.
    proof fn lemma_crossing_in_bounds(self, ray: Ray, axis: int)
        requires
            self.wf(),
            self.covers(ray),
            0 <= axis < 3,
        ensures
            self.bounds().between_faces(ray, axis, self.crossing(ray)),
            self.crossing(ray).den > 0,
    {
        let w = self.crossing(ray);
        let c = self.axis.normal_spec();
        let d = ray.direction.get(c);
        let o = ray.origin.get(c);
        let x = along(ray, axis, w);
        let lo = self.bounds().minimum.get(axis);
        let hi = self.bounds().maximum.get(axis);
        if axis == c {
            assert(x == self.k * w.den) by (nonlinear_arith)
                requires
                    x == o * w.den + w.num * d,
                    (d > 0 && w.num == self.k - o && w.den == d) || (d < 0 && w.num == o - self.k
                        && w.den == -d),
            ;
            assert(lo == self.k - 1 && hi == self.k + 1);
            assert(lo * w.den < self.k * w.den < hi * w.den) by (nonlinear_arith)
                requires
                    lo == self.k - 1,
                    hi == self.k + 1,
                    w.den > 0,
            ;
        } else if axis == self.axis.first_spec() {
            assert(lo == self.a0 - 1 && hi == self.a1 + 1);
            assert(lo * w.den < self.a0 * w.den && self.a1 * w.den < hi * w.den)
                by (nonlinear_arith)
                requires
                    lo == self.a0 - 1,
                    hi == self.a1 + 1,
                    w.den > 0,
            ;
        } else {
            assert(axis == self.axis.second_spec());
            assert(lo == self.b0 - 1 && hi == self.b1 + 1);
            assert(lo * w.den < self.b0 * w.den && self.b1 * w.den < hi * w.den)
                by (nonlinear_arith)
                requires
                    lo == self.b0 - 1,
                    hi == self.b1 + 1,
                    w.den > 0,
            ;
        }
    }
}

impl Hitable for Plane {
    open spec fn wf(&self) -> bool {
        &&& self.a0 < self.a1
        &&& self.b0 < self.b1
        &&& -COORD_LIMIT <= self.a0
        &&& self.a1 <= COORD_LIMIT
        &&& -COORD_LIMIT <= self.b0
        &&& self.b1 <= COORD_LIMIT
        &&& -COORD_LIMIT <= self.k <= COORD_LIMIT
    }

    /// The record of the crossing, if the ray crosses the plane within the
    /// rectangle and the reported parameter lies ahead of the origin and
    /// strictly inside the interval.
    open spec fn hit_spec(&self, ray: Ray, position_min: i64, position_max: i64) -> Option<
        HitRecord,
    > {
        if self.covers(ray) && reportable(
            self.parameter(ray),
            position_min as int,
            position_max as int,
        ) {
            Some(self.record_at(ray))
        } else {
            None
        }
    }

    open spec fn bounding_box_spec(&self, t0: i64, t1: i64) -> Option<AABB> {
        Some(self.bounds())
    }

    open spec fn samples_as_light(&self) -> bool {
        false
    }

    fn hit(&self, ray: &Ray, position_min: i64, position_max: i64) -> (record: Option<HitRecord>) {
        let c = self.axis.normal();
        let d: i128 = ray.direction.component(c) as i128;
        let o: i128 = ray.origin.component(c) as i128;
        if d == 0 {
            return None;
        }
        let (num, den): (i128, i128) = if d > 0 {
            (self.k as i128 - o, d)
        } else {
            (o - self.k as i128, -d)
        };
        assert(self.crossing(*ray) == (Bound { num: num as int, den: den as int }));
        let a = match Self::coordinate(ray, self.axis.first(), num, den, self.a0, self.a1) {
            Some(a) => a,
            None => {
                return None;
            },
        };
        let b = match Self::coordinate(ray, self.axis.second(), num, den, self.b0, self.b1) {
            Some(b) => b,
            None => {
                return None;
            },
        };
        assert(self.covers(*ray));
        assert(-0x400_0000_0000 <= num * ONE <= 0x400_0000_0000) by (nonlinear_arith)
            requires
                -0x1_0000_0000 <= num <= 0x1_0000_0000,
                ONE == 1024,
        ;
        let t: i128 = div_floor(num * (ONE as i128), den);
        if !(0 < t && (position_min as i128) < t && t < (position_max as i128)) {
            return None;
        }
        Some(
            HitRecord::new(
                t as i64,
                share_of(a, self.a0, self.a1),
                share_of(b, self.b0, self.b1),
                self.axis.place(a, b, self.k),
                self.axis.place(0, 0, ONE),
                self.axis.place(0, 0, ONE),
                self.material,
            ),
        )
    }

    fn bounding_box(&self, t0: i64, t1: i64) -> (bounds: Option<AABB>) {
        Some(
            AABB::new(
                self.axis.place(self.a0 - 1, self.b0 - 1, self.k - 1),
                self.axis.place(self.a1 + 1, self.b1 + 1, self.k + 1),
            ),
        )
    }

    proof fn lemma_hit_inside(&self, ray: Ray, position_min: i64, position_max: i64) {
    }

    proof fn lemma_hit_narrowed(&self, ray: Ray, position_min: i64, position_max: i64, cut: i64) {
    }

    proof fn lemma_hit_enclosed(
        &self,
        ray: Ray,
        position_min: i64,
        position_max: i64,
        t0: i64,
        t1: i64,
    ) {
        let w = self.crossing(ray);
        let t = self.parameter(ray);
        assert forall|axis: int| 0 <= axis < 3 implies #[trigger] self.bounds().between_faces(
            ray,
            axis,
            w,
        ) by {
            self.lemma_crossing_in_bounds(ray, axis);
        }
        self.lemma_crossing_in_bounds(ray, 0);
        vstd::arithmetic::div_mod::lemma_fundamental_div_mod(w.num * ONE, w.den);
        vstd::arithmetic::div_mod::lemma_mod_bound(w.num * ONE, w.den);
        let rem = (w.num * ONE) % w.den;
        assert(position_min * w.den < w.num * ONE && w.num * ONE < position_max * w.den)
            by (nonlinear_arith)
            requires
                w.num * ONE == w.den * t + rem,
                0 <= rem < w.den,
                position_min < t < position_max,
        ;
        assert(AABB::within(w, position_min as int, position_max as int));
        self.bounds().lemma_hit_witness(ray, position_min as int, position_max as int, w);
    }
}

} // verus!
