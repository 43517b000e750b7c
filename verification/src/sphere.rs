//! Spheres, and where a ray crosses them.
use vstd::prelude::*;
use crate::aabb::{surrounding_box, Bound, AABB};
use crate::fixed::{
    ceil_div, clamp, div_ceil, div_floor, is_sqrt_of, isqrt, lemma_sqrt_exists, lemma_square_le,
    sqrt_floor, COORD_LIMIT, ONE,
};
use crate::hitable::{reportable, HitRecord, Hitable};
use crate::ray::Ray;
use crate::vec3::Vec3;

verus! {

/// A sphere on the lattice. A negative radius gives a sphere whose normals
/// point inwards, as the inner surface of a hollow shell does.
#[derive(Clone, Copy, Debug, PartialEq, Eq, Structural)]
pub struct Sphere {
    pub center: Vec3,
    pub radius: i32,
    pub material: usize,
}

pub open spec fn square(x: int) -> int {
    x * x
}

/// One component of the unit normal: the offset from the centre over the
/// radius, in units of `1 / ONE`, rounded down.
pub open spec fn normal_component(offset: int, radius: int) -> int {
    if radius > 0 {
        clamp((offset * ONE) / radius, i32::MIN as int, i32::MAX as int)
    } else {
        clamp((-offset * ONE) / (-radius), i32::MIN as int, i32::MAX as int)
    }
}

impl Sphere {
    /// A sphere to place into the world.
    pub fn new(center: Vec3, radius: i32, material: usize) -> (sphere: Sphere)
        ensures
            sphere == (Sphere { center, radius, material }),
    {
        Sphere { center, radius, material }
    }

    /// The origin of the ray, seen from the centre, along `axis`.
    pub open spec fn offset(self, ray: Ray, axis: int) -> int {
        ray.origin.get(axis) - self.center.get(axis)
    }

    /// The squared length of the direction.
    pub open spec fn quad_a(ray: Ray) -> int {
        square(ray.direction.get(0)) + square(ray.direction.get(1)) + square(ray.direction.get(2))
    }

    /// The offset of the origin projected on the direction.
    pub open spec fn quad_b(self, ray: Ray) -> int {
        self.offset(ray, 0) * ray.direction.get(0) + self.offset(ray, 1) * ray.direction.get(1)
            + self.offset(ray, 2) * ray.direction.get(2)
    }

    /// The squared distance of the origin from the centre, less the squared
    /// radius.
    pub open spec fn quad_c(self, ray: Ray) -> int {
        square(self.offset(ray, 0)) + square(self.offset(ray, 1)) + square(self.offset(ray, 2))
            - square(self.radius as int)
    }

    pub open spec fn discriminant(self, ray: Ray) -> int {
        square(self.quad_b(ray)) - Self::quad_a(ray) * self.quad_c(ray)
    }

    /// The exact point of the ray at parameter `t` lies in the closed ball.
    pub open spec fn inside(self, ray: Ray, t: int) -> bool {
        square(ray.scaled_position(0, t) - self.center.get(0) * ONE) + square(
            ray.scaled_position(1, t) - self.center.get(1) * ONE,
        ) + square(ray.scaled_position(2, t) - self.center.get(2) * ONE) <= square(
            self.radius * ONE,
        )
    }

    /// The nearer root of the quadratic, rounded up to the next parameter:
    /// the first parameter at which the ray is inside the ball.
    pub open spec fn entry(self, ray: Ray) -> int {
        ceil_div(
            -self.quad_b(ray) * ONE - isqrt(self.discriminant(ray) * ONE * ONE),
            Self::quad_a(ray),
        )
    }

    /// The farther root of the quadratic, rounded down: the last parameter
    /// at which the ray is inside the ball.
    pub open spec fn exit(self, ray: Ray) -> int {
        (-self.quad_b(ray) * ONE + isqrt(self.discriminant(ray) * ONE * ONE)) / Self::quad_a(ray)
    }

    /// The ray has a direction and is inside the ball at some parameter.
    pub open spec fn crosses(self, ray: Ray) -> bool {
        Self::quad_a(ray) > 0 && self.discriminant(ray) >= 0 && self.entry(ray) <= self.exit(ray)
    }

    /// The parameter of the reported intersection: of the two roots, the
    /// nearer one that can be reported.
    pub open spec fn root_spec(self, ray: Ray, position_min: int, position_max: int) -> Option<
        int,
    > {
        if !self.crosses(ray) {
            None
        } else if reportable(self.entry(ray), position_min, position_max) {
            Some(self.entry(ray))
        } else if reportable(self.exit(ray), position_min, position_max) {
            Some(self.exit(ray))
        } else {
            None
        }
    }

    /// The unit normal at a point of the surface: the offset from the centre
    /// over the radius.
    pub open spec fn normal_at(self, point: Vec3) -> Vec3 {
        Vec3 {
            x: normal_component(point.x - self.center.x, self.radius as int) as i32,
            y: normal_component(point.y - self.center.y, self.radius as int) as i32,
            z: normal_component(point.z - self.center.z, self.radius as int) as i32,
        }
    }

    /// The record of the intersection at parameter `t`. A sphere has no
    /// surface coordinates of its own and reports them as zero.
    pub open spec fn record_at(self, ray: Ray, t: int) -> HitRecord {
        let point = ray.point_spec(t);
        HitRecord {
            parameter: t as i64,
            u: 0,
            v: 0,
            point,
            geometric_normal: self.normal_at(point),
            shading_normal: self.normal_at(point),
            material: self.material,
        }
    }

    /// How far the bounding box reaches from the centre: one lattice unit
    /// beyond the radius, so that the closed ball lies strictly inside.
    pub open spec fn reach(self) -> int {
        if self.radius >= 0 {
            self.radius + 1
        } else {
            -self.radius + 1
        }
    }

    pub open spec fn bounds(self) -> AABB {
        AABB {
            minimum: Vec3 {
                x: (self.center.x - self.reach()) as i32,
                y: (self.center.y - self.reach()) as i32,
                z: (self.center.z - self.reach()) as i32,
            },
            maximum: Vec3 {
                x: (self.center.x + self.reach()) as i32,
                y: (self.center.y + self.reach()) as i32,
                z: (self.center.z + self.reach()) as i32,
            },
        }
    }

    /// How far the exact point at parameter `t` lies outside the ball: the
    /// quadratic in `t` whose roots are the two intersections.
    pub open spec fn excess(self, ray: Ray, t: int) -> int {
        Self::quad_a(ray) * t * t + 2 * (self.quad_b(ray) * ONE) * t + self.quad_c(ray) * ONE * ONE
    }

    proof fn lemma_axis_expansion(o: int, c: int, d: int, t: int)
        ensures
            square(o * ONE + t * d - c * ONE) == 1048576 * ((o - c) * (o - c)) + 2048 * (((o - c)
                * d) * t) + (d * d) * (t * t),
    {
        let w = o - c;
        let y = t * d;
        assert(o * ONE + t * d - c * ONE == 1024 * w + y);
        assert((1024 * w + y) * (1024 * w + y) == 1048576 * (w * w) + 2048 * (w * y) + y * y)
            by (nonlinear_arith);
        assert(w * y == (w * d) * t) by (nonlinear_arith)
            requires
                y == t * d,
        ;
        assert(y * y == (d * d) * (t * t)) by (nonlinear_arith)
            requires
                y == t * d,
        ;
    }

    /// The point at `t` lies in the closed ball exactly when the quadratic is
    /// not positive there.
    pub proof fn lemma_inside_is_excess(self, ray: Ray, t: int)
        ensures
            self.inside(ray, t) <==> self.excess(ray, t) <= 0,
    {
        let a = Self::quad_a(ray);
        let b = self.quad_b(ray);
        let c = self.quad_c(ray);
        Self::lemma_axis_expansion(ray.origin.get(0), self.center.get(0), ray.direction.get(0), t);
        Self::lemma_axis_expansion(ray.origin.get(1), self.center.get(1), ray.direction.get(1), t);
        Self::lemma_axis_expansion(ray.origin.get(2), self.center.get(2), ray.direction.get(2), t);
        let o0 = self.offset(ray, 0);
        let o1 = self.offset(ray, 1);
        let o2 = self.offset(ray, 2);
        let d0 = ray.direction.get(0);
        let d1 = ray.direction.get(1);
        let d2 = ray.direction.get(2);
        let r = self.radius as int;
        let tt = t * t;
        assert(a * t * t == a * tt) by (nonlinear_arith)
            requires
                tt == t * t,
        ;
        assert(a * tt == (d0 * d0) * tt + (d1 * d1) * tt + (d2 * d2) * tt) by (nonlinear_arith)
            requires
                a == d0 * d0 + d1 * d1 + d2 * d2,
        ;
        assert(2 * (b * ONE) * t == 2048 * (b * t)) by (nonlinear_arith)
            requires
                ONE == 1024,
        ;
        assert(b * t == (o0 * d0) * t + (o1 * d1) * t + (o2 * d2) * t) by (nonlinear_arith)
            requires
                b == o0 * d0 + o1 * d1 + o2 * d2,
        ;
        assert(c * ONE * ONE == 1048576 * c) by (nonlinear_arith)
            requires
                ONE == 1024,
        ;
        assert(square(r * ONE) == 1048576 * (r * r)) by (nonlinear_arith)
            requires
                ONE == 1024,
                square(r * ONE) == (r * ONE) * (r * ONE),
        ;
    }

    /// Completing the square: `a * (a t^2 + 2 b t + c) = (a t + b)^2 - (b^2 - a c)`.
    proof fn lemma_complete_square(a: int, b: int, c: int, t: int)
        ensures
            a * (a * t * t + 2 * b * t + c) == (a * t + b) * (a * t + b) - (b * b - a * c),
    {
        let u = a * t;
        assert((u + b) * (u + b) == u * u + 2 * (u * b) + b * b) by (nonlinear_arith);
        assert(a * t * t == u * t);
        assert(a * (u * t) == u * u) by (nonlinear_arith)
            requires
                u == a * t,
        ;
        assert(2 * b * t == 2 * (b * t)) by (nonlinear_arith);
        assert(a * (b * t) == u * b) by (nonlinear_arith)
            requires
                u == a * t,
        ;
        let p = u * t;
        let q = b * t;
        assert(a * (p + 2 * q + c) == a * p + 2 * (a * q) + a * c) by (nonlinear_arith);
    }

    /// For a ray with a direction, the parameters at which it is inside the
    /// ball are exactly those from `entry` to `exit`.
    pub proof fn lemma_inside_between(self, ray: Ray, t: int)
        requires
            Self::quad_a(ray) > 0,
        ensures
            self.inside(ray, t) <==> (self.discriminant(ray) >= 0 && self.entry(ray) <= t
                <= self.exit(ray)),
    {
        let a = Self::quad_a(ray);
        let b = self.quad_b(ray) * ONE;
        let c = self.quad_c(ray) * ONE * ONE;
        let disc = self.discriminant(ray);
        let m = disc * ONE * ONE;
        let x = a * t + b;
        self.lemma_inside_is_excess(ray, t);
        let q = self.excess(ray, t);
        Self::lemma_complete_square(a, b, c, t);
        let qb = self.quad_b(ray);
        let qc = self.quad_c(ray);
        assert(m == b * b - a * c) by {
            assert(b * b == (qb * qb) * ONE * ONE) by (nonlinear_arith)
                requires
                    b == qb * ONE,
            ;
            assert(a * c == (a * qc) * ONE * ONE) by (nonlinear_arith)
                requires
                    c == qc * ONE * ONE,
            ;
            assert((qb * qb - a * qc) * ONE * ONE == (qb * qb) * ONE * ONE - (a * qc) * ONE * ONE)
                by (nonlinear_arith);
        }
        assert(a * q == x * x - m);
        assert((q <= 0) <==> (a * q <= 0)) by (nonlinear_arith)
            requires
                a > 0,
        ;
        assert(x * x >= 0) by (nonlinear_arith);
        assert((m >= 0) <==> (disc >= 0)) by (nonlinear_arith)
            requires
                m == disc * ONE * ONE,
                ONE == 1024,
        ;
        if disc >= 0 {
            lemma_sqrt_exists(m);
            let s = isqrt(m);
            assert(is_sqrt_of(s, m));
            // x * x <= m  <==>  -s <= x <= s
            if -s <= x <= s {
                if x >= 0 {
                    lemma_square_le(x, s);
                } else {
                    lemma_square_le(-x, s);
                    assert((-x) * (-x) == x * x) by (nonlinear_arith);
                }
            } else if x > s {
                lemma_square_le(s + 1, x);
            } else {
                lemma_square_le(s + 1, -x);
                assert((-x) * (-x) == x * x) by (nonlinear_arith);
            }
            assert((x * x <= m) <==> (-s <= x <= s));
            // -s <= a t + b <= s  <==>  entry <= t <= exit
            let lo = -b - s;
            let hi = -b + s;
            assert(self.exit(ray) == hi / a);
            assert(self.entry(ray) == -((-lo) / a));
            vstd::arithmetic::div_mod::lemma_fundamental_div_mod(hi, a);
            vstd::arithmetic::div_mod::lemma_mod_bound(hi, a);
            vstd::arithmetic::div_mod::lemma_fundamental_div_mod(-lo, a);
            vstd::arithmetic::div_mod::lemma_mod_bound(-lo, a);
            let qh = hi / a;
            let rh = hi % a;
            let ql = (-lo) / a;
            let rl = (-lo) % a;
            assert((a * t <= hi) <==> (t <= qh)) by (nonlinear_arith)
                requires
                    hi == a * qh + rh,
                    0 <= rh < a,
            ;
            assert((a * (-t) <= -lo) <==> (-t <= ql)) by (nonlinear_arith)
                requires
                    -lo == a * ql + rl,
                    0 <= rl < a,
            ;
            assert(a * (-t) == -(a * t)) by (nonlinear_arith);
        }
    }
}

impl Sphere {
    /// The ray passes through the centre of the sphere at parameter `t`.
    pub open spec fn through_center_at(self, ray: Ray, t: int) -> bool {
        forall|axis: int|
            0 <= axis < 3 ==> #[trigger] ray.scaled_position(axis, t) == self.center.get(axis) * ONE
    }

    /// A ray through the centre crosses the sphere, and its two roots lie
    /// symmetric about the parameter at which it passes the centre.
    pub proof fn lemma_roots_symmetric(self, ray: Ray, t: int)
        requires
            Self::quad_a(ray) > 0,
            self.through_center_at(ray, t),
        ensures
            self.crosses(ray),
            self.entry(ray) + self.exit(ray) == 2 * t,
            self.entry(ray) <= t <= self.exit(ray),
    {
        let a = Self::quad_a(ray);
        let b = self.quad_b(ray);
        let c = self.quad_c(ray);
        let r = self.radius as int;
        let o0 = self.offset(ray, 0);
        let o1 = self.offset(ray, 1);
        let o2 = self.offset(ray, 2);
        let d0 = ray.direction.get(0);
        let d1 = ray.direction.get(1);
        let d2 = ray.direction.get(2);
        assert(ray.scaled_position(0, t) == self.center.get(0) * ONE);
        assert(ray.scaled_position(1, t) == self.center.get(1) * ONE);
        assert(ray.scaled_position(2, t) == self.center.get(2) * ONE);
        assert(o0 * ONE == -(t * d0) && o1 * ONE == -(t * d1) && o2 * ONE == -(t * d2))
            by (nonlinear_arith)
            requires
                ray.origin.get(0) * ONE + t * d0 == self.center.get(0) * ONE,
                ray.origin.get(1) * ONE + t * d1 == self.center.get(1) * ONE,
                ray.origin.get(2) * ONE + t * d2 == self.center.get(2) * ONE,
                o0 == ray.origin.get(0) - self.center.get(0),
                o1 == ray.origin.get(1) - self.center.get(1),
                o2 == ray.origin.get(2) - self.center.get(2),
        ;
        // The point at `t` is the centre, so it lies inside the ball.
        assert(self.inside(ray, t)) by {
            assert(square(self.radius * ONE) >= 0) by (nonlinear_arith)
                requires
                    square(self.radius * ONE) == (self.radius * ONE) * (self.radius * ONE),
            ;
        }
        self.lemma_inside_between(ray, t);
        // b * ONE == -(t * a), so that the midpoint of the two roots is t.
        let n = -b * ONE;
        assert(n == a * t) by {
            assert((o0 * d0) * ONE == -(t * (d0 * d0))) by (nonlinear_arith)
                requires
                    o0 * ONE == -(t * d0),
            ;
            assert((o1 * d1) * ONE == -(t * (d1 * d1))) by (nonlinear_arith)
                requires
                    o1 * ONE == -(t * d1),
            ;
            assert((o2 * d2) * ONE == -(t * (d2 * d2))) by (nonlinear_arith)
                requires
                    o2 * ONE == -(t * d2),
            ;
            assert(b * ONE == (o0 * d0) * ONE + (o1 * d1) * ONE + (o2 * d2) * ONE)
                by (nonlinear_arith)
                requires
                    b == o0 * d0 + o1 * d1 + o2 * d2,
            ;
            assert(a * t == t * (d0 * d0) + t * (d1 * d1) + t * (d2 * d2)) by (nonlinear_arith)
                requires
                    a == d0 * d0 + d1 * d1 + d2 * d2,
            ;
            assert(-b * ONE == -(b * ONE)) by (nonlinear_arith);
        }
        let s = isqrt(self.discriminant(ray) * ONE * ONE);
        let q = s / a;
        let rem = s % a;
        vstd::arithmetic::div_mod::lemma_fundamental_div_mod(s, a);
        vstd::arithmetic::div_mod::lemma_mod_bound(s, a);
        assert(n + s == (t + q) * a + rem) by (nonlinear_arith)
            requires
                n == a * t,
                s == a * q + rem,
        ;
        vstd::arithmetic::div_mod::lemma_fundamental_div_mod_converse(n + s, a, t + q, rem);
        assert(self.exit(ray) == t + q);
        assert(-(n - s) == (q - t) * a + rem) by (nonlinear_arith)
            requires
                n == a * t,
                s == a * q + rem,
        ;
        vstd::arithmetic::div_mod::lemma_fundamental_div_mod_converse(-(n - s), a, q - t, rem);
        assert(self.entry(ray) == -(q - t));
    }
}

fn normal_of(offset: i64, radius: i32) -> (n: i32)
    requires
        radius != 0,
        -0x1_0000_0000 <= offset <= 0x1_0000_0000,
    ensures
        n == normal_component(offset as int, radius as int),
{
    proof {
        lemma_product_bound(offset as int, ONE as int, 0x1_0000_0000, 1024);
        assert((-(offset as int)) * ONE == -((offset as int) * ONE)) by (nonlinear_arith);
    }
    let scaled: i128 = (offset as i128) * (ONE as i128);
    let q: i128 = if radius > 0 {
        div_floor(scaled, radius as i128)
    } else {
        div_floor(-scaled, -(radius as i128))
    };
    if q < i32::MIN as i128 {
        i32::MIN
    } else if q > i32::MAX as i128 {
        i32::MAX
    } else {
        q as i32
    }
}

/// The product of two bounded integers is bounded by the product of the
/// bounds.
proof fn lemma_product_bound(x: int, y: int, bx: int, by: int)
    requires
        -bx <= x <= bx,
        -by <= y <= by,
    ensures
        -(bx * by) <= x * y <= bx * by,
{
    assert(-(bx * by) <= x * y <= bx * by) by (nonlinear_arith)
        requires
            -bx <= x <= bx,
            -by <= y <= by,
    ;
}

impl Sphere {
    /// Whether the sphere can be queried: its centre and radius lie within
    /// the coordinate limit and the radius is not zero.
    pub fn is_wf(&self) -> (b: bool)
        ensures
            b == self.wf(),
    {
        self.center.is_in_range() && self.radius != 0 && -COORD_LIMIT <= self.radius
            && self.radius <= COORD_LIMIT
    }

    fn record(&self, ray: &Ray, parameter: i64) -> (record: HitRecord)
        requires
            self.wf(),
        ensures
            record == self.record_at(*ray, parameter as int),
    {
        let point = ray.point_at_parameter(parameter);
        assert(-COORD_LIMIT <= point.get(0) <= COORD_LIMIT);
        assert(-COORD_LIMIT <= point.get(1) <= COORD_LIMIT);
        assert(-COORD_LIMIT <= point.get(2) <= COORD_LIMIT);
        assert(-COORD_LIMIT <= self.center.get(0) <= COORD_LIMIT);
        assert(-COORD_LIMIT <= self.center.get(1) <= COORD_LIMIT);
        assert(-COORD_LIMIT <= self.center.get(2) <= COORD_LIMIT);
        let normal = Vec3 {
            x: normal_of(point.x as i64 - self.center.x as i64, self.radius),
            y: normal_of(point.y as i64 - self.center.y as i64, self.radius),
            z: normal_of(point.z as i64 - self.center.z as i64, self.radius),
        };
        HitRecord::new(parameter, 0, 0, point, normal, normal, self.material)
    }

    /// A point of the ray inside the ball lies strictly inside the bounding
    /// box.
    proof fn lemma_inside_bounds(self, ray: Ray, t: int, axis: int)
        requires
            self.wf(),
            self.inside(ray, t),
            0 <= axis < 3,
        ensures
            self.bounds().minimum.get(axis) * ONE < ray.scaled_position(axis, t)
                < self.bounds().maximum.get(axis) * ONE,
    {
        let x0 = ray.scaled_position(0, t) - self.center.get(0) * ONE;
        let x1 = ray.scaled_position(1, t) - self.center.get(1) * ONE;
        let x2 = ray.scaled_position(2, t) - self.center.get(2) * ONE;
        let x = ray.scaled_position(axis, t) - self.center.get(axis) * ONE;
        let r = self.reach() - 1;
        assert(x0 * x0 >= 0 && x1 * x1 >= 0 && x2 * x2 >= 0) by (nonlinear_arith);
        assert(square(self.radius * ONE) == (r * ONE) * (r * ONE)) by (nonlinear_arith)
            requires
                r == self.radius || r == -self.radius,
        ;
        assert(x * x <= (r * ONE) * (r * ONE));
        assert(r * ONE >= 0) by (nonlinear_arith)
            requires
                r >= 0,
                ONE == 1024,
        ;
        if x > r * ONE {
            lemma_square_le(r * ONE + 1, x);
            assert((r * ONE + 1) * (r * ONE + 1) > (r * ONE) * (r * ONE)) by (nonlinear_arith)
                requires
                    r * ONE >= 0,
            ;
        }
        if -x > r * ONE {
            lemma_square_le(r * ONE + 1, -x);
            assert((-x) * (-x) == x * x) by (nonlinear_arith);
            assert((r * ONE + 1) * (r * ONE + 1) > (r * ONE) * (r * ONE)) by (nonlinear_arith)
                requires
                    r * ONE >= 0,
            ;
        }
        assert(-COORD_LIMIT <= self.center.get(axis) <= COORD_LIMIT);
        assert(self.bounds().minimum.get(axis) == self.center.get(axis) - (r + 1));
        assert(self.bounds().maximum.get(axis) == self.center.get(axis) + (r + 1));
        assert((self.center.get(axis) - (r + 1)) * ONE < self.center.get(axis) * ONE - r * ONE
            && self.center.get(axis) * ONE + r * ONE < (self.center.get(axis) + (r + 1)) * ONE)
            by (nonlinear_arith)
            requires
                ONE == 1024,
        ;
    }
}

impl Hitable for Sphere {
    open spec fn wf(&self) -> bool {
        self.center.in_range() && self.radius != 0 && -COORD_LIMIT <= self.radius <= COORD_LIMIT
    }

    /// The record at the nearer reportable root, if there is one.
    open spec fn hit_spec(&self, ray: Ray, position_min: i64, position_max: i64) -> Option<
        HitRecord,
    > {
        match self.root_spec(ray, position_min as int, position_max as int) {
            Some(t) => Some(self.record_at(ray, t)),
            None => None,
        }
    }

    open spec fn bounding_box_spec(&self, t0: i64, t1: i64) -> Option<AABB> {
        Some(self.bounds())
    }

    open spec fn samples_as_light(&self) -> bool {
        false
    }

    /// Determine whether the ray intersects the sphere.
    ///
    /// The intersection equation is quadratic in the parameter. No real root
    /// is a miss; otherwise the two roots are where the ray enters and leaves
    /// the ball, and the nearer one that lies ahead of the origin and inside
    /// the interval is reported.
    fn hit(&self, ray: &Ray, position_min: i64, position_max: i64) -> (record: Option<HitRecord>) {
        proof {
            assert(-COORD_LIMIT <= ray.origin.get(0) <= COORD_LIMIT);
            assert(-COORD_LIMIT <= ray.origin.get(1) <= COORD_LIMIT);
            assert(-COORD_LIMIT <= ray.origin.get(2) <= COORD_LIMIT);
            assert(-COORD_LIMIT <= ray.direction.get(0) <= COORD_LIMIT);
            assert(-COORD_LIMIT <= ray.direction.get(1) <= COORD_LIMIT);
            assert(-COORD_LIMIT <= ray.direction.get(2) <= COORD_LIMIT);
            assert(-COORD_LIMIT <= self.center.get(0) <= COORD_LIMIT);
            assert(-COORD_LIMIT <= self.center.get(1) <= COORD_LIMIT);
            assert(-COORD_LIMIT <= self.center.get(2) <= COORD_LIMIT);
        }
        let o0: i128 = ray.origin.x as i128 - self.center.x as i128;
        let o1: i128 = ray.origin.y as i128 - self.center.y as i128;
        let o2: i128 = ray.origin.z as i128 - self.center.z as i128;
        let d0: i128 = ray.direction.x as i128;
        let d1: i128 = ray.direction.y as i128;
        let d2: i128 = ray.direction.z as i128;
        let r: i128 = self.radius as i128;
        proof {
            assert(o0 == self.offset(*ray, 0) && o1 == self.offset(*ray, 1) && o2 == self.offset(
                *ray,
                2,
            ));
            lemma_product_bound(d0 as int, d0 as int, 0x100_0000, 0x100_0000);
            lemma_product_bound(d1 as int, d1 as int, 0x100_0000, 0x100_0000);
            lemma_product_bound(d2 as int, d2 as int, 0x100_0000, 0x100_0000);
            lemma_product_bound(o0 as int, d0 as int, 0x200_0000, 0x100_0000);
            lemma_product_bound(o1 as int, d1 as int, 0x200_0000, 0x100_0000);
            lemma_product_bound(o2 as int, d2 as int, 0x200_0000, 0x100_0000);
            lemma_product_bound(o0 as int, o0 as int, 0x200_0000, 0x200_0000);
            lemma_product_bound(o1 as int, o1 as int, 0x200_0000, 0x200_0000);
            lemma_product_bound(o2 as int, o2 as int, 0x200_0000, 0x200_0000);
            lemma_product_bound(r as int, r as int, 0x100_0000, 0x100_0000);
            assert(d0 * d0 >= 0 && d1 * d1 >= 0 && d2 * d2 >= 0 && o0 * o0 >= 0 && o1 * o1 >= 0
                && o2 * o2 >= 0 && r * r >= 0) by (nonlinear_arith);
        }
        let a: i128 = d0 * d0 + d1 * d1 + d2 * d2;
        let b: i128 = o0 * d0 + o1 * d1 + o2 * d2;
        let c: i128 = o0 * o0 + o1 * o1 + o2 * o2 - r * r;
        assert(a == Self::quad_a(*ray));
        assert(b == self.quad_b(*ray));
        assert(c == self.quad_c(*ray));
        if a == 0 {
            return None;
        }
        proof {
            lemma_product_bound(b as int, b as int, 0x6_0000_0000_0000, 0x6_0000_0000_0000);
            lemma_product_bound(a as int, c as int, 0x3_0000_0000_0000, 0xc_0000_0000_0000);
        }
        let disc: i128 = b * b - a * c;
        assert(disc == self.discriminant(*ray));
        if disc < 0 {
            return None;
        }
        proof {
            lemma_product_bound(disc as int, 0x10_0000, 0x48_0000_0000_0000_0000_0000_0000, 0x10_0000);
            lemma_product_bound(b as int, ONE as int, 0x6_0000_0000_0000, 1024);
            assert(disc * ONE * ONE == disc * 0x10_0000) by (nonlinear_arith)
                requires
                    ONE == 1024,
            ;
            assert(disc * 0x10_0000 >= 0) by (nonlinear_arith)
                requires
                    disc >= 0,
            ;
        }
        let m: i128 = disc * 0x10_0000;
        let s: i128 = sqrt_floor(m as u128) as i128;
        let n: i128 = -b * (ONE as i128);
        let entry: i128 = div_ceil(n - s, a);
        let exit: i128 = div_floor(n + s, a);
        assert(entry == self.entry(*ray));
        assert(exit == self.exit(*ray));
        if entry > exit {
            return None;
        }
        assert(self.crosses(*ray));
        if 0 < entry && (position_min as i128) < entry && entry < (position_max as i128) {
            Some(self.record(ray, entry as i64))
        } else if 0 < exit && (position_min as i128) < exit && exit < (position_max as i128) {
            Some(self.record(ray, exit as i64))
        } else {
            None
        }
    }

    fn bounding_box(&self, t0: i64, t1: i64) -> (bounds: Option<AABB>) {
        assert(-COORD_LIMIT <= self.center.get(0) <= COORD_LIMIT);
        assert(-COORD_LIMIT <= self.center.get(1) <= COORD_LIMIT);
        assert(-COORD_LIMIT <= self.center.get(2) <= COORD_LIMIT);
        let reach: i32 = if self.radius >= 0 {
            self.radius + 1
        } else {
            -self.radius + 1
        };
        Some(
            AABB::new(
                Vec3::new(self.center.x - reach, self.center.y - reach, self.center.z - reach),
                Vec3::new(self.center.x + reach, self.center.y + reach, self.center.z + reach),
            ),
        )
    }

    proof fn lemma_hit_inside(&self, ray: Ray, position_min: i64, position_max: i64) {
    }

    proof fn lemma_hit_narrowed(&self, ray: Ray, position_min: i64, position_max: i64, cut: i64) {
    }

    proof fn lemma_hit_enclosed(
        &self,
        ray: Ray,
        position_min: i64,
        position_max: i64,
        t0: i64,
        t1: i64,
    ) {
        let t = self.root_spec(ray, position_min as int, position_max as int)->0;
        self.lemma_inside_between(ray, t);
        assert(self.inside(ray, t));
        let w = Bound { num: t, den: ONE as int };
        assert forall|axis: int| 0 <= axis < 3 implies #[trigger] self.bounds().between_faces(
            ray,
            axis,
            w,
        ) by {
            self.lemma_inside_bounds(ray, t, axis);
        }
        self.bounds().lemma_hit_witness(ray, position_min as int, position_max as int, w);
    }
}

/// A sphere that glides from one centre to another between two moments.
/// Before the first moment it rests at the first centre, after the second at
/// the second.
#[derive(Clone, Copy, Debug, PartialEq, Eq, Structural)]
pub struct MovingSphere {
    pub center0: Vec3,
    pub center1: Vec3,
    pub time0: i64,
    pub time1: i64,
    pub radius: i32,
    pub material: usize,
}

/// The coordinate at `time` of a point that glides from `from` at `time0` to
/// `to` at `time1`, rounded down.
pub open spec fn glide(from: int, to: int, time0: int, time1: int, time: int) -> int {
    if time1 <= time0 {
        from
    } else {
        from + ((clamp(time, time0, time1) - time0) * (to - from)) / (time1 - time0)
    }
}

/// A gliding coordinate stays between its two ends.
proof fn lemma_glide_between(from: int, to: int, time0: int, time1: int, time: int)
    ensures
        from <= to ==> from <= glide(from, to, time0, time1, time) <= to,
        to <= from ==> to <= glide(from, to, time0, time1, time) <= from,
{
    if time1 > time0 {
        let span = time1 - time0;
        let k = clamp(time, time0, time1) - time0;
        let delta = to - from;
        let q = (k * delta) / span;
        let rem = (k * delta) % span;
        vstd::arithmetic::div_mod::lemma_fundamental_div_mod(k * delta, span);
        vstd::arithmetic::div_mod::lemma_mod_bound(k * delta, span);
        if delta >= 0 {
            assert(0 <= q <= delta) by (nonlinear_arith)
                requires
                    k * delta == span * q + rem,
                    0 <= rem < span,
                    0 <= k <= span,
                    delta >= 0,
            ;
        } else {
            assert(delta <= q <= 0) by (nonlinear_arith)
                requires
                    k * delta == span * q + rem,
                    0 <= rem < span,
                    0 <= k <= span,
                    delta < 0,
            ;
        }
    }
}

fn glide_component(from: i32, to: i32, time0: i64, time1: i64, time: i64) -> (c: i32)
    ensures
        c == glide(from as int, to as int, time0 as int, time1 as int, time as int),
{
    if time1 <= time0 {
        return from;
    }
    let moment: i64 = if time < time0 {
        time0
    } else if time > time1 {
        time1
    } else {
        time
    };
    let k: i128 = moment as i128 - time0 as i128;
    let span: i128 = time1 as i128 - time0 as i128;
    let delta: i128 = to as i128 - from as i128;
    proof {
        lemma_product_bound(k as int, delta as int, 0x1_0000_0000_0000_0000, 0x1_0000_0000);
        lemma_glide_between(from as int, to as int, time0 as int, time1 as int, time as int);
    }
    let q: i128 = div_floor(k * delta, span);
    (from as i128 + q) as i32
}

impl MovingSphere {
    /// A sphere that is at `center0` at `time0` and at `center1` at `time1`.
    pub fn new(
        center0: Vec3,
        center1: Vec3,
        radius: i32,
        material: usize,
        time0: i64,
        time1: i64,
    ) -> (sphere: MovingSphere)
        ensures
            sphere == (MovingSphere { center0, center1, time0, time1, radius, material }),
    {
        MovingSphere { center0, center1, time0, time1, radius, material }
    }

    /// Where the centre is at `time`.
    pub open spec fn center_at(self, time: int) -> Vec3 {
        Vec3 {
            x: glide(self.center0.x as int, self.center1.x as int, self.time0 as int, self.time1 as int, time) as i32,
            y: glide(self.center0.y as int, self.center1.y as int, self.time0 as int, self.time1 as int, time) as i32,
            z: glide(self.center0.z as int, self.center1.z as int, self.time0 as int, self.time1 as int, time) as i32,
        }
    }

    /// The sphere as it stands at `time`.
    pub open spec fn snapshot(self, time: int) -> Sphere {
        Sphere { center: self.center_at(time), radius: self.radius, material: self.material }
    }

    /// The sphere at rest at its first centre.
    pub open spec fn start(self) -> Sphere {
        Sphere { center: self.center0, radius: self.radius, material: self.material }
    }

    /// The sphere at rest at its second centre.
    pub open spec fn end(self) -> Sphere {
        Sphere { center: self.center1, radius: self.radius, material: self.material }
    }

    /// The box round the whole glide: the union of the boxes at both ends.
    pub open spec fn bounds(self) -> AABB {
        self.start().bounds().union(self.end().bounds())
    }

    /// Whether the sphere can be queried: both centres and the radius lie
    /// within the coordinate limit and the radius is not zero.
    pub fn is_wf(&self) -> (b: bool)
        ensures
            b == self.wf(),
    {
        self.center0.is_in_range() && self.center1.is_in_range() && self.radius != 0
            && -COORD_LIMIT <= self.radius && self.radius <= COORD_LIMIT
    }

    /// At every moment the sphere can be queried and lies within the box
    /// round its glide.
    pub proof fn lemma_snapshot_within(self, time: int)
        requires
            self.wf(),
        ensures
            self.snapshot(time).wf(),
            self.bounds().encloses(self.snapshot(time).bounds()),
    {
        lemma_glide_between(self.center0.x as int, self.center1.x as int, self.time0 as int, self.time1 as int, time);
        lemma_glide_between(self.center0.y as int, self.center1.y as int, self.time0 as int, self.time1 as int, time);
        lemma_glide_between(self.center0.z as int, self.center1.z as int, self.time0 as int, self.time1 as int, time);
        assert(-COORD_LIMIT <= self.center0.get(0) <= COORD_LIMIT);
        assert(-COORD_LIMIT <= self.center0.get(1) <= COORD_LIMIT);
        assert(-COORD_LIMIT <= self.center0.get(2) <= COORD_LIMIT);
        assert(-COORD_LIMIT <= self.center1.get(0) <= COORD_LIMIT);
        assert(-COORD_LIMIT <= self.center1.get(1) <= COORD_LIMIT);
        assert(-COORD_LIMIT <= self.center1.get(2) <= COORD_LIMIT);
        let c = self.center_at(time);
        assert(c.in_range()) by {
            assert forall|axis: int| 0 <= axis < 3 implies -COORD_LIMIT <= #[trigger] c.get(axis)
                <= COORD_LIMIT by {}
        }
    }

    fn at(&self, time: i64) -> (sphere: Sphere)
        requires
            self.wf(),
        ensures
            sphere == self.snapshot(time as int),
            sphere.wf(),
    {
        proof {
            self.lemma_snapshot_within(time as int);
        }
        Sphere {
            center: Vec3 {
                x: glide_component(self.center0.x, self.center1.x, self.time0, self.time1, time),
                y: glide_component(self.center0.y, self.center1.y, self.time0, self.time1, time),
                z: glide_component(self.center0.z, self.center1.z, self.time0, self.time1, time),
            },
            radius: self.radius,
            material: self.material,
        }
    }
}

impl Hitable for MovingSphere {
    open spec fn wf(&self) -> bool {
        self.center0.in_range() && self.center1.in_range() && self.radius != 0 && -COORD_LIMIT
            <= self.radius <= COORD_LIMIT
    }

    /// What the sphere, as it stands at the time of the ray, reports.
    open spec fn hit_spec(&self, ray: Ray, position_min: i64, position_max: i64) -> Option<
        HitRecord,
    > {
        self.snapshot(ray.time as int).hit_spec(ray, position_min, position_max)
    }

    /// The box round the whole glide, whatever the time span asked for.
    open spec fn bounding_box_spec(&self, t0: i64, t1: i64) -> Option<AABB> {
        Some(self.bounds())
    }

    open spec fn samples_as_light(&self) -> bool {
        false
    }

    fn hit(&self, ray: &Ray, position_min: i64, position_max: i64) -> (record: Option<HitRecord>) {
        self.at(ray.time).hit(ray, position_min, position_max)
    }

    fn bounding_box(&self, t0: i64, t1: i64) -> (bounds: Option<AABB>) {
        let start = Sphere { center: self.center0, radius: self.radius, material: self.material };
        let end = Sphere { center: self.center1, radius: self.radius, material: self.material };
        let first = start.bounding_box(t0, t1);
        let second = end.bounding_box(t0, t1);
        Some(surrounding_box(&first.unwrap(), &second.unwrap()))
    }

    proof fn lemma_hit_inside(&self, ray: Ray, position_min: i64, position_max: i64) {
        self.lemma_snapshot_within(ray.time as int);
        self.snapshot(ray.time as int).lemma_hit_inside(ray, position_min, position_max);
    }

    proof fn lemma_hit_narrowed(&self, ray: Ray, position_min: i64, position_max: i64, cut: i64) {
        self.lemma_snapshot_within(ray.time as int);
        self.snapshot(ray.time as int).lemma_hit_narrowed(ray, position_min, position_max, cut);
    }

    proof fn lemma_hit_enclosed(
        &self,
        ray: Ray,
        position_min: i64,
        position_max: i64,
        t0: i64,
        t1: i64,
    ) {
        let now = self.snapshot(ray.time as int);
        self.lemma_snapshot_within(ray.time as int);
        now.lemma_hit_enclosed(ray, position_min, position_max, t0, t1);
        self.bounds().lemma_hit_monotonic(
            now.bounds(),
            ray,
            position_min as int,
            position_max as int,
        );
    }
}

} // verus!
