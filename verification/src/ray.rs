//! Rays: an origin, a direction, and the points along them.
use vstd::prelude::*;
use crate::fixed::{clamp, div_floor, COORD_LIMIT, ONE};
use crate::vec3::Vec3;

verus! {

/// A half-line `origin + (t / ONE) * direction`. The direction need not have
/// unit length: its magnitude is absorbed into the parameter.
#[derive(Clone, Copy, Debug, PartialEq, Eq, Structural)]
pub struct Ray {
    pub origin: Vec3,
    pub direction: Vec3,
    /// The moment at which the ray is cast; moving shapes are met where they
    /// are at that moment.
    pub time: i64,
}

fn point_component(o: i32, d: i32, t: i64) -> (c: i32)
    ensures
        c == clamp(
            (o as int * ONE as int + t as int * d as int) / (ONE as int),
            -COORD_LIMIT as int,
            COORD_LIMIT as int,
        ),
{
    assert(-0x4000_0000_0000_0000_0000_0000 <= (t as int) * (d as int)
        <= 0x4000_0000_0000_0000_0000_0000) by (nonlinear_arith)
        requires
            -0x8000_0000 <= d as int <= 0x7fff_ffff,
            -0x8000_0000_0000_0000 <= t as int <= 0x7fff_ffff_ffff_ffff,
    ;
    assert(-0x4000_0000_0000 <= (o as int) * (ONE as int) <= 0x4000_0000_0000) by (nonlinear_arith)
        requires
            -0x8000_0000 <= o as int <= 0x7fff_ffff,
            ONE == 1024,
    ;
    let scaled: i128 = (o as i128) * (ONE as i128) + (t as i128) * (d as i128);
    let q: i128 = div_floor(scaled, ONE as i128);
    if q < -(COORD_LIMIT as i128) {
        -COORD_LIMIT
    } else if q > COORD_LIMIT as i128 {
        COORD_LIMIT
    } else {
        q as i32
    }
}

impl Ray {
    /// A ray that starts at `a` and runs along `b`, cast at time zero.
    pub fn new(a: Vec3, b: Vec3) -> (ray: Ray)
        ensures
            ray == (Ray { origin: a, direction: b, time: 0 }),
    {
        Ray { origin: a, direction: b, time: 0 }
    }

    /// A ray that starts at `a` and runs along `b`, cast at `time`.
    pub fn at_time(a: Vec3, b: Vec3, time: i64) -> (ray: Ray)
        ensures
            ray == (Ray { origin: a, direction: b, time }),
    {
        Ray { origin: a, direction: b, time }
    }

    /// Origin and direction lie within the coordinate limit.
    pub open spec fn wf(self) -> bool {
        self.origin.in_range() && self.direction.in_range()
    }

    pub fn is_wf(&self) -> (b: bool)
        ensures
            b == self.wf(),
    {
        self.origin.is_in_range() && self.direction.is_in_range()
    }

    /// `ONE` times the exact coordinate along `axis` of the point at
    /// parameter `t`.
    pub open spec fn scaled_position(self, axis: int, t: int) -> int {
        self.origin.get(axis) * (ONE as int) + t * self.direction.get(axis)
    }

    /// The lattice point at parameter `t`: each exact coordinate rounded down,
    /// and kept within the coordinate limit.
    pub open spec fn point_spec(self, t: int) -> Vec3 {
        Vec3 {
            x: clamp(self.scaled_position(0, t) / (ONE as int), -COORD_LIMIT as int, COORD_LIMIT as int) as i32,
            y: clamp(self.scaled_position(1, t) / (ONE as int), -COORD_LIMIT as int, COORD_LIMIT as int) as i32,
            z: clamp(self.scaled_position(2, t) / (ONE as int), -COORD_LIMIT as int, COORD_LIMIT as int) as i32,
        }
    }

    /// The point on the ray at the given parameter.
    pub fn point_at_parameter(&self, parameter: i64) -> (p: Vec3)
        ensures
            p == self.point_spec(parameter as int),
            p.in_range(),
    {
        let p = Vec3 {
            x: point_component(self.origin.x, self.direction.x, parameter),
            y: point_component(self.origin.y, self.direction.y, parameter),
            z: point_component(self.origin.z, self.direction.z, parameter),
        };
        assert(p.in_range());
        p
    }
}

} // verus!
