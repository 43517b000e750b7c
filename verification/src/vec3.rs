//! Integer triples: lattice points, directions, unit normals and colours.
use vstd::prelude::*;
use crate::fixed::{clamp, div_floor, COORD_LIMIT, ONE};

verus! {

/// Three signed components. What they count depends on the use: lattice units
/// for points and directions, units of `1 / ONE` for normals and colours.
#[derive(Clone, Copy, Debug, PartialEq, Eq, Structural)]
pub struct Vec3 {
    pub x: i32,
    pub y: i32,
    pub z: i32,
}

/// `a + b`, kept inside the 32-bit range.
pub open spec fn saturating_sum(a: int, b: int) -> int {
    clamp(a + b, i32::MIN as int, i32::MAX as int)
}

/// The product of two fractions, rounded down and kept inside the 32-bit range.
pub open spec fn fraction_product(a: int, b: int) -> int {
    clamp((a * b) / (ONE as int), i32::MIN as int, i32::MAX as int)
}

/// `-a`, kept inside the 32-bit range.
pub open spec fn saturating_negation(a: int) -> int {
    clamp(-a, i32::MIN as int, i32::MAX as int)
}

fn add_component(a: i32, b: i32) -> (r: i32)
    ensures
        r == saturating_sum(a as int, b as int),
{
    let s: i64 = a as i64 + b as i64;
    if s < i32::MIN as i64 {
        i32::MIN
    } else if s > i32::MAX as i64 {
        i32::MAX
    } else {
        s as i32
    }
}

fn mul_component(a: i32, b: i32) -> (r: i32)
    ensures
        r == fraction_product(a as int, b as int),
{
    assert(-0x4000_0000_0000_0000 <= (a as int) * (b as int) <= 0x4000_0000_0000_0000)
        by (nonlinear_arith)
        requires
            -0x8000_0000 <= a as int <= 0x7fff_ffff,
            -0x8000_0000 <= b as int <= 0x7fff_ffff,
    ;
    let p: i128 = (a as i128) * (b as i128);
    let q: i128 = div_floor(p, ONE as i128);
    if q < i32::MIN as i128 {
        i32::MIN
    } else if q > i32::MAX as i128 {
        i32::MAX
    } else {
        q as i32
    }
}

fn neg_component(a: i32) -> (r: i32)
    ensures
        r == saturating_negation(a as int),
{
    if a == i32::MIN {
        i32::MAX
    } else {
        -a
    }
}

impl Vec3 {
    pub fn new(x: i32, y: i32, z: i32) -> (v: Vec3)
        ensures
            v == (Vec3 { x, y, z }),
    {
        Vec3 { x, y, z }
    }

    /// The zero vector: the origin, or black.
    pub fn zeros() -> (v: Vec3)
        ensures
            v == Vec3::zero(),
    {
        Vec3 { x: 0, y: 0, z: 0 }
    }

    pub open spec fn zero() -> Vec3 {
        Vec3 { x: 0, y: 0, z: 0 }
    }

    /// The component along `axis`: 0 for x, 1 for y, anything else for z.
    pub open spec fn get(self, axis: int) -> int {
        if axis == 0 {
            self.x as int
        } else if axis == 1 {
            self.y as int
        } else {
            self.z as int
        }
    }

    /// The component along `axis`.
    pub fn component(&self, axis: usize) -> (c: i32)
        ensures
            c == self.get(axis as int),
    {
        if axis == 0 {
            self.x
        } else if axis == 1 {
            self.y
        } else {
            self.z
        }
    }

    /// Every component lies within the coordinate limit.
    pub open spec fn in_range(self) -> bool {
        forall|axis: int| 0 <= axis < 3 ==> -COORD_LIMIT <= #[trigger] self.get(axis) <= COORD_LIMIT
    }

    pub fn is_in_range(&self) -> (b: bool)
        ensures
            b == self.in_range(),
    {
        let ok = -COORD_LIMIT <= self.x && self.x <= COORD_LIMIT && -COORD_LIMIT <= self.y
            && self.y <= COORD_LIMIT && -COORD_LIMIT <= self.z && self.z <= COORD_LIMIT;
        proof {
            if ok {
                assert(self.in_range());
            } else {
                assert(self.get(0) == self.x && self.get(1) == self.y && self.get(2) == self.z);
            }
        }
        ok
    }

    pub open spec fn plus_spec(self, other: Vec3) -> Vec3 {
        Vec3 {
            x: saturating_sum(self.x as int, other.x as int) as i32,
            y: saturating_sum(self.y as int, other.y as int) as i32,
            z: saturating_sum(self.z as int, other.z as int) as i32,
        }
    }

    /// The component-wise saturating sum.
    pub fn plus(&self, other: &Vec3) -> (v: Vec3)
        ensures
            v == self.plus_spec(*other),
    {
        Vec3 {
            x: add_component(self.x, other.x),
            y: add_component(self.y, other.y),
            z: add_component(self.z, other.z),
        }
    }

    pub open spec fn component_mul_spec(self, other: Vec3) -> Vec3 {
        Vec3 {
            x: fraction_product(self.x as int, other.x as int) as i32,
            y: fraction_product(self.y as int, other.y as int) as i32,
            z: fraction_product(self.z as int, other.z as int) as i32,
        }
    }

    /// The component-wise product of two triples of fractions.
    pub fn component_mul(&self, other: &Vec3) -> (v: Vec3)
        ensures
            v == self.component_mul_spec(*other),
    {
        Vec3 {
            x: mul_component(self.x, other.x),
            y: mul_component(self.y, other.y),
            z: mul_component(self.z, other.z),
        }
    }

    pub open spec fn negated_spec(self) -> Vec3 {
        Vec3 {
            x: saturating_negation(self.x as int) as i32,
            y: saturating_negation(self.y as int) as i32,
            z: saturating_negation(self.z as int) as i32,
        }
    }

    /// The opposite vector.
    pub fn negated(&self) -> (v: Vec3)
        ensures
            v == self.negated_spec(),
    {
        Vec3 { x: neg_component(self.x), y: neg_component(self.y), z: neg_component(self.z) }
    }
}

} // verus!
