//! The collaborators that the integrator asks about light: the materials of
//! the surfaces, and the background behind the scene.
use vstd::prelude::*;
use crate::hitable::HitRecord;
use crate::ray::Ray;
use crate::vec3::Vec3;

verus! {

/// What a surface does with light.
pub trait Material {
    /// The radiance that the surface gives off at surface coordinates
    /// `(u, v)` and at `point`.
    spec fn emitted_spec(&self, u: i32, v: i32, point: Vec3) -> Vec3;

    /// The radiance emitted at the given place of the surface.
    fn emitted(&self, u: i32, v: i32, point: &Vec3) -> (radiance: Vec3)
        ensures
            radiance == self.emitted_spec(u, v, *point),
    ;

    /// Scatter the incoming ray at the recorded hit. The answer is nothing
    /// when the light is absorbed, otherwise the attenuation per colour
    /// channel and the outgoing ray. It may depend on chance.
    fn scatter(&self, ray: &Ray, hit: &HitRecord, rng: &mut rand::rngs::ThreadRng) -> (scattered:
        Option<(Vec3, Ray)>)
    ;
}

/// What a ray sees that leaves the scene.
pub trait Background {
    /// The radiance that arrives from `direction`.
    spec fn radiance_spec(&self, direction: Vec3) -> Vec3;

    /// The radiance that arrives from `direction`.
    fn radiance(&self, direction: &Vec3) -> (radiance: Vec3)
        ensures
            radiance == self.radiance_spec(*direction),
    ;
}

/// The material of a surface that neither gives off nor passes on any light.
#[derive(Clone, Copy, Debug, PartialEq, Eq, Structural)]
pub struct Empty {}

impl Empty {
    /// The one value of the type: the material has no properties to set.
    pub fn new() -> (material: Empty)
        ensures
            material == (Empty {  }),
    {
        Empty {  }
    }
}

impl Material for Empty {
    open spec fn emitted_spec(&self, u: i32, v: i32, point: Vec3) -> Vec3 {
        Vec3::zero()
    }

    fn emitted(&self, u: i32, v: i32, point: &Vec3) -> (radiance: Vec3) {
        Vec3::zeros()
    }

    fn scatter(&self, ray: &Ray, hit: &HitRecord, rng: &mut rand::rngs::ThreadRng) -> (scattered:
        Option<(Vec3, Ray)>)
        ensures
            scattered is None,
    {
        None
    }
}

/// A background without any light.
#[derive(Clone, Copy, Debug, PartialEq, Eq, Structural)]
pub struct Darkness {}

impl Darkness {
    /// The one value of the type: the background has no properties to set.
    pub fn new() -> (background: Darkness)
        ensures
            background == (Darkness {  }),
    {
        Darkness {  }
    }
}

impl Background for Darkness {
    open spec fn radiance_spec(&self, direction: Vec3) -> Vec3 {
        Vec3::zero()
    }

    fn radiance(&self, direction: &Vec3) -> (radiance: Vec3) {
        Vec3::zeros()
    }
}

} // verus!
