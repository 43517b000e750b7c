//! The integrator: a random walk that follows a ray from surface to surface
//! and adds up the light it meets.
use vstd::prelude::*;
use crate::fixed::{EPSILON, FAR};
use crate::hitable::{HitRecord, Hitable};
use crate::material::{Background, Material};
use crate::ray::Ray;
use crate::vec3::Vec3;

verus! {

/// The number of bounces after which a walk is cut off. The light that a
/// longer path would have carried is lost: the estimate is biased, and every
/// walk ends.
pub const MAX_DEPTH: i32 = 50;

/// What one walk brought back.
#[derive(Clone, Copy, Debug, PartialEq, Eq, Structural)]
pub struct Walk {
    /// The radiance that arrives along the ray.
    pub radiance: Vec3,
    /// How often the walk was scattered on.
    pub bounces: u64,
}

/// The radiance at a surface that emits `emitted` and passes on `incoming`
/// attenuated by `attenuation`, channel by channel.
pub open spec fn shade_spec(emitted: Vec3, attenuation: Vec3, incoming: Vec3) -> Vec3 {
    emitted.plus_spec(attenuation.component_mul_spec(incoming))
}

/// The radiance that leaves a surface: what it emits, and what it passes on.
pub fn shade(emitted: &Vec3, attenuation: &Vec3, incoming: &Vec3) -> (radiance: Vec3)
    ensures
        radiance == shade_spec(*emitted, *attenuation, *incoming),
{
    emitted.plus(&attenuation.component_mul(incoming))
}

/// Whether a walk at `depth` goes on with what the material answered: it
/// does when the depth bound is not reached, the light was not absorbed, and
/// the outgoing ray lies within the coordinate limit.
pub open spec fn continues(depth: i32, scattered: Option<(Vec3, Ray)>) -> bool {
    depth < MAX_DEPTH && match scattered {
        Some((_, outgoing)) => outgoing.wf(),
        None => false,
    }
}

/// The next leg of a walk at `depth`, given what the material answered.
pub fn next_leg(depth: i32, scattered: Option<(Vec3, Ray)>) -> (leg: Option<(Vec3, Ray)>)
    ensures
        leg == if continues(depth, scattered) {
            scattered
        } else {
            None
        },
{
    if depth >= MAX_DEPTH {
        return None;
    }
    match scattered {
        Some((attenuation, ray)) => {
            if ray.is_wf() {
                Some((attenuation, ray))
            } else {
                None
            }
        },
        None => None,
    }
}

/// What the walk along `ray` meets first: the nearest hit beyond `EPSILON`,
/// which keeps a ray from hitting the surface it starts on.
pub open spec fn first_hit<H: Hitable>(world: &H, ray: Ray) -> Option<HitRecord> {
    world.hit_spec(ray, EPSILON, FAR)
}

/// What a walk that ends at its first step brings back: the background or
/// nothing on a miss, nothing from a surface without a material, and
/// otherwise what the surface emits.
pub open spec fn direct_light<H: Hitable, M: Material, B: Background>(
    world: &H,
    materials: Seq<M>,
    sky: &B,
    ray: Ray,
    background_enabled: bool,
) -> Vec3 {
    match first_hit(world, ray) {
        None => if background_enabled {
            sky.radiance_spec(ray.direction)
        } else {
            Vec3::zero()
        },
        Some(h) => if h.material < materials.len() {
            materials[h.material as int].emitted_spec(h.u, h.v, h.point)
        } else {
            Vec3::zero()
        },
    }
}

/// One bounce of a walk: what the material answered when asked to scatter.
pub ghost struct Leg {
    pub attenuation: Vec3,
    pub outgoing: Ray,
}

/// A walk along `ray` at `depth` can take the bounces `legs`, one after the
/// other: each starts below the depth bound at a surface that has a
/// material, and leaves along a ray within the coordinate limit.
pub open spec fn path_allowed<H: Hitable, M: Material>(
    world: &H,
    materials: Seq<M>,
    ray: Ray,
    depth: int,
    legs: Seq<Leg>,
) -> bool
    decreases legs.len(),
{
    if legs.len() == 0 {
        true
    } else {
        &&& depth < MAX_DEPTH
        &&& first_hit(world, ray) is Some
        &&& first_hit(world, ray)->0.material < materials.len()
        &&& legs[0].outgoing.wf()
        &&& path_allowed(world, materials, legs[0].outgoing, depth + 1, legs.drop_first())
    }
}

/// The radiance that a walk along `ray` brings back when it takes the
/// bounces `legs`: at every surface what the surface emits and, attenuated,
/// what the rest of the walk brings back; at the end the direct light.
pub open spec fn radiance_along<H: Hitable, M: Material, B: Background>(
    world: &H,
    materials: Seq<M>,
    sky: &B,
    ray: Ray,
    background_enabled: bool,
    legs: Seq<Leg>,
) -> Vec3
    decreases legs.len(),
{
    if legs.len() == 0 {
        direct_light(world, materials, sky, ray, background_enabled)
    } else {
        shade_spec(
            direct_light(world, materials, sky, ray, background_enabled),
            legs[0].attenuation,
            radiance_along(
                world,
                materials,
                sky,
                legs[0].outgoing,
                background_enabled,
                legs.drop_first(),
            ),
        )
    }
}

/// `walk` is what a walk along `ray` at `depth` brings back for some answers
/// of the materials: there is a path of as many allowed bounces as the walk
/// counts, along which the walk's radiance arrives.
pub open spec fn walk_possible<H: Hitable, M: Material, B: Background>(
    world: &H,
    materials: Seq<M>,
    sky: &B,
    ray: Ray,
    depth: int,
    background_enabled: bool,
    walk: Walk,
) -> bool {
    exists|legs: Seq<Leg>|
        {
            &&& legs.len() == walk.bounces
            &&& #[trigger] path_allowed(world, materials, ray, depth, legs)
            &&& walk.radiance == radiance_along(
                world,
                materials,
                sky,
                ray,
                background_enabled,
                legs,
            )
        }
}

/// A path that is allowed at `depth` has not more bounces than the depth
/// bound leaves.
pub proof fn lemma_path_is_bounded<H: Hitable, M: Material>(
    world: &H,
    materials: Seq<M>,
    ray: Ray,
    depth: int,
    legs: Seq<Leg>,
)
    requires
        path_allowed(world, materials, ray, depth, legs),
    ensures
        depth >= MAX_DEPTH ==> legs.len() == 0,
        depth < MAX_DEPTH ==> depth + legs.len() <= MAX_DEPTH,
    decreases legs.len(),
{
    if legs.len() > 0 {
        lemma_path_is_bounded(world, materials, legs[0].outgoing, depth + 1, legs.drop_first());
    }
}

/// Follow `ray` through the scene and report the radiance and the number of
/// bounces.
///
/// A ray that leaves the scene brings back the background, or nothing when
/// the background is switched off. A ray that hits a surface brings back
/// what the surface emits, always; below the depth bound the material is
/// asked to scatter, and where it does, the walk goes on along the outgoing
/// ray and adds what that brings back, attenuated.
pub fn trace<H: Hitable, M: Material, B: Background>(
    ray: &Ray,
    world: &H,
    materials: &Vec<M>,
    sky: &B,
    depth: i32,
    background_enabled: bool,
    rng: &mut rand::rngs::ThreadRng,
) -> (walk: Walk)
    requires
        world.wf(),
        ray.wf(),
    ensures
        depth < MAX_DEPTH ==> depth + walk.bounces <= MAX_DEPTH,
        depth >= MAX_DEPTH ==> walk.bounces == 0,
        first_hit(world, *ray) is None ==> walk.bounces == 0,
        first_hit(world, *ray) matches Some(h) && h.material >= materials.len() ==> walk.bounces
            == 0,
        walk_possible(world, materials@, sky, *ray, depth as int, background_enabled, walk),
    decreases MAX_DEPTH - depth,
{
    proof {
        let none = Seq::<Leg>::empty();
        assert(path_allowed(world, materials@, *ray, depth as int, none));
        assert(radiance_along(world, materials@, sky, *ray, background_enabled, none)
            == direct_light(world, materials@, sky, *ray, background_enabled));
    }
    match world.hit(ray, EPSILON, FAR) {
        Some(hit_record) => {
            if hit_record.material >= materials.len() {
                return Walk { radiance: Vec3::zeros(), bounces: 0 };
            }
            let material = &materials[hit_record.material];
            let emitted = material.emitted(hit_record.u, hit_record.v, &hit_record.point);
            if depth < MAX_DEPTH {
                let scattered = material.scatter(ray, &hit_record, rng);
                if let Some((attenuation, outgoing)) = next_leg(depth, scattered) {
                    let rest = trace(
                        &outgoing,
                        world,
                        materials,
                        sky,
                        depth + 1,
                        background_enabled,
                        rng,
                    );
                    let radiance = shade(&emitted, &attenuation, &rest.radiance);
                    let walk = Walk { radiance, bounces: rest.bounces + 1 };
                    proof {
                        let tail = choose|legs: Seq<Leg>|
                            {
                                &&& legs.len() == rest.bounces
                                &&& #[trigger] path_allowed(
                                    world,
                                    materials@,
                                    outgoing,
                                    depth + 1,
                                    legs,
                                )
                                &&& rest.radiance == radiance_along(
                                    world,
                                    materials@,
                                    sky,
                                    outgoing,
                                    background_enabled,
                                    legs,
                                )
                            };
                        let legs = seq![Leg { attenuation, outgoing }] + tail;
                        assert(legs.drop_first() =~= tail);
                        assert(path_allowed(world, materials@, *ray, depth as int, legs));
                        assert(radiance == radiance_along(
                            world,
                            materials@,
                            sky,
                            *ray,
                            background_enabled,
                            legs,
                        ));
                    }
                    return walk;
                }
            }
            Walk { radiance: emitted, bounces: 0 }
        },
        None => {
            if background_enabled {
                Walk { radiance: sky.radiance(&ray.direction), bounces: 0 }
            } else {
                Walk { radiance: Vec3::zeros(), bounces: 0 }
            }
        },
    }
}

/// Compute the colour of what the ray sees.
///
/// The radiance is that of the walk which `trace` follows; see there. With a
/// background that is switched off, a ray that hits nothing brings back
/// exactly no light, and at the depth bound a surface brings back exactly
/// what it emits. In every case the radiance is that of a possible walk.
pub fn compute_color<H: Hitable, M: Material, B: Background>(
    ray: &Ray,
    world: &H,
    materials: &Vec<M>,
    sky: &B,
    depth: i32,
    background_enabled: bool,
    rng: &mut rand::rngs::ThreadRng,
) -> (color: Vec3)
    requires
        world.wf(),
        ray.wf(),
    ensures
        first_hit(world, *ray) is None && !background_enabled ==> color == Vec3::zero(),
        first_hit(world, *ray) is None || depth >= MAX_DEPTH ==> color == direct_light(
            world,
            materials@,
            sky,
            *ray,
            background_enabled,
        ),
        exists|bounces: u64|
            #[trigger] walk_possible(
                world,
                materials@,
                sky,
                *ray,
                depth as int,
                background_enabled,
                Walk { radiance: color, bounces },
            ),
{
    let walk = trace(ray, world, materials, sky, depth, background_enabled, rng);
    assert(walk == (Walk { radiance: walk.radiance, bounces: walk.bounces }));
    walk.radiance
}

} // verus!
