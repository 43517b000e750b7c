use pathtracer::aabb::AABB;
use pathtracer::fixed::{FAR, ONE};
use pathtracer::hitable::{FlipNormals, Hitable};
use pathtracer::ray::Ray;
use pathtracer::sphere::Sphere;
use pathtracer::vec3::Vec3;
use pathtracer::world::World;

const UNIT: i32 = 1024;

fn t(whole: i64) -> i64 {
    whole * ONE as i64
}

fn along_z() -> Ray {
    Ray::new(Vec3::new(0, 0, -10 * UNIT), Vec3::new(0, 0, UNIT))
}

fn ball(z: i32, material: usize) -> Sphere {
    Sphere::new(Vec3::new(0, 0, z * UNIT), UNIT, material)
}

#[test]
fn new_world_is_empty() {
    let world: World<Sphere> = World::new();
    assert!(world.objects.is_empty());
}

#[test]
fn add_appends_in_order() {
    let mut world = World::new();
    world.add(ball(0, 0));
    world.add(ball(5, 1));
    assert_eq!(world.objects, vec![ball(0, 0), ball(5, 1)]);
}

#[test]
fn empty_world_is_never_hit() {
    let world: World<Sphere> = World::new();
    assert!(world.hit(&along_z(), 0, FAR).is_none());
    assert!(world.hit(&along_z(), -FAR, FAR).is_none());
}

#[test]
fn empty_world_has_no_box() {
    let world: World<Sphere> = World::new();
    assert_eq!(world.bounding_box(0, 1), None);
}

#[test]
fn world_reports_the_closest_hit_not_the_first() {
    let mut world = World::new();
    world.add(ball(5, 0));
    world.add(ball(-5, 1));
    world.add(ball(0, 2));
    let hit = world.hit(&along_z(), 0, FAR).unwrap();
    assert_eq!(hit.material, 1);
    assert_eq!(hit.parameter, t(4));
}

#[test]
fn world_reports_the_closest_hit_in_any_order() {
    let zs = [5, -5, 0];
    let orders: [[usize; 3]; 6] =
        [[0, 1, 2], [0, 2, 1], [1, 0, 2], [1, 2, 0], [2, 0, 1], [2, 1, 0]];
    for order in orders.iter() {
        let mut world = World::new();
        for &k in order.iter() {
            world.add(ball(zs[k], k));
        }
        let hit = world.hit(&along_z(), 0, FAR).unwrap();
        assert_eq!(hit.material, 1);
        assert_eq!(hit.parameter, t(4));
    }
}

#[test]
fn world_respects_the_interval() {
    let mut world = World::new();
    world.add(ball(-5, 0));
    world.add(ball(0, 1));
    world.add(ball(5, 2));
    assert_eq!(world.hit(&along_z(), t(6), FAR).unwrap().material, 1);
    assert_eq!(world.hit(&along_z(), t(6), FAR).unwrap().parameter, t(9));
    assert_eq!(world.hit(&along_z(), t(11), FAR).unwrap().material, 2);
    assert!(world.hit(&along_z(), t(16), FAR).is_none());
    assert!(world.hit(&along_z(), 0, t(4)).is_none());
}

#[test]
fn of_two_equally_near_the_first_is_reported() {
    let mut world = World::new();
    world.add(ball(0, 4));
    world.add(ball(0, 9));
    assert_eq!(world.hit(&along_z(), 0, FAR).unwrap().material, 4);
}

#[test]
fn world_box_is_the_union_of_all_members() {
    let mut world = World::new();
    world.add(Sphere::new(Vec3::new(0, 0, 0), 1, 0));
    world.add(Sphere::new(Vec3::new(10, 0, 0), 2, 0));
    world.add(Sphere::new(Vec3::new(0, -20, 5), 3, 0));
    assert_eq!(
        world.bounding_box(0, 1),
        Some(AABB::new(Vec3::new(-4, -24, -3), Vec3::new(13, 3, 9)))
    );
}

#[test]
fn world_of_one_has_the_box_of_its_member() {
    let mut world = World::new();
    world.add(Sphere::new(Vec3::new(0, 0, 0), 1, 0));
    assert_eq!(
        world.bounding_box(0, 1),
        Some(AABB::new(Vec3::new(-2, -2, -2), Vec3::new(2, 2, 2)))
    );
}

#[test]
fn world_without_a_box_makes_its_owner_boxless() {
    let mut outer: World<World<Sphere>> = World::new();
    let mut full = World::new();
    full.add(ball(0, 0));
    outer.add(full);
    assert!(outer.bounding_box(0, 1).is_some());
    outer.add(World::new());
    assert_eq!(outer.bounding_box(0, 1), None);
}

#[test]
fn worlds_nest() {
    let mut near = World::new();
    near.add(ball(-5, 1));
    let mut far = World::new();
    far.add(ball(5, 2));
    far.add(ball(0, 3));
    let mut outer = World::new();
    outer.add(far);
    outer.add(near);
    let hit = outer.hit(&along_z(), 0, FAR).unwrap();
    assert_eq!(hit.material, 1);
    assert_eq!(outer.hit(&along_z(), t(6), FAR).unwrap().material, 3);
}

#[test]
fn world_of_flipped_spheres() {
    let mut world = World::new();
    world.add(FlipNormals::of(ball(0, 0)));
    let hit = world.hit(&along_z(), 0, FAR).unwrap();
    assert_eq!(hit.parameter, t(9));
    assert_eq!(hit.shading_normal, Vec3::new(0, 0, ONE));
}
