use std::cell::Cell;
use std::rc::Rc;

use pathtracer::aabb::AABB;
use pathtracer::bvh::{Tree, BVH};
use pathtracer::fixed::{FAR, ONE};
use pathtracer::hitable::{HitRecord, Hitable};
use pathtracer::ray::Ray;
use pathtracer::sphere::Sphere;
use pathtracer::vec3::Vec3;
use pathtracer::world::World;

const UNIT: i32 = 1024;

fn t(whole: i64) -> i64 {
    whole * ONE as i64
}

fn ball(x: i32, y: i32, z: i32, material: usize) -> Sphere {
    Sphere::new(Vec3::new(x * UNIT, y * UNIT, z * UNIT), UNIT, material)
}

fn along_z() -> Ray {
    Ray::new(Vec3::new(0, 0, -10 * UNIT), Vec3::new(0, 0, UNIT))
}

/// A small generator of repeatable numbers.
struct Lcg(u64);

impl Lcg {
    fn next(&mut self) -> u64 {
        self.0 = self.0.wrapping_mul(6364136223846793005).wrapping_add(1442695040888963407);
        self.0 >> 33
    }

    fn between(&mut self, lo: i32, hi: i32) -> i32 {
        lo + (self.next() % (hi - lo + 1) as u64) as i32
    }
}

fn leaves(tree: &Tree, out: &mut Vec<usize>) {
    match tree {
        Tree::Single { primitive, .. } => out.push(*primitive),
        Tree::Pair { first, second, .. } => {
            out.push(*first);
            out.push(*second);
        }
        Tree::Branch { left, right, .. } => {
            leaves(left, out);
            leaves(right, out);
        }
    }
}

fn bounds(tree: &Tree) -> AABB {
    match tree {
        Tree::Single { bounds, .. } => *bounds,
        Tree::Pair { bounds, .. } => *bounds,
        Tree::Branch { bounds, .. } => *bounds,
    }
}

#[test]
fn bvh_of_nothing_is_empty() {
    let bvh = BVH::<Sphere>::new(Vec::new(), 0, 1).unwrap();
    assert!(bvh.root.is_none());
    assert_eq!(bvh.bounding_box(0, 1), None);
    assert!(bvh.hit(&along_z(), 0, FAR).is_none());
}

#[test]
fn bvh_of_one_is_a_leaf() {
    let bvh = BVH::new(vec![ball(0, 0, 0, 3)], 0, 1).unwrap();
    match bvh.root.as_ref().unwrap() {
        Tree::Single { primitive, bounds } => {
            assert_eq!(*primitive, 0);
            assert_eq!(Some(*bounds), ball(0, 0, 0, 3).bounding_box(0, 1));
        }
        _ => panic!("one primitive makes a single leaf"),
    }
    assert_eq!(bvh.hit(&along_z(), 0, FAR).unwrap().material, 3);
}

#[test]
fn bvh_of_two_is_an_ordered_leaf() {
    let bvh = BVH::new(vec![ball(5, 0, 0, 0), ball(-5, 0, 0, 1)], 0, 1).unwrap();
    match bvh.root.as_ref().unwrap() {
        Tree::Pair { first, second, bounds } => {
            assert_eq!((*first, *second), (1, 0));
            assert_eq!(
                *bounds,
                AABB::new(
                    Vec3::new(-6 * UNIT - 1, -UNIT - 1, -UNIT - 1),
                    Vec3::new(6 * UNIT + 1, UNIT + 1, UNIT + 1)
                )
            );
        }
        _ => panic!("two primitives make a pair"),
    }
}

#[test]
fn bvh_splits_at_the_median_along_the_longest_axis() {
    // Five balls spread along y, given out of order.
    let ys = [30, -10, 20, 0, 10];
    let balls: Vec<Sphere> = ys.iter().enumerate().map(|(i, &y)| ball(0, y, 0, i)).collect();
    let bvh = BVH::new(balls, 0, 1).unwrap();
    let root = bvh.root.as_ref().unwrap();
    assert_eq!(bounds(root).longest_axis(), 1);
    match root {
        Tree::Branch { left, right, .. } => {
            let mut l = Vec::new();
            let mut r = Vec::new();
            leaves(left, &mut l);
            leaves(right, &mut r);
            assert_eq!(l, vec![1, 3]);
            assert_eq!(r.len(), 3);
            let mut sorted = r.clone();
            sorted.sort();
            assert_eq!(sorted, vec![0, 2, 4]);
            match &**right {
                Tree::Branch { left, right, .. } => {
                    let mut rl = Vec::new();
                    let mut rr = Vec::new();
                    leaves(left, &mut rl);
                    leaves(right, &mut rr);
                    assert_eq!(rl, vec![4]);
                    assert_eq!(rr, vec![2, 0]);
                }
                _ => panic!("three primitives make a branch"),
            }
        }
        _ => panic!("five primitives make a branch"),
    }
}

#[test]
fn bvh_keeps_the_primitives_in_place() {
    let balls = vec![ball(3, 0, 0, 0), ball(1, 0, 0, 1), ball(2, 0, 0, 2)];
    let bvh = BVH::new(balls.clone(), 0, 1).unwrap();
    assert_eq!(bvh.primitives, balls);
    assert_eq!((bvh.t0, bvh.t1), (0, 1));
}

#[test]
fn bvh_holds_every_primitive_once() {
    let mut rng = Lcg(7);
    let balls: Vec<Sphere> = (0..37)
        .map(|i| ball(rng.between(-50, 50), rng.between(-50, 50), rng.between(-50, 50), i))
        .collect();
    let bvh = BVH::new(balls, 0, 1).unwrap();
    let mut all = Vec::new();
    leaves(bvh.root.as_ref().unwrap(), &mut all);
    all.sort();
    assert_eq!(all, (0..37).collect::<Vec<usize>>());
}

#[test]
fn bvh_box_is_the_union_of_all_boxes() {
    let balls = vec![ball(3, 0, 0, 0), ball(1, 7, 0, 1), ball(2, 0, -4, 2), ball(0, 0, 0, 3)];
    let mut world = World::new();
    for b in balls.iter() {
        world.add(*b);
    }
    let bvh = BVH::new(balls, 0, 1).unwrap();
    assert_eq!(bvh.bounding_box(0, 1), world.bounding_box(0, 1));
}

#[test]
fn bvh_cannot_hold_what_has_no_box() {
    let mut full = World::new();
    full.add(ball(0, 0, 0, 0));
    let empty: World<Sphere> = World::new();
    assert!(BVH::new(vec![full, empty], 0, 1).is_none());
}

#[test]
fn bvh_reports_the_nearest_hit() {
    let bvh =
        BVH::new(vec![ball(0, 0, 5, 0), ball(0, 0, -5, 1), ball(0, 0, 0, 2), ball(9, 9, 9, 3)], 0, 1)
            .unwrap();
    let hit = bvh.hit(&along_z(), 0, FAR).unwrap();
    assert_eq!(hit.material, 1);
    assert_eq!(hit.parameter, t(4));
    assert_eq!(bvh.hit(&along_z(), t(6), FAR).unwrap().material, 2);
    assert!(bvh.hit(&along_z(), t(16), FAR).is_none());
}

fn same_answer(a: Option<HitRecord>, b: Option<HitRecord>) {
    match (a, b) {
        (None, None) => {}
        (Some(x), Some(y)) => assert_eq!(x, y),
        (x, y) => panic!("one hit and one miss: {:?} and {:?}", x, y),
    }
}

#[test]
fn bvh_and_world_agree_on_random_scenes() {
    let mut rng = Lcg(2024);
    for round in 0..40 {
        let count = 1 + (round % 23);
        let mut world = World::new();
        let mut balls = Vec::new();
        for i in 0..count {
            let s = Sphere::new(
                Vec3::new(
                    rng.between(-20_000, 20_000),
                    rng.between(-20_000, 20_000),
                    rng.between(-20_000, 20_000),
                ),
                rng.between(1, 6_000),
                i,
            );
            world.add(s);
            balls.push(s);
        }
        let bvh = BVH::new(balls, 0, 1).unwrap();
        for _ in 0..200 {
            let ray = Ray::new(
                Vec3::new(
                    rng.between(-30_000, 30_000),
                    rng.between(-30_000, 30_000),
                    rng.between(-30_000, 30_000),
                ),
                Vec3::new(
                    rng.between(-1024, 1024),
                    rng.between(-1024, 1024),
                    rng.between(-1024, 1024),
                ),
            );
            let lo = rng.between(0, 2000) as i64;
            let hi = if rng.next() % 2 == 0 { FAR } else { lo + rng.between(0, 60_000) as i64 };
            let in_world = world.hit(&ray, lo, hi);
            let in_bvh = bvh.hit(&ray, lo, hi);
            match (in_world, in_bvh) {
                (Some(w), Some(b)) => {
                    assert_eq!(w.parameter, b.parameter);
                    assert!(lo < w.parameter && w.parameter < hi);
                }
                (None, None) => {}
                (w, b) => panic!("one hit and one miss: {:?} and {:?}", w, b),
            }
        }
    }
}

#[test]
fn bvh_and_world_agree_on_whole_records_without_ties() {
    let balls = vec![
        ball(0, 0, 5, 0),
        ball(0, 0, -5, 1),
        ball(0, 0, 0, 2),
        ball(9, 9, 9, 3),
        ball(-9, 0, 0, 4),
    ];
    let mut world = World::new();
    for b in balls.iter() {
        world.add(*b);
    }
    let bvh = BVH::new(balls, 0, 1).unwrap();
    for lo in [0, t(5), t(8), t(12), t(20)] {
        same_answer(world.hit(&along_z(), lo, FAR), bvh.hit(&along_z(), lo, FAR));
    }
}

/// A sphere that counts how often it is tested.
struct Counted {
    sphere: Sphere,
    tests: Rc<Cell<usize>>,
}

impl Hitable for Counted {
    fn hit(&self, ray: &Ray, position_min: i64, position_max: i64) -> Option<HitRecord> {
        self.tests.set(self.tests.get() + 1);
        self.sphere.hit(ray, position_min, position_max)
    }

    fn bounding_box(&self, t0: i64, t1: i64) -> Option<AABB> {
        self.sphere.bounding_box(t0, t1)
    }

    // The rest of the trait is its specification, which is never run.
    fn wf(&self) -> bool {
        unreachable!()
    }

    fn hit_spec(&self, _: Ray, _: i64, _: i64) -> Option<HitRecord> {
        unreachable!()
    }

    fn bounding_box_spec(&self, _: i64, _: i64) -> Option<AABB> {
        unreachable!()
    }

    fn samples_as_light(&self) -> bool {
        unreachable!()
    }

    fn lemma_hit_inside(&self, _: Ray, _: i64, _: i64) {
        unreachable!()
    }

    fn lemma_hit_narrowed(&self, _: Ray, _: i64, _: i64, _: i64) {
        unreachable!()
    }

    fn lemma_hit_enclosed(&self, _: Ray, _: i64, _: i64, _: i64, _: i64) {
        unreachable!()
    }
}

fn clustered(tests: &Rc<Cell<usize>>) -> Vec<Counted> {
    let mut out = Vec::new();
    let mut material = 0;
    for cluster in [-40, 0, 40] {
        for dx in -2..=2 {
            for dy in -2..=2 {
                out.push(Counted {
                    sphere: Sphere::new(
                        Vec3::new((cluster + dx) * UNIT * 3, dy * UNIT * 3, 0),
                        UNIT,
                        material,
                    ),
                    tests: tests.clone(),
                });
                material += 1;
            }
        }
    }
    out
}

#[test]
fn bvh_tests_fewer_leaves_than_the_world_on_a_clustered_scene() {
    let world_tests = Rc::new(Cell::new(0));
    let bvh_tests = Rc::new(Cell::new(0));
    let mut world = World::new();
    for c in clustered(&world_tests) {
        world.add(c);
    }
    let bvh = BVH::new(clustered(&bvh_tests), 0, 1).unwrap();
    let ray = Ray::new(Vec3::new(0, 0, -10 * UNIT), Vec3::new(0, 0, UNIT));
    let in_world = world.hit(&ray, 0, FAR).unwrap();
    let in_bvh = bvh.hit(&ray, 0, FAR).unwrap();
    assert_eq!(in_world, in_bvh);
    assert_eq!(world_tests.get(), 75);
    assert!(bvh_tests.get() < world_tests.get());
    assert!(bvh_tests.get() >= 1);
}

#[test]
fn bvh_tests_nothing_when_the_root_box_is_missed() {
    let tests = Rc::new(Cell::new(0));
    let bvh = BVH::new(clustered(&tests), 0, 1).unwrap();
    let ray = Ray::new(Vec3::new(0, 100 * UNIT, -10 * UNIT), Vec3::new(0, 0, UNIT));
    assert!(bvh.hit(&ray, 0, FAR).is_none());
    assert_eq!(tests.get(), 0);
}

#[test]
fn equally_near_hits_agree_on_the_parameter_only() {
    // Two overlapping balls, mirrored about the ray: both are hit at the same
    // parameter. The world reports the one added first, the hierarchy the one
    // that comes first along the split axis.
    let balls = vec![
        Sphere::new(Vec3::new(5 * UNIT, 0, 0), 6 * UNIT, 0),
        Sphere::new(Vec3::new(-5 * UNIT, 0, 0), 6 * UNIT, 1),
    ];
    let mut world = World::new();
    for b in balls.iter() {
        world.add(*b);
    }
    let bvh = BVH::new(balls, 0, 1).unwrap();
    let ray = Ray::new(Vec3::new(0, 0, -20 * UNIT), Vec3::new(0, 0, UNIT));
    let in_world = world.hit(&ray, 0, FAR).unwrap();
    let in_bvh = bvh.hit(&ray, 0, FAR).unwrap();
    assert_eq!(in_world.parameter, in_bvh.parameter);
    assert_eq!(in_world.point, in_bvh.point);
    assert_eq!(in_world.material, 0);
    assert_eq!(in_bvh.material, 1);
}
