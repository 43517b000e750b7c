use pathtracer::aabb::AABB;
use pathtracer::fixed::{COORD_LIMIT, FAR, ONE};
use pathtracer::hitable::{FlipNormals, HitRecord, Hitable};
use pathtracer::plane::{Axis, Plane};
use pathtracer::ray::Ray;
use pathtracer::vec3::Vec3;

fn t(whole: i64) -> i64 {
    whole * ONE as i64
}

fn floor() -> Plane {
    // The square from (0, 0) to (100, 200) in the plane z = 50.
    Plane::new(Axis::XY, 0, 100, 0, 200, 50, 4)
}

#[test]
fn plane_new_keeps_its_arguments() {
    let p = Plane::new(Axis::YZ, 1, 2, 3, 4, 5, 6);
    assert_eq!(p.axis, Axis::YZ);
    assert_eq!((p.a0, p.a1, p.b0, p.b1, p.k, p.material), (1, 2, 3, 4, 5, 6));
}

#[test]
fn ray_straight_at_the_rectangle() {
    let ray = Ray::new(Vec3::new(25, 50, 0), Vec3::new(0, 0, 10));
    let hit = floor().hit(&ray, 0, FAR).unwrap();
    assert_eq!(
        hit,
        HitRecord::new(
            t(5),
            ONE / 4,
            ONE / 4,
            Vec3::new(25, 50, 50),
            Vec3::new(0, 0, ONE),
            Vec3::new(0, 0, ONE),
            4
        )
    );
}

#[test]
fn ray_from_the_other_side() {
    let ray = Ray::new(Vec3::new(25, 50, 100), Vec3::new(0, 0, -10));
    let hit = floor().hit(&ray, 0, FAR).unwrap();
    assert_eq!(hit.parameter, t(5));
    assert_eq!(hit.point, Vec3::new(25, 50, 50));
    assert_eq!(hit.geometric_normal, Vec3::new(0, 0, ONE));
}

#[test]
fn slanted_ray_is_rounded_down() {
    // Crosses z = 50 at parameter 50 / 3, at x = 50 / 3 and y = 100 / 3.
    let ray = Ray::new(Vec3::new(0, 0, 0), Vec3::new(1, 2, 3));
    let hit = floor().hit(&ray, 0, FAR).unwrap();
    assert_eq!(hit.parameter, 17066);
    assert_eq!(hit.point, Vec3::new(16, 33, 50));
    assert_eq!(hit.u, 163);
    assert_eq!(hit.v, 168);
}

#[test]
fn edges_belong_to_the_rectangle() {
    for (x, y) in [(0, 0), (100, 0), (0, 200), (100, 200)] {
        let ray = Ray::new(Vec3::new(x, y, 0), Vec3::new(0, 0, 1));
        assert!(floor().hit(&ray, 0, FAR).is_some());
    }
    for (x, y) in [(-1, 0), (101, 0), (0, 201), (50, -1)] {
        let ray = Ray::new(Vec3::new(x, y, 0), Vec3::new(0, 0, 1));
        assert!(floor().hit(&ray, 0, FAR).is_none());
    }
}

#[test]
fn parallel_ray_misses() {
    let ray = Ray::new(Vec3::new(25, 50, 50), Vec3::new(1, 1, 0));
    assert!(floor().hit(&ray, -FAR, FAR).is_none());
}

#[test]
fn plane_respects_the_interval() {
    let ray = Ray::new(Vec3::new(25, 50, 0), Vec3::new(0, 0, 10));
    assert!(floor().hit(&ray, 0, t(5)).is_none());
    assert!(floor().hit(&ray, t(5), FAR).is_none());
    assert!(floor().hit(&ray, t(5) - 1, t(5) + 1).is_some());
    let away = Ray::new(Vec3::new(25, 50, 0), Vec3::new(0, 0, -10));
    assert!(floor().hit(&away, 0, FAR).is_none());
    assert!(floor().hit(&away, -FAR, FAR).is_none());
}

#[test]
fn the_three_orientations() {
    let yz = Plane::new(Axis::YZ, 0, 10, 0, 20, 5, 0);
    let hit = yz.hit(&Ray::new(Vec3::new(0, 5, 10), Vec3::new(1, 0, 0)), 0, FAR).unwrap();
    assert_eq!(hit.point, Vec3::new(5, 5, 10));
    assert_eq!(hit.geometric_normal, Vec3::new(ONE, 0, 0));
    assert_eq!((hit.u, hit.v), (ONE / 2, ONE / 2));
    let xz = Plane::new(Axis::XZ, 0, 10, 0, 20, 5, 0);
    let hit = xz.hit(&Ray::new(Vec3::new(5, 0, 10), Vec3::new(0, 1, 0)), 0, FAR).unwrap();
    assert_eq!(hit.point, Vec3::new(5, 5, 10));
    assert_eq!(hit.geometric_normal, Vec3::new(0, ONE, 0));
    assert_eq!((hit.u, hit.v), (ONE / 2, ONE / 2));
}

#[test]
fn plane_box_is_one_unit_wider() {
    assert_eq!(
        floor().bounding_box(0, 1),
        Some(AABB::new(Vec3::new(-1, -1, 49), Vec3::new(101, 201, 51)))
    );
    assert_eq!(
        Plane::new(Axis::YZ, 0, 10, 0, 20, 5, 0).bounding_box(0, 1),
        Some(AABB::new(Vec3::new(4, -1, -1), Vec3::new(6, 11, 21)))
    );
    assert_eq!(
        Plane::new(Axis::XZ, 0, 10, 0, 20, 5, 0).bounding_box(0, 1),
        Some(AABB::new(Vec3::new(-1, 4, -1), Vec3::new(11, 6, 21)))
    );
}

#[test]
fn plane_well_formedness() {
    assert!(floor().is_wf());
    assert!(!Plane::new(Axis::XY, 0, 0, 0, 1, 0, 0).is_wf());
    assert!(!Plane::new(Axis::XY, 0, 1, 1, 0, 0, 0).is_wf());
    assert!(!Plane::new(Axis::XY, 0, COORD_LIMIT + 1, 0, 1, 0, 0).is_wf());
    assert!(!Plane::new(Axis::XY, 0, 1, 0, 1, -COORD_LIMIT - 1, 0).is_wf());
    assert!(Plane::new(Axis::XY, -COORD_LIMIT, COORD_LIMIT, -COORD_LIMIT, COORD_LIMIT, 0, 0).is_wf());
}

#[test]
fn extreme_plane_does_not_overflow() {
    let p = Plane::new(Axis::XY, -COORD_LIMIT, COORD_LIMIT, -COORD_LIMIT, COORD_LIMIT, COORD_LIMIT, 0);
    let ray = Ray::new(
        Vec3::new(-COORD_LIMIT, -COORD_LIMIT, -COORD_LIMIT),
        Vec3::new(COORD_LIMIT, COORD_LIMIT, COORD_LIMIT),
    );
    let hit = p.hit(&ray, 0, FAR).unwrap();
    assert_eq!(hit.parameter, t(2));
    assert_eq!(hit.point, Vec3::new(COORD_LIMIT, COORD_LIMIT, COORD_LIMIT));
    assert_eq!((hit.u, hit.v), (ONE, ONE));
}

#[test]
fn flipped_plane_faces_the_other_way() {
    let ray = Ray::new(Vec3::new(25, 50, 0), Vec3::new(0, 0, 10));
    let hit = FlipNormals::of(floor()).hit(&ray, 0, FAR).unwrap();
    assert_eq!(hit.geometric_normal, Vec3::new(0, 0, -ONE));
    assert_eq!(hit.shading_normal, Vec3::new(0, 0, -ONE));
    assert_eq!(hit.point, Vec3::new(25, 50, 50));
}

#[test]
fn a_ray_that_hits_the_plane_meets_its_box() {
    let rays = [
        Ray::new(Vec3::new(25, 50, 0), Vec3::new(0, 0, 10)),
        Ray::new(Vec3::new(0, 0, 0), Vec3::new(1, 2, 3)),
        Ray::new(Vec3::new(0, 0, 0), Vec3::new(0, 0, 1)),
        Ray::new(Vec3::new(100, 200, 51), Vec3::new(0, 0, -1000)),
    ];
    for ray in rays.iter() {
        let hit = floor().hit(ray, 0, FAR).unwrap();
        let b = floor().bounding_box(0, 1).unwrap();
        assert!(b.hit(ray, 0, FAR));
        assert!(b.hit(ray, hit.parameter - 1, hit.parameter + 1));
    }
}
