use pathtracer::aabb::AABB;
use pathtracer::fixed::{COORD_LIMIT, FAR, ONE};
use pathtracer::hitable::{FlipNormals, HitRecord, Hitable};
use pathtracer::ray::Ray;
use pathtracer::sphere::{MovingSphere, Sphere};
use pathtracer::vec3::Vec3;

const UNIT: i32 = 1024;

fn t(whole: i64) -> i64 {
    whole * ONE as i64
}

fn unit_sphere() -> Sphere {
    Sphere::new(Vec3::new(0, 0, 0), UNIT, 7)
}

fn along_z_from(z: i32) -> Ray {
    Ray::new(Vec3::new(0, 0, z), Vec3::new(0, 0, UNIT))
}

#[test]
fn sphere_new_keeps_its_arguments() {
    let s = Sphere::new(Vec3::new(1, 2, 3), 4, 5);
    assert_eq!(s.center, Vec3::new(1, 2, 3));
    assert_eq!(s.radius, 4);
    assert_eq!(s.material, 5);
}

#[test]
fn ray_through_center_reports_nearer_root() {
    let hit = unit_sphere().hit(&along_z_from(-5 * UNIT), 0, FAR).unwrap();
    assert_eq!(
        hit,
        HitRecord::new(
            t(4),
            0,
            0,
            Vec3::new(0, 0, -UNIT),
            Vec3::new(0, 0, -ONE),
            Vec3::new(0, 0, -ONE),
            7
        )
    );
}

#[test]
fn ray_through_center_has_symmetric_roots() {
    let ray = along_z_from(-5 * UNIT);
    let near = unit_sphere().hit(&ray, 0, FAR).unwrap().parameter;
    let far = unit_sphere().hit(&ray, near, FAR).unwrap().parameter;
    assert_eq!(near, t(4));
    assert_eq!(far, t(6));
    assert_eq!(near + far, 2 * t(5));
}

#[test]
fn root_outside_the_interval_is_not_reported() {
    let ray = along_z_from(-5 * UNIT);
    assert!(unit_sphere().hit(&ray, 0, t(4)).is_none());
    assert!(unit_sphere().hit(&ray, t(6), FAR).is_none());
    assert_eq!(unit_sphere().hit(&ray, t(4), t(6) + 1).unwrap().parameter, t(6));
    assert!(unit_sphere().hit(&ray, t(4), t(6)).is_none());
}

#[test]
fn ray_from_inside_reports_the_exit() {
    let hit = unit_sphere().hit(&along_z_from(0), 0, FAR).unwrap();
    assert_eq!(hit.parameter, t(1));
    assert_eq!(hit.point, Vec3::new(0, 0, UNIT));
    assert_eq!(hit.geometric_normal, Vec3::new(0, 0, ONE));
}

#[test]
fn sphere_behind_the_origin_is_not_hit() {
    assert!(unit_sphere().hit(&along_z_from(5 * UNIT), -FAR, FAR).is_none());
}

#[test]
fn ray_past_the_sphere_misses() {
    let ray = Ray::new(Vec3::new(2 * UNIT, 0, -5 * UNIT), Vec3::new(0, 0, UNIT));
    assert!(unit_sphere().hit(&ray, 0, FAR).is_none());
}

#[test]
fn tangent_ray_touches_once() {
    let ray = Ray::new(Vec3::new(UNIT, 0, -5 * UNIT), Vec3::new(0, 0, UNIT));
    let hit = unit_sphere().hit(&ray, 0, FAR).unwrap();
    assert_eq!(hit.parameter, t(5));
    assert_eq!(hit.point, Vec3::new(UNIT, 0, 0));
    assert_eq!(hit.geometric_normal, Vec3::new(ONE, 0, 0));
    assert!(unit_sphere().hit(&ray, t(5), FAR).is_none());
}

#[test]
fn ray_without_direction_misses() {
    let ray = Ray::new(Vec3::new(0, 0, 0), Vec3::new(0, 0, 0));
    assert!(unit_sphere().hit(&ray, 0, FAR).is_none());
}

#[test]
fn roots_are_rounded_into_the_ball() {
    // The ball of radius 3 round the origin is entered at 7 and left at 13
    // lattice units along a ray of direction length 3: at parameters 7/3
    // and 13/3, which lie between two representable parameters each.
    let s = Sphere::new(Vec3::new(0, 0, 0), 3, 0);
    let ray = Ray::new(Vec3::new(0, 0, -10), Vec3::new(0, 0, 3));
    let near = s.hit(&ray, 0, FAR).unwrap();
    assert_eq!(near.parameter, 2390);
    let far = s.hit(&ray, near.parameter, FAR).unwrap();
    assert_eq!(far.parameter, 4437);
    assert_eq!(near.point, Vec3::new(0, 0, -3));
    assert_eq!(far.point, Vec3::new(0, 0, 2));
}

#[test]
fn negative_radius_turns_the_normal_inwards() {
    let s = Sphere::new(Vec3::new(0, 0, 0), -UNIT, 1);
    let hit = s.hit(&along_z_from(-5 * UNIT), 0, FAR).unwrap();
    assert_eq!(hit.parameter, t(4));
    assert_eq!(hit.geometric_normal, Vec3::new(0, 0, ONE));
}

#[test]
fn off_axis_hit_has_a_slanted_normal() {
    let s = Sphere::new(Vec3::new(0, 0, 0), 5 * UNIT, 0);
    let ray = Ray::new(Vec3::new(3 * UNIT, 0, -10 * UNIT), Vec3::new(0, 0, UNIT));
    let hit = s.hit(&ray, 0, FAR).unwrap();
    assert_eq!(hit.parameter, t(6));
    assert_eq!(hit.point, Vec3::new(3 * UNIT, 0, -4 * UNIT));
    assert_eq!(hit.geometric_normal, Vec3::new(614, 0, -820));
}

#[test]
fn sphere_box_reaches_one_unit_beyond_the_radius() {
    let s = Sphere::new(Vec3::new(10, 20, 30), 5, 0);
    assert_eq!(
        s.bounding_box(0, 1),
        Some(AABB::new(Vec3::new(4, 14, 24), Vec3::new(16, 26, 36)))
    );
    let hollow = Sphere::new(Vec3::new(10, 20, 30), -5, 0);
    assert_eq!(hollow.bounding_box(0, 1), s.bounding_box(0, 1));
}

#[test]
fn sphere_well_formedness() {
    assert!(unit_sphere().is_wf());
    assert!(!Sphere::new(Vec3::new(0, 0, 0), 0, 0).is_wf());
    assert!(!Sphere::new(Vec3::new(COORD_LIMIT + 1, 0, 0), 1, 0).is_wf());
    assert!(!Sphere::new(Vec3::new(0, 0, 0), COORD_LIMIT + 1, 0).is_wf());
    assert!(Sphere::new(Vec3::new(COORD_LIMIT, -COORD_LIMIT, 0), -COORD_LIMIT, 0).is_wf());
}

#[test]
fn extreme_coordinates_do_not_overflow() {
    let s = Sphere::new(Vec3::new(COORD_LIMIT, COORD_LIMIT, COORD_LIMIT), COORD_LIMIT, 0);
    let ray = Ray::new(
        Vec3::new(-COORD_LIMIT, -COORD_LIMIT, -COORD_LIMIT),
        Vec3::new(COORD_LIMIT, COORD_LIMIT, COORD_LIMIT),
    );
    let hit = s.hit(&ray, 0, FAR).unwrap();
    // The centre lies at parameter 2; the surface is met 1 / sqrt(3) before.
    assert_eq!(hit.parameter, 1457);
}

#[test]
fn sphere_is_not_sampled_as_a_light() {
    let mut rng = rand::thread_rng();
    assert_eq!(unit_sphere().pdf_value(Vec3::zeros(), Vec3::new(0, 0, 1)), 0);
    assert_eq!(unit_sphere().pdf_random(Vec3::zeros(), &mut rng), Vec3::new(ONE, 0, 0));
}

#[test]
fn flip_normals_negates_both_normals() {
    let plain = unit_sphere().hit(&along_z_from(-5 * UNIT), 0, FAR).unwrap();
    let flipped = FlipNormals::of(unit_sphere()).hit(&along_z_from(-5 * UNIT), 0, FAR).unwrap();
    assert_eq!(flipped.parameter, plain.parameter);
    assert_eq!(flipped.point, plain.point);
    assert_eq!(flipped.material, plain.material);
    assert_eq!(flipped.geometric_normal, Vec3::new(0, 0, ONE));
    assert_eq!(flipped.shading_normal, Vec3::new(0, 0, ONE));
}

#[test]
fn flip_normals_keeps_misses_and_the_box() {
    let flip = FlipNormals::of(unit_sphere());
    assert!(flip.hit(&along_z_from(5 * UNIT), 0, FAR).is_none());
    assert_eq!(flip.bounding_box(0, 1), unit_sphere().bounding_box(0, 1));
}

#[test]
fn moving_sphere_is_met_where_it_is() {
    let s = MovingSphere::new(Vec3::new(0, 0, 0), Vec3::new(4 * UNIT, 0, 0), UNIT, 2, 0, 100);
    let at = |time: i64, x: i32| {
        s.hit(&Ray::at_time(Vec3::new(x, 0, -5 * UNIT), Vec3::new(0, 0, UNIT), time), 0, FAR)
    };
    assert_eq!(at(0, 0).unwrap().parameter, t(4));
    assert!(at(0, 4 * UNIT).is_none());
    assert_eq!(at(100, 4 * UNIT).unwrap().parameter, t(4));
    assert!(at(100, 0).is_none());
    assert_eq!(at(50, 2 * UNIT).unwrap().parameter, t(4));
    assert_eq!(at(-10, 0).unwrap().parameter, t(4));
    assert_eq!(at(1000, 4 * UNIT).unwrap().parameter, t(4));
}

#[test]
fn moving_sphere_box_spans_the_glide() {
    let s = MovingSphere::new(Vec3::new(0, 0, 0), Vec3::new(40, -10, 0), 5, 2, 0, 100);
    assert_eq!(
        s.bounding_box(0, 100),
        Some(AABB::new(Vec3::new(-6, -16, -6), Vec3::new(46, 6, 6)))
    );
    assert!(s.is_wf());
}
