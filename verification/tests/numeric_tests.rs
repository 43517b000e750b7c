use pathtracer::fixed::{div_ceil, div_floor, sqrt_floor, COORD_LIMIT, ONE};
use pathtracer::ray::Ray;
use pathtracer::vec3::Vec3;

#[test]
fn division_rounds_towards_the_floor() {
    assert_eq!(div_floor(7, 2), 3);
    assert_eq!(div_floor(-7, 2), -4);
    assert_eq!(div_floor(-8, 2), -4);
    assert_eq!(div_floor(0, 5), 0);
    assert_eq!(div_floor(-1, 1024), -1);
    assert_eq!(div_floor(i128::MIN, 1), i128::MIN);
}

#[test]
fn division_rounds_towards_the_ceiling() {
    assert_eq!(div_ceil(7, 2), 4);
    assert_eq!(div_ceil(-7, 2), -3);
    assert_eq!(div_ceil(8, 2), 4);
    assert_eq!(div_ceil(1, 1024), 1);
    assert_eq!(div_ceil(0, 3), 0);
}

#[test]
fn square_root_rounds_down() {
    assert_eq!(sqrt_floor(0), 0);
    assert_eq!(sqrt_floor(1), 1);
    assert_eq!(sqrt_floor(15), 3);
    assert_eq!(sqrt_floor(16), 4);
    assert_eq!(sqrt_floor(17), 4);
    assert_eq!(sqrt_floor(1 << 60), 1 << 30);
    assert_eq!(sqrt_floor(u128::MAX), (1u128 << 64) - 1);
}

#[test]
fn point_at_parameter_follows_the_ray() {
    let ray = Ray::new(Vec3::new(1, 2, 3), Vec3::new(10, -20, 0));
    assert_eq!(ray.point_at_parameter(0), Vec3::new(1, 2, 3));
    assert_eq!(ray.point_at_parameter(ONE as i64), Vec3::new(11, -18, 3));
    assert_eq!(ray.point_at_parameter(2 * ONE as i64), Vec3::new(21, -38, 3));
    assert_eq!(ray.point_at_parameter(-(ONE as i64)), Vec3::new(-9, 22, 3));
}

#[test]
fn point_at_parameter_rounds_down() {
    let ray = Ray::new(Vec3::new(0, 0, 0), Vec3::new(1, -1, 3));
    // At half a unit the exact point is (0.5, -0.5, 1.5).
    assert_eq!(ray.point_at_parameter(ONE as i64 / 2), Vec3::new(0, -1, 1));
}

#[test]
fn point_at_parameter_stays_within_the_limit() {
    let ray = Ray::new(Vec3::new(0, 0, 0), Vec3::new(1000, -1000, 0));
    let far = ray.point_at_parameter(i64::MAX);
    assert_eq!(far, Vec3::new(COORD_LIMIT, -COORD_LIMIT, 0));
    assert!(far.is_in_range());
}

#[test]
fn ray_constructors_keep_their_arguments() {
    let ray = Ray::new(Vec3::new(1, 2, 3), Vec3::new(4, 5, 6));
    assert_eq!(ray.origin, Vec3::new(1, 2, 3));
    assert_eq!(ray.direction, Vec3::new(4, 5, 6));
    assert_eq!(ray.time, 0);
    assert_eq!(Ray::at_time(Vec3::zeros(), Vec3::new(0, 0, 1), 7).time, 7);
}

#[test]
fn ray_outside_the_limit_is_not_well_formed() {
    assert!(Ray::new(Vec3::new(COORD_LIMIT, 0, 0), Vec3::new(0, -COORD_LIMIT, 0)).is_wf());
    assert!(!Ray::new(Vec3::new(COORD_LIMIT + 1, 0, 0), Vec3::new(0, 1, 0)).is_wf());
    assert!(!Ray::new(Vec3::new(0, 0, 0), Vec3::new(0, 0, -COORD_LIMIT - 1)).is_wf());
}

#[test]
fn vector_components_and_range() {
    let v = Vec3::new(1, -2, 3);
    assert_eq!(v.component(0), 1);
    assert_eq!(v.component(1), -2);
    assert_eq!(v.component(2), 3);
    assert_eq!(Vec3::zeros(), Vec3::new(0, 0, 0));
}

#[test]
fn vector_sum_saturates() {
    let a = Vec3::new(1, i32::MAX, i32::MIN);
    let b = Vec3::new(2, 1, -1);
    assert_eq!(a.plus(&b), Vec3::new(3, i32::MAX, i32::MIN));
}

#[test]
fn vector_product_of_fractions() {
    let half = Vec3::new(ONE / 2, ONE / 2, ONE / 2);
    let colour = Vec3::new(ONE, 3 * ONE, 1);
    assert_eq!(half.component_mul(&colour), Vec3::new(ONE / 2, 3 * ONE / 2, 0));
    let minus = Vec3::new(-1, -ONE, 0);
    assert_eq!(half.component_mul(&minus), Vec3::new(-1, -ONE / 2, 0));
    let huge = Vec3::new(i32::MAX, i32::MIN, i32::MAX);
    assert_eq!(huge.component_mul(&huge), Vec3::new(i32::MAX, i32::MAX, i32::MAX));
}

#[test]
fn vector_negation_saturates() {
    assert_eq!(Vec3::new(1, -2, 0).negated(), Vec3::new(-1, 2, 0));
    assert_eq!(Vec3::new(i32::MIN, i32::MAX, 0).negated(), Vec3::new(i32::MAX, -i32::MAX, 0));
}
