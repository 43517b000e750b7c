use pathtracer::aabb::{surrounding_box, AABB};
use pathtracer::fixed::{FAR, ONE};
use pathtracer::ray::Ray;
use pathtracer::vec3::Vec3;

fn unit_box() -> AABB {
    AABB::new(Vec3::new(-1, -1, -1), Vec3::new(1, 1, 1))
}

fn t(whole: i64) -> i64 {
    whole * ONE as i64
}

#[test]
fn slab_test_hits_box_ahead() {
    let ray = Ray::new(Vec3::new(0, 0, -5), Vec3::new(0, 0, 1));
    assert!(unit_box().hit(&ray, 0, t(1_000_000_000)));
}

#[test]
fn slab_test_enters_at_four_and_leaves_at_six() {
    let ray = Ray::new(Vec3::new(0, 0, -5), Vec3::new(0, 0, 1));
    assert!(!unit_box().hit(&ray, 0, t(4)));
    assert!(unit_box().hit(&ray, 0, t(4) + 1));
    assert!(unit_box().hit(&ray, t(4), t(4) + 1));
    assert!(unit_box().hit(&ray, t(6) - 1, FAR));
    assert!(!unit_box().hit(&ray, t(6), FAR));
}

#[test]
fn slab_test_misses_box_behind() {
    let ray = Ray::new(Vec3::new(0, 0, -5), Vec3::new(0, 0, -1));
    assert!(!unit_box().hit(&ray, 0, t(1_000_000_000)));
}

#[test]
fn slab_test_parallel_ray_outside_slab_misses() {
    let ray = Ray::new(Vec3::new(2, 0, -5), Vec3::new(0, 0, 1));
    assert!(!unit_box().hit(&ray, 0, FAR));
}

#[test]
fn slab_test_parallel_ray_on_face_misses() {
    let ray = Ray::new(Vec3::new(1, 0, -5), Vec3::new(0, 0, 1));
    assert!(!unit_box().hit(&ray, 0, FAR));
}

#[test]
fn slab_test_ray_without_direction() {
    let inside = Ray::new(Vec3::new(0, 0, 0), Vec3::new(0, 0, 0));
    let outside = Ray::new(Vec3::new(0, 3, 0), Vec3::new(0, 0, 0));
    assert!(unit_box().hit(&inside, 0, 1));
    assert!(!unit_box().hit(&inside, 0, 0));
    assert!(!unit_box().hit(&outside, 0, FAR));
}

#[test]
fn slab_test_flat_box_is_never_entered() {
    let flat = AABB::new(Vec3::new(-1, -1, 0), Vec3::new(1, 1, 0));
    let ray = Ray::new(Vec3::new(0, 0, -5), Vec3::new(0, 0, 1));
    assert!(!flat.hit(&ray, 0, FAR));
}

#[test]
fn slab_test_diagonal_ray() {
    let b = AABB::new(Vec3::new(10, 10, 10), Vec3::new(20, 20, 20));
    let through = Ray::new(Vec3::new(0, 0, 0), Vec3::new(1, 1, 1));
    let past = Ray::new(Vec3::new(0, 0, 0), Vec3::new(1, 3, 1));
    assert!(b.hit(&through, 0, FAR));
    assert!(!b.hit(&through, 0, t(10)));
    assert!(!b.hit(&past, 0, FAR));
}

#[test]
fn slab_test_running_interval_across_axes() {
    // The x slab is crossed for t in (1, 2), the y slab for t in (3, 4):
    // each alone overlaps the interval, together they do not.
    let b = AABB::new(Vec3::new(1, 3, -1), Vec3::new(2, 4, 1));
    let ray = Ray::new(Vec3::new(0, 0, 0), Vec3::new(1, 1, 0));
    assert!(!b.hit(&ray, 0, t(10)));
}

#[test]
fn surrounding_box_takes_extremes() {
    let a = AABB::new(Vec3::new(-3, 0, 2), Vec3::new(1, 5, 4));
    let b = AABB::new(Vec3::new(-1, -2, 3), Vec3::new(7, 1, 9));
    let u = surrounding_box(&a, &b);
    assert_eq!(u, AABB::new(Vec3::new(-3, -2, 2), Vec3::new(7, 5, 9)));
}

#[test]
fn surrounding_box_is_commutative_and_associative() {
    let a = AABB::new(Vec3::new(-3, 0, 2), Vec3::new(1, 5, 4));
    let b = AABB::new(Vec3::new(-1, -2, 3), Vec3::new(7, 1, 9));
    let c = AABB::new(Vec3::new(4, 4, -8), Vec3::new(5, 6, -7));
    assert_eq!(surrounding_box(&a, &b), surrounding_box(&b, &a));
    assert_eq!(
        surrounding_box(&surrounding_box(&a, &b), &c),
        surrounding_box(&a, &surrounding_box(&b, &c))
    );
}

#[test]
fn surrounding_box_fold_ignores_order() {
    let boxes = vec![
        AABB::new(Vec3::new(-3, 0, 2), Vec3::new(1, 5, 4)),
        AABB::new(Vec3::new(-1, -2, 3), Vec3::new(7, 1, 9)),
        AABB::new(Vec3::new(4, 4, -8), Vec3::new(5, 6, -7)),
        AABB::new(Vec3::new(0, 0, 0), Vec3::new(0, 0, 0)),
    ];
    let orders: [[usize; 4]; 4] = [[0, 1, 2, 3], [3, 2, 1, 0], [1, 3, 0, 2], [2, 0, 3, 1]];
    let expected = AABB::new(Vec3::new(-3, -2, -8), Vec3::new(7, 6, 9));
    for order in orders.iter() {
        let mut acc = boxes[order[0]];
        for k in 1..4 {
            acc = surrounding_box(&acc, &boxes[order[k]]);
        }
        assert_eq!(acc, expected);
    }
}

#[test]
fn longest_axis_prefers_the_earlier_axis() {
    assert_eq!(AABB::new(Vec3::new(0, 0, 0), Vec3::new(5, 5, 5)).longest_axis(), 0);
    assert_eq!(AABB::new(Vec3::new(0, 0, 0), Vec3::new(4, 5, 5)).longest_axis(), 1);
    assert_eq!(AABB::new(Vec3::new(0, 0, 0), Vec3::new(4, 5, 6)).longest_axis(), 2);
}
