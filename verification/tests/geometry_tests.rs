use bvh::aabb::AABB;
use bvh::axis::Axis;
use bvh::bounding_hierarchy::IntersectionAABB;
use bvh::sphere::Sphere;
use bvh::vector::Vector3;

fn v(x: i64, y: i64, z: i64) -> Vector3 {
    Vector3::new(x, y, z)
}

#[test]
fn vector_ops_are_componentwise() {
    let a = v(1, 2, 3);
    let b = v(4, -5, 6);
    assert_eq!(a.add(b), v(5, -3, 9));
    assert_eq!(a.sub(b), v(-3, 7, -3));
    assert_eq!(a.dot(b), 1 * 4 + 2 * -5 + 3 * 6);
    assert_eq!(a.cross(b), v(2 * 6 - 3 * -5, 3 * 4 - 1 * 6, 1 * -5 - 2 * 4));
    assert_eq!(a.min(b), v(1, -5, 3));
    assert_eq!(a.max(b), v(4, 2, 6));
}

#[test]
fn aabb_grow_and_join() {
    let empty = AABB::empty();
    let one = empty.grow(&v(1, 2, 3));
    assert_eq!(one.min, v(1, 2, 3));
    assert_eq!(one.max, v(1, 2, 3));
    let two = one.grow(&v(-1, 5, 0));
    assert_eq!(two.min, v(-1, 2, 0));
    assert_eq!(two.max, v(1, 5, 3));
    let other = AABB::with_bounds(v(0, 0, 0), v(10, 1, 1));
    let joined = two.join(&other);
    assert_eq!(joined.min, v(-1, 0, 0));
    assert_eq!(joined.max, v(10, 5, 3));
    assert!(joined.contains(&v(5, 1, 1)));
    assert!(!joined.contains(&v(11, 0, 0)));
}

#[test]
fn aabb_surface_area_and_axis() {
    // A 2 x 3 x 4 box: twice the surface area is 2 (6 + 12 + 8) = 52.
    let bb = AABB::with_bounds(v(0, 0, 0), v(2, 3, 4));
    assert_eq!(bb.surface_area(), 52);
    assert_eq!(bb.largest_axis(), Axis::Z);
    let s = bb.size();
    assert_eq!(s, v(2, 3, 4));
    assert_eq!(bb.center2(), v(2, 3, 4));
}

#[test]
fn aabb_overlap_test() {
    let a = AABB::with_bounds(v(0, 0, 0), v(4, 4, 4));
    let b = AABB::with_bounds(v(4, 4, 4), v(8, 8, 8));
    let c = AABB::with_bounds(v(5, 5, 5), v(8, 8, 8));
    assert!(a.intersects_aabb(&b));
    assert!(!a.intersects_aabb(&c));
}

#[test]
fn sphere_box_test_uses_closest_point() {
    let s = Sphere::new(v(0, 0, 0), 5, 0);
    // Corner at distance sqrt(27) > 5 misses; face at distance 4 hits.
    assert!(!s.intersects_aabb(&AABB::with_bounds(v(3, 3, 3), v(9, 9, 9))));
    assert!(s.intersects_aabb(&AABB::with_bounds(v(4, -1, -1), v(9, 1, 1))));
    // Touching exactly at the radius counts as a hit.
    assert!(s.intersects_aabb(&AABB::with_bounds(v(5, -1, -1), v(9, 1, 1))));
    assert!(!s.intersects_aabb(&AABB::with_bounds(v(6, -1, -1), v(9, 1, 1))));
}
