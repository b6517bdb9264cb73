use bvh::aabb::AABB;
use bvh::bounding_hierarchy::IntersectionAABB;
use bvh::ray::{Intersection, Ray};
use bvh::vector::Vector3;

fn v(x: i64, y: i64, z: i64) -> Vector3 {
    Vector3::new(x, y, z)
}

#[test]
fn ray_hits_axis_aligned_box() {
    // A thin box far down the x axis, pierced by the x axis itself.
    let ray = Ray::new(v(0, 0, 0), v(1, 0, 0));
    let aabb = AABB::with_bounds(v(999, -10, -10), v(1001, 10, 10));
    assert!(ray.intersects_aabb(&aabb));
    assert!(ray.intersects_aabb_naive(&aabb));
    assert!(ray.intersects_aabb_branchless(&aabb));
}

#[test]
fn ray_misses_box_behind_origin() {
    let ray = Ray::new(v(0, 0, 0), v(1, 0, 0));
    let aabb = AABB::with_bounds(v(-1001, -10, -10), v(-999, 10, 10));
    assert!(!ray.intersects_aabb(&aabb));
    assert!(!ray.intersects_aabb_naive(&aabb));
    assert!(!ray.intersects_aabb_branchless(&aabb));
}

#[test]
fn ray_misses_box_off_axis() {
    let ray = Ray::new(v(0, 0, 0), v(1, 0, 0));
    let aabb = AABB::with_bounds(v(999, 20, -10), v(1001, 40, 10));
    assert!(!ray.intersects_aabb(&aabb));
    assert!(!ray.intersects_aabb_naive(&aabb));
    assert!(!ray.intersects_aabb_branchless(&aabb));
}

#[test]
fn ray_diagonal_hits_cube() {
    let ray = Ray::new(v(0, 0, 0), v(1, 1, 1));
    let aabb = AABB::with_bounds(v(50, 50, 50), v(60, 60, 60));
    assert!(ray.intersects_aabb(&aabb));
    assert!(ray.intersects_aabb_naive(&aabb));
    assert!(ray.intersects_aabb_branchless(&aabb));
}

#[test]
fn three_algorithms_agree_away_from_grazing() {
    // A deterministic sweep of rays and boxes, none in grazing contact:
    // the three algorithms must answer identically.
    let mut checked = 0u32;
    for ox in [-7i64, 0, 13] {
        for dy in [-3i64, 1, 5] {
            for bx in [-20i64, 4, 17] {
                let ray = Ray::new(v(ox, -2, 1), v(2, dy, 1));
                let aabb = AABB::with_bounds(v(bx, -9, -11), v(bx + 7, 10, 12));
                let a = ray.intersects_aabb(&aabb);
                let b = ray.intersects_aabb_naive(&aabb);
                let c = ray.intersects_aabb_branchless(&aabb);
                assert_eq!(a, b);
                assert_eq!(a, c);
                checked += 1;
            }
        }
    }
    assert_eq!(checked, 27);
}

#[test]
fn grazing_contact_separates_the_variants() {
    // A box of zero width along x: entry and exit coincide, which the
    // strict variant rejects and the other two accept.
    let ray = Ray::new(v(0, 0, 0), v(1, 0, 0));
    let aabb = AABB::with_bounds(v(5, -1, -1), v(5, 1, 1));
    assert!(ray.intersects_aabb(&aabb));
    assert!(!ray.intersects_aabb_naive(&aabb));
    assert!(ray.intersects_aabb_branchless(&aabb));
}

#[test]
fn triangle_hit_straight_on() {
    // A triangle in the plane x = 5 seen from the origin along +x: the
    // exact hit distance is 20/4 = 5.
    let ray = Ray::new(v(0, 0, 0), v(1, 0, 0));
    let i = ray.intersects_triangle(&v(5, -1, -1), &v(5, -1, 1), &v(5, 1, 0));
    assert!(i.hit);
    assert_eq!(i.det, 4);
    assert_eq!(i.distance_num, 20);
    assert_eq!(i.u_num, 1);
    assert_eq!(i.v_num, 2);
    assert!(!i.back_face);
}

#[test]
fn triangle_degenerate_misses() {
    let ray = Ray::new(v(0, 0, 0), v(1, 0, 0));
    let p = v(5, 1, 1);
    let i = ray.intersects_triangle(&p, &p, &p);
    assert!(!i.hit);
}

#[test]
fn triangle_back_face_is_culled() {
    // The same triangle with its winding reversed faces away from the ray.
    let ray = Ray::new(v(0, 0, 0), v(1, 0, 0));
    let front = ray.intersects_triangle(&v(5, -1, -1), &v(5, -1, 1), &v(5, 1, 0));
    let back = ray.intersects_triangle(&v(5, -1, 1), &v(5, -1, -1), &v(5, 1, 0));
    assert!(front.hit);
    assert!(!back.hit);
}

#[test]
fn ray_at_walks_the_direction() {
    let ray = Ray::new(v(1, 2, 3), v(2, 0, -1));
    let p = ray.at(4);
    assert_eq!(p, Vector3::new(9, 2, -1));
}

#[test]
fn face_normal_flips_toward_the_ray() {
    let ray = Ray::new(v(0, 0, 0), v(1, 0, 0));
    let (n, back) = ray.face_normal(Vector3::new(1, 0, 0));
    assert!(back);
    assert_eq!(n, Vector3::new(-1, 0, 0));
    let (n2, back2) = ray.face_normal(Vector3::new(-1, 0, 0));
    assert!(!back2);
    assert_eq!(n2, Vector3::new(-1, 0, 0));
}

#[test]
fn distance_variant_reports_exact_squared_length() {
    // Entering the cube at (50, 50, 50) with unit direction components:
    // the squared entry-distance vector is 3 * 50^2 over 1.
    let ray = Ray::new(v(0, 0, 0), v(1, 1, 1));
    let aabb = AABB::with_bounds(v(50, 50, 50), v(60, 60, 60));
    assert_eq!(ray.intersects_aabb_dist(&aabb), Some((7500, 1)));
    let behind = AABB::with_bounds(v(-60, -60, -60), v(-50, -50, -50));
    assert_eq!(ray.intersects_aabb_dist(&behind), None);
}

#[test]
fn intersection_new_keeps_fields() {
    let i = Intersection::new(true, 7, 1, 2, 4, Vector3::new(0, 0, 1), false);
    assert!(i.hit);
    assert_eq!(i.distance_num, 7);
    assert_eq!(i.u_num, 1);
    assert_eq!(i.v_num, 2);
    assert_eq!(i.det, 4);
    assert!(!i.back_face);
}
