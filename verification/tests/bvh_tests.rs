use bvh::aabb::{AABB, Bounded};
use bvh::bounding_hierarchy::{BHShape, IntersectionAABB};
use bvh::bvh::BVH;
use bvh::flat_bvh::traverse_flat;
use bvh::ray::Ray;
use bvh::sphere::Sphere;
use bvh::vector::Vector3;
use bvh::Triangle;

fn v(x: i64, y: i64, z: i64) -> Vector3 {
    Vector3::new(x, y, z)
}

/// The linear-scan answer the tree must reproduce.
fn brute_force<Q: IntersectionAABB, T: Bounded>(query: &Q, shapes: &[T]) -> Vec<usize> {
    let mut out = Vec::new();
    for (i, s) in shapes.iter().enumerate() {
        if query.intersects_aabb(&s.aabb()) {
            out.push(i);
        }
    }
    out
}

fn sorted(mut x: Vec<usize>) -> Vec<usize> {
    x.sort();
    x.dedup();
    x
}

fn diagonal_spheres(n: i64) -> Vec<Sphere> {
    let mut shapes = Vec::new();
    for i in 0..n {
        shapes.push(Sphere::new(v(i, i, i), (i % 10) + 1, 0));
    }
    shapes
}

#[test]
fn single_shape_hit() {
    // One box-shaped primitive far down the x axis; the x axis finds it.
    let mut shapes = vec![Triangle::new(v(999, -10, -10), v(1001, 10, 10), v(999, 10, -10))];
    let tree = BVH::build(&mut shapes);
    assert_eq!(tree.nodes.len(), 1);
    let ray = Ray::new(v(0, 0, 0), v(1, 0, 0));
    let hits = tree.traverse(&ray, &shapes);
    assert_eq!(hits, vec![0]);
}

#[test]
fn diagonal_spheres_match_brute_force() {
    // Spheres along the diagonal with cycling radii; a ray along the x
    // axis touches exactly those whose boxes reach it.
    let mut shapes = diagonal_spheres(1000);
    let tree = BVH::build(&mut shapes);
    assert_eq!(tree.nodes.len(), 2 * 1000 - 1);
    let ray = Ray::new(v(0, 0, 0), v(1, 0, 0));
    let expected = sorted(brute_force(&ray, &shapes));
    let got = sorted(tree.traverse(&ray, &shapes));
    assert_eq!(got, expected);
    assert!(!expected.is_empty());
}

#[test]
fn cross_references_hold_after_build() {
    let mut shapes = diagonal_spheres(100);
    let tree = BVH::build(&mut shapes);
    for (i, s) in shapes.iter().enumerate() {
        let node = tree.nodes[s.bh_node_index()];
        match node {
            bvh::bvh::BVHNode::Leaf { shape_index, .. } => assert_eq!(shape_index, i),
            _ => panic!("back-link does not name a leaf"),
        }
    }
}

#[test]
fn parent_links_reach_the_root() {
    let mut shapes = diagonal_spheres(64);
    let tree = BVH::build(&mut shapes);
    for start in 0..tree.nodes.len() {
        let mut cur = start;
        let mut steps = 0;
        while cur != 0 {
            cur = match tree.nodes[cur] {
                bvh::bvh::BVHNode::Leaf { parent_index, .. } => parent_index,
                bvh::bvh::BVHNode::Node { parent_index, .. } => parent_index,
            };
            steps += 1;
            assert!(steps <= tree.nodes.len());
        }
    }
}

#[test]
fn sphere_query_over_grid() {
    // A grid of unit spheres queried with a larger sphere.
    let mut shapes = Vec::new();
    for x in 0..5 {
        for y in 0..5 {
            for z in 0..5 {
                shapes.push(Sphere::new(v(x * 2, y * 2, z * 2), 1, 0));
            }
        }
    }
    let tree = BVH::build(&mut shapes);
    let query = Sphere::new(v(4, 4, 4), 3, 0);
    let expected = sorted(brute_force(&query, &shapes));
    let got = sorted(tree.traverse(&query, &shapes));
    assert_eq!(got, expected);
    assert!(!expected.is_empty());
    assert!(expected.len() < shapes.len());
}

#[test]
fn aabb_query_matches_brute_force() {
    let mut shapes = diagonal_spheres(200);
    let tree = BVH::build(&mut shapes);
    let query = AABB::with_bounds(v(50, 40, 40), v(90, 95, 95));
    let expected = sorted(brute_force(&query, &shapes));
    let got = sorted(tree.traverse(&query, &shapes));
    assert_eq!(got, expected);
}

#[test]
fn empty_tree_yields_nothing() {
    let mut shapes: Vec<Sphere> = Vec::new();
    let tree = BVH::build(&mut shapes);
    assert_eq!(tree.nodes.len(), 0);
    let ray = Ray::new(v(0, 0, 0), v(1, 0, 0));
    let hits = tree.traverse(&ray, &shapes);
    assert!(hits.is_empty());
}

#[test]
fn add_into_empty_tree_then_query() {
    let mut shapes: Vec<Sphere> = Vec::new();
    let mut tree = BVH::build(&mut shapes);
    shapes.push(Sphere::new(v(100, 0, 0), 5, 0));
    tree.add_node(&mut shapes, 0);
    let ray = Ray::new(v(0, 0, 0), v(1, 0, 0));
    let hits = tree.traverse(&ray, &shapes);
    assert_eq!(hits, vec![0]);
}

#[test]
fn insert_then_remove_round_trip() {
    // Build over a base set, insert more shapes, compare to brute force,
    // remove them again in reverse order, and compare to the base again.
    let mut shapes = diagonal_spheres(200);
    let mut tree = BVH::build(&mut shapes);
    for i in 0..50i64 {
        shapes.push(Sphere::new(v(3 * i + 1, 40 - i, 2 * i), ((i * i) % 7) + 1, 0));
        tree.add_node(&mut shapes, (200 + i) as usize);
    }
    assert_eq!(tree.nodes.len(), 2 * 250 - 1);
    for d in [v(1, 0, 0), v(1, 1, 1), v(3, 1, 2), v(1, 2, 0)] {
        let ray = Ray::new(v(0, 0, 0), d);
        let expected = sorted(brute_force(&ray, &shapes));
        let got = sorted(tree.traverse(&ray, &shapes));
        assert_eq!(got, expected);
    }
    for i in (200..250).rev() {
        tree.remove_node(&mut shapes, i);
    }
    assert_eq!(tree.nodes.len(), 2 * 200 - 1);
    for d in [v(1, 0, 0), v(1, 1, 1), v(3, 1, 2)] {
        let ray = Ray::new(v(0, 0, 0), d);
        let expected = sorted(brute_force(&ray, &shapes[..200]));
        let got = sorted(tree.traverse(&ray, &shapes));
        assert_eq!(got, expected);
    }
}

#[test]
fn remove_down_to_empty() {
    let mut shapes = diagonal_spheres(3);
    let mut tree = BVH::build(&mut shapes);
    tree.remove_node(&mut shapes, 1);
    assert_eq!(tree.nodes.len(), 3);
    tree.remove_node(&mut shapes, 0);
    assert_eq!(tree.nodes.len(), 1);
    tree.remove_node(&mut shapes, 2);
    assert_eq!(tree.nodes.len(), 0);
    let ray = Ray::new(v(0, 0, 0), v(1, 0, 0));
    assert!(tree.traverse(&ray, &shapes).is_empty());
}

#[test]
fn flat_walk_matches_tree_traversal() {
    let mut shapes = diagonal_spheres(300);
    let tree = BVH::build(&mut shapes);
    let flat = tree.flatten(&shapes);
    assert_eq!(flat.len(), tree.nodes.len());
    for d in [v(1, 0, 0), v(1, 1, 1), v(2, 3, 1)] {
        let ray = Ray::new(v(0, 0, 0), d);
        let from_tree = sorted(tree.traverse(&ray, &shapes));
        let from_flat = sorted(traverse_flat(&flat, &ray, &shapes));
        assert_eq!(from_flat, from_tree);
    }
}

#[test]
fn alternating_churn_keeps_answers_exact() {
    // Alternating insertions and removals over a base scene: the tree
    // keeps the exact node count and the exact brute-force answer.
    let mut shapes = diagonal_spheres(100);
    let mut tree = BVH::build(&mut shapes);
    for round in 0..100i64 {
        shapes.push(Sphere::new(v(7 * round - 300, round, 50 - round), (round % 5) + 1, 0));
        tree.add_node(&mut shapes, 100);
        assert_eq!(tree.nodes.len(), 2 * 101 - 1);
        let ray = Ray::new(v(-400, -10, -10), v(9, 1, 1));
        let expected = sorted(brute_force(&ray, &shapes));
        let got = sorted(tree.traverse(&ray, &shapes));
        assert_eq!(got, expected);
        tree.remove_node(&mut shapes, 100);
        shapes.pop();
        assert_eq!(tree.nodes.len(), 2 * 100 - 1);
    }
    let ray = Ray::new(v(0, 0, 0), v(1, 1, 1));
    let expected = sorted(brute_force(&ray, &shapes));
    let got = sorted(tree.traverse(&ray, &shapes));
    assert_eq!(got, expected);
}

#[test]
fn cross_references_hold_after_insertion() {
    let mut shapes = diagonal_spheres(30);
    let mut tree = BVH::build(&mut shapes);
    shapes.push(Sphere::new(v(-50, -50, -50), 4, 0));
    tree.add_node(&mut shapes, 30);
    for (i, s) in shapes.iter().enumerate() {
        match tree.nodes[s.bh_node_index()] {
            bvh::bvh::BVHNode::Leaf { shape_index, .. } => assert_eq!(shape_index, i),
            _ => panic!("back-link does not name a leaf"),
        }
    }
}

#[test]
fn triangles_build_and_query() {
    let mut shapes = Vec::new();
    for i in 0..40i64 {
        let base = v(10 * i, -5, -5);
        shapes.push(Triangle::new(base, v(10 * i, 5, -5), v(10 * i, 0, 5)));
    }
    let mut tree = BVH::build(&mut shapes);
    let ray = Ray::new(v(0, 0, 0), v(1, 0, 0));
    let expected = sorted(brute_force(&ray, &shapes));
    let got = sorted(tree.traverse(&ray, &shapes));
    assert_eq!(got, expected);
    tree.remove_node(&mut shapes, 0);
    let got2 = sorted(tree.traverse(&ray, &shapes));
    let expected2: Vec<usize> = expected.into_iter().filter(|&i| i != 0).collect();
    assert_eq!(got2, expected2);
}
