//! Rays, axis-aligned bounding boxes, and binary bounding volume
//! hierarchies over an exact integer coordinate grid.
//!
//! A bounding volume hierarchy (BVH) cuts the cost of "which primitives
//! does this query touch?" from linear to logarithmic in the primitive
//! count, the inner loop of ray tracers, collision broadphases, and
//! picking. This crate builds a binary BVH with a bucketed surface-area
//! heuristic, traverses it with any query shape that can test itself
//! against a box, mutates it incrementally by inserting or removing one
//! shape at a time, and flattens it into a pointer-threaded form for
//! stackless traversal.
//!
//! All coordinates live on a bounded integer grid, so every intersection
//! test in the crate is exact: ray/box slab comparisons and ray/triangle
//! barycentrics are rational numbers compared by cross-multiplication,
//! never rounded. The structural invariants of the tree and the answers
//! of every traversal are stated as contracts and proved.

use vstd::prelude::*;

pub mod aabb;
pub mod axis;
pub mod bounding_hierarchy;
pub mod bvh;
pub mod flat_bvh;
pub mod ray;
pub mod sphere;
pub mod vector;

verus! {

/// Largest coordinate magnitude the library accepts. Keeping every coordinate
/// inside this grid makes all intersection arithmetic exact in 64 bits.
pub const COORD_LIMIT: i64 = 65536;

use crate::aabb::{Bounded, AABB};
use crate::bounding_hierarchy::BHShape;
use crate::vector::Point3;

/// A triangle primitive carrying its three corners, a cached bounding box,
/// and the hierarchy-owned leaf back-link.
#[derive(Clone, Copy, Debug, PartialEq, Eq, Structural)]
pub struct Triangle {
    /// First corner of the triangle.
    pub a: Point3,
    /// Second corner of the triangle.
    pub b: Point3,
    /// Third corner of the triangle.
    pub c: Point3,
    /// The cached box covering the three corners.
    pub aabb: AABB,
    /// The index of the leaf node referencing this triangle, owned by the
    /// hierarchy.
    pub node_index: usize,
}

impl Triangle {
    /// Creates a new triangle from its corners, caching the box that
    /// covers them.
    pub fn new(a: Point3, b: Point3, c: Point3) -> (r: Triangle)
        requires
            a.wf(),
            b.wf(),
            c.wf(),
        ensures
            r.a == a && r.b == b && r.c == c,
            r.aabb_spec() == AABB::spec_empty().spec_grow(a).spec_grow(b).spec_grow(c),
            r.aabb_spec().wf(),
            r.aabb_spec().spec_contains(a),
            r.aabb_spec().spec_contains(b),
            r.aabb_spec().spec_contains(c),
            r.node_index_spec() == 0,
    {
        let bb = AABB::empty().grow(&a).grow(&b).grow(&c);
        Triangle { a, b, c, aabb: bb, node_index: 0 }
    }
}

impl Bounded for Triangle {
    open spec fn aabb_spec(&self) -> AABB {
        self.aabb
    }

    fn aabb(&self) -> (r: AABB)
    {
        self.aabb
    }
}

impl BHShape for Triangle {
    open spec fn node_index_spec(&self) -> usize {
        self.node_index
    }

    fn set_bh_node_index(&mut self, index: usize)
    {
        self.node_index = index;
    }

    fn bh_node_index(&self) -> (r: usize)
    {
        self.node_index
    }
}

} // verus!
