//! Spheres: bounded primitives that can also act as query volumes.

use vstd::prelude::*;

verus! {

use crate::aabb::{Bounded, AABB};
use crate::bounding_hierarchy::{BHShape, IntersectionAABB};
use crate::vector::{lemma_mul_bound, Point3, Vector3};
use crate::COORD_LIMIT;

/// The squared distance from a coordinate to the interval `[lo, hi]`,
/// along one axis.
pub open spec fn axis_gap(c: int, lo: int, hi: int) -> int {
    if c < lo {
        lo - c
    } else if c > hi {
        c - hi
    } else {
        0
    }
}

/// A sphere, given by its center and radius.
#[derive(Clone, Copy, Debug, PartialEq, Eq, Structural)]
pub struct Sphere {
    /// The center of the sphere.
    pub center: Point3,
    /// The radius of the sphere.
    pub radius: i64,
    /// The cached box covering the sphere.
    pub aabb: AABB,
    /// The index of the leaf node referencing this sphere, owned by the
    /// hierarchy.
    pub node_index: usize,
}

impl Sphere {
    /// Coordinates on the grid and a radius that keeps the bounding box on
    /// it too.
    pub open spec fn wf(self) -> bool {
        &&& self.center.bounded(COORD_LIMIT as int - self.radius)
        &&& 0 <= self.radius <= COORD_LIMIT
    }

    /// The sphere touches the box: the squared distance from the center to
    /// the closest point of the box is at most the squared radius.
    pub open spec fn spec_hits(self, a: AABB) -> bool {
        let gx = axis_gap(self.center.x as int, a.min.x as int, a.max.x as int);
        let gy = axis_gap(self.center.y as int, a.min.y as int, a.max.y as int);
        let gz = axis_gap(self.center.z as int, a.min.z as int, a.max.z as int);
        gx * gx + gy * gy + gz * gz <= self.radius * self.radius
    }

    /// Builds a sphere, caching its bounding box.
    pub fn new(center: Point3, radius: i64, node_index: usize) -> (r: Sphere)
        requires
            center.bounded(COORD_LIMIT as int - radius),
            0 <= radius <= COORD_LIMIT,
        ensures
            r.center == center && r.radius == radius && r.node_index == node_index,
            r.wf(),
            r.aabb_spec().wf(),
            r.aabb_spec().min.x == center.x - radius && r.aabb_spec().max.x == center.x + radius,
            r.aabb_spec().min.y == center.y - radius && r.aabb_spec().max.y == center.y + radius,
            r.aabb_spec().min.z == center.z - radius && r.aabb_spec().max.z == center.z + radius,
    {
        let bb = AABB {
            min: Vector3 { x: center.x - radius, y: center.y - radius, z: center.z - radius },
            max: Vector3 { x: center.x + radius, y: center.y + radius, z: center.z + radius },
        };
        Sphere { center, radius, aabb: bb, node_index }
    }
}

impl Bounded for Sphere {
    open spec fn aabb_spec(&self) -> AABB {
        self.aabb
    }

    fn aabb(&self) -> (r: AABB)
    {
        self.aabb
    }
}

impl BHShape for Sphere {
    open spec fn node_index_spec(&self) -> usize {
        self.node_index
    }

    fn set_bh_node_index(&mut self, index: usize)
    {
        self.node_index = index;
    }

    fn bh_node_index(&self) -> (r: usize)
    {
        self.node_index
    }
}

/// Growing the interval can only shrink the gap to it.
proof fn lemma_axis_gap_monotone(c: int, lo1: int, hi1: int, lo2: int, hi2: int)
    requires
        lo2 <= lo1,
        hi1 <= hi2,
        lo1 <= hi1,
    ensures
        0 <= axis_gap(c, lo2, hi2) <= axis_gap(c, lo1, hi1),
{
}

/// A smaller non-negative gap has a smaller square.
proof fn lemma_square_monotone(a: int, b: int)
    requires
        0 <= a <= b,
    ensures
        a * a <= b * b,
{
    assert(a * a <= b * b) by (nonlinear_arith)
        requires
            0 <= a <= b,
    ;
}

impl IntersectionAABB for Sphere {
    open spec fn query_wf(&self) -> bool {
        self.wf()
    }

    open spec fn hits_spec(&self, aabb: AABB) -> bool {
        self.spec_hits(aabb)
    }

    fn intersects_aabb(&self, aabb: &AABB) -> (r: bool)
    {
        let gx = if self.center.x < aabb.min.x {
            aabb.min.x - self.center.x
        } else if self.center.x > aabb.max.x {
            self.center.x - aabb.max.x
        } else {
            0
        };
        let gy = if self.center.y < aabb.min.y {
            aabb.min.y - self.center.y
        } else if self.center.y > aabb.max.y {
            self.center.y - aabb.max.y
        } else {
            0
        };
        let gz = if self.center.z < aabb.min.z {
            aabb.min.z - self.center.z
        } else if self.center.z > aabb.max.z {
            self.center.z - aabb.max.z
        } else {
            0
        };
        proof {
            lemma_mul_bound(gx as int, gx as int, 2 * COORD_LIMIT as int, 2 * COORD_LIMIT as int);
            lemma_mul_bound(gy as int, gy as int, 2 * COORD_LIMIT as int, 2 * COORD_LIMIT as int);
            lemma_mul_bound(gz as int, gz as int, 2 * COORD_LIMIT as int, 2 * COORD_LIMIT as int);
            lemma_mul_bound(
                self.radius as int,
                self.radius as int,
                COORD_LIMIT as int,
                COORD_LIMIT as int,
            );
            lemma_square_monotone(0, gx as int);
            lemma_square_monotone(0, gy as int);
            lemma_square_monotone(0, gz as int);
        }
        gx * gx + gy * gy + gz * gz <= self.radius * self.radius
    }

    proof fn lemma_hits_monotone(&self, inner: AABB, outer: AABB)
    {
        let gx1 = axis_gap(self.center.x as int, inner.min.x as int, inner.max.x as int);
        let gy1 = axis_gap(self.center.y as int, inner.min.y as int, inner.max.y as int);
        let gz1 = axis_gap(self.center.z as int, inner.min.z as int, inner.max.z as int);
        let gx2 = axis_gap(self.center.x as int, outer.min.x as int, outer.max.x as int);
        let gy2 = axis_gap(self.center.y as int, outer.min.y as int, outer.max.y as int);
        let gz2 = axis_gap(self.center.z as int, outer.min.z as int, outer.max.z as int);
        lemma_axis_gap_monotone(
            self.center.x as int,
            inner.min.x as int,
            inner.max.x as int,
            outer.min.x as int,
            outer.max.x as int,
        );
        lemma_axis_gap_monotone(
            self.center.y as int,
            inner.min.y as int,
            inner.max.y as int,
            outer.min.y as int,
            outer.max.y as int,
        );
        lemma_axis_gap_monotone(
            self.center.z as int,
            inner.min.z as int,
            inner.max.z as int,
            outer.min.z as int,
            outer.max.z as int,
        );
        lemma_square_monotone(gx2, gx1);
        lemma_square_monotone(gy2, gy1);
        lemma_square_monotone(gz2, gz1);
    }
}

} // verus!
