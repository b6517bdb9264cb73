//! Axis-aligned bounding boxes and the `Bounded` capability.

use vstd::prelude::*;

verus! {

use crate::axis::Axis;
use crate::vector::{Point3, Vector3};

/// An axis-aligned bounding box, stored as its componentwise minimum and
/// maximum corners.
#[derive(Clone, Copy, Debug, PartialEq, Eq, Structural)]
pub struct AABB {
    /// The corner with the smallest coordinates.
    pub min: Point3,
    /// The corner with the largest coordinates.
    pub max: Point3,
}

impl AABB {
    /// A well-formed box has ordered corners that lie on the coordinate grid.
    pub open spec fn wf(self) -> bool {
        &&& self.min.wf()
        &&& self.max.wf()
        &&& self.min.x <= self.max.x
        &&& self.min.y <= self.max.y
        &&& self.min.z <= self.max.z
    }

    /// Holds when the point lies inside this box (borders included).
    pub open spec fn spec_contains(self, p: Point3) -> bool {
        &&& self.min.x <= p.x <= self.max.x
        &&& self.min.y <= p.y <= self.max.y
        &&& self.min.z <= p.z <= self.max.z
    }

    /// Holds when `o` lies entirely inside this box.
    pub open spec fn contains_aabb(self, o: AABB) -> bool {
        &&& self.min.x <= o.min.x
        &&& self.min.y <= o.min.y
        &&& self.min.z <= o.min.z
        &&& o.max.x <= self.max.x
        &&& o.max.y <= self.max.y
        &&& o.max.z <= self.max.z
    }

    /// Holds when the two boxes share at least one point.
    pub open spec fn spec_overlaps(self, o: AABB) -> bool {
        &&& self.min.x <= o.max.x && o.min.x <= self.max.x
        &&& self.min.y <= o.max.y && o.min.y <= self.max.y
        &&& self.min.z <= o.max.z && o.min.z <= self.max.z
    }

    /// The smallest box that covers both operands, componentwise.
    pub open spec fn spec_join(self, o: AABB) -> AABB {
        AABB {
            min: Vector3 {
                x: if self.min.x <= o.min.x { self.min.x } else { o.min.x },
                y: if self.min.y <= o.min.y { self.min.y } else { o.min.y },
                z: if self.min.z <= o.min.z { self.min.z } else { o.min.z },
            },
            max: Vector3 {
                x: if self.max.x >= o.max.x { self.max.x } else { o.max.x },
                y: if self.max.y >= o.max.y { self.max.y } else { o.max.y },
                z: if self.max.z >= o.max.z { self.max.z } else { o.max.z },
            },
        }
    }

    /// The smallest box that covers this box and the point, componentwise.
    pub open spec fn spec_grow(self, p: Point3) -> AABB {
        self.spec_join(AABB { min: p, max: p })
    }

    /// Twice the surface area: `2 (sx sy + sy sz + sz sx)` over the side
    /// lengths. Only the ranking of areas matters to the build heuristic.
    pub open spec fn spec_surface_area(self) -> int {
        let sx = self.max.x - self.min.x;
        let sy = self.max.y - self.min.y;
        let sz = self.max.z - self.min.z;
        2 * (sx * sy + sy * sz + sz * sx)
    }

    /// Builds the box spanned by two ordered corners.
    pub fn with_bounds(min: Point3, max: Point3) -> (r: AABB)
        requires
            min.x <= max.x,
            min.y <= max.y,
            min.z <= max.z,
        ensures
            r == (AABB { min, max }),
    {
        AABB { min, max }
    }

    /// The identity of `grow` and `join`: a box that covers nothing.
    pub fn empty() -> (r: AABB)
        ensures
            r == AABB::spec_empty(),
    {
        AABB {
            min: Vector3 { x: i64::MAX, y: i64::MAX, z: i64::MAX },
            max: Vector3 { x: i64::MIN, y: i64::MIN, z: i64::MIN },
        }
    }

    /// The empty box as a mathematical value.
    pub open spec fn spec_empty() -> AABB {
        AABB {
            min: Vector3 { x: i64::MAX, y: i64::MAX, z: i64::MAX },
            max: Vector3 { x: i64::MIN, y: i64::MIN, z: i64::MIN },
        }
    }

    /// Returns whether the point lies inside this box.
    pub fn contains(&self, p: &Point3) -> (r: bool)
        ensures
            r == self.spec_contains(*p),
    {
        self.min.x <= p.x && p.x <= self.max.x && self.min.y <= p.y && p.y <= self.max.y
            && self.min.z <= p.z && p.z <= self.max.z
    }

    /// Extends this box to cover the point.
    pub fn grow(&self, p: &Point3) -> (r: AABB)
        ensures
            r == self.spec_grow(*p),
    {
        AABB { min: self.min.min(*p), max: self.max.max(*p) }
    }

    /// Extends this box to cover the other box.
    pub fn join(&self, o: &AABB) -> (r: AABB)
        ensures
            r == self.spec_join(*o),
    {
        AABB { min: self.min.min(o.min), max: self.max.max(o.max) }
    }

    /// The side lengths of this box.
    pub fn size(&self) -> (r: Vector3)
        requires
            self.wf(),
        ensures
            r.x == self.max.x - self.min.x,
            r.y == self.max.y - self.min.y,
            r.z == self.max.z - self.min.z,
    {
        Vector3 { x: self.max.x - self.min.x, y: self.max.y - self.min.y, z: self.max.z - self.min.z }
    }

    /// The componentwise sum of the two corners: twice the center, kept
    /// doubled so that it stays exact on the integer grid.
    pub fn center2(&self) -> (r: Vector3)
        requires
            self.wf(),
        ensures
            r.x == self.min.x + self.max.x,
            r.y == self.min.y + self.max.y,
            r.z == self.min.z + self.max.z,
    {
        Vector3 { x: self.min.x + self.max.x, y: self.min.y + self.max.y, z: self.min.z + self.max.z }
    }

    /// Twice the surface area of this box.
    pub fn surface_area(&self) -> (r: i64)
        requires
            self.wf(),
        ensures
            r == self.spec_surface_area(),
            0 <= r,
            r <= 24 * crate::COORD_LIMIT * crate::COORD_LIMIT,
    {
        let sx = self.max.x - self.min.x;
        let sy = self.max.y - self.min.y;
        let sz = self.max.z - self.min.z;
        proof {
            crate::vector::lemma_mul_bound(sx as int, sy as int, 2 * crate::COORD_LIMIT as int, 2 * crate::COORD_LIMIT as int);
            crate::vector::lemma_mul_bound(sy as int, sz as int, 2 * crate::COORD_LIMIT as int, 2 * crate::COORD_LIMIT as int);
            crate::vector::lemma_mul_bound(sz as int, sx as int, 2 * crate::COORD_LIMIT as int, 2 * crate::COORD_LIMIT as int);
            assert(sx * sy >= 0 && sy * sz >= 0 && sz * sx >= 0) by (nonlinear_arith)
                requires sx >= 0, sy >= 0, sz >= 0;
        }
        2 * (sx * sy + sy * sz + sz * sx)
    }

    /// The axis along which this box is longest, preferring x over y over z
    /// on ties.
    pub fn largest_axis(&self) -> (r: Axis)
        requires
            self.wf(),
        ensures
            r == Axis::X ==> self.max.x - self.min.x >= self.max.y - self.min.y
                && self.max.x - self.min.x >= self.max.z - self.min.z,
            r == Axis::Y ==> self.max.y - self.min.y >= self.max.x - self.min.x
                && self.max.y - self.min.y >= self.max.z - self.min.z,
            r == Axis::Z ==> self.max.z - self.min.z >= self.max.x - self.min.x
                && self.max.z - self.min.z >= self.max.y - self.min.y,
    {
        let sx = self.max.x - self.min.x;
        let sy = self.max.y - self.min.y;
        let sz = self.max.z - self.min.z;
        if sx >= sy && sx >= sz {
            Axis::X
        } else if sy >= sz {
            Axis::Y
        } else {
            Axis::Z
        }
    }

}

/// Anything that can report an axis-aligned bounding box of itself.
pub trait Bounded {
    /// The bounding box as a mathematical value. It must not change unless
    /// the object itself does.
    spec fn aabb_spec(&self) -> AABB;

    /// Returns the bounding box of this object.
    fn aabb(&self) -> (r: AABB)
        ensures
            r == self.aabb_spec(),
    ;
}

/// Joining boxes only ever makes them larger: the join covers whatever
/// either operand covers.
pub proof fn lemma_join_covers(a: AABB, b: AABB, c: AABB)
    ensures
        a.contains_aabb(c) ==> a.spec_join(b).contains_aabb(c),
        b.contains_aabb(c) ==> a.spec_join(b).contains_aabb(c),
{
}

} // verus!
