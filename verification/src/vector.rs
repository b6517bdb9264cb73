//! Three-component vector math over exact 64-bit integer coordinates.

use vstd::prelude::*;

verus! {

use crate::COORD_LIMIT;

/// Componentwise magnitude bound under which sums of three products of a
/// "small" and a "large" component still fit in `i64`.
pub const SMALL_BOUND: i64 = 262144;

/// Componentwise magnitude bound of a cross product of two small vectors.
pub const LARGE_BOUND: i64 = 137438953472;

/// A 3-component vector with exact integer coordinates.
#[derive(Clone, Copy, Debug, PartialEq, Eq, Structural)]
pub struct Vector3 {
    /// The x coordinate.
    pub x: i64,
    /// The y coordinate.
    pub y: i64,
    /// The z coordinate.
    pub z: i64,
}

/// Point math type used by this crate; identical to [`Vector3`].
pub type Point3 = Vector3;

impl Vector3 {
    /// Holds when every component has magnitude at most `b`.
    pub open spec fn bounded(self, b: int) -> bool {
        &&& -b <= self.x <= b
        &&& -b <= self.y <= b
        &&& -b <= self.z <= b
    }

    /// Holds for vectors whose components lie on the accepted coordinate grid.
    pub open spec fn wf(self) -> bool {
        self.bounded(COORD_LIMIT as int)
    }

    /// The mathematical dot product of two vectors.
    pub open spec fn spec_dot(self, o: Vector3) -> int {
        self.x * o.x + self.y * o.y + self.z * o.z
    }

    /// Builds a vector from its components.
    pub fn new(x: i64, y: i64, z: i64) -> (r: Vector3)
        ensures
            r == (Vector3 { x, y, z }),
    {
        Vector3 { x, y, z }
    }

    /// The zero vector.
    pub fn zero() -> (r: Vector3)
        ensures
            r == (Vector3 { x: 0, y: 0, z: 0 }),
    {
        Vector3 { x: 0, y: 0, z: 0 }
    }

    /// Componentwise sum.
    pub fn add(self, o: Vector3) -> (r: Vector3)
        requires
            self.bounded(SMALL_BOUND as int),
            o.bounded(SMALL_BOUND as int),
        ensures
            r.x == self.x + o.x,
            r.y == self.y + o.y,
            r.z == self.z + o.z,
            r.bounded(2 * SMALL_BOUND as int),
    {
        Vector3 { x: self.x + o.x, y: self.y + o.y, z: self.z + o.z }
    }

    /// Componentwise difference.
    pub fn sub(self, o: Vector3) -> (r: Vector3)
        requires
            self.bounded(SMALL_BOUND as int),
            o.bounded(SMALL_BOUND as int),
        ensures
            r.x == self.x - o.x,
            r.y == self.y - o.y,
            r.z == self.z - o.z,
            r.bounded(2 * SMALL_BOUND as int),
    {
        Vector3 { x: self.x - o.x, y: self.y - o.y, z: self.z - o.z }
    }

    /// Componentwise negation.
    pub fn neg(self) -> (r: Vector3)
        requires
            self.bounded(LARGE_BOUND as int),
        ensures
            r.x == -self.x,
            r.y == -self.y,
            r.z == -self.z,
    {
        Vector3 { x: -self.x, y: -self.y, z: -self.z }
    }

    /// Dot product. The first operand must be small and the second may be as
    /// large as a cross product of small vectors; the exact result then fits.
    pub fn dot(self, o: Vector3) -> (r: i64)
        requires
            self.bounded(SMALL_BOUND as int),
            o.bounded(LARGE_BOUND as int),
        ensures
            r == self.spec_dot(o),
            -3 * SMALL_BOUND * LARGE_BOUND <= r <= 3 * SMALL_BOUND * LARGE_BOUND,
    {
        proof {
            lemma_mul_bound(self.x as int, o.x as int, SMALL_BOUND as int, LARGE_BOUND as int);
            lemma_mul_bound(self.y as int, o.y as int, SMALL_BOUND as int, LARGE_BOUND as int);
            lemma_mul_bound(self.z as int, o.z as int, SMALL_BOUND as int, LARGE_BOUND as int);
        }
        self.x * o.x + self.y * o.y + self.z * o.z
    }

    /// Cross product of two small vectors.
    pub fn cross(self, o: Vector3) -> (r: Vector3)
        requires
            self.bounded(SMALL_BOUND as int),
            o.bounded(SMALL_BOUND as int),
        ensures
            r.x == self.y * o.z - self.z * o.y,
            r.y == self.z * o.x - self.x * o.z,
            r.z == self.x * o.y - self.y * o.x,
            r.bounded(LARGE_BOUND as int),
    {
        proof {
            lemma_mul_bound(self.y as int, o.z as int, SMALL_BOUND as int, SMALL_BOUND as int);
            lemma_mul_bound(self.z as int, o.y as int, SMALL_BOUND as int, SMALL_BOUND as int);
            lemma_mul_bound(self.z as int, o.x as int, SMALL_BOUND as int, SMALL_BOUND as int);
            lemma_mul_bound(self.x as int, o.z as int, SMALL_BOUND as int, SMALL_BOUND as int);
            lemma_mul_bound(self.x as int, o.y as int, SMALL_BOUND as int, SMALL_BOUND as int);
            lemma_mul_bound(self.y as int, o.x as int, SMALL_BOUND as int, SMALL_BOUND as int);
        }
        Vector3 {
            x: self.y * o.z - self.z * o.y,
            y: self.z * o.x - self.x * o.z,
            z: self.x * o.y - self.y * o.x,
        }
    }

    /// Componentwise minimum.
    pub fn min(self, o: Vector3) -> (r: Vector3)
        ensures
            r.x == if self.x <= o.x { self.x } else { o.x },
            r.y == if self.y <= o.y { self.y } else { o.y },
            r.z == if self.z <= o.z { self.z } else { o.z },
    {
        Vector3 {
            x: if self.x <= o.x { self.x } else { o.x },
            y: if self.y <= o.y { self.y } else { o.y },
            z: if self.z <= o.z { self.z } else { o.z },
        }
    }

    /// Componentwise maximum.
    pub fn max(self, o: Vector3) -> (r: Vector3)
        ensures
            r.x == if self.x >= o.x { self.x } else { o.x },
            r.y == if self.y >= o.y { self.y } else { o.y },
            r.z == if self.z >= o.z { self.z } else { o.z },
    {
        Vector3 {
            x: if self.x >= o.x { self.x } else { o.x },
            y: if self.y >= o.y { self.y } else { o.y },
            z: if self.z >= o.z { self.z } else { o.z },
        }
    }
}

/// The components of a vector as unbounded integers.
pub open spec fn ints(v: Vector3) -> (int, int, int) {
    (v.x as int, v.y as int, v.z as int)
}

/// Componentwise difference of integer triples.
pub open spec fn sub3(a: (int, int, int), b: (int, int, int)) -> (int, int, int) {
    (a.0 - b.0, a.1 - b.1, a.2 - b.2)
}

/// Cross product of integer triples.
pub open spec fn cross3(a: (int, int, int), b: (int, int, int)) -> (int, int, int) {
    (a.1 * b.2 - a.2 * b.1, a.2 * b.0 - a.0 * b.2, a.0 * b.1 - a.1 * b.0)
}

/// Dot product of integer triples.
pub open spec fn dot3(a: (int, int, int), b: (int, int, int)) -> int {
    a.0 * b.0 + a.1 * b.1 + a.2 * b.2
}

/// The product of two factors is bounded by the product of their bounds.
pub proof fn lemma_mul_bound(a: int, b: int, ba: int, bb: int)
    requires
        -ba <= a <= ba,
        -bb <= b <= bb,
        0 <= ba,
        0 <= bb,
    ensures
        -ba * bb <= a * b <= ba * bb,
{
    assert(-ba * bb <= a * b <= ba * bb) by (nonlinear_arith)
        requires
            -ba <= a <= ba,
            -bb <= b <= bb,
            0 <= ba,
            0 <= bb,
    ;
}

} // verus!
