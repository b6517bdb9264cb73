//! The capability surface between the hierarchy and its collaborators:
//! shapes that can report and remember their place, and queries that can
//! test themselves against a bounding box.

use vstd::prelude::*;

verus! {

use crate::aabb::{Bounded, AABB};

/// A shape that a bounding hierarchy can own a back-link into.
///
/// The hierarchy stores, through `set_bh_node_index`, the index of the leaf
/// node that references the shape; `bh_node_index` reads it back. Setting the
/// back-link must leave the shape's bounding box unchanged.
pub trait BHShape: Bounded {
    /// The stored node index as a mathematical value.
    spec fn node_index_spec(&self) -> usize;

    /// Stores the index of the leaf node that references this shape.
    fn set_bh_node_index(&mut self, index: usize)
        ensures
            final(self).node_index_spec() == index,
            final(self).aabb_spec() == old(self).aabb_spec(),
    ;

    /// Returns the stored leaf node index.
    fn bh_node_index(&self) -> (r: usize)
        ensures
            r == self.node_index_spec(),
    ;
}

/// A query volume that can test itself against an axis-aligned box.
///
/// Traversal relies on one semantic fact beside the test itself: growing a
/// box never loses an intersection. Each implementation proves that law.
pub trait IntersectionAABB {
    /// Inputs on which the query is meaningful.
    spec fn query_wf(&self) -> bool;

    /// Whether the query volume intersects the box, as a mathematical value.
    spec fn hits_spec(&self, aabb: AABB) -> bool;

    /// Returns true if this query intersects the given box.
    fn intersects_aabb(&self, aabb: &AABB) -> (r: bool)
        requires
            self.query_wf(),
            aabb.wf(),
        ensures
            r == self.hits_spec(*aabb),
    ;

    /// Growing the box keeps every intersection: a hit against an inner box
    /// is a hit against any box that contains it.
    proof fn lemma_hits_monotone(&self, inner: AABB, outer: AABB)
        requires
            self.query_wf(),
            inner.wf(),
            outer.wf(),
            outer.contains_aabb(inner),
            self.hits_spec(inner),
        ensures
            self.hits_spec(outer),
    ;
}

impl IntersectionAABB for AABB {
    open spec fn query_wf(&self) -> bool {
        self.wf()
    }

    open spec fn hits_spec(&self, aabb: AABB) -> bool {
        self.spec_overlaps(aabb)
    }

    fn intersects_aabb(&self, aabb: &AABB) -> (r: bool)
    {
        self.min.x <= aabb.max.x && aabb.min.x <= self.max.x && self.min.y <= aabb.max.y
            && aabb.min.y <= self.max.y && self.min.z <= aabb.max.z && aabb.min.z <= self.max.z
    }

    proof fn lemma_hits_monotone(&self, inner: AABB, outer: AABB)
    {
    }
}

} // verus!
