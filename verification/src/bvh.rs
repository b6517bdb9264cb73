//! The binary bounding volume hierarchy: building, traversal, and
//! incremental mutation.
//!
//! The tree is a densely packed array of nodes; index 0 is the root of a
//! non-empty tree. A leaf references one shape; an internal node stores the
//! bounding box of each child on itself. Beside the node array the tree
//! carries a ghost map from each node index to the set of shape indices that
//! sit below that node; the map is what the contracts speak of.

use vstd::prelude::*;

verus! {

use vstd::set_lib::lemma_set_disjoint_lens;

use crate::aabb::{Bounded, AABB};
use crate::vector::Vector3;
use crate::bounding_hierarchy::{BHShape, IntersectionAABB};

/// The number of shapes the library accepts, kept low enough that every
/// index computation below fits the machine integers.
pub const MAX_SHAPES: usize = 0x1000_0000;

/// One node of the hierarchy.
#[derive(Clone, Copy, Debug)]
pub enum BVHNode {
    /// A leaf referencing one shape.
    Leaf {
        /// The index of this node's parent; 0 for the root.
        parent_index: usize,
        /// The index of the referenced shape in the caller's shape array.
        shape_index: usize,
    },
    /// An internal node; each child's bounding box is stored here, on the
    /// parent, so that traversal decides from local data alone.
    Node {
        /// The index of this node's parent; 0 for the root.
        parent_index: usize,
        /// The index of the left child.
        child_l_index: usize,
        /// A box covering everything below the left child.
        child_l_aabb: AABB,
        /// The index of the right child.
        child_r_index: usize,
        /// A box covering everything below the right child.
        child_r_aabb: AABB,
    },
}

impl BVHNode {
    /// The parent index of this node.
    pub open spec fn parent(self) -> int {
        match self {
            BVHNode::Leaf { parent_index, .. } => parent_index as int,
            BVHNode::Node { parent_index, .. } => parent_index as int,
        }
    }

    /// Whether this node is a leaf.
    pub open spec fn is_leaf(self) -> bool {
        self is Leaf
    }

    /// The shape index of a leaf.
    pub open spec fn shape(self) -> int {
        match self {
            BVHNode::Leaf { shape_index, .. } => shape_index as int,
            BVHNode::Node { .. } => 0,
        }
    }

    /// The left child index of an internal node.
    pub open spec fn left(self) -> int {
        match self {
            BVHNode::Leaf { .. } => 0,
            BVHNode::Node { child_l_index, .. } => child_l_index as int,
        }
    }

    /// The right child index of an internal node.
    pub open spec fn right(self) -> int {
        match self {
            BVHNode::Leaf { .. } => 0,
            BVHNode::Node { child_r_index, .. } => child_r_index as int,
        }
    }

    /// The stored box of the left child of an internal node.
    pub open spec fn left_aabb(self) -> AABB {
        match self {
            BVHNode::Leaf { .. } => AABB::spec_empty(),
            BVHNode::Node { child_l_aabb, .. } => child_l_aabb,
        }
    }

    /// The stored box of the right child of an internal node.
    pub open spec fn right_aabb(self) -> AABB {
        match self {
            BVHNode::Leaf { .. } => AABB::spec_empty(),
            BVHNode::Node { child_r_aabb, .. } => child_r_aabb,
        }
    }
}

/// Every shape in the array has a well-formed bounding box.
pub open spec fn shapes_wf<T: Bounded>(shapes: Seq<T>) -> bool {
    forall |s: int| 0 <= s < shapes.len() ==> (#[trigger] shapes[s].aabb_spec()).wf()
}

/// The box stored on a parent for child `c` is faithful: for a leaf child it
/// is exactly the shape's own box, for an internal child it covers every
/// shape below.
pub open spec fn child_box_ok<T: BHShape>(
    nodes: Seq<BVHNode>,
    sub: Map<int, Set<int>>,
    shapes: Seq<T>,
    c: int,
    stored: AABB,
) -> bool {
    if nodes[c].is_leaf() {
        stored == shapes[nodes[c].shape()].aabb_spec()
    } else {
        forall |s: int| sub[c].contains(s) ==> stored.contains_aabb(
            (#[trigger] shapes[s].aabb_spec()),
        )
    }
}

/// The local conditions at one node: a leaf cross-references its shape and
/// owns exactly that shape; an internal node has two distinct non-root
/// children that point back to it, its shape set is the disjoint union of
/// theirs, and each stored child box is faithful.
pub open spec fn node_ok<T: BHShape>(
    nodes: Seq<BVHNode>,
    sub: Map<int, Set<int>>,
    shapes: Seq<T>,
    i: int,
) -> bool {
    &&& sub.contains_key(i)
    &&& sub[i].finite()
    &&& sub[i].len() >= 1
    &&& (forall |s: int| sub[i].contains(s) ==> 0 <= s < shapes.len())
    &&& match nodes[i] {
        BVHNode::Leaf { parent_index, shape_index } => {
            &&& (shape_index as int) < shapes.len()
            &&& shapes[shape_index as int].node_index_spec() as int == i
            &&& sub[i] == Set::<int>::empty().insert(shape_index as int)
        },
        BVHNode::Node { parent_index, child_l_index, child_l_aabb, child_r_index, child_r_aabb } => {
            let l = child_l_index as int;
            let r = child_r_index as int;
            &&& 0 < l < nodes.len()
            &&& 0 < r < nodes.len()
            &&& l != r
            &&& nodes[l].parent() == i
            &&& nodes[r].parent() == i
            &&& sub.contains_key(l)
            &&& sub.contains_key(r)
            &&& sub[i] == sub[l] + sub[r]
            &&& sub[l].disjoint(sub[r])
            &&& child_l_aabb.wf()
            &&& child_r_aabb.wf()
            &&& child_box_ok(nodes, sub, shapes, l, child_l_aabb)
            &&& child_box_ok(nodes, sub, shapes, r, child_r_aabb)
        },
    }
}

/// A non-root node's parent link points at an internal node that lists it
/// as a child.
pub open spec fn parent_link_ok(nodes: Seq<BVHNode>, i: int) -> bool {
    let p = nodes[i].parent();
    &&& 0 <= p < nodes.len()
    &&& !nodes[p].is_leaf()
    &&& (nodes[p].left() == i || nodes[p].right() == i)
}

/// A covered shape's back-link points at the leaf that references it.
pub open spec fn shape_link_ok<T: BHShape>(nodes: Seq<BVHNode>, shapes: Seq<T>, s: int) -> bool {
    let li = shapes[s].node_index_spec() as int;
    &&& 0 <= li < nodes.len()
    &&& nodes[li].is_leaf()
    &&& nodes[li].shape() == s
}

/// The set of shape indices stored in `indices[lo..hi]`.
pub open spec fn range_shape_set(indices: Seq<usize>, lo: int, hi: int) -> Set<int> {
    Set::new(|s: int| exists |j: int| lo <= j < hi && indices[j] as int == s)
}

/// No shape index occurs twice in `indices[lo..hi]`.
pub open spec fn range_distinct(indices: Seq<usize>, lo: int, hi: int) -> bool {
    forall |j1: int, j2: int| lo <= j1 < hi && lo <= j2 < hi && j1 != j2
        ==> #[trigger] indices[j1] != #[trigger] indices[j2]
}

/// Every entry of `indices[lo..hi]` is below `bound`.
pub open spec fn range_below(indices: Seq<usize>, lo: int, hi: int, bound: int) -> bool {
    forall |j: int| lo <= j < hi ==> #[trigger] indices[j] < bound
}

/// The set of shapes in a range is finite, no larger than the range, and
/// exactly as large when the range holds no duplicates.
pub proof fn lemma_range_shape_set_props(indices: Seq<usize>, lo: int, hi: int)
    requires
        0 <= lo <= hi <= indices.len(),
    ensures
        range_shape_set(indices, lo, hi).finite(),
        range_shape_set(indices, lo, hi).len() <= hi - lo,
        range_distinct(indices, lo, hi) ==> range_shape_set(indices, lo, hi).len() == hi - lo,
    decreases hi - lo,
{
    if hi == lo {
        assert(range_shape_set(indices, lo, hi) =~= Set::<int>::empty());
    } else {
        lemma_range_shape_set_props(indices, lo, hi - 1);
        let prev = range_shape_set(indices, lo, hi - 1);
        let full = range_shape_set(indices, lo, hi);
        assert forall |s: int| full.contains(s) implies prev.insert(
            indices[hi - 1] as int,
        ).contains(s) by {
            let j = choose |j: int| lo <= j < hi && indices[j] as int == s;
            if j < hi - 1 {
                assert(prev.contains(s));
            }
        };
        assert(full =~= prev.insert(indices[hi - 1] as int));
        if range_distinct(indices, lo, hi) {
            assert(range_distinct(indices, lo, hi - 1));
            if prev.contains(indices[hi - 1] as int) {
                let last = hi - 1;
                let j = choose |j: int| lo <= j < hi - 1 && indices[j] as int == indices[last] as int;
                assert(false);
            }
        }
    }
}

/// Two index arrays that agree on a range hold the same shapes there.
pub proof fn lemma_range_shape_set_agree(s1: Seq<usize>, s2: Seq<usize>, lo: int, hi: int)
    requires
        0 <= lo <= hi <= s1.len(),
        hi <= s2.len(),
        forall |j: int| lo <= j < hi ==> s1[j] == s2[j],
    ensures
        range_shape_set(s1, lo, hi) == range_shape_set(s2, lo, hi),
{
    assert forall |s: int| range_shape_set(s1, lo, hi).contains(s) implies range_shape_set(
        s2,
        lo,
        hi,
    ).contains(s) by {
        let j = choose |j: int| lo <= j < hi && s1[j] as int == s;
        assert(s2[j] as int == s);
    };
    assert forall |s: int| range_shape_set(s2, lo, hi).contains(s) implies range_shape_set(
        s1,
        lo,
        hi,
    ).contains(s) by {
        let j = choose |j: int| lo <= j < hi && s2[j] as int == s;
        assert(s1[j] as int == s);
    };
    assert(range_shape_set(s1, lo, hi) =~= range_shape_set(s2, lo, hi));
}

/// Exchanging two positions inside a range changes neither the set of
/// shapes in the range nor its freedom from duplicates.
pub proof fn lemma_swap_preserves_range(
    s1: Seq<usize>,
    s2: Seq<usize>,
    lo: int,
    hi: int,
    a: int,
    b: int,
)
    requires
        0 <= lo <= a < hi <= s1.len(),
        lo <= b < hi,
        s2 == s1.update(a, s1[b]).update(b, s1[a]),
    ensures
        s2.len() == s1.len(),
        range_shape_set(s2, lo, hi) == range_shape_set(s1, lo, hi),
        range_distinct(s1, lo, hi) ==> range_distinct(s2, lo, hi),
        forall |j: int| 0 <= j < s1.len() && j != a && j != b ==> s2[j] == s1[j],
{
    assert forall |s: int| range_shape_set(s1, lo, hi).contains(s) implies range_shape_set(
        s2,
        lo,
        hi,
    ).contains(s) by {
        let j = choose |j: int| lo <= j < hi && s1[j] as int == s;
        if j == a {
            assert(s2[b] as int == s);
        } else if j == b {
            assert(s2[a] as int == s);
        } else {
            assert(s2[j] as int == s);
        }
    };
    assert forall |s: int| range_shape_set(s2, lo, hi).contains(s) implies range_shape_set(
        s1,
        lo,
        hi,
    ).contains(s) by {
        let j = choose |j: int| lo <= j < hi && s2[j] as int == s;
        if j == a {
            assert(s1[b] as int == s);
        } else if j == b {
            assert(s1[a] as int == s);
        } else {
            assert(s1[j] as int == s);
        }
    };
    assert(range_shape_set(s2, lo, hi) =~= range_shape_set(s1, lo, hi));
    if range_distinct(s1, lo, hi) {
        assert forall |j1: int, j2: int| lo <= j1 < hi && lo <= j2 < hi && j1 != j2 implies
            s2[j1] != s2[j2] by {
            let k1: int = if j1 == a { b } else if j1 == b { a } else { j1 };
            let k2: int = if j2 == a { b } else if j2 == b { a } else { j2 };
            assert(s2[j1] == s1[k1]);
            assert(s2[j2] == s1[k2]);
        };
    }
}

/// Splitting a duplicate-free range in two yields duplicate-free halves
/// holding disjoint shape sets whose union is the whole range's set, and
/// conversely.
pub proof fn lemma_distinct_split(ind: Seq<usize>, lo: int, mid: int, hi: int)
    requires
        0 <= lo <= mid <= hi <= ind.len(),
    ensures
        range_distinct(ind, lo, hi) ==> range_distinct(ind, lo, mid) && range_distinct(
            ind,
            mid,
            hi,
        ) && range_shape_set(ind, lo, mid).disjoint(range_shape_set(ind, mid, hi)),
        (range_distinct(ind, lo, mid) && range_distinct(ind, mid, hi) && range_shape_set(
            ind,
            lo,
            mid,
        ).disjoint(range_shape_set(ind, mid, hi))) ==> range_distinct(ind, lo, hi),
        range_shape_set(ind, lo, hi) == range_shape_set(ind, lo, mid) + range_shape_set(
            ind,
            mid,
            hi,
        ),
{
    if range_distinct(ind, lo, hi) {
        assert forall |s: int| !(range_shape_set(ind, lo, mid).contains(s) && range_shape_set(
            ind,
            mid,
            hi,
        ).contains(s)) by {
            if range_shape_set(ind, lo, mid).contains(s) && range_shape_set(ind, mid, hi).contains(
                s,
            ) {
                let j1 = choose |j: int| lo <= j < mid && ind[j] as int == s;
                let j2 = choose |j: int| mid <= j < hi && ind[j] as int == s;
                assert(ind[j1] != ind[j2]);
            }
        };
    }
    if range_distinct(ind, lo, mid) && range_distinct(ind, mid, hi) && range_shape_set(
        ind,
        lo,
        mid,
    ).disjoint(range_shape_set(ind, mid, hi)) {
        assert forall |j1: int, j2: int| lo <= j1 < hi && lo <= j2 < hi && j1 != j2 implies
            ind[j1] != ind[j2] by {
            if j1 < mid && j2 >= mid {
                assert(range_shape_set(ind, lo, mid).contains(ind[j1] as int));
                assert(range_shape_set(ind, mid, hi).contains(ind[j2] as int));
            } else if j1 >= mid && j2 < mid {
                assert(range_shape_set(ind, lo, mid).contains(ind[j2] as int));
                assert(range_shape_set(ind, mid, hi).contains(ind[j1] as int));
            }
        };
    }
    assert forall |s: int| range_shape_set(ind, lo, hi).contains(s) implies (range_shape_set(
        ind,
        lo,
        mid,
    ) + range_shape_set(ind, mid, hi)).contains(s) by {
        let j = choose |j: int| lo <= j < hi && ind[j] as int == s;
        if j < mid {
            assert(range_shape_set(ind, lo, mid).contains(s));
        } else {
            assert(range_shape_set(ind, mid, hi).contains(s));
        }
    };
    assert forall |s: int| (range_shape_set(ind, lo, mid) + range_shape_set(
        ind,
        mid,
        hi,
    )).contains(s) implies range_shape_set(ind, lo, hi).contains(s) by {
        if range_shape_set(ind, lo, mid).contains(s) {
            let j = choose |j: int| lo <= j < mid && ind[j] as int == s;
            assert(lo <= j < hi && ind[j] as int == s);
        } else {
            let j = choose |j: int| mid <= j < hi && ind[j] as int == s;
            assert(lo <= j < hi && ind[j] as int == s);
        }
    };
    assert(range_shape_set(ind, lo, hi) =~= range_shape_set(ind, lo, mid) + range_shape_set(
        ind,
        mid,
        hi,
    ));
}

/// The node region `[rs, re)` is internally consistent: its root carries
/// the given parent index, every other node's parent link stays inside the
/// region and is mutual, children stay inside the region, every node meets
/// its local conditions, and every node's shape set sits inside the root's.
pub open spec fn region_ok<T: BHShape>(
    nodes: Seq<BVHNode>,
    sub: Map<int, Set<int>>,
    shapes: Seq<T>,
    rs: int,
    re: int,
    root: int,
    parent: int,
) -> bool {
    &&& rs <= root < re <= nodes.len()
    &&& nodes[root].parent() == parent
    &&& forall |i: int| rs <= i < re ==> node_ok(nodes, sub, shapes, i)
    &&& forall |i: int| rs <= i < re && i != root ==> parent_link_ok(nodes, i) && rs <= (
    #[trigger] nodes[i].parent()) < re
    &&& forall |i: int| rs <= i < re && !(#[trigger] nodes[i].is_leaf()) ==> rs <= nodes[i].left()
        < re && rs <= nodes[i].right() < re
    &&& forall |i: int| rs <= i < re ==> (#[trigger] sub[i]).subset_of(sub[root])
}

/// The second ghost map keeps the first's entries on `[rs, re)`.
pub open spec fn sub_agrees_on(a: Map<int, Set<int>>, b: Map<int, Set<int>>, rs: int, re: int) -> bool {
    forall |k: int| rs <= k < re ==> #[trigger] b.contains_key(k) && b[k] == a[k]
}

/// The second ghost map has the first's keys and entries everywhere outside
/// `[rs, re)`.
/// The maps agree at key `k`: the same presence, and the same entry where
/// present.
pub open spec fn key_preserved(a: Map<int, Set<int>>, b: Map<int, Set<int>>, k: int) -> bool {
    &&& b.contains_key(k) == a.contains_key(k)
    &&& a.contains_key(k) ==> b[k] == a[k]
}

pub open spec fn sub_preserved_outside(
    a: Map<int, Set<int>>,
    b: Map<int, Set<int>>,
    rs: int,
    re: int,
) -> bool {
    forall |k: int| !(rs <= k < re) ==> #[trigger] key_preserved(a, b, k)
}

/// Preservation outside two subranges chains into preservation outside a
/// range that covers both.
pub proof fn lemma_sub_preserved_trans(
    a: Map<int, Set<int>>,
    b: Map<int, Set<int>>,
    c: Map<int, Set<int>>,
    rs1: int,
    re1: int,
    rs2: int,
    re2: int,
    rs: int,
    re: int,
)
    requires
        sub_preserved_outside(a, b, rs1, re1),
        sub_preserved_outside(b, c, rs2, re2),
        rs <= rs1 <= re1 <= re,
        rs <= rs2 <= re2 <= re,
    ensures
        sub_preserved_outside(a, c, rs, re),
{
    assert forall |k: int| !(rs <= k < re) implies #[trigger] key_preserved(a, c, k) by {
        assert(key_preserved(a, b, k));
        assert(key_preserved(b, c, k));
    };
}

/// A consistent region stays consistent when the world around it changes:
/// nodes may be appended or rewritten outside the region, the ghost map may
/// gain keys outside it, and shapes the region does not own may change.
pub proof fn lemma_region_ok_frame<T: BHShape>(
    ns1: Seq<BVHNode>,
    sub1: Map<int, Set<int>>,
    sh1: Seq<T>,
    ns2: Seq<BVHNode>,
    sub2: Map<int, Set<int>>,
    sh2: Seq<T>,
    rs: int,
    re: int,
    root: int,
    parent: int,
)
    requires
        region_ok(ns1, sub1, sh1, rs, re, root, parent),
        re <= ns2.len(),
        forall |j: int| rs <= j < re ==> ns2[j] == ns1[j],
        sub_agrees_on(sub1, sub2, rs, re),
        sh2.len() == sh1.len(),
        forall |s: int| sub1[root].contains(s) ==> sh2[s] == sh1[s],
    ensures
        region_ok(ns2, sub2, sh2, rs, re, root, parent),
{
    assert forall |i: int| rs <= i < re implies node_ok(ns2, sub2, sh2, i) by {
        assert(node_ok(ns1, sub1, sh1, i));
        assert(ns2[i] == ns1[i]);
        assert(sub2.contains_key(i));
        assert(sub2[i] == sub1[i]);
        assert(sub1[i].subset_of(sub1[root]));
        match ns1[i] {
            BVHNode::Leaf { parent_index, shape_index } => {
                assert(sub1[i].contains(shape_index as int));
                assert(sub1[root].contains(shape_index as int));
                assert(sh2[shape_index as int] == sh1[shape_index as int]);
            },
            BVHNode::Node { parent_index, child_l_index, child_l_aabb, child_r_index, child_r_aabb } => {
                let l = child_l_index as int;
                let r = child_r_index as int;
                assert(!ns1[i].is_leaf());
                assert(ns1[i].left() == l && ns1[i].right() == r);
                assert(rs <= l < re && rs <= r < re);
                assert(ns2[l] == ns1[l] && ns2[r] == ns1[r]);
                assert(sub2.contains_key(l) && sub2.contains_key(r));
                assert(sub2[l] == sub1[l] && sub2[r] == sub1[r]);
                assert(sub1[l].subset_of(sub1[root]) && sub1[r].subset_of(sub1[root]));
                assert(child_box_ok(ns1, sub1, sh1, l, child_l_aabb));
                assert(child_box_ok(ns1, sub1, sh1, r, child_r_aabb));
                lemma_child_box_ok_frame(ns1, sub1, sh1, ns2, sub2, sh2, sub1[root], l, child_l_aabb);
                lemma_child_box_ok_frame(ns1, sub1, sh1, ns2, sub2, sh2, sub1[root], r, child_r_aabb);
            },
        }
    };
    assert forall |i: int| rs <= i < re && i != root implies parent_link_ok(ns2, i) && rs <= (
    #[trigger] ns2[i].parent()) < re by {
        assert(ns2[i] == ns1[i]);
        assert(parent_link_ok(ns1, i));
        assert(ns2[ns1[i].parent()] == ns1[ns1[i].parent()]);
    };
    assert forall |i: int| rs <= i < re && !(#[trigger] ns2[i].is_leaf()) implies rs <= ns2[i].left()
        < re && rs <= ns2[i].right() < re by {
        assert(ns2[i] == ns1[i]);
    };
    assert forall |i: int| rs <= i < re implies (#[trigger] sub2[i]).subset_of(sub2[root]) by {
        assert(sub2.contains_key(i));
        assert(sub2[i] == sub1[i]);
        assert(sub2.contains_key(root));
        assert(sub2[root] == sub1[root]);
        assert(sub1[i].subset_of(sub1[root]));
    };
}

/// A faithful stored child box stays faithful when neither the child node,
/// its shape set, nor the shapes below it change.
proof fn lemma_child_box_ok_frame<T: BHShape>(
    ns1: Seq<BVHNode>,
    sub1: Map<int, Set<int>>,
    sh1: Seq<T>,
    ns2: Seq<BVHNode>,
    sub2: Map<int, Set<int>>,
    sh2: Seq<T>,
    anchor: Set<int>,
    c: int,
    stored: AABB,
)
    requires
        0 <= c < ns1.len(),
        node_ok(ns1, sub1, sh1, c),
        child_box_ok(ns1, sub1, sh1, c, stored),
        sub1[c].subset_of(anchor),
        ns2[c] == ns1[c],
        sub2[c] == sub1[c],
        sh2.len() == sh1.len(),
        forall |s: int| anchor.contains(s) ==> sh2[s] == sh1[s],
    ensures
        child_box_ok(ns2, sub2, sh2, c, stored),
{
    if ns1[c].is_leaf() {
        let sh = ns1[c].shape();
        assert(sub1[c].contains(sh));
        assert(anchor.contains(sh));
        assert(sh2[sh] == sh1[sh]);
    } else {
        assert forall |s: int| sub2[c].contains(s) implies stored.contains_aabb(
            sh2[s].aabb_spec(),
        ) by {
            assert(sub1[c].contains(s));
            assert(anchor.contains(s));
            assert(sh2[s] == sh1[s]);
            assert(stored.contains_aabb(sh1[s].aabb_spec()));
        };
    }
}

/// A box covering, exactly for a single entry, the shapes of an index
/// range.
fn join_range<T: BHShape>(shapes: &Vec<T>, indices: &Vec<usize>, lo: usize, hi: usize) -> (r: AABB)
    requires
        shapes_wf(shapes@),
        lo < hi <= indices@.len(),
        range_below(indices@, lo as int, hi as int, shapes@.len() as int),
    ensures
        r.wf(),
        forall |s: int| range_shape_set(indices@, lo as int, hi as int).contains(s)
            ==> r.contains_aabb((#[trigger] shapes@[s].aabb_spec())),
        hi - lo == 1 ==> r == shapes@[indices@[lo as int] as int].aabb_spec(),
{
    let first = shapes[indices[lo]].aabb();
    let mut acc = first;
    let mut j: usize = lo + 1;
    while j < hi
        invariant
            shapes_wf(shapes@),
            lo < hi <= indices@.len(),
            lo + 1 <= j <= hi,
            range_below(indices@, lo as int, hi as int, shapes@.len() as int),
            acc.wf(),
            hi - lo == 1 ==> acc == shapes@[indices@[lo as int] as int].aabb_spec(),
            forall |k: int| lo <= k < j ==> acc.contains_aabb(
                (#[trigger] shapes@[indices@[k] as int].aabb_spec()),
            ),
        decreases hi - j,
    {
        let bb = shapes[indices[j]].aabb();
        proof {
            assert forall |k: int| lo <= k < j + 1 implies acc.spec_join(bb).contains_aabb(
                shapes@[indices@[k] as int].aabb_spec(),
            ) by {
                if k < j {
                    crate::aabb::lemma_join_covers(acc, bb, shapes@[indices@[k] as int].aabb_spec());
                } else {
                    crate::aabb::lemma_join_covers(acc, bb, bb);
                }
            };
        }
        acc = acc.join(&bb);
        j = j + 1;
    }
    proof {
        assert forall |s: int| range_shape_set(indices@, lo as int, hi as int).contains(s) implies
            acc.contains_aabb(shapes@[s].aabb_spec()) by {
            let k = choose |k: int| lo <= k < hi && indices@[k] as int == s;
        };
    }
    acc
}

/// The number of range entries that fell into the first `k` buckets.
pub open spec fn spec_prefix_count(counts: Seq<usize>, k: int) -> int {
    (if k >= 1 { counts[0] as int } else { 0 }) + (if k >= 2 { counts[1] as int } else { 0 }) + (
    if k >= 3 { counts[2] as int } else { 0 }) + (if k >= 4 { counts[3] as int } else { 0 }) + (
    if k >= 5 { counts[4] as int } else { 0 }) + (if k >= 6 { counts[5] as int } else { 0 })
}

/// Reorders `indices[lo..hi]` into two non-empty parts and returns the
/// boundary. The choice of split is a quality heuristic only; the contract
/// promises a valid permutation with both sides non-empty.
fn partition<T: BHShape>(shapes: &Vec<T>, indices: &mut Vec<usize>, lo: usize, hi: usize) -> (mid:
    usize)
    requires
        shapes_wf(shapes@),
        shapes@.len() <= MAX_SHAPES,
        lo < hi <= old(indices)@.len(),
        hi - lo >= 2,
        range_below(old(indices)@, lo as int, hi as int, shapes@.len() as int),
        range_distinct(old(indices)@, lo as int, hi as int),
    ensures
        lo < mid < hi,
        final(indices)@.len() == old(indices)@.len(),
        forall |j: int| 0 <= j < old(indices)@.len() && !(lo <= j < hi) ==> final(indices)@[j]
            == old(indices)@[j],
        range_below(final(indices)@, lo as int, hi as int, shapes@.len() as int),
        range_distinct(final(indices)@, lo as int, hi as int),
        range_shape_set(final(indices)@, lo as int, hi as int) == range_shape_set(
            old(indices)@,
            lo as int,
            hi as int,
        ),
{
    let fallback = lo + (hi - lo) / 2;
    // centroid bounds along each axis, over doubled centroids
    let mut cmin = Vector3 { x: i64::MAX, y: i64::MAX, z: i64::MAX };
    let mut cmax = Vector3 { x: i64::MIN, y: i64::MIN, z: i64::MIN };
    let mut j = lo;
    while j < hi
        invariant
            shapes_wf(shapes@),
            lo <= j <= hi <= indices@.len(),
            range_below(indices@, lo as int, hi as int, shapes@.len() as int),
            j == lo ==> cmin == (Vector3 { x: i64::MAX, y: i64::MAX, z: i64::MAX })
                && cmax == (Vector3 { x: i64::MIN, y: i64::MIN, z: i64::MIN }),
            j > lo ==> cmin.bounded(2 * crate::COORD_LIMIT as int) && cmax.bounded(
                2 * crate::COORD_LIMIT as int,
            ) && cmin.x <= cmax.x && cmin.y <= cmax.y && cmin.z <= cmax.z,
        decreases hi - j,
    {
        let bb = shapes[indices[j]].aabb();
        let c2 = bb.center2();
        cmin = cmin.min(c2);
        cmax = cmax.max(c2);
        j = j + 1;
    }
    let ex = cmax.x - cmin.x;
    let ey = cmax.y - cmin.y;
    let ez = cmax.z - cmin.z;
    let (axis_min, extent): (i64, i64) = if ex >= ey && ex >= ez {
        (cmin.x, ex)
    } else if ey >= ez {
        (cmin.y, ey)
    } else {
        (cmin.z, ez)
    };
    let pick_x = ex >= ey && ex >= ez;
    let pick_y = !pick_x && ey >= ez;
    if extent == 0 {
        return fallback;
    }
    // distribute the range into six equal-width buckets by centroid
    let mut counts: Vec<usize> = vec![0, 0, 0, 0, 0, 0];
    let mut bbs: Vec<AABB> = vec![
        AABB::empty(),
        AABB::empty(),
        AABB::empty(),
        AABB::empty(),
        AABB::empty(),
        AABB::empty(),
    ];
    let mut j = lo;
    while j < hi
        invariant
            shapes_wf(shapes@),
            lo <= j <= hi <= indices@.len(),
            range_below(indices@, lo as int, hi as int, shapes@.len() as int),
            counts@.len() == 6,
            bbs@.len() == 6,
            extent > 0,
            -2 * crate::COORD_LIMIT <= axis_min <= 2 * crate::COORD_LIMIT,
            extent <= 4 * crate::COORD_LIMIT,
            forall |b: int| 0 <= b < 6 ==> #[trigger] counts@[b] <= j - lo,
            counts@[0] + counts@[1] + counts@[2] + counts@[3] + counts@[4] + counts@[5] == j - lo,
            forall |b: int| 0 <= b < 6 ==> (#[trigger] bbs@[b]) == AABB::spec_empty() || bbs@[b].wf(),
            forall |b: int| 0 <= b < 6 ==> ((#[trigger] counts@[b] == 0) <==> bbs@[b]
                == AABB::spec_empty()),
        decreases hi - j,
    {
        let bb = shapes[indices[j]].aabb();
        let c2 = bb.center2();
        let c = if pick_x {
            c2.x
        } else if pick_y {
            c2.y
        } else {
            c2.z
        };
        let off = if c < axis_min {
            0
        } else {
            c - axis_min
        };
        let scaled = if off > 4 * crate::COORD_LIMIT {
            4 * crate::COORD_LIMIT
        } else {
            off
        };
        let bi = (scaled * 6 / extent) as usize;
        let b = if bi > 5 {
            5
        } else {
            bi
        };
        counts[b] = counts[b] + 1;
        let joined = bbs[b].join(&bb);
        proof {
            if bbs@[b as int] == AABB::spec_empty() {
                assert(joined == bb);
            }
            assert(joined.wf());
            assert(joined != AABB::spec_empty());
        }
        bbs[b] = joined;
        j = j + 1;
    }
    // suffix joins of the buckets
    let mut suffix: Vec<AABB> = Vec::new();
    suffix.push(AABB::empty());
    let mut t: usize = 6;
    while t > 0
        invariant
            counts@.len() == 6,
            bbs@.len() == 6,
            t <= 6,
            suffix@.len() == 7 - t,
            forall |b: int| 0 <= b < 6 ==> (#[trigger] bbs@[b]) == AABB::spec_empty() || bbs@[b].wf(),
            forall |b: int| 0 <= b < suffix@.len() ==> (#[trigger] suffix@[b])
                == AABB::spec_empty() || suffix@[b].wf(),
        decreases t,
    {
        t = t - 1;
        let prev = suffix[suffix.len() - 1];
        let joined = bbs[t].join(&prev);
        proof {
            if bbs@[t as int] == AABB::spec_empty() && prev == AABB::spec_empty() {
                assert(joined == AABB::spec_empty());
            } else if bbs@[t as int] == AABB::spec_empty() {
                assert(joined == prev);
            } else if prev == AABB::spec_empty() {
                assert(joined == bbs@[t as int]);
            }
        }
        suffix.push(joined);
    }
    // the surface-area cost of each boundary with both sides non-empty
    let mut best_k: usize = 0;
    let mut best_cost: i128 = 0;
    let mut lbb = AABB::empty();
    let mut lcount: usize = 0;
    let mut k: usize = 1;
    let total = hi - lo;
    while k < 6
        invariant
            counts@.len() == 6,
            bbs@.len() == 6,
            suffix@.len() == 7,
            forall |b: int| 0 <= b < 6 ==> (#[trigger] bbs@[b]) == AABB::spec_empty() || bbs@[b].wf(),
            forall |b: int| 0 <= b < 7 ==> (#[trigger] suffix@[b]) == AABB::spec_empty()
                || suffix@[b].wf(),
            forall |b: int| 0 <= b < 6 ==> #[trigger] counts@[b] <= hi - lo,
            counts@[0] + counts@[1] + counts@[2] + counts@[3] + counts@[4] + counts@[5] == hi - lo,
            1 <= k <= 6,
            lcount == spec_prefix_count(counts@, k as int - 1),
            lcount <= hi - lo,
            lcount > 0 ==> lbb.wf(),
            forall |b: int| 0 <= b < 6 ==> ((#[trigger] counts@[b] == 0) <==> bbs@[b]
                == AABB::spec_empty()),
            best_k <= 5,
            hi <= indices@.len(),
            lo < hi,
            total == hi - lo,
            lbb == AABB::spec_empty() || lbb.wf(),
        decreases 6 - k,
    {
        let joined = bbs[k - 1].join(&lbb);
        proof {
            if bbs@[k - 1] == AABB::spec_empty() && lbb == AABB::spec_empty() {
                assert(joined == AABB::spec_empty());
            } else if bbs@[k - 1] == AABB::spec_empty() {
                assert(joined == lbb);
            } else if lbb == AABB::spec_empty() {
                assert(joined == bbs@[k - 1]);
            }
        }
        lbb = joined;
        lcount = lcount + counts[k - 1];
        let rbb = suffix[k];
        if lcount > 0 && lcount < total {
            let la = lbb.surface_area();
            proof {
                assert(suffix@[k as int] == AABB::spec_empty() || suffix@[k as int].wf());
                if rbb.min.x != i64::MAX {
                    assert(rbb != AABB::spec_empty());
                    assert(rbb.wf());
                }
            }
            let ra: i64 = if rbb.min.x == i64::MAX {
                0
            } else {
                rbb.surface_area()
            };
            proof {
                crate::vector::lemma_mul_bound(
                    la as int,
                    lcount as int,
                    24 * crate::COORD_LIMIT * crate::COORD_LIMIT,
                    usize::MAX as int,
                );
                crate::vector::lemma_mul_bound(
                    ra as int,
                    (total - lcount) as int,
                    24 * crate::COORD_LIMIT * crate::COORD_LIMIT,
                    usize::MAX as int,
                );
                assert(0 <= (la as int) * (lcount as int) <= 24 * crate::COORD_LIMIT
                    * crate::COORD_LIMIT * (usize::MAX as int)) by (nonlinear_arith)
                    requires
                        0 <= la as int <= 24 * crate::COORD_LIMIT * crate::COORD_LIMIT,
                        0 <= lcount as int <= usize::MAX as int,
                ;
                assert(0 <= (ra as int) * ((total - lcount) as int) <= 24 * crate::COORD_LIMIT
                    * crate::COORD_LIMIT * (usize::MAX as int)) by (nonlinear_arith)
                    requires
                        0 <= ra as int <= 24 * crate::COORD_LIMIT * crate::COORD_LIMIT,
                        0 <= (total - lcount) as int <= usize::MAX as int,
                ;
            }
            let cost: i128 = (la as i128) * (lcount as i128) + (ra as i128) * ((total
                - lcount) as i128);
            if best_k == 0 || cost < best_cost {
                best_k = k;
                best_cost = cost;
            }
        }
        k = k + 1;
    }
    if best_k == 0 {
        return fallback;
    }
    // reorder the range so that the buckets left of the boundary come first
    let mut m = lo;
    let mut j = lo;
    let ghost orig = indices@;
    while j < hi
        invariant
            shapes_wf(shapes@),
            lo <= m <= j <= hi <= indices@.len(),
            indices@.len() == orig.len(),
            extent > 0,
            -2 * crate::COORD_LIMIT <= axis_min <= 2 * crate::COORD_LIMIT,
            extent <= 4 * crate::COORD_LIMIT,
            1 <= best_k <= 5,
            forall |jj: int| 0 <= jj < orig.len() && !(lo <= jj < hi) ==> indices@[jj] == orig[jj],
            range_below(indices@, lo as int, hi as int, shapes@.len() as int),
            range_distinct(indices@, lo as int, hi as int),
            range_shape_set(indices@, lo as int, hi as int) == range_shape_set(
                orig,
                lo as int,
                hi as int,
            ),
        decreases hi - j,
    {
        let bb = shapes[indices[j]].aabb();
        let c2 = bb.center2();
        let c = if pick_x {
            c2.x
        } else if pick_y {
            c2.y
        } else {
            c2.z
        };
        let off = if c < axis_min {
            0
        } else {
            c - axis_min
        };
        let scaled = if off > 4 * crate::COORD_LIMIT {
            4 * crate::COORD_LIMIT
        } else {
            off
        };
        let bi = (scaled * 6 / extent) as usize;
        let b = if bi > 5 {
            5
        } else {
            bi
        };
        if b < best_k {
            let ghost before = indices@;
            let va = indices[m];
            let vb = indices[j];
            indices[m] = vb;
            indices[j] = va;
            proof {
                lemma_swap_preserves_range(
                    before,
                    indices@,
                    lo as int,
                    hi as int,
                    m as int,
                    j as int,
                );
            }
            m = m + 1;
        }
        j = j + 1;
    }
    if m == lo || m == hi {
        fallback
    } else {
        m
    }
}

/// Recursively builds the subtree over `indices[lo..hi]`, appending its
/// nodes to `nodes` and returning the subtree root's index together with
/// the extended ghost subtree map.
fn build_rec<T: BHShape>(
    shapes: &mut Vec<T>,
    indices: &mut Vec<usize>,
    lo: usize,
    hi: usize,
    nodes: &mut Vec<BVHNode>,
    parent: usize,
    sub: Ghost<Map<int, Set<int>>>,
) -> (ret: (usize, Ghost<Map<int, Set<int>>>))
    requires
        old(shapes)@.len() <= MAX_SHAPES,
        shapes_wf(old(shapes)@),
        lo < hi <= old(indices)@.len(),
        range_below(old(indices)@, lo as int, hi as int, old(shapes)@.len() as int),
        range_distinct(old(indices)@, lo as int, hi as int),
        old(nodes)@.len() + 2 * ((hi - lo) as int) - 1 <= 2 * old(shapes)@.len() - 1,
    ensures
        ret.0 == old(nodes)@.len(),
        final(nodes)@.len() == old(nodes)@.len() + 2 * ((hi - lo) as int) - 1,
        forall |j: int| 0 <= j < old(nodes)@.len() ==> final(nodes)@[j] == old(nodes)@[j],
        final(indices)@.len() == old(indices)@.len(),
        forall |j: int| 0 <= j < old(indices)@.len() && !(lo <= j < hi) ==> final(indices)@[j]
            == old(indices)@[j],
        range_below(final(indices)@, lo as int, hi as int, final(shapes)@.len() as int),
        range_distinct(final(indices)@, lo as int, hi as int),
        range_shape_set(final(indices)@, lo as int, hi as int) == range_shape_set(
            old(indices)@,
            lo as int,
            hi as int,
        ),
        sub_preserved_outside(sub@, ret.1@, old(nodes)@.len() as int, final(nodes)@.len() as int),
        ret.1@[ret.0 as int] == range_shape_set(old(indices)@, lo as int, hi as int),
        region_ok(
            final(nodes)@,
            ret.1@,
            final(shapes)@,
            old(nodes)@.len() as int,
            final(nodes)@.len() as int,
            ret.0 as int,
            parent as int,
        ),
        final(shapes)@.len() == old(shapes)@.len(),
        forall |s: int| 0 <= s < old(shapes)@.len() ==> (#[trigger] final(shapes)@[s].aabb_spec())
            == old(shapes)@[s].aabb_spec(),
        forall |s: int| 0 <= s < old(shapes)@.len() && !ret.1@[ret.0 as int].contains(s) ==> (
        #[trigger] final(shapes)@[s]) == old(shapes)@[s],
        forall |s: int| ret.1@[ret.0 as int].contains(s) ==> shape_link_ok(
            final(nodes)@,
            final(shapes)@,
            s,
        ),
    decreases hi - lo,
{
    let ghost n0 = old(nodes)@.len() as int;
    if hi - lo == 1 {
        let me = nodes.len();
        let s = indices[lo];
        nodes.push(BVHNode::Leaf { parent_index: parent, shape_index: s });
        shapes[s].set_bh_node_index(me);
        let ghost leaf_set = Set::<int>::empty().insert(s as int);
        let ghost sub2 = sub@.insert(me as int, leaf_set);
        proof {
            assert forall |t: int| range_shape_set(old(indices)@, lo as int, hi as int).contains(
                t,
            ) implies leaf_set.contains(t) by {
                let j = choose |j: int| lo <= j < hi && old(indices)@[j] as int == t;
                assert(j == lo);
            };
            assert(leaf_set.contains(s as int)) by {
                assert(old(indices)@[lo as int] as int == s as int);
            };
            assert(range_shape_set(old(indices)@, lo as int, hi as int).contains(s as int));
            assert(range_shape_set(old(indices)@, lo as int, hi as int) =~= leaf_set);
            assert(node_ok(final(nodes)@, sub2, final(shapes)@, me as int));
            assert(region_ok(
                final(nodes)@,
                sub2,
                final(shapes)@,
                n0,
                n0 + 1,
                me as int,
                parent as int,
            ));
        }
        (me, Ghost(sub2))
    } else {
        let ghost sh0 = old(shapes)@;
        let ghost ind0 = old(indices)@;
        let me = nodes.len();
        nodes.push(
            BVHNode::Node {
                parent_index: parent,
                child_l_index: 0,
                child_l_aabb: AABB::empty(),
                child_r_index: 0,
                child_r_aabb: AABB::empty(),
            },
        );
        let mid = partition(shapes, indices, lo, hi);
        let ghost ind1 = indices@;
        proof {
            lemma_distinct_split(ind1, lo as int, mid as int, hi as int);
        }
        let (l_idx, sub_l) = build_rec(shapes, indices, lo, mid, nodes, me, sub);
        let ghost ns2 = nodes@;
        let ghost sh2 = shapes@;
        let ghost ind2 = indices@;
        proof {
            lemma_range_shape_set_agree(ind1, ind2, mid as int, hi as int);
        }
        let (r_idx, sub_r) = build_rec(shapes, indices, mid, hi, nodes, me, sub_l);
        let ghost ns3 = nodes@;
        let ghost sh3 = shapes@;
        let ghost ind3 = indices@;
        proof {
            lemma_range_shape_set_agree(ind2, ind3, lo as int, mid as int);
        }
        let aabb_l = join_range(shapes, indices, lo, mid);
        let aabb_r = join_range(shapes, indices, mid, hi);
        let new_node = BVHNode::Node {
            parent_index: parent,
            child_l_index: l_idx,
            child_l_aabb: aabb_l,
            child_r_index: r_idx,
            child_r_aabb: aabb_r,
        };
        nodes[me] = new_node;
        let ghost ns4 = nodes@;
        let ghost left_set = sub_l@[l_idx as int];
        let ghost right_set = sub_r@[r_idx as int];
        let ghost sub4 = sub_r@.insert(me as int, left_set + right_set);
        proof {
            let m = me as int;
            let li = l_idx as int;
            let ri = r_idx as int;
            let le = ns2.len() as int;
            let re = ns3.len() as int;
            // the two half sets are the pre-partition halves, hence disjoint
            assert(left_set == range_shape_set(ind1, lo as int, mid as int));
            assert(right_set == range_shape_set(ind1, mid as int, hi as int));
            assert(left_set.disjoint(right_set));
            lemma_range_shape_set_props(ind1, lo as int, mid as int);
            lemma_range_shape_set_props(ind1, mid as int, hi as int);
            // the final index range still splits into the same two sets
            assert(range_shape_set(ind3, lo as int, mid as int) == left_set);
            assert(range_shape_set(ind3, mid as int, hi as int) == right_set);
            lemma_distinct_split(ind3, lo as int, mid as int, hi as int);
            assert(range_distinct(ind3, lo as int, hi as int));
            assert(range_shape_set(ind3, lo as int, hi as int) == left_set + right_set);
            assert(range_shape_set(ind1, lo as int, hi as int) == left_set + right_set);
            // left region carried to the final state
            assert forall |s: int| left_set.contains(s) implies sh3[s] == sh2[s] by {
                assert(!right_set.contains(s));
            };
            assert(sub_agrees_on(sub_l@, sub4, m + 1, le)) by {
                assert forall |k: int| m + 1 <= k < le implies #[trigger] sub4.contains_key(k)
                    && sub4[k] == sub_l@[k] by {
                    assert(node_ok(ns2, sub_l@, sh2, k));
                    assert(sub_l@.contains_key(k));
                    assert(!(le <= k < re));
                    assert(key_preserved(sub_l@, sub_r@, k));
                    assert(sub_r@.contains_key(k) && sub_r@[k] == sub_l@[k]);
                };
            };
            lemma_region_ok_frame(ns2, sub_l@, sh2, ns4, sub4, sh3, m + 1, le, li, m);
            // right region carried to the final state
            assert(sub_agrees_on(sub_r@, sub4, le, re)) by {
                assert forall |k: int| le <= k < re implies #[trigger] sub4.contains_key(k)
                    && sub4[k] == sub_r@[k] by {
                    assert(node_ok(ns3, sub_r@, sh3, k));
                    assert(sub_r@.contains_key(k));
                };
            };
            lemma_region_ok_frame(ns3, sub_r@, sh3, ns4, sub4, sh3, le, re, ri, m);
            // the new node itself
            assert(region_ok(ns4, sub4, sh3, m + 1, le, li, m));
            assert(region_ok(ns4, sub4, sh3, le, re, ri, m));
            assert(node_ok(ns4, sub4, sh3, li));
            assert(node_ok(ns4, sub4, sh3, ri));
            assert(sub4[li] == left_set && sub4[ri] == right_set);
            if ns4[li].is_leaf() {
                assert(sub4[li] == Set::<int>::empty().insert(ns4[li].shape()));
                assert(left_set.len() == (mid - lo) as int);
                assert(Set::<int>::empty().insert(ns4[li].shape()).len() == 1);
                assert((mid - lo) as int == 1);
                assert(left_set.contains(ns4[li].shape()));
                assert(range_shape_set(ind3, lo as int, mid as int).contains(
                    ind3[lo as int] as int,
                )) by {
                    assert(lo <= lo < mid && ind3[lo as int] as int == ind3[lo as int] as int);
                };
                assert(ns4[li].shape() == ind3[lo as int] as int);
                assert(aabb_l == sh3[ns4[li].shape()].aabb_spec());
            }
            assert(child_box_ok(ns4, sub4, sh3, li, aabb_l));
            if ns4[ri].is_leaf() {
                assert(sub4[ri] == Set::<int>::empty().insert(ns4[ri].shape()));
                assert(right_set.len() == (hi - mid) as int);
                assert(Set::<int>::empty().insert(ns4[ri].shape()).len() == 1);
                assert((hi - mid) as int == 1);
                assert(right_set.contains(ns4[ri].shape()));
                assert(range_shape_set(ind3, mid as int, hi as int).contains(
                    ind3[mid as int] as int,
                )) by {
                    assert(mid <= mid < hi && ind3[mid as int] as int == ind3[mid as int] as int);
                };
                assert(ns4[ri].shape() == ind3[mid as int] as int);
                assert(aabb_r == sh3[ns4[ri].shape()].aabb_spec());
            }
            assert(child_box_ok(ns4, sub4, sh3, ri, aabb_r));
            vstd::set_lib::lemma_set_union_finite_iff(left_set, right_set);
            lemma_set_disjoint_lens(left_set, right_set);
            assert(sub4[m].len() >= 1);
            assert forall |s: int| sub4[m].contains(s) implies 0 <= s < sh3.len() by {
                if left_set.contains(s) {
                    assert(node_ok(ns4, sub4, sh3, li));
                    assert(sub4[li].contains(s));
                } else {
                    assert(node_ok(ns4, sub4, sh3, ri));
                    assert(sub4[ri].contains(s));
                }
            };
            assert(node_ok(ns4, sub4, sh3, m));
            // stitch the full region together
            assert forall |i: int| n0 <= i < ns4.len() implies node_ok(ns4, sub4, sh3, i) by {
                if i != m {
                    if i < le {
                        assert(region_ok(ns4, sub4, sh3, m + 1, le, li, m));
                    } else {
                        assert(region_ok(ns4, sub4, sh3, le, re, ri, m));
                    }
                }
            };
            assert forall |i: int| n0 <= i < ns4.len() && i != m implies parent_link_ok(ns4, i)
                && n0 <= ns4[i].parent() < ns4.len() by {
                if i == li {
                    assert(ns4[m].left() == li);
                } else if i == ri {
                    assert(ns4[m].right() == ri);
                } else if i < le {
                    assert(region_ok(ns4, sub4, sh3, m + 1, le, li, m));
                } else {
                    assert(region_ok(ns4, sub4, sh3, le, re, ri, m));
                }
            };
            assert forall |i: int| n0 <= i < ns4.len() && !(#[trigger] ns4[i].is_leaf()) implies
                n0 <= ns4[i].left() < ns4.len() && n0 <= ns4[i].right() < ns4.len() by {
                if i != m {
                    if i < le {
                        assert(region_ok(ns4, sub4, sh3, m + 1, le, li, m));
                    } else {
                        assert(region_ok(ns4, sub4, sh3, le, re, ri, m));
                    }
                }
            };
            assert forall |i: int| n0 <= i < ns4.len() implies (#[trigger] sub4[i]).subset_of(
                sub4[m],
            ) by {
                if i != m {
                    if i < le {
                        assert(sub4[i].subset_of(sub4[li]));
                    } else {
                        assert(sub4[i].subset_of(sub4[ri]));
                    }
                }
            };
            assert(region_ok(ns4, sub4, sh3, n0, ns4.len() as int, m, parent as int));
            // ghost map unchanged outside the new region
            lemma_sub_preserved_trans(sub@, sub_l@, sub_r@, m + 1, le, le, re, n0, re);
            assert(sub_preserved_outside(sub_r@, sub4, m, m + 1)) by {
                assert forall |k: int| !(m <= k < m + 1) implies #[trigger] key_preserved(
                    sub_r@,
                    sub4,
                    k,
                ) by {
                    assert(k != m);
                };
            };
            lemma_sub_preserved_trans(sub@, sub_r@, sub4, n0, re, m, m + 1, n0, re);
            // shape back-links survive the stitching
            assert forall |s: int| sub4[m].contains(s) implies shape_link_ok(ns4, sh3, s) by {
                if left_set.contains(s) {
                    assert(shape_link_ok(ns2, sh2, s));
                    let leaf = sh2[s].node_index_spec() as int;
                    assert(leaf != m);
                    assert(ns4[leaf] == ns2[leaf]);
                    assert(sh3[s] == sh2[s]);
                } else {
                    assert(right_set.contains(s));
                    assert(shape_link_ok(ns3, sh3, s));
                    let leaf = sh3[s].node_index_spec() as int;
                    assert(leaf != m);
                    assert(ns4[leaf] == ns3[leaf]);
                }
            };
        }
        (me, Ghost(sub4))
    }
}

/// A binary bounding volume hierarchy over a caller-owned shape array.
pub struct BVH {
    /// The node array; index 0 is the root when non-empty.
    pub nodes: Vec<BVHNode>,
    /// For each node index, the set of shape indices below that node.
    pub subtree: Ghost<Map<int, Set<int>>>,
}

impl BVH {
    /// The ghost subtree map.
    pub open spec fn sub(self) -> Map<int, Set<int>> {
        self.subtree@
    }

    /// The set of shape indices the tree covers.
    pub open spec fn covered(self) -> Set<int> {
        if self.nodes@.len() == 0 {
            Set::<int>::empty()
        } else {
            self.sub()[0]
        }
    }

    /// Well-formedness of the whole tree against a shape array. This is the
    /// conjunction of the structural invariants: the node count is one less
    /// than twice the leaf count, parent links and back-links are mutually
    /// consistent, subtree shape sets partition correctly, and every stored
    /// child box covers its subtree.
    pub open spec fn wf<T: BHShape>(self, shapes: Seq<T>) -> bool {
        let nodes = self.nodes@;
        let sub = self.sub();
        nodes.len() != 0 ==> {
            &&& nodes.len() == 2 * self.covered().len() - 1
            &&& nodes[0].parent() == 0
            &&& forall |i: int| 0 <= i < nodes.len() ==> node_ok(nodes, sub, shapes, i)
            &&& forall |i: int| 0 <= i < nodes.len() ==> (#[trigger] sub[i]).subset_of(sub[0])
            &&& forall |i: int| 1 <= i < nodes.len() ==> parent_link_ok(nodes, i)
            &&& forall |s: int| self.covered().contains(s) ==> shape_link_ok(nodes, shapes, s)
        }
    }

    /// Builds a hierarchy over every shape in the array, writing each shape's
    /// leaf index back into it. Shapes themselves are never reordered and their
    /// boxes never change; an empty array yields the empty tree.
    pub fn build<T: BHShape>(shapes: &mut Vec<T>) -> (r: BVH)
        requires
            old(shapes)@.len() <= MAX_SHAPES,
            shapes_wf(old(shapes)@),
        ensures
            final(shapes)@.len() == old(shapes)@.len(),
            forall |s: int| 0 <= s < old(shapes)@.len() ==> (#[trigger] final(shapes)@[s].aabb_spec())
                == old(shapes)@[s].aabb_spec(),
            shapes_wf(final(shapes)@),
            r.wf(final(shapes)@),
            r.covered() == Set::new(|s: int| 0 <= s < final(shapes)@.len()),
            r.nodes@.len() == if old(shapes)@.len() == 0 {
                0int
            } else {
                2 * old(shapes)@.len() - 1
            },
    {
        let n = shapes.len();
        let mut nodes: Vec<BVHNode> = Vec::new();
        if n == 0 {
            let r = BVH { nodes, subtree: Ghost(Map::empty()) };
            proof {
                assert(r.covered() =~= Set::new(|s: int| 0 <= s < final(shapes)@.len()));
            }
            return r;
        }
        let mut indices: Vec<usize> = Vec::new();
        let mut i: usize = 0;
        while i < n
            invariant
                i <= n,
                indices@.len() == i as int,
                forall |j: int| 0 <= j < i ==> indices@[j] == j,
            decreases n - i,
        {
            indices.push(i);
            i = i + 1;
        }
        let ghost ind0 = indices@;
        let (root, sub) = build_rec(shapes, &mut indices, 0, n, &mut nodes, 0, Ghost(Map::empty()));
        let r = BVH { nodes, subtree: Ghost(sub@) };
        proof {
            let full = range_shape_set(ind0, 0, n as int);
            assert forall |s: int| full.contains(s) implies 0 <= s < n by {
                let j = choose |j: int| 0 <= j < n && ind0[j] as int == s;
            };
            assert forall |s: int| 0 <= s < n implies full.contains(s) by {
                assert(ind0[s] as int == s);
            };
            assert(full =~= Set::new(|s: int| 0 <= s < final(shapes)@.len()));
            assert(range_distinct(ind0, 0, n as int));
            lemma_range_shape_set_props(ind0, 0, n as int);
            assert(r.covered().len() == n as int);
            assert forall |s: int| r.covered().contains(s) implies shape_link_ok(
                r.nodes@,
                final(shapes)@,
                s,
            ) by {};
            assert(r.wf(final(shapes)@));
        }
        r
    }

    /// Below an internal node, each child owns strictly fewer shapes than
    /// the node itself.
    pub proof fn lemma_child_smaller<T: BHShape>(self, shapes: Seq<T>, i: int)
        requires
            self.wf(shapes),
            0 <= i < self.nodes@.len(),
            !self.nodes@[i].is_leaf(),
        ensures
            self.sub()[self.nodes@[i].left()].len() < self.sub()[i].len(),
            self.sub()[self.nodes@[i].right()].len() < self.sub()[i].len(),
    {
        let l = self.nodes@[i].left();
        let r = self.nodes@[i].right();
        assert(node_ok(self.nodes@, self.sub(), shapes, i));
        assert(node_ok(self.nodes@, self.sub(), shapes, l));
        assert(node_ok(self.nodes@, self.sub(), shapes, r));
        lemma_set_disjoint_lens(self.sub()[l], self.sub()[r]);
    }

    /// Collects, below `node`, every shape whose own box the query hits.
    fn traverse_rec<Q: IntersectionAABB, T: BHShape>(
        &self,
        query: &Q,
        shapes: &Vec<T>,
        node: usize,
        out: &mut Vec<usize>,
    )
        requires
            self.wf(shapes@),
            shapes_wf(shapes@),
            query.query_wf(),
            self.nodes@.len() != 0,
            (node as int) < self.nodes@.len(),
            self.nodes@[node as int].is_leaf() ==> query.hits_spec(
                shapes@[self.nodes@[node as int].shape()].aabb_spec(),
            ),
        ensures
            forall |s: usize| final(out)@.contains(s) <==> old(out)@.contains(s)
                || (self.sub()[node as int].contains(s as int) && query.hits_spec(
                    shapes@[s as int].aabb_spec(),
                )),
        decreases self.sub()[node as int].len(),
    {
        proof {
            assert(node_ok(self.nodes@, self.sub(), shapes@, node as int));
        }
        let n = self.nodes[node];
        match n {
            BVHNode::Leaf { parent_index, shape_index } => {
                out.push(shape_index);
                proof {
                    let pushed = old(out)@.push(shape_index);
                    assert forall |s: usize| #[trigger] final(out)@.contains(s) implies
                        old(out)@.contains(s) || (self.sub()[node as int].contains(s as int)
                            && query.hits_spec(shapes@[s as int].aabb_spec())) by {
                        let j = choose |j: int| 0 <= j < pushed.len() && pushed[j] == s;
                        if j < old(out)@.len() {
                            assert(old(out)@[j] == s);
                        } else {
                            assert(s == shape_index);
                        }
                    };
                    assert forall |s: usize| old(out)@.contains(s)
                        || (self.sub()[node as int].contains(s as int) && query.hits_spec(
                            shapes@[s as int].aabb_spec(),
                        )) implies #[trigger] final(out)@.contains(s) by {
                        if old(out)@.contains(s) {
                            let j = choose |j: int| 0 <= j < old(out)@.len() && old(out)@[j] == s;
                            assert(pushed[j] == s);
                        } else {
                            assert(s as int == shape_index as int);
                            assert(pushed[pushed.len() - 1] == s);
                        }
                    };
                }
            },
            BVHNode::Node { parent_index, child_l_index, child_l_aabb, child_r_index, child_r_aabb } => {
                proof {
                    self.lemma_child_smaller(shapes@, node as int);
                    assert(node_ok(self.nodes@, self.sub(), shapes@, child_l_index as int));
                    assert(node_ok(self.nodes@, self.sub(), shapes@, child_r_index as int));
                }
                let ghost mid = out@;
                if query.intersects_aabb(&child_l_aabb) {
                    self.traverse_rec(query, shapes, child_l_index, out);
                } else {
                    proof {
                        self.lemma_pruned_subtree_misses(query, shapes@, child_l_index as int, child_l_aabb);
                    }
                }
                let ghost after_l = out@;
                if query.intersects_aabb(&child_r_aabb) {
                    self.traverse_rec(query, shapes, child_r_index, out);
                } else {
                    proof {
                        self.lemma_pruned_subtree_misses(query, shapes@, child_r_index as int, child_r_aabb);
                    }
                }
            },
        }
    }

    /// If the stored box of a subtree misses the query, so does the own box
    /// of every shape below that subtree.
    proof fn lemma_pruned_subtree_misses<Q: IntersectionAABB, T: BHShape>(
        self,
        query: &Q,
        shapes: Seq<T>,
        c: int,
        stored: AABB,
    )
        requires
            self.wf(shapes),
            shapes_wf(shapes),
            query.query_wf(),
            self.nodes@.len() != 0,
            0 <= c < self.nodes@.len(),
            stored.wf(),
            child_box_ok(self.nodes@, self.sub(), shapes, c, stored),
            !query.hits_spec(stored),
        ensures
            forall |s: int| self.sub()[c].contains(s) ==> !query.hits_spec(
                (#[trigger] shapes[s].aabb_spec()),
            ),
    {
        assert(node_ok(self.nodes@, self.sub(), shapes, c));
        assert forall |s: int| self.sub()[c].contains(s) implies !query.hits_spec(
            shapes[s].aabb_spec(),
        ) by {
            if self.nodes@[c].is_leaf() {
                assert(self.sub()[c] == Set::<int>::empty().insert(self.nodes@[c].shape()));
                assert(s == self.nodes@[c].shape());
            } else {
                if query.hits_spec(shapes[s].aabb_spec()) {
                    query.lemma_hits_monotone(shapes[s].aabb_spec(), stored);
                }
            }
        };
    }

    /// Returns every shape whose bounding box the query volume hits. The
    /// result, read as a set, is exactly the brute-force answer over the
    /// covered shapes; the tree only accelerates the search.
    pub fn traverse<Q: IntersectionAABB, T: BHShape>(
        &self,
        query: &Q,
        shapes: &Vec<T>,
    ) -> (r: Vec<usize>)
        requires
            self.wf(shapes@),
            shapes_wf(shapes@),
            query.query_wf(),
        ensures
            forall |s: usize| r@.contains(s) <==> (self.covered().contains(s as int)
                && query.hits_spec(shapes@[s as int].aabb_spec())),
    {
        let mut out: Vec<usize> = Vec::new();
        if self.nodes.len() == 0 {
            return out;
        }
        proof {
            assert(node_ok(self.nodes@, self.sub(), shapes@, 0));
        }
        let root = self.nodes[0];
        match root {
            BVHNode::Leaf { parent_index, shape_index } => {
                let bb = shapes[shape_index].aabb();
                if query.intersects_aabb(&bb) {
                    out.push(shape_index);
                    proof {
                        assert(out@[0] == shape_index);
                        assert forall |s: usize| out@.contains(s) implies s == shape_index by {
                            let j = choose |j: int| 0 <= j < out@.len() && out@[j] == s;
                        };
                    }
                }
            },
            BVHNode::Node { .. } => {
                self.traverse_rec(query, shapes, 0, &mut out);
            },
        }
        out
    }
}

/// Adding a fresh shape and then removing it leaves the covered set where
/// it started.
pub proof fn lemma_add_remove_covered(c: Set<int>, i: int)
    requires
        !c.contains(i),
    ensures
        c.insert(i).remove(i) == c,
{
    assert(c.insert(i).remove(i) =~= c);
}

/// Round-trip of mutation: any two well-formed trees over the same shape
/// array that cover the same shapes answer every query with the same hit
/// set. In particular, a tree built, grown by one fresh shape, and pruned
/// of it again answers exactly as the freshly built tree did.
pub proof fn lemma_same_cover_same_hits<Q: IntersectionAABB, T: BHShape>(
    q: Q,
    shapes: Seq<T>,
    b1: BVH,
    b2: BVH,
    r1: Seq<usize>,
    r2: Seq<usize>,
)
    requires
        b1.wf(shapes),
        b2.wf(shapes),
        b1.covered() == b2.covered(),
        forall |s: usize| r1.contains(s) <==> (b1.covered().contains(s as int) && q.hits_spec(
            shapes[s as int].aabb_spec(),
        )),
        forall |s: usize| r2.contains(s) <==> (b2.covered().contains(s as int) && q.hits_spec(
            shapes[s as int].aabb_spec(),
        )),
    ensures
        forall |s: usize| r1.contains(s) <==> r2.contains(s),
{
}

/// Almost `node_ok` at `cur` during an insertion: `cur`'s shape set has
/// already taken the new shape `ii`, its children's sets have not yet, and
/// everything else about the node is intact.
pub open spec fn insert_pending<T: BHShape>(
    ns: Seq<BVHNode>,
    sub: Map<int, Set<int>>,
    sh: Seq<T>,
    cur: int,
    ii: int,
) -> bool {
    &&& 0 <= cur < ns.len()
    &&& !ns[cur].is_leaf()
    &&& sub.contains_key(cur)
    &&& sub[cur].finite()
    &&& sub[cur].contains(ii)
    &&& (forall |s: int| sub[cur].contains(s) ==> 0 <= s < sh.len())
    &&& {
        let l = ns[cur].left();
        let r = ns[cur].right();
        &&& 0 < l < ns.len()
        &&& 0 < r < ns.len()
        &&& l != r
        &&& ns[l].parent() == cur
        &&& ns[r].parent() == cur
        &&& sub.contains_key(l)
        &&& sub.contains_key(r)
        &&& sub[cur].remove(ii) == sub[l] + sub[r]
        &&& !sub[l].contains(ii)
        &&& !sub[r].contains(ii)
        &&& sub[l].disjoint(sub[r])
        &&& ns[cur].left_aabb().wf()
        &&& ns[cur].right_aabb().wf()
        &&& child_box_ok(ns, sub, sh, l, ns[cur].left_aabb())
        &&& child_box_ok(ns, sub, sh, r, ns[cur].right_aabb())
    }
}

impl BVH {
    /// Inserts one more shape: descend from the root, at each node entering
    /// the child whose stored box grows least, growing that box on the way;
    /// the leaf reached moves down and becomes an internal node over itself
    /// and a fresh leaf for the new shape. The shape must not already be
    /// covered.
    pub fn add_node<T: BHShape>(&mut self, shapes: &mut Vec<T>, new_shape_index: usize)
        requires
            old(self).wf(old(shapes)@),
            shapes_wf(old(shapes)@),
            (new_shape_index as int) < old(shapes)@.len(),
            !old(self).covered().contains(new_shape_index as int),
            old(shapes)@.len() <= MAX_SHAPES,
        ensures
            final(self).wf(final(shapes)@),
            final(self).covered() == old(self).covered().insert(new_shape_index as int),
            final(shapes)@.len() == old(shapes)@.len(),
            forall |s: int| 0 <= s < old(shapes)@.len() ==> (
            #[trigger] final(shapes)@[s].aabb_spec()) == old(shapes)@[s].aabb_spec(),
            shapes_wf(final(shapes)@),
    {
        let i = new_shape_index;
        let ghost ii = i as int;
        let ghost c0 = old(self).covered();
        let new_bb = shapes[i].aabb();
        if self.nodes.len() == 0 {
            self.nodes.push(BVHNode::Leaf { parent_index: 0, shape_index: i });
            shapes[i].set_bh_node_index(0);
            let ghost subn = self.subtree@.insert(0, Set::<int>::empty().insert(ii));
            proof {
                self.subtree@ = subn;
                assert(node_ok(self.nodes@, self.sub(), shapes@, 0));
                assert(self.covered() =~= c0.insert(ii));
            }
            return;
        }
        let ghost ns0 = self.nodes@;
        let ghost sub0 = self.subtree@;
        let ghost sh0 = shapes@;
        proof {
            assert(node_ok(ns0, sub0, sh0, 0));
            let rng = vstd::set_lib::set_int_range(0, shapes@.len() as int);
            vstd::set_lib::lemma_int_range(0, shapes@.len() as int);
            assert(sub0[0].subset_of(rng));
            vstd::set_lib::lemma_len_subset(sub0[0], rng);
            assert(self.nodes@.len() < 2 * MAX_SHAPES);
            assert forall |j: int| 0 <= j < ns0.len() implies !(#[trigger] sub0[j]).contains(
                ii,
            ) by {
                assert(sub0[j].subset_of(sub0[0]));
            };
        }
        let is_root_leaf = match self.nodes[0] {
            BVHNode::Leaf { .. } => true,
            BVHNode::Node { .. } => false,
        };
        if is_root_leaf {
            // a single-leaf tree becomes a three-node tree in place
            let s_old = self.nodes[0];
            let so = match s_old {
                BVHNode::Leaf { shape_index, .. } => shape_index,
                BVHNode::Node { .. } => 0,
            };
            let old_bb = shapes[so].aabb();
            self.nodes.push(BVHNode::Leaf { parent_index: 0, shape_index: so });
            self.nodes.push(BVHNode::Leaf { parent_index: 0, shape_index: i });
            self.nodes[0] = BVHNode::Node {
                parent_index: 0,
                child_l_index: 1,
                child_l_aabb: old_bb,
                child_r_index: 2,
                child_r_aabb: new_bb,
            };
            shapes[so].set_bh_node_index(1);
            shapes[i].set_bh_node_index(2);
            let ghost oldset = Set::<int>::empty().insert(so as int);
            let ghost newset = Set::<int>::empty().insert(ii);
            let ghost subn = sub0.insert(1, oldset).insert(2, newset).insert(0, oldset + newset);
            proof {
                self.subtree@ = subn;
                let ns = self.nodes@;
                let sh = shapes@;
                assert(sub0[0] == oldset);
                assert(so as int != ii);
                vstd::set_lib::lemma_set_disjoint_lens(oldset, newset);
                assert(ns0.len() == 2 * sub0[0].len() - 1);
                assert(ns.len() == 3);
                assert forall |j: int| 0 <= j < 3 implies node_ok(ns, subn, sh, j) by {
                    assert(subn[0] =~= subn[1] + subn[2]);
                };
                assert forall |s: int| subn[0].contains(s) implies shape_link_ok(ns, sh, s) by {
                    if s == ii {
                        assert(ns[2].is_leaf() && ns[2].shape() == s);
                    } else {
                        assert(s == so as int);
                        assert(ns[1].is_leaf() && ns[1].shape() == s);
                    }
                };
                assert(self.covered() =~= c0.insert(ii));
                assert(self.wf(sh));
            }
            return;
        }
        // take the new shape into the root's set, then descend
        let ghost sub1 = sub0.insert(0, sub0[0].insert(ii));
        proof {
            self.subtree@ = sub1;
            assert(sub0[0].insert(ii).remove(ii) =~= sub0[0]);
            assert(insert_pending(self.nodes@, sub1, shapes@, 0, ii));
            assert forall |j: int| 0 <= j < ns0.len() && j != 0 implies node_ok(
                self.nodes@,
                sub1,
                shapes@,
                j,
            ) by {
                assert(node_ok(ns0, sub0, sh0, j));
                if !ns0[j].is_leaf() {
                    assert(ns0[j].left() != 0 && ns0[j].right() != 0);
                }
            };
        }
        let mut cur: usize = 0;
        let mut found_leaf = false;
        let mut leaf_child: usize = 0;
        while !found_leaf
            invariant
                shapes@ == sh0,
                shapes_wf(sh0),
                0 <= ii < sh0.len(),
                sh0.len() <= MAX_SHAPES,
                self.nodes@.len() == ns0.len(),
                ns0.len() == 2 * c0.len() - 1,
                ns0.len() < 2 * MAX_SHAPES,
                c0.finite(),
                !c0.contains(ii),
                new_bb == sh0[ii].aabb_spec(),
                new_bb.wf(),
                (cur as int) < self.nodes@.len(),
                insert_pending(self.nodes@, self.sub(), sh0, cur as int, ii),
                forall |j: int| 0 <= j < self.nodes@.len() && j != cur as int ==> node_ok(
                    self.nodes@,
                    self.sub(),
                    sh0,
                    j,
                ),
                forall |j: int| 1 <= j < self.nodes@.len() ==> parent_link_ok(self.nodes@, j),
                self.nodes@[0].parent() == 0,
                forall |s: int| c0.contains(s) ==> shape_link_ok(self.nodes@, sh0, s),
                self.sub().contains_key(0),
                self.sub()[0] == c0.insert(ii),
                forall |j: int| 0 <= j < self.nodes@.len() ==> (#[trigger] self.sub()[j]).subset_of(c0.insert(ii)),
                forall |j: int| 0 <= j < self.nodes@.len() && (#[trigger] self.sub()[j]).contains(
                    ii,
                ) ==> self.sub()[cur as int].subset_of(self.sub()[j]),
                found_leaf ==> (leaf_child as int) < self.nodes@.len()
                    && self.nodes@[leaf_child as int].is_leaf()
                    && (self.nodes@[cur as int].left() == leaf_child as int
                    || self.nodes@[cur as int].right() == leaf_child as int),
            decreases self.sub()[cur as int].remove(ii).len(), (if found_leaf { 0int } else { 1int }),
        {
            let node = self.nodes[cur];
            match node {
                BVHNode::Leaf { .. } => {
                    proof {
                        assert(false);
                    }
                },
                BVHNode::Node { parent_index, child_l_index, child_l_aabb, child_r_index, child_r_aabb } => {
                    let grown_l = child_l_aabb.join(&new_bb);
                    let grown_r = child_r_aabb.join(&new_bb);
                    let ga = grown_l.surface_area() - child_l_aabb.surface_area();
                    let gb = grown_r.surface_area() - child_r_aabb.surface_area();
                    let go_left = ga <= gb;
                    let c = if go_left {
                        child_l_index
                    } else {
                        child_r_index
                    };
                    let ghost ci = c as int;
                    let ghost sibi = if go_left {
                        child_r_index as int
                    } else {
                        child_l_index as int
                    };
                    proof {
                        assert(node_ok(self.nodes@, self.sub(), sh0, ci));
                        assert(node_ok(self.nodes@, self.sub(), sh0, sibi));
                        assert(!self.sub()[sibi].contains(ii)) by {
                            if self.sub()[sibi].contains(ii) {
                                assert(self.sub()[cur as int].subset_of(self.sub()[sibi]));
                                assert(self.sub()[sibi].subset_of(
                                    self.sub()[cur as int].remove(ii),
                                ));
                                assert(self.sub()[cur as int].contains(ii));
                            }
                        };
                    }
                    let is_child_leaf = match self.nodes[c] {
                        BVHNode::Leaf { .. } => true,
                        BVHNode::Node { .. } => false,
                    };
                    if is_child_leaf {
                        found_leaf = true;
                        leaf_child = c;
                    } else {
                        let ghost ns_a = self.nodes@;
                        let ghost sub_a = self.sub();
                        let updated = if go_left {
                            BVHNode::Node {
                                parent_index,
                                child_l_index,
                                child_l_aabb: grown_l,
                                child_r_index,
                                child_r_aabb,
                            }
                        } else {
                            BVHNode::Node {
                                parent_index,
                                child_l_index,
                                child_l_aabb,
                                child_r_index,
                                child_r_aabb: grown_r,
                            }
                        };
                        self.nodes[cur] = updated;
                        let ghost sub_b = sub_a.insert(ci, sub_a[ci].insert(ii));
                        proof {
                            self.subtree@ = sub_b;
                            let ns_b = self.nodes@;
                            let cu = cur as int;
                            // the node we left is whole again
                            assert(sub_b[ci] == sub_a[ci].insert(ii));
                            assert(sub_a[cu].remove(ii) == sub_a[ci] + sub_a[sibi]);
                            assert(sub_b[cu] =~= sub_b[ci] + sub_b[sibi]);
                            assert(sub_b[cu] =~= sub_b[sibi] + sub_b[ci]);
                            assert(sub_b[ci].disjoint(sub_b[sibi]));
                            assert(sub_b[sibi].disjoint(sub_b[ci]));
                            let slot = if go_left {
                                grown_l
                            } else {
                                grown_r
                            };
                            assert(child_box_ok(ns_b, sub_b, sh0, ci, slot)) by {
                                assert(!ns_b[ci].is_leaf());
                                assert forall |s: int| sub_b[ci].contains(s) implies
                                    slot.contains_aabb((#[trigger] sh0[s].aabb_spec())) by {
                                    if s == ii {
                                        crate::aabb::lemma_join_covers(
                                            if go_left { child_l_aabb } else { child_r_aabb },
                                            new_bb,
                                            sh0[s].aabb_spec(),
                                        );
                                    } else {
                                        assert(sub_a[ci].contains(s));
                                        assert(child_box_ok(
                                            ns_a,
                                            sub_a,
                                            sh0,
                                            ci,
                                            if go_left { child_l_aabb } else { child_r_aabb },
                                        ));
                                        crate::aabb::lemma_join_covers(
                                            if go_left { child_l_aabb } else { child_r_aabb },
                                            new_bb,
                                            sh0[s].aabb_spec(),
                                        );
                                    }
                                };
                            };
                            assert(child_box_ok(ns_b, sub_b, sh0, sibi, if go_left {
                                child_r_aabb
                            } else {
                                child_l_aabb
                            })) by {
                                lemma_child_box_ok_frame(
                                    ns_a,
                                    sub_a,
                                    sh0,
                                    ns_b,
                                    sub_b,
                                    sh0,
                                    sub_a[sibi],
                                    sibi,
                                    if go_left { child_r_aabb } else { child_l_aabb },
                                );
                            };
                            assert(sub_b[cu].len() >= 1) by {
                                if sub_b[cu].len() == 0 {
                                    sub_b[cu].lemma_len0_is_empty();
                                }
                            };
                            assert(node_ok(ns_b, sub_b, sh0, cu));
                            // the child we enter is now the pending one
                            assert(insert_pending(ns_b, sub_b, sh0, ci, ii)) by {
                                assert(node_ok(ns_a, sub_a, sh0, ci));
                                let l2 = ns_a[ci].left();
                                let r2 = ns_a[ci].right();
                                // a child of the entered node cannot be the
                                // node we left: its set would then contain
                                // the strictly larger set we came from
                                assert(l2 != cu && r2 != cu) by {
                                    vstd::set::axiom_set_remove_len(sub_a[cu], ii);
                                    vstd::set_lib::lemma_len_subset(
                                        sub_a[ci],
                                        sub_a[cu].remove(ii),
                                    );
                                    if l2 == cu {
                                        assert(sub_a[ci] == sub_a[cu] + sub_a[r2]);
                                        assert(sub_a[cu].subset_of(sub_a[ci]));
                                        vstd::set_lib::lemma_len_subset(
                                            sub_a[cu],
                                            sub_a[ci],
                                        );
                                        assert(false);
                                    }
                                    if r2 == cu {
                                        assert(sub_a[ci] == sub_a[l2] + sub_a[cu]);
                                        assert(sub_a[cu].subset_of(sub_a[ci]));
                                        vstd::set_lib::lemma_len_subset(
                                            sub_a[cu],
                                            sub_a[ci],
                                        );
                                        assert(false);
                                    }
                                };
                                assert(node_ok(ns_a, sub_a, sh0, l2));
                                assert(node_ok(ns_a, sub_a, sh0, r2));
                                assert(ns_b[l2] == ns_a[l2] && ns_b[r2] == ns_a[r2]);
                                assert(sub_b[ci].remove(ii) =~= sub_a[ci]);
                                assert(!sub_a[l2].contains(ii) && !sub_a[r2].contains(ii)) by {
                                    assert(sub_a[l2].subset_of(sub_a[ci]));
                                    assert(sub_a[r2].subset_of(sub_a[ci]));
                                };
                                lemma_child_box_ok_frame(
                                    ns_a, sub_a, sh0, ns_b, sub_b, sh0, sub_a[l2], l2,
                                    ns_a[ci].left_aabb(),
                                );
                                lemma_child_box_ok_frame(
                                    ns_a, sub_a, sh0, ns_b, sub_b, sh0, sub_a[r2], r2,
                                    ns_a[ci].right_aabb(),
                                );
                            };
                            // all other nodes are untouched
                            assert forall |j: int| 0 <= j < ns_b.len() && j != ci implies
                                node_ok(ns_b, sub_b, sh0, j) by {
                                if j == cu {
                                } else {
                                    assert(node_ok(ns_a, sub_a, sh0, j));
                                    let jl = ns_a[j].left();
                                    let jr = ns_a[j].right();
                                    if !ns_a[j].is_leaf() {
                                        if jl != cu {
                                            assert(node_ok(ns_a, sub_a, sh0, jl));
                                        }
                                        if jr != cu {
                                            assert(node_ok(ns_a, sub_a, sh0, jr));
                                        }
                                        if jl == ci || jr == ci {
                                            assert(ns_a[ci].parent() == j);
                                            assert(ns_a[ci].parent() == cu);
                                            assert(false);
                                        }
                                        assert(ns_b[j] == ns_a[j]);
                                        assert(sub_b[j] == sub_a[j]);
                                        assert(sub_b[jl] == sub_a[jl] || jl == ci);
                                        assert(ns_b[jl].parent() == ns_a[jl].parent()
                                            && ns_b[jl].is_leaf() == ns_a[jl].is_leaf()
                                            && ns_b[jl].shape() == ns_a[jl].shape());
                                        assert(ns_b[jr].parent() == ns_a[jr].parent()
                                            && ns_b[jr].is_leaf() == ns_a[jr].is_leaf()
                                            && ns_b[jr].shape() == ns_a[jr].shape());
                                        assert(child_box_ok(ns_b, sub_b, sh0, jl, ns_a[j].left_aabb())) by {
                                            if ns_a[jl].is_leaf() {
                                                assert(sub_a[jl].contains(ns_a[jl].shape()));
                                            } else {
                                                assert forall |s: int| sub_b[jl].contains(
                                                    s,
                                                ) implies ns_a[j].left_aabb().contains_aabb((
                                                #[trigger] sh0[s].aabb_spec())) by {
                                                    assert(jl != ci);
                                                    assert(sub_b[jl] == sub_a[jl]);
                                                };
                                            }
                                        };
                                        assert(child_box_ok(ns_b, sub_b, sh0, jr, ns_a[j].right_aabb())) by {
                                            if ns_a[jr].is_leaf() {
                                                assert(sub_a[jr].contains(ns_a[jr].shape()));
                                            } else {
                                                assert forall |s: int| sub_b[jr].contains(
                                                    s,
                                                ) implies ns_a[j].right_aabb().contains_aabb((
                                                #[trigger] sh0[s].aabb_spec())) by {
                                                    assert(jr != ci);
                                                    assert(sub_b[jr] == sub_a[jr]);
                                                };
                                            }
                                        };
                                    }
                                }
                            };
                            // holders of the new shape still nest
                            assert forall |j: int| 0 <= j < ns_b.len() && (
                            #[trigger] sub_b[j]).contains(ii) implies sub_b[ci].subset_of(
                                sub_b[j],
                            ) by {
                                if j != ci {
                                    assert(sub_a[j].contains(ii));
                                    assert(sub_a[cu].subset_of(sub_a[j]));
                                    assert(sub_b[ci].subset_of(sub_a[cu]));
                                }
                            };
                            // parent links and back-links are untouched
                            assert forall |j: int| 1 <= j < ns_b.len() implies parent_link_ok(
                                ns_b,
                                j,
                            ) by {
                                assert(parent_link_ok(ns_a, j));
                                let p = ns_a[j].parent();
                                assert(ns_b[j].parent() == p);
                                assert(ns_b[p].is_leaf() == ns_a[p].is_leaf() && ns_b[p].left()
                                    == ns_a[p].left() && ns_b[p].right() == ns_a[p].right());
                            };
                            assert forall |s: int| c0.contains(s) implies shape_link_ok(
                                ns_b,
                                sh0,
                                s,
                            ) by {
                                assert(shape_link_ok(ns_a, sh0, s));
                                let leaf = sh0[s].node_index_spec() as int;
                                assert(ns_b[leaf].is_leaf() == ns_a[leaf].is_leaf() && ns_b[
                                    leaf].shape() == ns_a[leaf].shape());
                            };
                            assert forall |j: int| 0 <= j < ns_b.len() implies (
                            #[trigger] sub_b[j]).subset_of(c0.insert(ii)) by {
                                if j != ci {
                                    assert(sub_b[j] == sub_a[j]);
                                } else {
                                    assert(sub_a[ci].subset_of(c0.insert(ii)));
                                }
                            };
                            // termination: the pending set shrinks
                            assert(node_ok(ns_a, sub_a, sh0, sibi));
                            vstd::set_lib::lemma_set_disjoint_lens(sub_a[ci], sub_a[sibi]);
                            assert(sub_b[ci].remove(ii).len() < sub_a[cu].remove(ii).len());
                        }
                        cur = c;
                    }
                },
            }
        }
        // split the chosen leaf in place
        let ghost ns_a = self.nodes@;
        let ghost sub_a = self.sub();
        let cu = cur;
        let lc = leaf_child;
        let t1 = self.nodes.len();
        let t2 = t1 + 1;
        let node = self.nodes[cu];
        let (parent_index, child_l_index, child_l_aabb, child_r_index, child_r_aabb) = match node {
            BVHNode::Node { parent_index, child_l_index, child_l_aabb, child_r_index, child_r_aabb } => (
                parent_index,
                child_l_index,
                child_l_aabb,
                child_r_index,
                child_r_aabb,
            ),
            BVHNode::Leaf { .. } => {
                proof {
                    assert(false);
                }
                (0, 0, AABB::empty(), 0, AABB::empty())
            },
        };
        let go_left = child_l_index == lc;
        let so = match self.nodes[lc] {
            BVHNode::Leaf { shape_index, .. } => shape_index,
            BVHNode::Node { .. } => {
                proof {
                    assert(false);
                }
                0
            },
        };
        proof {
            assert(node_ok(ns_a, sub_a, sh0, lc as int));
            assert(sub_a[lc as int] == Set::<int>::empty().insert(so as int));
            assert(!sub_a[lc as int].contains(ii));
            assert(so as int != ii);
        }
        let old_bb = shapes[so].aabb();
        self.nodes.push(BVHNode::Leaf { parent_index: lc, shape_index: so });
        self.nodes.push(BVHNode::Leaf { parent_index: lc, shape_index: i });
        self.nodes[lc] = BVHNode::Node {
            parent_index: cu,
            child_l_index: t1,
            child_l_aabb: old_bb,
            child_r_index: t2,
            child_r_aabb: new_bb,
        };
        let grown = if go_left {
            child_l_aabb.join(&new_bb)
        } else {
            child_r_aabb.join(&new_bb)
        };
        self.nodes[cu] = if go_left {
            BVHNode::Node {
                parent_index,
                child_l_index,
                child_l_aabb: grown,
                child_r_index,
                child_r_aabb,
            }
        } else {
            BVHNode::Node {
                parent_index,
                child_l_index,
                child_l_aabb,
                child_r_index,
                child_r_aabb: grown,
            }
        };
        shapes[so].set_bh_node_index(t1);
        shapes[i].set_bh_node_index(t2);
        let ghost oldset = Set::<int>::empty().insert(so as int);
        let ghost newset = Set::<int>::empty().insert(ii);
        let ghost sub_b = sub_a.insert(t1 as int, oldset).insert(t2 as int, newset).insert(
            lc as int,
            oldset + newset,
        );
        proof {
            self.subtree@ = sub_b;
            let ns_b = self.nodes@;
            let sh_b = shapes@;
            let cui = cu as int;
            let lci = lc as int;
            let sibi = if go_left {
                child_r_index as int
            } else {
                child_l_index as int
            };
            let old_slot = if go_left {
                child_l_aabb
            } else {
                child_r_aabb
            };
            assert(lci != cui);
            assert(sibi != lci);
            assert(sub_a[lci] =~= oldset);
            assert(sub_b[lci] =~= oldset + newset);
            vstd::set_lib::lemma_set_disjoint_lens(oldset, newset);
            // only the new shape and the moved shape changed, and only in
            // their back-links
            assert(sh_b.len() == sh0.len());
            assert forall |s: int| 0 <= s < sh0.len() implies (#[trigger] sh_b[s].aabb_spec())
                == sh0[s].aabb_spec() by {};
            assert forall |s: int| 0 <= s < sh0.len() && s != so as int && s != ii implies (
            #[trigger] sh_b[s]) == sh0[s] by {};
            // the split node and its two fresh leaves
            assert(ns_b[t1 as int].is_leaf() && ns_b[t1 as int].shape() == so as int);
            assert(ns_b[t2 as int].is_leaf() && ns_b[t2 as int].shape() == ii);
            assert(node_ok(ns_b, sub_b, sh_b, t1 as int));
            assert(node_ok(ns_b, sub_b, sh_b, t2 as int));
            assert(old_bb == sh_b[so as int].aabb_spec());
            assert(node_ok(ns_b, sub_b, sh_b, lci));
            // the parent of the split node took the grown box
            assert(sub_a[cui].remove(ii) == sub_a[lci] + sub_a[sibi]
                || sub_a[cui].remove(ii) == sub_a[sibi] + sub_a[lci]);
            assert(sub_b[cui] =~= sub_b[lci] + sub_b[sibi]);
            assert(sub_b[cui] =~= sub_b[sibi] + sub_b[lci]);
            assert(!sub_a[sibi].contains(ii));
            assert(sub_b[lci].disjoint(sub_b[sibi]));
            assert(sub_b[sibi].disjoint(sub_b[lci]));
            assert(sub_b[cui].len() >= 1) by {
                if sub_b[cui].len() == 0 {
                    sub_b[cui].lemma_len0_is_empty();
                }
            };
            assert(child_box_ok(ns_b, sub_b, sh_b, lci, grown)) by {
                assert(!ns_b[lci].is_leaf());
                assert forall |s: int| sub_b[lci].contains(s) implies grown.contains_aabb((
                #[trigger] sh_b[s].aabb_spec())) by {
                    assert(child_box_ok(ns_a, sub_a, sh0, lci, old_slot));
                    assert(old_slot == sh0[so as int].aabb_spec());
                    crate::aabb::lemma_join_covers(old_slot, new_bb, sh_b[s].aabb_spec());
                };
            };
            assert(child_box_ok(ns_b, sub_b, sh_b, sibi, if go_left {
                child_r_aabb
            } else {
                child_l_aabb
            })) by {
                assert(node_ok(ns_a, sub_a, sh0, sibi));
                assert(sibi != cui && sibi != t1 as int && sibi != t2 as int);
                if ns_a[sibi].is_leaf() {
                    assert(sub_a[sibi].contains(ns_a[sibi].shape()));
                    assert(ns_a[sibi].shape() != ii && ns_a[sibi].shape() != so as int) by {
                        assert(!sub_a[sibi].contains(ii));
                        assert(sub_a[lci].contains(so as int));
                        assert(sub_a[lci].disjoint(sub_a[sibi]));
                    };
                    assert(sh_b[ns_a[sibi].shape()] == sh0[ns_a[sibi].shape()]);
                } else {
                    assert forall |s: int| sub_b[sibi].contains(s) implies (if go_left {
                        child_r_aabb
                    } else {
                        child_l_aabb
                    }).contains_aabb((#[trigger] sh_b[s].aabb_spec())) by {
                        assert(sub_a[sibi].contains(s));
                        assert(child_box_ok(ns_a, sub_a, sh0, sibi, if go_left {
                            child_r_aabb
                        } else {
                            child_l_aabb
                        }));
                    };
                }
            };
            assert(node_ok(ns_b, sub_b, sh_b, cui));
            // every other node kept its neighbourhood
            assert forall |j: int| 0 <= j < ns_b.len() && j != cui && j != lci && j != t1 as int
                && j != t2 as int implies node_ok(ns_b, sub_b, sh_b, j) by {
                assert(node_ok(ns_a, sub_a, sh0, j));
                if !ns_a[j].is_leaf() {
                    let jl = ns_a[j].left();
                    let jr = ns_a[j].right();
                    if jl != cui {
                        assert(node_ok(ns_a, sub_a, sh0, jl));
                    }
                    if jr != cui {
                        assert(node_ok(ns_a, sub_a, sh0, jr));
                    }
                    if jl == lci || jr == lci {
                        assert(ns_a[lci].parent() == j);
                        assert(ns_a[lci].parent() == cui);
                        assert(false);
                    }
                    assert(ns_b[j] == ns_a[j]);
                    assert(sub_b[j] == sub_a[j]);
                    assert(ns_b[jl].parent() == ns_a[jl].parent() && ns_b[jl].is_leaf() == ns_a[jl].is_leaf() && ns_b[jl].shape() == ns_a[jl].shape());
                    assert(ns_b[jr].parent() == ns_a[jr].parent() && ns_b[jr].is_leaf() == ns_a[jr].is_leaf() && ns_b[jr].shape() == ns_a[jr].shape());
                    assert(child_box_ok(ns_b, sub_b, sh_b, jl, ns_a[j].left_aabb())) by {
                        if ns_a[jl].is_leaf() {
                            assert(sub_a[jl].contains(ns_a[jl].shape()));
                            assert(jl != cui);
                            assert(node_ok(ns_a, sub_a, sh0, jl));
                            assert(ns_a[jl].shape() != ii) by {
                                if sub_a[jl].contains(ii) {
                                    assert(sub_a[cui].subset_of(sub_a[jl]));
                                    assert(sub_a[jl] == Set::<int>::empty().insert(
                                        ns_a[jl].shape(),
                                    ));
                                    assert(sub_a[lci].contains(so as int));
                                    assert(sub_a[cui].remove(ii).contains(so as int));
                                    assert(sub_a[cui].contains(so as int));
                                    assert(sub_a[cui].contains(ii));
                                    assert(so as int == ns_a[jl].shape());
                                    assert(ii == ns_a[jl].shape());
                                    assert(false);
                                }
                            };
                            if ns_a[jl].shape() == so as int {
                                assert(node_ok(ns_a, sub_a, sh0, lci));
                                assert(sh0[so as int].node_index_spec() as int == lci);
                                assert(sh0[so as int].node_index_spec() as int == jl);
                                assert(false);
                            }
                            assert(sh_b[ns_a[jl].shape()] == sh0[ns_a[jl].shape()]);
                        } else {
                            assert forall |s: int| sub_b[jl].contains(s) implies ns_a[j].left_aabb().contains_aabb((#[trigger] sh_b[s].aabb_spec())) by {
                                assert(jl != lci && jl != t1 as int && jl != t2 as int);
                                assert(sub_b[jl] == sub_a[jl]);
                            };
                        }
                    };
                    assert(child_box_ok(ns_b, sub_b, sh_b, jr, ns_a[j].right_aabb())) by {
                        if ns_a[jr].is_leaf() {
                            assert(sub_a[jr].contains(ns_a[jr].shape()));
                            assert(jr != cui);
                            assert(node_ok(ns_a, sub_a, sh0, jr));
                            assert(ns_a[jr].shape() != ii) by {
                                if sub_a[jr].contains(ii) {
                                    assert(sub_a[cui].subset_of(sub_a[jr]));
                                    assert(sub_a[jr] == Set::<int>::empty().insert(
                                        ns_a[jr].shape(),
                                    ));
                                    assert(sub_a[lci].contains(so as int));
                                    assert(sub_a[cui].remove(ii).contains(so as int));
                                    assert(sub_a[cui].contains(so as int));
                                    assert(sub_a[cui].contains(ii));
                                    assert(so as int == ns_a[jr].shape());
                                    assert(ii == ns_a[jr].shape());
                                    assert(false);
                                }
                            };
                            if ns_a[jr].shape() == so as int {
                                assert(node_ok(ns_a, sub_a, sh0, lci));
                                assert(sh0[so as int].node_index_spec() as int == lci);
                                assert(sh0[so as int].node_index_spec() as int == jr);
                                assert(false);
                            }
                            assert(sh_b[ns_a[jr].shape()] == sh0[ns_a[jr].shape()]);
                        } else {
                            assert forall |s: int| sub_b[jr].contains(s) implies ns_a[j].right_aabb().contains_aabb((#[trigger] sh_b[s].aabb_spec())) by {
                                assert(jr != lci && jr != t1 as int && jr != t2 as int);
                                assert(sub_b[jr] == sub_a[jr]);
                            };
                        }
                    };
                } else {
                    assert(sub_a[j].contains(ns_a[j].shape()));
                    assert(ns_a[j].shape() != ii) by {
                        assert(!c0.contains(ii));
                        assert(sub_a[j].subset_of(c0.insert(ii)));
                        if sub_a[j].contains(ii) {
                            assert(sub_a[cui].subset_of(sub_a[j]));
                            assert(sub_a[j] == Set::<int>::empty().insert(ns_a[j].shape()));
                            assert(sub_a[cui].contains(ii));
                            assert(ns_a[j].shape() == ii);
                            assert(sub_a[cui].len() <= 1) by {
                                vstd::set_lib::lemma_len_subset(sub_a[cui], sub_a[j]);
                            };
                            assert(sub_a[cui].remove(ii) == sub_a[lci] + sub_a[sibi]);
                            assert(sub_a[lci].len() >= 1);
                            vstd::set_lib::lemma_set_disjoint_lens(sub_a[lci], sub_a[sibi]);
                            assert(false);
                        }
                    };
                    if ns_a[j].shape() == so as int {
                        assert(node_ok(ns_a, sub_a, sh0, lci));
                        assert(sh0[so as int].node_index_spec() as int == lci);
                        assert(sh0[so as int].node_index_spec() as int == j);
                        assert(false);
                    }
                    assert(sh_b[ns_a[j].shape()] == sh0[ns_a[j].shape()]);
                }
            };
            // parent links, including the two fresh leaves
            assert forall |j: int| 1 <= j < ns_b.len() implies parent_link_ok(ns_b, j) by {
                if j == t1 as int || j == t2 as int {
                    assert(ns_b[lci].left() == t1 as int && ns_b[lci].right() == t2 as int);
                } else if j == lci {
                    assert(ns_b[lci].parent() == cui);
                    assert(ns_b[cui].left() == lci || ns_b[cui].right() == lci);
                } else {
                    assert(parent_link_ok(ns_a, j));
                    let p = ns_a[j].parent();
                    assert(ns_b[j].parent() == p);
                    assert(ns_b[p].is_leaf() == ns_a[p].is_leaf() || p == lci);
                    if p == lci {
                        assert(ns_a[lci].is_leaf());
                        assert(false);
                    }
                    assert(ns_b[p].left() == ns_a[p].left() && ns_b[p].right() == ns_a[p].right());
                }
            };
            // back-links for every covered shape
            assert forall |s: int| sub_b[0].contains(s) implies shape_link_ok(ns_b, sh_b, s) by {
                if s == ii {
                    assert(sh_b[s].node_index_spec() as int == t2 as int);
                } else if s == so as int {
                    assert(sh_b[s].node_index_spec() as int == t1 as int);
                } else {
                    assert(c0.insert(ii).contains(s));
                    assert(shape_link_ok(ns_a, sh0, s));
                    let leaf = sh0[s].node_index_spec() as int;
                    assert(sh_b[s] == sh0[s]);
                    if leaf == lci {
                        assert(ns_a[lci].shape() == s);
                        assert(so as int == s);
                        assert(false);
                    }
                    assert(ns_b[leaf].is_leaf() == ns_a[leaf].is_leaf() && ns_b[leaf].shape()
                        == ns_a[leaf].shape());
                }
            };
            assert forall |j: int| 0 <= j < ns_b.len() implies (#[trigger] sub_b[j]).subset_of(
                sub_b[0],
            ) by {
                assert(0 != lci && 0 != t1 as int && 0 != t2 as int);
                assert(sub_b[0] == c0.insert(ii));
                if j != lci && j != t1 as int && j != t2 as int {
                    assert(sub_b[j] == sub_a[j]);
                } else {
                    assert(sub_a[lci].subset_of(c0.insert(ii)));
                    assert(sub_a[lci].contains(so as int));
                }
            };
            assert(self.covered() == c0.insert(ii));
            assert(vstd::set_lib::set_int_range(0, sh0.len() as int).finite()) by {
                vstd::set_lib::lemma_int_range(0, sh0.len() as int);
            };
            vstd::set_lib::lemma_set_disjoint_lens(c0, newset);
            assert(ns_b.len() == 2 * self.covered().len() - 1);
            assert(self.wf(sh_b));
        }
    }
}

impl BVH {
    /// Appends, below `node`, every covered shape's index to `out`, each
    /// exactly once.
    fn collect_shapes_rec<T: BHShape>(&self, shapes: &Vec<T>, node: usize, out: &mut Vec<usize>)
        requires
            self.wf(shapes@),
            self.nodes@.len() != 0,
            (node as int) < self.nodes@.len(),
            range_distinct(old(out)@, 0, old(out)@.len() as int),
            range_below(old(out)@, 0, old(out)@.len() as int, shapes@.len() as int),
            forall |j: int| 0 <= j < old(out)@.len() ==> !self.sub()[node as int].contains(
                (#[trigger] old(out)@[j]) as int,
            ),
            old(out)@.len() + self.sub()[node as int].len() <= shapes@.len(),
        ensures
            final(out)@.len() == old(out)@.len() + self.sub()[node as int].len(),
            forall |j: int| 0 <= j < old(out)@.len() ==> final(out)@[j] == old(out)@[j],
            range_distinct(final(out)@, 0, final(out)@.len() as int),
            range_below(final(out)@, 0, final(out)@.len() as int, shapes@.len() as int),
            range_shape_set(final(out)@, old(out)@.len() as int, final(out)@.len() as int)
                == self.sub()[node as int],
        decreases self.sub()[node as int].len(),
    {
        proof {
            assert(node_ok(self.nodes@, self.sub(), shapes@, node as int));
        }
        let n = self.nodes[node];
        match n {
            BVHNode::Leaf { parent_index, shape_index } => {
                out.push(shape_index);
                proof {
                    let fin = final(out)@;
                    let start = old(out)@.len() as int;
                    assert(self.sub()[node as int] == Set::<int>::empty().insert(
                        shape_index as int,
                    ));
                    assert(fin[start] == shape_index);
                    assert forall |t: int| range_shape_set(fin, start, fin.len() as int).contains(
                        t,
                    ) implies self.sub()[node as int].contains(t) by {
                        let j = choose |j: int| start <= j < fin.len() && fin[j] as int == t;
                        assert(j == start);
                    };
                    assert(range_shape_set(fin, start, fin.len() as int) =~= self.sub()[
                        node as int]);
                    assert forall |j1: int, j2: int| 0 <= j1 < fin.len() && 0 <= j2 < fin.len()
                        && j1 != j2 implies #[trigger] fin[j1] != #[trigger] fin[j2] by {
                        if j2 == start && j1 < start {
                            assert(!self.sub()[node as int].contains(fin[j1] as int));
                        }
                        if j1 == start && j2 < start {
                            assert(!self.sub()[node as int].contains(fin[j2] as int));
                        }
                    };
                }
            },
            BVHNode::Node { parent_index, child_l_index, child_l_aabb, child_r_index, child_r_aabb } => {
                proof {
                    self.lemma_child_smaller(shapes@, node as int);
                    assert(node_ok(self.nodes@, self.sub(), shapes@, child_l_index as int));
                    assert(node_ok(self.nodes@, self.sub(), shapes@, child_r_index as int));
                    lemma_set_disjoint_lens(
                        self.sub()[child_l_index as int],
                        self.sub()[child_r_index as int],
                    );
                }
                let ghost start = out@.len() as int;
                self.collect_shapes_rec(shapes, child_l_index, out);
                let ghost mid = out@.len() as int;
                proof {
                    assert forall |j: int| 0 <= j < out@.len() implies !self.sub()[
                        child_r_index as int].contains((#[trigger] out@[j]) as int) by {
                        if j < start {
                            assert(!self.sub()[node as int].contains(out@[j] as int));
                        } else {
                            assert(range_shape_set(out@, start, mid).contains(out@[j] as int));
                            assert(self.sub()[child_l_index as int].contains(out@[j] as int));
                        }
                    };
                }
                self.collect_shapes_rec(shapes, child_r_index, out);
                proof {
                    let fin = final(out)@;
                    lemma_distinct_split(fin, start, mid, fin.len() as int);
                    lemma_range_shape_set_agree(out@, fin, start, mid);
                    assert(range_shape_set(fin, start, mid) == self.sub()[child_l_index as int]);
                    assert(range_shape_set(fin, start, fin.len() as int) =~= self.sub()[
                        node as int]);
                }
            },
        }
    }

    /// Removes one covered shape: the remaining covered shapes are
    /// collected from the leaves and the tree is rebuilt over them. A
    /// single-leaf tree becomes the empty tree.
    pub fn remove_node<T: BHShape>(&mut self, shapes: &mut Vec<T>, shape_index: usize)
        requires
            old(self).wf(old(shapes)@),
            shapes_wf(old(shapes)@),
            old(self).covered().contains(shape_index as int),
            old(shapes)@.len() <= MAX_SHAPES,
        ensures
            final(self).wf(final(shapes)@),
            final(self).covered() == old(self).covered().remove(shape_index as int),
            final(shapes)@.len() == old(shapes)@.len(),
            forall |s: int| 0 <= s < old(shapes)@.len() ==> (
            #[trigger] final(shapes)@[s].aabb_spec()) == old(shapes)@[s].aabb_spec(),
            shapes_wf(final(shapes)@),
    {
        proof {
            assert(node_ok(self.nodes@, self.sub(), shapes@, 0));
            let rng = vstd::set_lib::set_int_range(0, shapes@.len() as int);
            vstd::set_lib::lemma_int_range(0, shapes@.len() as int);
            assert(self.sub()[0].subset_of(rng));
            vstd::set_lib::lemma_len_subset(self.sub()[0], rng);
        }
        if self.nodes.len() == 1 {
            self.nodes = Vec::new();
            proof {
                assert(old(self).covered().len() == 1);
                assert(old(self).covered() =~= Set::<int>::empty().insert(shape_index as int));
                assert(self.covered() =~= old(self).covered().remove(shape_index as int));
            }
            return;
        }
        let mut collected: Vec<usize> = Vec::new();
        self.collect_shapes_rec(shapes, 0, &mut collected);
        let mut kept: Vec<usize> = Vec::new();
        let mut j: usize = 0;
        let ghost c = old(self).covered();
        while j < collected.len()
            invariant
                j <= collected@.len(),
                range_distinct(collected@, 0, collected@.len() as int),
                range_below(collected@, 0, collected@.len() as int, shapes@.len() as int),
                range_shape_set(collected@, 0, collected@.len() as int) == c,
                range_distinct(kept@, 0, kept@.len() as int),
                range_below(kept@, 0, kept@.len() as int, shapes@.len() as int),
                kept@.len() <= j,
                range_shape_set(kept@, 0, kept@.len() as int) == range_shape_set(
                    collected@,
                    0,
                    j as int,
                ).remove(shape_index as int),
            decreases collected@.len() - j,
        {
            let ghost pre_kept = kept@;
            let ghost prefix_set = range_shape_set(collected@, 0, j as int);
            let v = collected[j];
            proof {
                assert forall |t: int| range_shape_set(collected@, 0, j + 1).contains(t) implies
                    prefix_set.insert(v as int).contains(t) by {
                    let m = choose |m: int| 0 <= m < j + 1 && collected@[m] as int == t;
                    if m < j {
                        assert(prefix_set.contains(t));
                    }
                };
                assert(collected@[j as int] as int == v as int);
                assert(range_shape_set(collected@, 0, j + 1) =~= prefix_set.insert(v as int));
            }
            if v != shape_index {
                kept.push(v);
                proof {
                    let ke = kept@;
                    assert(ke[ke.len() - 1] == v);
                    assert(!prefix_set.remove(shape_index as int).contains(v as int)) by {
                        if prefix_set.contains(v as int) {
                            let m = choose |m: int| 0 <= m < j && collected@[m] as int == v as int;
                            assert(collected@[m] != collected@[j as int]);
                        }
                    };
                    assert forall |m1: int, m2: int| 0 <= m1 < ke.len() && 0 <= m2 < ke.len() && m1
                        != m2 implies #[trigger] ke[m1] != #[trigger] ke[m2] by {
                        if m2 == ke.len() - 1 && m1 < m2 {
                            assert(range_shape_set(pre_kept, 0, pre_kept.len() as int).contains(
                                ke[m1] as int,
                            ));
                        }
                        if m1 == ke.len() - 1 && m2 < m1 {
                            assert(range_shape_set(pre_kept, 0, pre_kept.len() as int).contains(
                                ke[m2] as int,
                            ));
                        }
                    };
                    assert forall |t: int| range_shape_set(ke, 0, ke.len() as int).contains(t)
                        implies range_shape_set(pre_kept, 0, pre_kept.len() as int).insert(
                        v as int,
                    ).contains(t) by {
                        let w = choose |w: int| 0 <= w < ke.len() && ke[w] as int == t;
                        if w < ke.len() - 1 {
                            assert(range_shape_set(pre_kept, 0, pre_kept.len() as int).contains(t));
                        }
                    };
                    assert forall |t: int| range_shape_set(pre_kept, 0, pre_kept.len() as int).insert(
                        v as int,
                    ).contains(t) implies range_shape_set(ke, 0, ke.len() as int).contains(t) by {
                        if t == v as int {
                            assert(ke[ke.len() - 1] as int == t);
                        } else {
                            let w = choose |w: int| 0 <= w < pre_kept.len() && pre_kept[w] as int
                                == t;
                            assert(ke[w] as int == t);
                        }
                    };
                    assert(range_shape_set(ke, 0, ke.len() as int) =~= range_shape_set(
                        pre_kept,
                        0,
                        pre_kept.len() as int,
                    ).insert(v as int));
                    assert(range_shape_set(ke, 0, ke.len() as int) =~= range_shape_set(
                        collected@,
                        0,
                        j + 1,
                    ).remove(shape_index as int));
                }
            } else {
                proof {
                    assert(range_shape_set(kept@, 0, kept@.len() as int) =~= range_shape_set(
                        collected@,
                        0,
                        j + 1,
                    ).remove(shape_index as int));
                }
            }
            j = j + 1;
        }
        proof {
            assert(range_shape_set(kept@, 0, kept@.len() as int) == c.remove(shape_index as int));
            lemma_range_shape_set_props(kept@, 0, kept@.len() as int);
            lemma_range_shape_set_props(collected@, 0, collected@.len() as int);
            assert(c.remove(shape_index as int).len() == c.len() - 1);
        }
        let mut nodes2: Vec<BVHNode> = Vec::new();
        if kept.len() == 0 {
            self.nodes = nodes2;
            proof {
                assert(self.covered() =~= c.remove(shape_index as int));
            }
            return;
        }
        let ghost kept0 = kept@;
        let kept_len = kept.len();
        let (root, subm) = build_rec(
            shapes,
            &mut kept,
            0,
            kept_len,
            &mut nodes2,
            0,
            Ghost(Map::empty()),
        );
        self.nodes = nodes2;
        proof {
            self.subtree@ = subm@;
            assert(self.covered() == range_shape_set(kept0, 0, kept0.len() as int));
            assert(self.covered() == c.remove(shape_index as int));
            assert forall |s: int| self.covered().contains(s) implies shape_link_ok(
                self.nodes@,
                shapes@,
                s,
            ) by {};
            assert(self.wf(shapes@));
        }
    }
}

/// The node reached from `i` after `k` steps along parent links.
pub open spec fn parent_iter(nodes: Seq<BVHNode>, i: int, k: nat) -> int
    decreases k,
{
    if k == 0 {
        i
    } else {
        parent_iter(nodes, nodes[i].parent(), (k - 1) as nat)
    }
}

/// One step of the parent chain from `i` is sound: the `j`-th node on the
/// chain is in bounds, the next one is its parent, and the shape set grows
/// strictly on the way up.
pub open spec fn parent_step_ok(bvh: BVH, i: int, j: nat) -> bool {
    let a = parent_iter(bvh.nodes@, i, j);
    let b = parent_iter(bvh.nodes@, i, (j + 1) as nat);
    &&& 0 <= a < bvh.nodes@.len()
    &&& b == bvh.nodes@[a].parent()
    &&& bvh.sub()[a].subset_of(bvh.sub()[b])
    &&& bvh.sub()[a].len() < bvh.sub()[b].len()
}

/// Containment: in a well-formed tree, the box an internal node stores for
/// a child covers the own box of every shape below that child.
pub proof fn lemma_containment<T: BHShape>(bvh: BVH, shapes: Seq<T>, i: int, s: int)
    requires
        bvh.wf(shapes),
        0 <= i < bvh.nodes@.len(),
        !bvh.nodes@[i].is_leaf(),
    ensures
        bvh.sub()[bvh.nodes@[i].left()].contains(s) ==> bvh.nodes@[i].left_aabb().contains_aabb(
            shapes[s].aabb_spec(),
        ),
        bvh.sub()[bvh.nodes@[i].right()].contains(s) ==> bvh.nodes@[i].right_aabb().contains_aabb(
            shapes[s].aabb_spec(),
        ),
{
    assert(node_ok(bvh.nodes@, bvh.sub(), shapes, i));
    let l = bvh.nodes@[i].left();
    let r = bvh.nodes@[i].right();
    assert(node_ok(bvh.nodes@, bvh.sub(), shapes, l));
    assert(node_ok(bvh.nodes@, bvh.sub(), shapes, r));
    if bvh.nodes@[l].is_leaf() && bvh.sub()[l].contains(s) {
        assert(s == bvh.nodes@[l].shape());
    }
    if bvh.nodes@[r].is_leaf() && bvh.sub()[r].contains(s) {
        assert(s == bvh.nodes@[r].shape());
    }
}

/// Cross-reference: each covered shape's stored node index names the leaf
/// that references exactly that shape, and each leaf's shape points back at
/// it.
pub proof fn lemma_cross_reference<T: BHShape>(bvh: BVH, shapes: Seq<T>, s: int, i: int)
    requires
        bvh.wf(shapes),
    ensures
        bvh.covered().contains(s) ==> shape_link_ok(bvh.nodes@, shapes, s),
        0 <= i < bvh.nodes@.len() && bvh.nodes@[i].is_leaf() ==> shapes[bvh.nodes@[i].shape()].node_index_spec() as int == i,
{
    if 0 <= i < bvh.nodes@.len() && bvh.nodes@[i].is_leaf() {
        assert(node_ok(bvh.nodes@, bvh.sub(), shapes, i));
    }
}

/// Node count: a well-formed tree over `n` covered shapes holds exactly
/// `2 n - 1` nodes, and the empty tree holds none.
pub proof fn lemma_node_count<T: BHShape>(bvh: BVH, shapes: Seq<T>)
    requires
        bvh.wf(shapes),
    ensures
        bvh.nodes@.len() != 0 ==> bvh.nodes@.len() == 2 * bvh.covered().len() - 1,
        bvh.nodes@.len() == 0 ==> bvh.covered() == Set::<int>::empty(),
{
}

/// Parent-link soundness: from any node, following parent links reaches the
/// root within as many steps as there are covered shapes, never passing the
/// root on the way; each step moves to a strictly larger shape set, so no
/// node is ever revisited.
pub proof fn lemma_parent_chain<T: BHShape>(bvh: BVH, shapes: Seq<T>, i: int) -> (k: nat)
    requires
        bvh.wf(shapes),
        0 <= i < bvh.nodes@.len(),
    ensures
        parent_iter(bvh.nodes@, i, k) == 0,
        k <= bvh.covered().len() - bvh.sub()[i].len(),
        k <= bvh.covered().len(),
        forall |j: nat| j < k ==> parent_iter(bvh.nodes@, i, j) != 0,
        forall |j: nat| j < k ==> #[trigger] parent_step_ok(bvh, i, j),
    decreases bvh.covered().len() - bvh.sub()[i].len(),
{
    assert(node_ok(bvh.nodes@, bvh.sub(), shapes, i));
    assert(node_ok(bvh.nodes@, bvh.sub(), shapes, 0));
    vstd::set_lib::lemma_len_subset(bvh.sub()[i], bvh.sub()[0]);
    if i == 0 {
        0
    } else {
        assert(parent_link_ok(bvh.nodes@, i));
        let p = bvh.nodes@[i].parent();
        assert(node_ok(bvh.nodes@, bvh.sub(), shapes, p));
        let l = bvh.nodes@[p].left();
        let r = bvh.nodes@[p].right();
        assert(node_ok(bvh.nodes@, bvh.sub(), shapes, l));
        assert(node_ok(bvh.nodes@, bvh.sub(), shapes, r));
        lemma_set_disjoint_lens(bvh.sub()[l], bvh.sub()[r]);
        assert(bvh.sub()[i].subset_of(bvh.sub()[p]));
        assert(bvh.sub()[i].len() < bvh.sub()[p].len());
        assert(bvh.sub()[p].subset_of(bvh.sub()[0]));
        vstd::set_lib::lemma_len_subset(bvh.sub()[p], bvh.sub()[0]);
        let kp = lemma_parent_chain(bvh, shapes, p);
        let k: nat = kp + 1;
        assert forall |j: nat| j < k implies parent_iter(bvh.nodes@, i, j) != 0 by {
            if j != 0 {
                assert(parent_iter(bvh.nodes@, i, j) == parent_iter(
                    bvh.nodes@,
                    p,
                    (j - 1) as nat,
                ));
            }
        };
        assert forall |j: nat| j < k implies #[trigger] parent_step_ok(bvh, i, j) by {
            if j == 0 {
                assert(parent_iter(bvh.nodes@, i, 0) == i);
                assert(parent_iter(bvh.nodes@, i, 1) == parent_iter(bvh.nodes@, p, 0));
                assert(parent_iter(bvh.nodes@, p, 0) == p);
            } else {
                let jp = (j - 1) as nat;
                assert(parent_step_ok(bvh, p, jp));
                assert(parent_iter(bvh.nodes@, i, j) == parent_iter(bvh.nodes@, p, jp));
                assert(parent_iter(bvh.nodes@, i, (j + 1) as nat) == parent_iter(
                    bvh.nodes@,
                    p,
                    (jp + 1) as nat,
                ));
            }
        };
        k
    }
}

} // verus!
