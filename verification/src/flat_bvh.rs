//! The flattened, pointer-threaded form of the hierarchy, fit for
//! stackless traversal.
//!
//! Flattening lays the nodes out in preorder. Each flat node carries the
//! index to visit next when its box is hit (`entry_index`) and when it is
//! missed (`exit_index`); a leaf also names its shape. The walk therefore
//! needs no stack: it only ever moves forward through the array.

use vstd::prelude::*;

verus! {

use vstd::set_lib::lemma_set_disjoint_lens;

use crate::aabb::{Bounded, AABB};
use crate::bounding_hierarchy::{BHShape, IntersectionAABB};
use crate::bvh::{node_ok, shapes_wf, BVHNode, BVH};

/// Marks a missing index: the `entry_index` of a leaf and the
/// `shape_index` of an internal node.
pub const FLAT_SENTINEL: usize = usize::MAX;

/// One node of the flattened hierarchy.
#[derive(Clone, Copy, Debug)]
pub struct FlatNode {
    /// The box to test the query against.
    pub aabb: AABB,
    /// Index of the next node when the box is hit; the sentinel on a leaf.
    pub entry_index: usize,
    /// Index of the next node when the box is missed.
    pub exit_index: usize,
    /// The shape this leaf references; the sentinel on an internal node.
    pub shape_index: usize,
}

impl FlatNode {
    /// Whether this flat node stands for a leaf.
    pub open spec fn is_leaf(self) -> bool {
        self.entry_index == FLAT_SENTINEL
    }
}

/// The flat array is sound to walk: a leaf at `p` carries exactly its
/// shape's box and steps to `p + 1` on a miss; an internal node at `p`
/// steps into `p + 1` on a hit, jumps forward past its subtree on a miss,
/// and its box covers the box of every shape at a leaf inside that jump.
pub open spec fn flat_wf<T: BHShape>(flat: Seq<FlatNode>, shapes: Seq<T>, covered: Set<int>) -> bool {
    &&& forall |p: int| 0 <= p < flat.len() && (#[trigger] flat[p]).is_leaf() ==> {
        &&& (flat[p].shape_index as int) < shapes.len()
        &&& covered.contains(flat[p].shape_index as int)
        &&& flat[p].aabb == shapes[flat[p].shape_index as int].aabb_spec()
        &&& flat[p].exit_index as int == p + 1
    }
    &&& forall |p: int| 0 <= p < flat.len() && !(#[trigger] flat[p]).is_leaf() ==> {
        &&& flat[p].entry_index as int == p + 1
        &&& p < flat[p].exit_index as int <= flat.len()
        &&& flat[p].aabb.wf()
        &&& forall |q: int| p < q < flat[p].exit_index as int && (#[trigger] flat[q]).is_leaf()
            ==> flat[p].aabb.contains_aabb(shapes[flat[q].shape_index as int].aabb_spec())
    }
    &&& forall |s: int| covered.contains(s) ==> exists |p: int| 0 <= p < flat.len() && (
    #[trigger] flat[p]).is_leaf() && flat[p].shape_index as int == s
}

impl BVH {
    /// Lays the subtree below `node` out in preorder, appending its flat
    /// nodes to `out`.
    fn flatten_rec<T: BHShape>(&self, shapes: &Vec<T>, node: usize, out: &mut Vec<FlatNode>)
        requires
            self.wf(shapes@),
            shapes_wf(shapes@),
            self.nodes@.len() != 0,
            (node as int) < self.nodes@.len(),
            shapes@.len() <= crate::bvh::MAX_SHAPES,
            old(out)@.len() + 2 * self.sub()[node as int].len() - 1 <= 2 * shapes@.len(),
            self.nodes@[node as int].is_leaf() ==> self.sub()[node as int]
                == Set::<int>::empty().insert(self.nodes@[node as int].shape()),
        ensures
            final(out)@.len() == old(out)@.len() + 2 * self.sub()[node as int].len() - 1,
            forall |p: int| 0 <= p < old(out)@.len() ==> final(out)@[p] == old(out)@[p],
            // every appended leaf is a faithful record of a shape below `node`
            forall |p: int| old(out)@.len() <= p < final(out)@.len() && (
            #[trigger] final(out)@[p]).is_leaf() ==> {
                &&& self.sub()[node as int].contains(final(out)@[p].shape_index as int)
                &&& (final(out)@[p].shape_index as int) < shapes@.len()
                &&& final(out)@[p].aabb == shapes@[final(out)@[p].shape_index as int].aabb_spec()
                &&& final(out)@[p].exit_index as int == p + 1
            },
            // every appended internal node steps and covers correctly
            forall |p: int| old(out)@.len() <= p < final(out)@.len() && !(
            #[trigger] final(out)@[p]).is_leaf() ==> {
                &&& final(out)@[p].entry_index as int == p + 1
                &&& p < final(out)@[p].exit_index as int <= final(out)@.len()
                &&& final(out)@[p].aabb.wf()
                &&& forall |q: int| p < q < final(out)@[p].exit_index as int && (
                #[trigger] final(out)@[q]).is_leaf() ==> final(out)@[p].aabb.contains_aabb(
                    shapes@[final(out)@[q].shape_index as int].aabb_spec(),
                )
            },
            // every shape below `node` appears at an appended leaf
            forall |s: int| self.sub()[node as int].contains(s) ==> exists |p: int|
                old(out)@.len() <= p < final(out)@.len() && (#[trigger] final(out)@[p]).is_leaf()
                && final(out)@[p].shape_index as int == s,
        decreases self.sub()[node as int].len(),
    {
        proof {
            assert(node_ok(self.nodes@, self.sub(), shapes@, node as int));
        }
        let n = self.nodes[node];
        match n {
            BVHNode::Leaf { parent_index, shape_index } => {
                let me = out.len();
                let bb = shapes[shape_index].aabb();
                out.push(
                    FlatNode {
                        aabb: bb,
                        entry_index: FLAT_SENTINEL,
                        exit_index: me + 1,
                        shape_index,
                    },
                );
                proof {
                    assert(final(out)@[me as int].is_leaf());
                    assert forall |s: int| self.sub()[node as int].contains(s) implies exists |
                        p: int,
                    |
                        old(out)@.len() <= p < final(out)@.len() && (
                        #[trigger] final(out)@[p]).is_leaf() && final(out)@[p].shape_index as int
                            == s by {
                        assert(s == shape_index as int);
                        assert(final(out)@[me as int].shape_index as int == s);
                    };
                }
            },
            BVHNode::Node { parent_index, child_l_index, child_l_aabb, child_r_index, child_r_aabb } => {
                proof {
                    self.lemma_child_smaller(shapes@, node as int);
                    assert(node_ok(self.nodes@, self.sub(), shapes@, child_l_index as int));
                    assert(node_ok(self.nodes@, self.sub(), shapes@, child_r_index as int));
                    lemma_set_disjoint_lens(
                        self.sub()[child_l_index as int],
                        self.sub()[child_r_index as int],
                    );
                }
                let me = out.len();
                let total = self.subtree_size(shapes, node);
                let bb = child_l_aabb.join(&child_r_aabb);
                out.push(
                    FlatNode {
                        aabb: bb,
                        entry_index: me + 1,
                        exit_index: me + total,
                        shape_index: FLAT_SENTINEL,
                    },
                );
                let ghost mid0 = out@;
                self.flatten_rec(shapes, child_l_index, out);
                let ghost mid1 = out@;
                self.flatten_rec(shapes, child_r_index, out);
                proof {
                    let fin = final(out)@;
                    let m = me as int;
                    let e = m + 2 * self.sub()[node as int].len() - 1;
                    assert(fin.len() == e);
                    assert(fin[m] == mid0[m]);
                    assert(!fin[m].is_leaf());
                    assert(fin[m].exit_index as int == e);
                    // the node's own box covers every leaf shape inside its
                    // region
                    assert forall |q: int| m < q < e && (#[trigger] fin[q]).is_leaf() implies
                        bb.contains_aabb(shapes@[fin[q].shape_index as int].aabb_spec()) by {
                        let l = child_l_index as int;
                        let r = child_r_index as int;
                        let s = fin[q].shape_index as int;
                        if q < mid1.len() {
                            assert(self.sub()[l].contains(s));
                        } else {
                            assert(self.sub()[r].contains(s));
                        }
                        assert(self.sub()[node as int].contains(s));
                        if self.nodes@[l].is_leaf() && self.sub()[l].contains(s) {
                            assert(s == self.nodes@[l].shape());
                        }
                        if self.nodes@[r].is_leaf() && self.sub()[r].contains(s) {
                            assert(s == self.nodes@[r].shape());
                        }
                        crate::aabb::lemma_join_covers(
                            child_l_aabb,
                            child_r_aabb,
                            shapes@[s].aabb_spec(),
                        );
                    };
                    assert forall |s: int| self.sub()[node as int].contains(s) implies exists |
                        p: int,
                    |
                        old(out)@.len() <= p < fin.len() && (#[trigger] fin[p]).is_leaf() && fin[p].shape_index as int == s by {
                        if self.sub()[child_l_index as int].contains(s) {
                            let p = choose |p: int|
                                mid0.len() <= p < mid1.len() && (#[trigger] mid1[p]).is_leaf()
                                    && mid1[p].shape_index as int == s;
                            assert(fin[p] == mid1[p]);
                            assert(fin[p].is_leaf() && fin[p].shape_index as int == s);
                        } else {
                            assert(self.sub()[child_r_index as int].contains(s));
                        }
                    };
                }
            },
        }
    }

    /// The number of flat slots the subtree below `node` needs: one less
    /// than twice its shape count.
    fn subtree_size<T: BHShape>(&self, shapes: &Vec<T>, node: usize) -> (r: usize)
        requires
            self.wf(shapes@),
            self.nodes@.len() != 0,
            (node as int) < self.nodes@.len(),
            shapes@.len() <= crate::bvh::MAX_SHAPES,
            2 * self.sub()[node as int].len() <= 2 * shapes@.len() + 1,
        ensures
            r as int == 2 * self.sub()[node as int].len() - 1,
        decreases self.sub()[node as int].len(),
    {
        proof {
            assert(node_ok(self.nodes@, self.sub(), shapes@, node as int));
        }
        let n = self.nodes[node];
        match n {
            BVHNode::Leaf { .. } => 1,
            BVHNode::Node { parent_index, child_l_index, child_l_aabb, child_r_index, child_r_aabb } => {
                proof {
                    self.lemma_child_smaller(shapes@, node as int);
                    assert(node_ok(self.nodes@, self.sub(), shapes@, child_l_index as int));
                    assert(node_ok(self.nodes@, self.sub(), shapes@, child_r_index as int));
                    lemma_set_disjoint_lens(
                        self.sub()[child_l_index as int],
                        self.sub()[child_r_index as int],
                    );
                }
                let a = self.subtree_size(shapes, child_l_index);
                let b = self.subtree_size(shapes, child_r_index);
                1 + a + b
            },
        }
    }

    /// Flattens the tree into its preorder pointer-threaded form. The
    /// result covers exactly the covered shapes and is sound to walk.
    pub fn flatten<T: BHShape>(&self, shapes: &Vec<T>) -> (r: Vec<FlatNode>)
        requires
            self.wf(shapes@),
            shapes_wf(shapes@),
            shapes@.len() <= crate::bvh::MAX_SHAPES,
        ensures
            r@.len() == self.nodes@.len(),
            flat_wf(r@, shapes@, self.covered()),
    {
        let mut out: Vec<FlatNode> = Vec::new();
        if self.nodes.len() == 0 {
            return out;
        }
        proof {
            assert(node_ok(self.nodes@, self.sub(), shapes@, 0));
            let rng = vstd::set_lib::set_int_range(0, shapes@.len() as int);
            vstd::set_lib::lemma_int_range(0, shapes@.len() as int);
            assert(self.sub()[0].subset_of(rng));
            vstd::set_lib::lemma_len_subset(self.sub()[0], rng);
            if self.nodes@[0].is_leaf() {
                assert(self.sub()[0] == Set::<int>::empty().insert(self.nodes@[0].shape()));
            }
        }
        self.flatten_rec(shapes, 0, &mut out);
        out
    }
}

/// Walks the flat form with the entry and exit pointers alone, collecting
/// every covered shape whose own box the query hits. The result, read as a
/// set, is again exactly the brute-force answer.
pub fn traverse_flat<Q: IntersectionAABB, T: BHShape>(
    flat: &Vec<FlatNode>,
    query: &Q,
    shapes: &Vec<T>,
) -> (r: Vec<usize>)
    requires
        flat_wf(flat@, shapes@, flat_covered(flat@)),
        shapes_wf(shapes@),
        query.query_wf(),
    ensures
        forall |s: usize| r@.contains(s) <==> (flat_covered(flat@).contains(s as int)
            && query.hits_spec(shapes@[s as int].aabb_spec())),
{
    let mut out: Vec<usize> = Vec::new();
    let mut idx: usize = 0;
    while idx < flat.len()
        invariant
            flat_wf(flat@, shapes@, flat_covered(flat@)),
            shapes_wf(shapes@),
            query.query_wf(),
            idx <= flat@.len(),
            forall |s: usize| out@.contains(s) <==> exists |p: int| 0 <= p < idx && (
            #[trigger] flat@[p]).is_leaf() && flat@[p].shape_index == s && query.hits_spec(
                shapes@[s as int].aabb_spec(),
            ),
        decreases flat@.len() - idx,
    {
        let node = flat[idx];
        let ghost pre = out@;
        let ghost i0 = idx as int;
        if node.entry_index == FLAT_SENTINEL {
            let bb = shapes[node.shape_index].aabb();
            if query.intersects_aabb(&bb) {
                out.push(node.shape_index);
            }
            idx = idx + 1;
            proof {
                assert forall |s: usize| out@.contains(s) implies exists |p: int| 0 <= p < idx && (
                #[trigger] flat@[p]).is_leaf() && flat@[p].shape_index == s && query.hits_spec(
                    shapes@[s as int].aabb_spec(),
                ) by {
                    if pre.contains(s) {
                        let p = choose |p: int| 0 <= p < i0 && (#[trigger] flat@[p]).is_leaf()
                            && flat@[p].shape_index == s && query.hits_spec(
                            shapes@[s as int].aabb_spec(),
                        );
                        assert(0 <= p < idx);
                    } else {
                        assert(s == node.shape_index);
                        assert(flat@[i0].is_leaf() && flat@[i0].shape_index == s);
                    }
                };
                assert forall |s: usize| (exists |p: int| 0 <= p < idx && (
                #[trigger] flat@[p]).is_leaf() && flat@[p].shape_index == s && query.hits_spec(
                    shapes@[s as int].aabb_spec(),
                )) implies out@.contains(s) by {
                    let p = choose |p: int| 0 <= p < idx && (#[trigger] flat@[p]).is_leaf() && flat@[p].shape_index == s && query.hits_spec(shapes@[s as int].aabb_spec());
                    if p < i0 {
                        assert(pre.contains(s));
                        let w = choose |w: int| 0 <= w < pre.len() && pre[w] == s;
                        assert(out@[w] == s);
                    } else {
                        assert(p == i0);
                        assert(query.hits_spec(shapes@[node.shape_index as int].aabb_spec()));
                        assert(out@[out@.len() - 1] == s);
                    }
                };
            }
        } else {
            if query.intersects_aabb(&node.aabb) {
                idx = idx + 1;
            } else {
                let e = node.exit_index;
                proof {
                    assert forall |s: usize| (exists |p: int| 0 <= p < e && (
                    #[trigger] flat@[p]).is_leaf() && flat@[p].shape_index == s && query.hits_spec(
                        shapes@[s as int].aabb_spec(),
                    )) implies out@.contains(s) by {
                        let p = choose |p: int| 0 <= p < e && (#[trigger] flat@[p]).is_leaf()
                            && flat@[p].shape_index == s && query.hits_spec(
                            shapes@[s as int].aabb_spec(),
                        );
                        if p > i0 {
                            // inside the skipped subtree: its shape's box is
                            // covered by the missed box, so it cannot be hit
                            assert(flat@[i0].aabb.contains_aabb(
                                shapes@[flat@[p].shape_index as int].aabb_spec(),
                            ));
                            query.lemma_hits_monotone(
                                shapes@[s as int].aabb_spec(),
                                flat@[i0].aabb,
                            );
                            assert(false);
                        } else {
                            assert(p < i0);
                        }
                    };
                }
                idx = e;
            }
        }
    }
    proof {
        assert forall |s: usize| out@.contains(s) implies (flat_covered(flat@).contains(s as int)
            && query.hits_spec(shapes@[s as int].aabb_spec())) by {
            let p = choose |p: int| 0 <= p < flat@.len() && (#[trigger] flat@[p]).is_leaf() && flat@[p].shape_index == s && query.hits_spec(shapes@[s as int].aabb_spec());
        };
        assert forall |s: usize| (flat_covered(flat@).contains(s as int) && query.hits_spec(
            shapes@[s as int].aabb_spec(),
        )) implies out@.contains(s) by {
            let p = choose |p: int| 0 <= p < flat@.len() && (#[trigger] flat@[p]).is_leaf() && flat@[p].shape_index as int == s as int;
            assert(flat@[p].shape_index == s);
        };
    }
    out
}

/// The set of shapes the flat form covers: those its leaves name.
pub open spec fn flat_covered(flat: Seq<FlatNode>) -> Set<int> {
    Set::new(
        |s: int| exists |p: int| 0 <= p < flat.len() && (#[trigger] flat[p]).is_leaf() && flat[p].shape_index as int == s,
    )
}

/// A sound flat form covers exactly the set it was flattened from, and is
/// sound with respect to its own leaf set.
pub proof fn lemma_flat_covered<T: BHShape>(flat: Seq<FlatNode>, shapes: Seq<T>, covered: Set<int>)
    requires
        flat_wf(flat, shapes, covered),
    ensures
        flat_covered(flat) == covered,
        flat_wf(flat, shapes, flat_covered(flat)),
{
    assert forall |s: int| flat_covered(flat).contains(s) implies covered.contains(s) by {
        let p = choose |p: int| 0 <= p < flat.len() && (#[trigger] flat[p]).is_leaf() && flat[p].shape_index as int == s;
    };
    assert(flat_covered(flat) =~= covered);
}

/// Flattening equivalence: against the same query, the stackless walk of
/// the flat form and the traversal of the tree it came from report the
/// same hit set.
pub proof fn lemma_flatten_equivalence<Q: IntersectionAABB, T: BHShape>(
    q: Q,
    shapes: Seq<T>,
    covered: Set<int>,
    flat: Seq<FlatNode>,
    tree_hits: Seq<usize>,
    flat_hits: Seq<usize>,
)
    requires
        flat_wf(flat, shapes, covered),
        forall |s: usize| tree_hits.contains(s) <==> (covered.contains(s as int) && q.hits_spec(
            shapes[s as int].aabb_spec(),
        )),
        forall |s: usize| flat_hits.contains(s) <==> (flat_covered(flat).contains(s as int)
            && q.hits_spec(shapes[s as int].aabb_spec())),
    ensures
        forall |s: usize| flat_hits.contains(s) <==> tree_hits.contains(s),
{
    lemma_flat_covered(flat, shapes, covered);
}

} // verus!
