//! Building the tree from a batch of buckets.

use vstd::prelude::*;
use crate::index::ISegmentIndex;
use crate::index::is_filled;
use crate::layout::{
    capacity, clip, first_at, in_subtree, is_inner, is_merged_under, is_pow2, is_shaped,
    leaves_under, lemma_leaves_are_slots, lemma_merged_above, lemma_merged_frame,
    lemma_pow2_apart, lemma_siblings_apart, lemma_slots, lemma_slots_for,
    lemma_slots_for_holds, lemma_subtree_after, lemma_subtree_bottom, lemma_subtree_of_child,
    lemma_subtree_slots, merged_at, slots_for, width_at,
};
use crate::run::{
    fold, is_indexable, lemma_fold_concat, lemma_fold_representable, lemma_indexable_split,
};
use crate::segment::{aggregates, combine, combined, Aggregate, ISegment};

verus! {

/// What the leaf slot `k` of a subtree holds once `part` has been placed
/// in its slots from the left: a bucket of `part`, or the placeholder.
pub open spec fn placed(part: Seq<Aggregate>, k: int) -> Aggregate {
    if 0 <= k < part.len() {
        part[k]
    } else {
        Aggregate::empty()
    }
}

/// Whether the tree `u` is the tree `t` with `part` built into the subtree
/// of node `i`: outside of that subtree nothing has changed; its leaf
/// slots hold `part` from the left, then placeholders; every inner node
/// of it holds the merge of its children, so that node `i` holds the
/// aggregate of `part`.
pub open spec fn is_built_under(
    t: Seq<Aggregate>,
    u: Seq<Aggregate>,
    i: int,
    part: Seq<Aggregate>,
) -> bool {
    &&& u.len() == t.len()
    &&& forall|j: int| 0 <= j < t.len() && !in_subtree(i, j) ==> #[trigger] u[j] == t[j]
    &&& is_merged_under(u, i)
    &&& forall|k: int|
        0 <= k < width_at(capacity(t.len()), i) ==> #[trigger] u[first_at(capacity(t.len()), i)
            + k] == placed(part, k)
    &&& u[i] == fold(part)
}

/// Writing the one bucket of `part`, or the placeholder, to a leaf slot
/// builds `part` into it.
pub proof fn lemma_built_slot(t: Seq<Aggregate>, u: Seq<Aggregate>, i: int, part: Seq<Aggregate>)
    requires
        is_shaped(t.len()),
        0 <= i < t.len(),
        width_at(capacity(t.len()), i) == 1,
        part.len() <= 1,
        part.len() == 1 ==> part[0].count > 0,
        u == t.update(i, placed(part, 0)),
    ensures
        is_built_under(t, u, i, part),
{
    let cap = capacity(t.len());
    lemma_slots(cap, i);
    if part.len() == 1 {
        assert(fold(part.drop_last()) == Aggregate::empty());
    }
    assert forall|j: int| 0 <= j < u.len() && #[trigger] in_subtree(i, j) implies if is_inner(
        u.len(),
        j,
    ) {
        merged_at(u, j)
    } else {
        u[j].is_canonical()
    } by {
        lemma_subtree_bottom(t.len(), i, j);
    }
}

/// Building the first part of a run into the left child of a node, the
/// rest into the right child, and writing the merge of the two children to
/// the node builds the run into the node.
pub proof fn lemma_built_node(
    t0: Seq<Aggregate>,
    t1: Seq<Aggregate>,
    t2: Seq<Aggregate>,
    t3: Seq<Aggregate>,
    i: int,
    a: Seq<Aggregate>,
    b: Seq<Aggregate>,
)
    requires
        is_shaped(t0.len()),
        0 <= i < t0.len(),
        2 * i + 2 < t0.len(),
        is_built_under(t0, t1, 2 * i + 1, a),
        is_built_under(t1, t2, 2 * i + 2, b),
        t3 == t2.update(i, combined(t2[2 * i + 1], t2[2 * i + 2])),
        a.len() <= width_at(capacity(t0.len()), i) / 2,
        b.len() > 0 ==> a.len() == width_at(capacity(t0.len()), i) / 2,
        forall|k: int| 0 <= k < a.len() ==> (#[trigger] a[k]).count > 0,
    ensures
        is_built_under(t0, t3, i, a + b),
{
    let len = t0.len();
    let cap = capacity(len);
    let l = 2 * i + 1;
    let r = 2 * i + 2;
    let w = width_at(cap, i) as int;
    let h = w / 2;
    let first = first_at(cap, i);
    lemma_slots(cap, i);
    // the right build leaves the left subtree as it was
    assert forall|j: int| 0 <= j < len && #[trigger] in_subtree(l, j) implies t1[j] == t3[j] by {
        lemma_siblings_apart(i, j);
        lemma_subtree_after(l, j);
    }
    assert forall|j: int| 0 <= j < len && #[trigger] in_subtree(r, j) implies t2[j] == t3[j] by {
        lemma_subtree_after(r, j);
    }
    lemma_merged_frame(t1, t3, l);
    lemma_merged_frame(t2, t3, r);
    assert forall|k: int| 0 <= k < a.len() implies (#[trigger] a[k]).is_canonical() by {}
    lemma_fold_concat(a, b);
    lemma_merged_above(t3, i);
    assert forall|j: int| 0 <= j < len && !in_subtree(i, j) implies #[trigger] t3[j] == t0[j] by {
        if in_subtree(l, j) || in_subtree(r, j) {
            lemma_subtree_of_child(i, j);
        }
    }
    assert forall|k: int| 0 <= k < w implies #[trigger] t3[first + k] == placed(a + b, k) by {
        lemma_slots(cap, l);
        lemma_slots(cap, r);
        if k < h {
            lemma_subtree_slots(cap, l, first + k);
        } else {
            lemma_subtree_slots(cap, r, first + k);
            assert(t2[first_at(cap, r) + (k - h)] == placed(b, k - h));
        }
    }
}

/// The real leaves below a node into which a run has been built are that
/// run.
pub proof fn lemma_built_leaves(t: Seq<Aggregate>, u: Seq<Aggregate>, i: int, part: Seq<Aggregate>)
    requires
        is_shaped(t.len()),
        0 <= i < t.len(),
        is_built_under(t, u, i, part),
        part.len() <= width_at(capacity(t.len()), i),
        forall|k: int| 0 <= k < part.len() ==> (#[trigger] part[k]).count > 0,
    ensures
        leaves_under(u, i) == part,
{
    let cap = capacity(t.len());
    let first = first_at(cap, i);
    let w = width_at(cap, i) as int;
    let stop = first + part.len();
    lemma_slots(cap, i);
    assert forall|k: int| first <= k < first + w implies ((#[trigger] u[k]).count > 0 <==> k
        < stop) by {
        assert(u[first + (k - first)] == placed(part, k - first));
    }
    lemma_leaves_are_slots(u, i, stop);
    assert forall|k: int| 0 <= k < part.len() implies u.subrange(first, stop)[k] == part[k] by {
        assert(u[first + k] == placed(part, k));
    }
}

/// A tree into whose root an indexable run has been built has the
/// structure of an index over that run.
pub proof fn lemma_built_root(t: Seq<Aggregate>, u: Seq<Aggregate>, part: Seq<Aggregate>)
    requires
        is_shaped(t.len()),
        is_built_under(t, u, 0, part),
        part.len() <= capacity(t.len()),
        is_indexable(part),
    ensures
        leaves_under(u, 0) == part,
        is_filled(u, part.len()),
{
    let cap = capacity(t.len());
    lemma_slots(cap, 0);
    assert(first_at(cap, 0) == cap - 1) by (nonlinear_arith)
        requires
            first_at(cap, 0) == (0 + 1) * cap - 1,
    ;
    lemma_built_leaves(t, u, 0, part);
    assert forall|k: int| cap - 1 <= k < cap - 1 + part.len() implies (#[trigger] u[k]).count
        > 0 by {
        assert(u[first_at(cap, 0) + (k - (cap - 1))] == placed(part, k - (cap - 1)));
    }
    assert forall|k: int| cap - 1 + part.len() <= k < u.len() implies (#[trigger] u[k]).count
        == 0 by {
        assert(u[first_at(cap, 0) + (k - (cap - 1))] == placed(part, k - (cap - 1)));
    }
}

impl ISegmentIndex {
    /// Places `values[from..upto]` in the leaf slots below node `index`,
    /// from the left, pads the rest of them, and merges upwards. The
    /// slots of a node are parted at their midpoint between its children.
    fn fill(&mut self, values: &[ISegment], index: usize, from: usize, upto: usize, width: usize)
        requires
            is_shaped(old(self).tree@.len()),
            index < old(self).tree@.len(),
            width == width_at(old(self).slots(), index as int),
            from <= upto <= values@.len(),
            upto - from <= width,
            is_indexable(aggregates(values@.subrange(from as int, upto as int))),
        ensures
            is_built_under(
                old(self).nodes(),
                final(self).nodes(),
                index as int,
                aggregates(values@.subrange(from as int, upto as int)),
            ),
        decreases width,
    {
        let ghost t0 = self.nodes();
        let ghost part = aggregates(values@.subrange(from as int, upto as int));
        proof {
            lemma_slots(self.slots(), index as int);
            assert(self.tree.len() == self.tree@.len());
        }
        if width == 1 {
            let leaf = if from < upto {
                values[from]
            } else {
                ISegment::default()
            };
            self.tree[index] = leaf;
            proof {
                assert(self.nodes() =~= t0.update(index as int, placed(part, 0)));
                lemma_built_slot(t0, self.nodes(), index as int, part);
            }
        } else {
            let half = width / 2;
            let mid = if upto - from > half {
                from + half
            } else {
                upto
            };
            let ghost a = aggregates(values@.subrange(from as int, mid as int));
            let ghost b = aggregates(values@.subrange(mid as int, upto as int));
            proof {
                assert(part =~= a + b);
                lemma_indexable_split(a, b);
            }
            self.fill(values, 2 * index + 1, from, mid, half);
            let ghost t1 = self.nodes();
            self.fill(values, 2 * index + 2, mid, upto, half);
            let ghost t2 = self.nodes();
            proof {
                assert(t2[2 * index + 1] == fold(a));
                assert forall|k: int| 0 <= k < a.len() implies (#[trigger] a[k]).is_canonical() by {}
                lemma_fold_concat(a, b);
                lemma_fold_representable(part);
            }
            let merged = combine(self.tree[2 * index + 1], self.tree[2 * index + 2]);
            self.tree[index] = merged;
            proof {
                assert(self.nodes() =~= t2.update(
                    index as int,
                    combined(t2[2 * index + 1], t2[2 * index + 2]),
                ));
                lemma_built_node(t0, t1, t2, self.nodes(), index as int, a, b);
            }
        }
    }

    /// Builds `values[left..=right]` into the subtree of node `index`:
    /// its leaf slots take the buckets from the left, the slots that are
    /// left over are padded with placeholders, and every inner node of it
    /// is set to the merge of its children. The rest of the tree stays as
    /// it is; built into the root, the buckets make up the whole index.
    pub fn build(&mut self, values: &[ISegment], index: usize, left: usize, right: usize)
        requires
            is_shaped(old(self).tree@.len()),
            index < old(self).tree@.len(),
            left <= right < values@.len(),
            right - left < width_at(old(self).slots(), index as int),
            is_indexable(aggregates(values@.subrange(left as int, right + 1))),
        ensures
            is_built_under(
                old(self).nodes(),
                final(self).nodes(),
                index as int,
                aggregates(values@.subrange(left as int, right + 1)),
            ),
            final(self).leaves_below(index as int) == aggregates(
                values@.subrange(left as int, right + 1),
            ),
            index == 0 ==> final(self).is_structured(),
            index == 0 && (old(self).slots() == 1 || 2 * (right - left + 1) > old(self).slots())
                ==> final(self).wf(),
    {
        let len = self.tree.len();
        let ghost cap = self.slots();
        let ghost t0 = self.nodes();
        let ghost part = aggregates(values@.subrange(left as int, right + 1));
        let mut width: usize = 1;
        let mut node: usize = index;
        proof {
            lemma_slots(cap, index as int);
            assert(width_at(cap, node as int) * width == width_at(cap, index as int))
                by (nonlinear_arith)
                requires
                    width == 1,
                    node == index,
            ;
        }
        while node < (len - 1) / 2
            invariant
                len == self.tree@.len(),
                cap == capacity(len as nat),
                is_shaped(len as nat),
                node < len,
                width >= 1,
                width_at(cap, node as int) * width == width_at(cap, index as int),
                width_at(cap, index as int) <= cap,
            decreases len - node,
        {
            proof {
                lemma_slots(cap, node as int);
                let w = width_at(cap, node as int);
                assert((w / 2) * (2 * width) == w * width) by (nonlinear_arith)
                    requires
                        w % 2 == 0,
                ;
                assert(2 * width <= w * width) by (nonlinear_arith)
                    requires
                        w >= 2,
                        width >= 1,
                ;
            }
            node = 2 * node + 1;
            width = 2 * width;
        }
        proof {
            lemma_slots(cap, node as int);
            assert(width == width_at(cap, index as int)) by (nonlinear_arith)
                requires
                    width_at(cap, node as int) * width == width_at(cap, index as int),
                    width_at(cap, node as int) == 1,
            ;
        }
        assert(right < values.len());
        self.fill(values, index, left, right + 1, width);
        proof {
            lemma_built_leaves(t0, self.nodes(), index as int, part);
            if index == 0 {
                lemma_built_root(t0, self.nodes(), part);
            }
        }
    }

    /// Makes the index of a batch of buckets, given in ascending time
    /// order. The array is the smallest complete tree with a leaf slot for
    /// each bucket: one node less than twice the least power of two that
    /// is not less than their number. An empty batch gives the one-node
    /// tree that holds the placeholder.
    pub fn new(values: Vec<ISegment>) -> (res: Self)
        requires
            is_indexable(aggregates(values@)),
            2 * slots_for(values@.len()) - 1 <= usize::MAX,
        ensures
            res.wf(),
            res.leaves() == aggregates(values@),
            res.tree@.len() == 2 * slots_for(values@.len()) - 1,
    {
        let n = values.len();
        let mut cap: usize = 1;
        proof {
            lemma_slots_for_holds(n as nat);
        }
        while cap < n
            invariant
                is_pow2(cap as nat),
                cap >= 1,
                cap == 1 || cap < 2 * n,
                is_pow2(slots_for(n as nat)),
                n <= slots_for(n as nat),
                2 * slots_for(n as nat) - 1 <= usize::MAX,
            decreases 2 * n - cap,
        {
            proof {
                lemma_pow2_apart(cap as nat, slots_for(n as nat));
            }
            cap = 2 * cap;
        }
        proof {
            lemma_slots_for(n as nat, cap as nat);
        }
        let tree_size = cap - 1 + cap;
        let mut seg_forest = Self { tree: vec![ISegment::default(); tree_size] };
        if n > 0 {
            proof {
                lemma_slots(cap as nat, 0);
                assert(values@.subrange(0, n as int) =~= values@);
            }
            seg_forest.build(values.as_slice(), 0, 0, n - 1);
        } else {
            proof {
                let t = seg_forest.nodes();
                assert forall|j: int| 0 <= j < t.len() && #[trigger] in_subtree(0, j) implies if is_inner(
                    t.len(),
                    j,
                ) {
                    merged_at(t, j)
                } else {
                    t[j].is_canonical()
                } by {}
            }
        }
        seg_forest
    }
}

} // verus!
