//! Changing the index in place: appending a bucket at the end of the run,
//! and replacing the bucket that holds a given time.

use vstd::prelude::*;
use crate::index::{is_filled, ISegmentIndex};
use crate::layout::{
    capacity, first_at, in_subtree, is_inner, is_merged_under, is_shaped, leaves_under,
    lemma_all_under_root, lemma_ancestor_before, lemma_indexable_under, lemma_leaves_are_slots,
    lemma_leaves_of_slots, lemma_leaves_present, lemma_node_is_fold, lemma_slots,
    lemma_subtree_after, lemma_subtree_of_child, merged_at, parent,
};
use crate::run::{
    holds, is_indexable, lemma_fold_concat, lemma_fold_representable, lemma_fold_span,
    lemma_fold_totals, lemma_holder_unique, lemma_run_ascends, lemma_run_split,
};
use crate::segment::{
    aggregates, combine, combined, lemma_aggregates_subrange, Aggregate, ISegment,
};

verus! {

/// Whether the tree is merged but on the way from node `i` up to the
/// root: every inner node that is not above `i` holds the merge of its
/// children, and every leaf slot that holds no sample is the placeholder.
pub open spec fn is_mended_below(t: Seq<Aggregate>, i: int) -> bool {
    &&& forall|j: int|
        0 <= j < t.len() && is_inner(t.len(), j) && !(in_subtree(j, i) && j != i)
            ==> #[trigger] merged_at(t, j)
    &&& forall|j: int|
        0 <= j < t.len() && !is_inner(t.len(), j) ==> (#[trigger] t[j]).is_canonical()
}

/// In a tree that is mended below a node, the subtree of each child of
/// that node's parent is merged.
pub proof fn lemma_mended_children(t: Seq<Aggregate>, i: int)
    requires
        0 < i < t.len(),
        is_mended_below(t, i),
    ensures
        is_merged_under(t, 2 * parent(i) + 1),
        is_merged_under(t, 2 * parent(i) + 2),
{
    let p = parent(i);
    assert forall|j: int|
        0 <= j < t.len() && (in_subtree(2 * p + 1, j) || in_subtree(2 * p + 2, j)) implies if is_inner(
        t.len(),
        j,
    ) {
        merged_at(t, j)
    } else {
        t[j].is_canonical()
    } by {
        if in_subtree(2 * p + 1, j) {
            lemma_subtree_after(2 * p + 1, j);
        } else {
            lemma_subtree_after(2 * p + 2, j);
        }
        if in_subtree(j, i) && j != i {
            lemma_ancestor_before(j, i);
        }
    }
}

/// Writing the merge of its children to the parent of a node below which
/// the tree is mended leaves the tree mended below that parent.
pub proof fn lemma_mended_step(t: Seq<Aggregate>, u: Seq<Aggregate>, i: int)
    requires
        0 < i < t.len(),
        t.len() % 2 == 1,
        is_mended_below(t, i),
        u == t.update(parent(i), combined(t[2 * parent(i) + 1], t[2 * parent(i) + 2])),
    ensures
        is_mended_below(u, parent(i)),
{
    let p = parent(i);
    assert(in_subtree(p, i)) by {
        assert(in_subtree(p, p));
    }
    assert forall|j: int|
        0 <= j < u.len() && is_inner(u.len(), j) && !(in_subtree(j, p) && j != p) implies #[trigger] merged_at(
        u,
        j,
    ) by {
        if j != p {
            if in_subtree(j, i) && j != i {
                lemma_ancestor_before(j, i);
            }
            assert(merged_at(t, j));
            if 2 * j + 1 == p || 2 * j + 2 == p {
                assert(in_subtree(j, j));
            }
        }
    }
}

/// A tree that is mended below its root is merged.
pub proof fn lemma_mended_root(t: Seq<Aggregate>)
    requires
        is_mended_below(t, 0),
    ensures
        is_merged_under(t, 0),
{
    assert forall|j: int| 0 <= j < t.len() && #[trigger] in_subtree(0, j) implies if is_inner(
        t.len(),
        j,
    ) {
        merged_at(t, j)
    } else {
        t[j].is_canonical()
    } by {
        if in_subtree(j, 0) && j != 0 {
            lemma_subtree_after(j, 0);
        }
    }
}

/// A merged tree in which a leaf slot is overwritten with a canonical
/// aggregate is mended below that slot.
pub proof fn lemma_mended_slot(t: Seq<Aggregate>, u: Seq<Aggregate>, i: int, a: Aggregate)
    requires
        0 <= i < t.len(),
        !is_inner(t.len(), i),
        is_merged_under(t, 0),
        a.is_canonical(),
        u == t.update(i, a),
    ensures
        is_mended_below(u, i),
{
    assert forall|j: int|
        0 <= j < u.len() && is_inner(u.len(), j) && !(in_subtree(j, i) && j != i) implies #[trigger] merged_at(
        u,
        j,
    ) by {
        lemma_all_under_root(j);
        if 2 * j + 1 == i || 2 * j + 2 == i {
            assert(in_subtree(j, j));
        }
    }
    assert forall|j: int| 0 <= j < u.len() && !is_inner(u.len(), j) implies (#[trigger] u[j]).is_canonical() by {
        lemma_all_under_root(j);
    }
}

/// The real leaves of a tree whose first `n` leaf slots are filled are
/// those slots.
pub proof fn lemma_filled_leaves(t: Seq<Aggregate>, n: nat)
    requires
        is_shaped(t.len()),
        is_filled(t, n),
    ensures
        leaves_under(t, 0) == t.subrange(capacity(t.len()) - 1, capacity(t.len()) - 1 + n),
{
    let cap = capacity(t.len());
    lemma_slots(cap, 0);
    assert(first_at(cap, 0) == cap - 1) by (nonlinear_arith)
        requires
            first_at(cap, 0) == (0 + 1) * cap - 1,
    ;
    lemma_leaves_are_slots(t, 0, cap - 1 + n);
}

/// Writing a bucket to the first free leaf slot appends it to the leaves.
pub proof fn lemma_slot_appended(t: Seq<Aggregate>, u: Seq<Aggregate>, a: Aggregate)
    requires
        is_shaped(t.len()),
        is_filled(t, leaves_under(t, 0).len()),
        leaves_under(t, 0).len() < capacity(t.len()),
        a.count > 0,
        u == t.update(capacity(t.len()) - 1 + leaves_under(t, 0).len(), a),
    ensures
        leaves_under(u, 0) == leaves_under(t, 0).push(a),
        is_filled(u, leaves_under(u, 0).len()),
{
    let n = leaves_under(t, 0).len();
    lemma_filled_leaves(t, n);
    lemma_filled_leaves(u, n + 1);
}

/// Writing a bucket to a leaf slot that is taken replaces that leaf.
pub proof fn lemma_slot_replaced(t: Seq<Aggregate>, u: Seq<Aggregate>, k: int, a: Aggregate)
    requires
        is_shaped(t.len()),
        is_filled(t, leaves_under(t, 0).len()),
        0 <= k < leaves_under(t, 0).len(),
        a.count > 0,
        u == t.update(capacity(t.len()) - 1 + k, a),
    ensures
        leaves_under(u, 0) == leaves_under(t, 0).update(k, a),
        is_filled(u, leaves_under(u, 0).len()),
{
    let n = leaves_under(t, 0).len();
    lemma_filled_leaves(t, n);
    lemma_filled_leaves(u, n);
}

/// Where a node of a merged tree holds a time, so does one of its
/// children: the left child if it has a sample and ends after that time,
/// else the right child.
pub proof fn lemma_descend(t: Seq<Aggregate>, i: int, key: int)
    requires
        t.len() % 2 == 1,
        is_inner(t.len(), i),
        is_merged_under(t, 0),
        is_indexable(leaves_under(t, 0)),
        t[i].count > 0,
        holds(t[i], key),
    ensures
        t[2 * i + 1].count > 0 && key < t[2 * i + 1].end ==> holds(t[2 * i + 1], key),
        !(t[2 * i + 1].count > 0 && key < t[2 * i + 1].end) ==> t[2 * i + 2].count > 0 && holds(
            t[2 * i + 2],
            key,
        ),
{
    let a = leaves_under(t, 2 * i + 1);
    let b = leaves_under(t, 2 * i + 2);
    let s = a + b;
    lemma_all_under_root(i);
    assert forall|x: int| 2 * i + 1 <= x <= 2 * i + 2 implies is_merged_under(t, x) by {
        assert forall|j: int| 0 <= j < t.len() && #[trigger] in_subtree(x, j) implies in_subtree(
            0,
            j,
        ) by {
            lemma_all_under_root(j);
        }
    }
    lemma_node_is_fold(t, 2 * i + 1);
    lemma_node_is_fold(t, 2 * i + 2);
    lemma_indexable_under(t, i);
    lemma_run_split(a, b);
    lemma_leaves_present(t, 2 * i + 1);
    lemma_leaves_present(t, 2 * i + 2);
    lemma_fold_totals(a);
    lemma_fold_totals(b);
    if a.len() > 0 && b.len() > 0 {
        lemma_fold_span(a);
        lemma_fold_span(b);
        assert(s[a.len() - 1] == a.last());
    }
}

/// A time that the root of a merged tree does not hold is held by none of
/// the leaves.
pub proof fn lemma_root_holds(t: Seq<Aggregate>, k: int, key: int)
    requires
        t.len() > 0,
        is_merged_under(t, 0),
        is_indexable(leaves_under(t, 0)),
        0 <= k < leaves_under(t, 0).len(),
        holds(leaves_under(t, 0)[k], key),
    ensures
        t[0].count > 0,
        holds(t[0], key),
{
    let s = leaves_under(t, 0);
    lemma_node_is_fold(t, 0);
    lemma_fold_span(s);
    lemma_run_ascends(s, 0, k);
    lemma_run_ascends(s, k, s.len() - 1);
}

impl ISegmentIndex {
    /// The buckets of a structured index are its first leaf slots.
    pub proof fn lemma_leaves(&self)
        requires
            is_shaped(self.tree@.len()),
            is_filled(self.nodes(), self.leaves().len()),
        ensures
            self.leaves() == self.nodes().subrange(
                self.slots() - 1,
                self.slots() - 1 + self.leaves().len(),
            ),
    {
        lemma_filled_leaves(self.nodes(), self.leaves().len());
    }

    /// Writes a bucket to a leaf slot and merges the nodes above it anew.
    fn put(&mut self, slot: usize, value: ISegment)
        requires
            is_shaped(old(self).tree@.len()),
            slot < old(self).tree@.len(),
            !is_inner(old(self).tree@.len(), slot as int),
            is_merged_under(old(self).nodes(), 0),
            value@.count > 0,
            is_indexable(leaves_under(old(self).nodes().update(slot as int, value@), 0)),
        ensures
            final(self).tree@.len() == old(self).tree@.len(),
            is_merged_under(final(self).nodes(), 0),
            final(self).leaves() == leaves_under(
                old(self).nodes().update(slot as int, value@),
                0,
            ),
            forall|j: int|
                0 <= j < old(self).tree@.len() && !is_inner(old(self).tree@.len(), j)
                    ==> #[trigger] final(self).nodes()[j] == old(self).nodes().update(
                    slot as int,
                    value@,
                )[j],
            forall|j: int|
                0 <= j < old(self).tree@.len() && !in_subtree(j, slot as int)
                    ==> #[trigger] final(self).tree@[j] == old(self).tree@[j],
    {
        let ghost t0 = self.nodes();
        self.tree[slot] = value;
        let ghost mid = *self;
        proof {
            let t1 = self.nodes();
            assert(t1 =~= t0.update(slot as int, value@));
            lemma_mended_slot(t0, t1, slot as int, value@);
        }
        self.refresh(slot);
        proof {
            assert forall|j: int|
                0 <= j < old(self).tree@.len() && !is_inner(
                    old(self).tree@.len(),
                    j,
                ) implies #[trigger] self.nodes()[j] == t0.update(slot as int, value@)[j] by {
                assert(self.tree@[j] == mid.tree@[j]);
            }
            assert forall|j: int|
                0 <= j < old(self).tree@.len() && !in_subtree(
                    j,
                    slot as int,
                ) implies #[trigger] self.tree@[j] == old(self).tree@[j] by {
                assert(in_subtree(slot as int, slot as int));
                assert(self.tree@[j] == mid.tree@[j]);
            }
        }
    }

    /// Recomputes the nodes on the way from `slot` up to the root, each as
    /// the merge of its two children.
    fn refresh(&mut self, slot: usize)
        requires
            is_shaped(old(self).tree@.len()),
            slot < old(self).tree@.len(),
            is_mended_below(old(self).nodes(), slot as int),
            is_indexable(old(self).leaves()),
        ensures
            final(self).tree@.len() == old(self).tree@.len(),
            forall|j: int|
                0 <= j < old(self).tree@.len() && !is_inner(old(self).tree@.len(), j)
                    ==> #[trigger] final(self).tree@[j] == old(self).tree@[j],
            forall|j: int|
                0 <= j < old(self).tree@.len() && !in_subtree(j, slot as int)
                    ==> #[trigger] final(self).tree@[j] == old(self).tree@[j],
            is_merged_under(final(self).nodes(), 0),
            final(self).leaves() == old(self).leaves(),
    {
        let mut node = slot;
        proof {
            assert(in_subtree(slot as int, slot as int));
        }
        while node > 0
            invariant
                self.tree@.len() == old(self).tree@.len(),
                is_shaped(self.tree@.len()),
                node < self.tree@.len(),
                in_subtree(node as int, slot as int),
                forall|j: int|
                    0 <= j < old(self).tree@.len() && !in_subtree(j, slot as int)
                        ==> #[trigger] self.tree@[j] == old(self).tree@[j],
                is_mended_below(self.nodes(), node as int),
                self.leaves() == old(self).leaves(),
                is_indexable(self.leaves()),
                forall|j: int|
                    0 <= j < old(self).tree@.len() && !is_inner(old(self).tree@.len(), j)
                        ==> #[trigger] self.tree@[j] == old(self).tree@[j],
            decreases node,
        {
            let up = (node - 1) / 2;
            let ghost t = self.nodes();
            proof {
                assert(self.tree.len() == self.tree@.len());
                lemma_mended_children(t, node as int);
                lemma_node_is_fold(t, 2 * up + 1);
                lemma_node_is_fold(t, 2 * up + 2);
                lemma_leaves_present(t, 2 * up + 1);
                lemma_fold_concat(leaves_under(t, 2 * up + 1), leaves_under(t, 2 * up + 2));
                lemma_indexable_under(t, up as int);
                lemma_fold_representable(leaves_under(t, up as int));
            }
            let merged = combine(self.tree[2 * up + 1], self.tree[2 * up + 2]);
            self.tree[up] = merged;
            proof {
                let u = self.nodes();
                assert(u =~= t.update(up as int, combined(t[2 * up + 1], t[2 * up + 2])));
                lemma_mended_step(t, u, node as int);
                lemma_leaves_of_slots(t, u, 0);
                lemma_subtree_of_child(up as int, slot as int);
            }
            node = up;
        }
        proof {
            lemma_mended_root(self.nodes());
        }
    }

    /// The number of buckets in the index, found by bisection of the leaf
    /// slots.
    pub fn leaf_count(&self) -> (n: usize)
        requires
            self.is_structured(),
        ensures
            n == self.leaves().len(),
    {
        let len = self.tree.len();
        let cap = len / 2 + 1;
        let ghost count = self.leaves().len();
        let mut low: usize = 0;
        let mut high: usize = cap;
        while low < high
            invariant
                self.is_structured(),
                len == self.tree@.len(),
                cap == capacity(len as nat),
                count == self.leaves().len(),
                low <= count <= high <= cap,
            decreases high - low,
        {
            let mid = low + (high - low) / 2;
            if self.tree[cap - 1 + mid].count > 0 {
                proof {
                    assert(self.nodes()[cap - 1 + mid].count > 0);
                }
                low = mid + 1;
            } else {
                proof {
                    assert(self.nodes()[cap - 1 + mid].count == 0);
                }
                high = mid;
            }
        }
        low
    }

    /// Doubles the number of leaf slots: the array grows to twice its
    /// size plus one, the buckets move to the new last level, and the
    /// slots behind them are padded with placeholders.
    fn grow(&mut self)
        requires
            old(self).is_structured(),
            old(self).leaves().len() == old(self).slots(),
            2 * old(self).tree@.len() + 1 <= usize::MAX,
        ensures
            final(self).is_structured(),
            final(self).leaves() == old(self).leaves(),
            final(self).tree@.len() == 2 * old(self).tree@.len() + 1,
    {
        let len = self.tree.len();
        let cap = len / 2 + 1;
        let ghost before = self.leaves();
        proof {
            self.lemma_leaves();
            lemma_aggregates_subrange(self.tree@, cap - 1, len as int);
        }
        let leaves = self.tree.split_off(cap - 1);
        self.tree.resize(2 * len + 1, ISegment::default());
        proof {
            assert(leaves@.subrange(0, cap as int) =~= leaves@);
            lemma_slots((2 * cap) as nat, 0);
        }
        self.build(leaves.as_slice(), 0, 0, cap - 1);
    }

    /// Adds `value` as the last bucket. Where every leaf slot is taken,
    /// the array first grows to twice its size plus one; then the bucket
    /// is written to the next free slot and the nodes above it, up to the
    /// root, are merged anew.
    pub fn append(&mut self, value: ISegment)
        requires
            old(self).wf(),
            is_indexable(old(self).leaves().push(value@)),
            old(self).leaves().len() == old(self).slots() ==> 2 * old(self).tree@.len() + 1
                <= usize::MAX,
        ensures
            final(self).wf(),
            final(self).leaves() == old(self).leaves().push(value@),
            final(self).tree@.len() == if old(self).leaves().len() == old(self).slots() {
                2 * old(self).tree@.len() + 1
            } else {
                old(self).tree@.len()
            },
            old(self).leaves().len() < old(self).slots() ==> forall|j: int|
                0 <= j < old(self).tree@.len() && !in_subtree(
                    j,
                    old(self).slots() - 1 + old(self).leaves().len(),
                ) ==> #[trigger] final(self).tree@[j] == old(self).tree@[j],
    {
        let count = self.leaf_count();
        if count == self.tree.len() / 2 + 1 {
            self.grow();
        }
        let slot = self.tree.len() / 2 + count;
        let ghost t0 = self.nodes();
        proof {
            assert(value@.count > 0) by {
                let s = old(self).leaves().push(value@);
                assert(s[s.len() - 1].count > 0);
            }
            lemma_slot_appended(t0, t0.update(slot as int, value@), value@);
        }
        self.put(slot, value);
        proof {
            let t1 = t0.update(slot as int, value@);
            let t2 = self.nodes();
            let n = self.leaves().len();
            let cap = self.slots();
            assert forall|k: int| cap - 1 <= k < cap - 1 + n implies (#[trigger] t2[k]).count
                > 0 by {
                assert(t2[k] == t1[k]);
            }
            assert forall|k: int| cap - 1 + n <= k < t2.len() implies (#[trigger] t2[k]).count
                == 0 by {
                assert(t2[k] == t1[k]);
            }
        }
    }

    /// Replaces the bucket that holds the time `target_start` by `value`.
    /// The bucket is found by a descent from the root that takes, at each
    /// node, the one child whose span holds the time; then the nodes above
    /// it, up to the root, are merged anew. Where no bucket holds the
    /// time, nothing changes.
    pub fn update(&mut self, target_start: usize, value: ISegment)
        requires
            old(self).wf(),
            forall|k: int|
                0 <= k < old(self).leaves().len() && holds(
                    #[trigger] old(self).leaves()[k],
                    target_start as int,
                ) ==> is_indexable(old(self).leaves().update(k, value@)),
        ensures
            final(self).wf(),
            final(self).tree@.len() == old(self).tree@.len(),
            forall|k: int|
                0 <= k < old(self).leaves().len() && holds(
                    #[trigger] old(self).leaves()[k],
                    target_start as int,
                ) ==> final(self).leaves() == old(self).leaves().update(k, value@),
            forall|k: int, j: int|
                0 <= k < old(self).leaves().len() && holds(
                    #[trigger] old(self).leaves()[k],
                    target_start as int,
                ) && 0 <= j < old(self).tree@.len() && !in_subtree(j, old(self).slots() - 1 + k)
                    ==> #[trigger] final(self).tree@[j] == old(self).tree@[j],
            (forall|k: int|
                0 <= k < old(self).leaves().len() ==> !holds(
                    #[trigger] old(self).leaves()[k],
                    target_start as int,
                )) ==> final(self).tree@ == old(self).tree@,
    {
        let len = self.tree.len();
        let ghost t0 = self.nodes();
        let ghost key = target_start as int;
        let ghost leaves = self.leaves();
        let root = self.tree[0];
        if root.count == 0 || target_start < root.span.start || target_start >= root.span.end {
            proof {
                assert forall|k: int| 0 <= k < leaves.len() implies !holds(
                    #[trigger] leaves[k],
                    key,
                ) by {
                    if holds(leaves[k], key) {
                        lemma_root_holds(t0, k, key);
                    }
                }
            }
            return ;
        }
        let mut node: usize = 0;
        while node < (len - 1) / 2
            invariant
                self.wf(),
                *self == *old(self),
                len == self.tree@.len(),
                t0 == self.nodes(),
                key == target_start as int,
                node < len,
                t0[node as int].count > 0,
                holds(t0[node as int], key),
            decreases len - node,
        {
            proof {
                lemma_descend(t0, node as int, key);
            }
            let left = self.tree[2 * node + 1];
            if left.count > 0 && target_start < left.span.end {
                node = 2 * node + 1;
            } else {
                node = 2 * node + 2;
            }
        }
        let ghost spot = node - (self.slots() - 1);
        proof {
            self.lemma_leaves();
            assert(0 <= spot < leaves.len());
            assert(leaves[spot] == t0[node as int]);
            let after = leaves.update(spot, value@);
            assert(after[spot].count > 0);
            lemma_slot_replaced(t0, t0.update(node as int, value@), spot, value@);
        }
        self.put(node, value);
        proof {
            let t1 = t0.update(node as int, value@);
            let t2 = self.nodes();
            let n = leaves.len();
            let cap = self.slots();
            assert forall|k: int| cap - 1 <= k < cap - 1 + n implies (#[trigger] t2[k]).count
                > 0 by {
                assert(t2[k] == t1[k]);
            }
            assert forall|k: int| cap - 1 + n <= k < t2.len() implies (#[trigger] t2[k]).count
                == 0 by {
                assert(t2[k] == t1[k]);
            }
            assert forall|k: int| 0 <= k < leaves.len() && holds(
                #[trigger] leaves[k],
                key,
            ) implies k == spot by {
                lemma_holder_unique(leaves, k, spot, key);
            }
        }
    }
}

} // verus!
