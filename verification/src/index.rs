//! The index and its invariant.

use vstd::prelude::*;
use crate::layout::{capacity, is_merged_under, is_shaped, leaves_under};
use crate::run::is_indexable;
use crate::segment::{aggregates, Aggregate, ISegment};

verus! {

/// An array-backed complete binary tree over segments that answers range
/// aggregations in logarithmic time. `tree[0]` is the root, the children
/// of `tree[i]` are `tree[2i + 1]` and `tree[2i + 2]`, and the last level
/// holds the leaves, filled from the left.
pub struct ISegmentIndex {
    pub tree: Vec<ISegment>,
}

/// Whether the leaf slots of the tree are filled from the left: the first
/// `n` hold a sample each, and the rest hold none.
pub open spec fn is_filled(t: Seq<Aggregate>, n: nat) -> bool {
    &&& n <= capacity(t.len())
    &&& forall|k: int|
        capacity(t.len()) - 1 <= k < capacity(t.len()) - 1 + n ==> (#[trigger] t[k]).count > 0
    &&& forall|k: int| capacity(t.len()) - 1 + n <= k < t.len() ==> (#[trigger] t[k]).count == 0
}

impl ISegmentIndex {
    /// The nodes of the tree as mathematical values.
    pub open spec fn nodes(&self) -> Seq<Aggregate> {
        aggregates(self.tree@)
    }

    /// The buckets that the index holds, in ascending time order.
    pub open spec fn leaves(&self) -> Seq<Aggregate> {
        leaves_under(self.nodes(), 0)
    }

    /// The buckets below node `index`, in ascending time order.
    pub open spec fn leaves_below(&self, index: int) -> Seq<Aggregate> {
        leaves_under(self.nodes(), index)
    }

    /// The number of leaf slots.
    pub open spec fn slots(&self) -> nat {
        capacity(self.tree@.len())
    }

    /// The invariant of the index but for the size of the array: the
    /// tree is complete, its leaf slots are filled from the left with a
    /// gapless ascending run of buckets and padded with placeholders, and
    /// every inner node holds the merge of its two children.
    pub open spec fn is_structured(&self) -> bool {
        &&& is_shaped(self.tree@.len())
        &&& is_filled(self.nodes(), self.leaves().len())
        &&& is_merged_under(self.nodes(), 0)
        &&& is_indexable(self.leaves())
    }

    /// Whether the array is no larger than its buckets need: no smaller
    /// complete tree has a leaf slot for each.
    pub open spec fn is_compact(&self) -> bool {
        self.slots() == 1 || 2 * self.leaves().len() > self.slots()
    }

    /// The invariant of the index.
    pub open spec fn wf(&self) -> bool {
        self.is_structured() && self.is_compact()
    }
}

} // verus!
