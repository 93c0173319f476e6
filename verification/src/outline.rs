//! The outline of the tree: its nodes in the order in which a drawing of
//! the tree, turned on its side, lists them line by line.

use vstd::prelude::*;
use crate::index::ISegmentIndex;
use crate::segment::ISegment;

verus! {

/// One line of the outline: a node, how deep it lies below the root,
/// whether it is the right child of its parent, and the sum it holds.
#[derive(Clone, Copy, Debug, PartialEq, Eq, Structural)]
pub struct OutlineRow {
    pub node: usize,
    pub depth: usize,
    pub is_right: bool,
    pub sum: i64,
}

/// The outline of the subtree of node `i`: the outline of its right
/// child, then the node itself, then the outline of its left child,
/// each child one level deeper.
pub open spec fn outline_under(t: Seq<ISegment>, i: int, depth: int, is_right: bool) -> Seq<
    OutlineRow,
>
    decreases 2 * t.len() - i,
{
    if 0 <= i < t.len() {
        outline_under(t, 2 * i + 2, depth + 1, true).push(
            OutlineRow { node: i as usize, depth: depth as usize, is_right, sum: t[i].sum },
        ) + outline_under(t, 2 * i + 1, depth + 1, false)
    } else {
        Seq::empty()
    }
}

impl ISegmentIndex {
    /// Adds the outline of the subtree of node `index` to `rows`.
    fn outline_into(&self, rows: &mut Vec<OutlineRow>, index: usize, depth: usize, is_right: bool)
        requires
            index < self.tree@.len(),
            depth <= index,
        ensures
            final(rows)@ == old(rows)@ + outline_under(
                self.tree@,
                index as int,
                depth as int,
                is_right,
            ),
        decreases self.tree@.len() - index,
    {
        let len = self.tree.len();
        let ghost before = rows@;
        let ghost right = outline_under(self.tree@, 2 * index + 2, depth + 1, true);
        let ghost left = outline_under(self.tree@, 2 * index + 1, depth + 1, false);
        if index < (len - 1) / 2 {
            self.outline_into(rows, 2 * index + 2, depth + 1, true);
        }
        let row = OutlineRow { node: index, depth, is_right, sum: self.tree[index].sum };
        rows.push(row);
        if index < len / 2 {
            self.outline_into(rows, 2 * index + 1, depth + 1, false);
        }
        proof {
            assert(rows@ =~= before + (right.push(row) + left));
        }
    }

    /// The outline of the whole tree, the rightmost leaf slot first and
    /// the leftmost last, as a drawing lists the nodes from top to bottom.
    pub fn outline(&self) -> (rows: Vec<OutlineRow>)
        ensures
            rows@ == outline_under(self.tree@, 0, 0, true),
    {
        let mut rows: Vec<OutlineRow> = Vec::new();
        if self.tree.len() > 0 {
            self.outline_into(&mut rows, 0, 0, true);
        }
        rows
    }
}

} // verus!
