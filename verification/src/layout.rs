//! The array layout of the tree: node `i` has its children at `2i + 1` and
//! `2i + 2`, the root is node `0`, and the last level holds the leaf slots.
//! Everything here speaks of the nodes as a sequence of aggregates.

use vstd::prelude::*;
use crate::run::{
    fold, is_indexable, lemma_fold_concat, lemma_indexable_split, lower_sum, total_count,
    upper_sum,
};
use crate::segment::{combined, Aggregate};

verus! {

/// Whether `n` is a power of two.
pub open spec fn is_pow2(n: nat) -> bool
    decreases n,
{
    n == 1 || (n > 1 && n % 2 == 0 && is_pow2(n / 2))
}

/// The number of leaf slots of a tree of `len` nodes.
pub open spec fn capacity(len: nat) -> nat {
    (len + 1) / 2
}

/// Whether `len` nodes make a complete tree: one less than twice a power
/// of two.
pub open spec fn is_shaped(len: nat) -> bool {
    len % 2 == 1 && is_pow2(capacity(len))
}

/// Of two powers of two, the larger is at least twice the smaller.
pub proof fn lemma_pow2_apart(a: nat, b: nat)
    requires
        is_pow2(a),
        is_pow2(b),
        a < b,
    ensures
        2 * a <= b,
    decreases b,
{
    if a > b / 2 {
        lemma_pow2_apart(a / 2, b / 2);
    } else if a < b / 2 {
        lemma_pow2_apart(a, b / 2);
    }
}

/// The number of leaf slots of the smallest complete tree that has one
/// for each of `n` buckets: the least power of two that is not less than
/// `n`.
pub open spec fn slots_for(n: nat) -> nat
    decreases n,
{
    if n <= 1 {
        1
    } else {
        2 * slots_for((n + 1) / 2)
    }
}

/// The power of two that is not less than `n`, and less than twice `n`
/// unless it is one, is the number of leaf slots for `n` buckets.
pub proof fn lemma_slots_for(n: nat, cap: nat)
    requires
        is_pow2(cap),
        n <= cap,
        cap == 1 || cap < 2 * n,
    ensures
        cap == slots_for(n),
    decreases n,
{
    if n > 1 {
        lemma_slots_for((n + 1) / 2, cap / 2);
    }
}

/// The number of leaf slots for `n` buckets is a power of two that is not
/// less than `n`.
pub proof fn lemma_slots_for_holds(n: nat)
    ensures
        is_pow2(slots_for(n)),
        n <= slots_for(n),
        slots_for(n) == 1 || slots_for(n) < 2 * n,
    decreases n,
{
    if n > 1 {
        lemma_slots_for_holds((n + 1) / 2);
    }
}

/// Whether node `i` of a tree of `len` nodes has children.
pub open spec fn is_inner(len: nat, i: int) -> bool {
    0 <= i && 2 * i + 2 < len
}

/// Whether node `i` holds the merge of its two children.
pub open spec fn merged_at(t: Seq<Aggregate>, i: int) -> bool {
    t[i] == combined(t[2 * i + 1], t[2 * i + 2])
}

/// The real leaves below node `i`, from left to right: the leaf slots of
/// its subtree that hold at least one sample.
pub open spec fn leaves_under(t: Seq<Aggregate>, i: int) -> Seq<Aggregate>
    decreases t.len() - i,
{
    if i < 0 || i >= t.len() {
        Seq::empty()
    } else if 2 * i + 2 >= t.len() {
        if t[i].count > 0 {
            seq![t[i]]
        } else {
            Seq::empty()
        }
    } else {
        leaves_under(t, 2 * i + 1) + leaves_under(t, 2 * i + 2)
    }
}

/// The parent of node `j`, which is not the root.
pub open spec fn parent(j: int) -> int {
    (j - 1) / 2
}

/// Whether node `j` lies in the subtree of node `i`.
pub open spec fn in_subtree(i: int, j: int) -> bool
    decreases j,
{
    j == i || (j > i && j > 0 && in_subtree(i, parent(j)))
}

/// Whether every inner node of the subtree of `i` holds the merge of its
/// children, and every leaf slot of it that holds no sample is the
/// placeholder.
pub open spec fn is_merged_under(t: Seq<Aggregate>, i: int) -> bool {
    forall|j: int|
        0 <= j < t.len() && #[trigger] in_subtree(i, j) ==> if is_inner(t.len(), j) {
            merged_at(t, j)
        } else {
            t[j].is_canonical()
        }
}

/// A node of a subtree is no earlier in the array than its root.
pub proof fn lemma_subtree_after(i: int, j: int)
    requires
        0 <= i,
        in_subtree(i, j),
    ensures
        j >= i,
    decreases j,
{
    if j != i {
        lemma_subtree_after(i, parent(j));
    }
}

/// The subtree of a child lies within the subtree of its parent.
pub proof fn lemma_subtree_of_child(i: int, j: int)
    requires
        0 <= i,
        in_subtree(2 * i + 1, j) || in_subtree(2 * i + 2, j),
    ensures
        in_subtree(i, j),
    decreases j,
{
    if j == 2 * i + 1 || j == 2 * i + 2 {
        assert(in_subtree(i, i));
    } else {
        lemma_subtree_of_child(i, parent(j));
    }
}

/// A node of a subtree other than its root lies below one of the root's
/// two children.
pub proof fn lemma_subtree_splits(i: int, j: int)
    requires
        0 <= i,
        in_subtree(i, j),
        j != i,
    ensures
        in_subtree(2 * i + 1, j) || in_subtree(2 * i + 2, j),
    decreases j,
{
    let p = parent(j);
    if p == i {
        assert(j == 2 * i + 1 || j == 2 * i + 2);
    } else {
        lemma_subtree_splits(i, p);
        if in_subtree(2 * i + 1, p) {
            lemma_subtree_after(2 * i + 1, p);
        } else {
            lemma_subtree_after(2 * i + 2, p);
        }
    }
}

/// The subtrees of two siblings share no node.
pub proof fn lemma_siblings_apart(i: int, j: int)
    requires
        0 <= i,
    ensures
        !(in_subtree(2 * i + 1, j) && in_subtree(2 * i + 2, j)),
    decreases j,
{
    if in_subtree(2 * i + 1, j) && in_subtree(2 * i + 2, j) {
        if j == 2 * i + 1 {
        } else if j == 2 * i + 2 {
            lemma_subtree_after(2 * i + 1, i);
        } else {
            lemma_siblings_apart(i, parent(j));
        }
    }
}

/// Every node lies in the subtree of the root.
pub proof fn lemma_all_under_root(j: int)
    requires
        0 <= j,
    ensures
        in_subtree(0, j),
    decreases j,
{
    if j > 0 {
        lemma_all_under_root(parent(j));
    }
}

/// The children of a node of a subtree lie in that subtree.
pub proof fn lemma_subtree_closed(i: int, j: int)
    requires
        0 <= i,
        in_subtree(i, j),
    ensures
        in_subtree(i, 2 * j + 1),
        in_subtree(i, 2 * j + 2),
{
    lemma_subtree_after(i, j);
}

/// Whether the subtree of a node is merged depends on its nodes only.
pub proof fn lemma_merged_frame(t: Seq<Aggregate>, u: Seq<Aggregate>, i: int)
    requires
        0 <= i,
        t.len() == u.len(),
        forall|j: int| 0 <= j < t.len() && #[trigger] in_subtree(i, j) ==> t[j] == u[j],
        is_merged_under(t, i),
    ensures
        is_merged_under(u, i),
{
    assert forall|j: int| 0 <= j < u.len() && #[trigger] in_subtree(i, j) implies if is_inner(
        u.len(),
        j,
    ) {
        merged_at(u, j)
    } else {
        u[j].is_canonical()
    } by {
        lemma_subtree_after(i, j);
        lemma_subtree_closed(i, j);
    }
}

/// A merged subtree is merged below each child of its root.
pub proof fn lemma_merged_below(t: Seq<Aggregate>, i: int)
    requires
        0 <= i,
        is_merged_under(t, i),
    ensures
        is_merged_under(t, 2 * i + 1),
        is_merged_under(t, 2 * i + 2),
{
    assert forall|j: int| 0 <= j < t.len() && #[trigger] in_subtree(2 * i + 1, j) implies in_subtree(
        i,
        j,
    ) by {
        lemma_subtree_of_child(i, j);
    }
    assert forall|j: int| 0 <= j < t.len() && #[trigger] in_subtree(2 * i + 2, j) implies in_subtree(
        i,
        j,
    ) by {
        lemma_subtree_of_child(i, j);
    }
}

/// Two merged subtrees under a root that holds their merge make a merged
/// subtree.
pub proof fn lemma_merged_above(t: Seq<Aggregate>, i: int)
    requires
        0 <= i,
        is_inner(t.len(), i),
        merged_at(t, i),
        is_merged_under(t, 2 * i + 1),
        is_merged_under(t, 2 * i + 2),
    ensures
        is_merged_under(t, i),
{
    assert forall|j: int| 0 <= j < t.len() && #[trigger] in_subtree(i, j) implies if is_inner(
        t.len(),
        j,
    ) {
        merged_at(t, j)
    } else {
        t[j].is_canonical()
    } by {
        if j != i {
            lemma_subtree_splits(i, j);
        }
    }
}

/// Every leaf below a node holds at least one sample.
pub proof fn lemma_leaves_present(t: Seq<Aggregate>, i: int)
    ensures
        forall|k: int|
            0 <= k < leaves_under(t, i).len() ==> (#[trigger] leaves_under(t, i)[k]).count > 0,
    decreases t.len() - i,
{
    if 0 <= i < t.len() && 2 * i + 2 < t.len() {
        let a = leaves_under(t, 2 * i + 1);
        let b = leaves_under(t, 2 * i + 2);
        lemma_leaves_present(t, 2 * i + 1);
        lemma_leaves_present(t, 2 * i + 2);
        assert forall|k: int| 0 <= k < (a + b).len() implies (#[trigger] (a + b)[k]).count > 0 by {
            if k < a.len() {
                assert((a + b)[k] == a[k]);
            } else {
                assert((a + b)[k] == b[k - a.len()]);
            }
        }
    }
}

/// In a merged subtree the root holds the aggregate of the leaves below it.
pub proof fn lemma_node_is_fold(t: Seq<Aggregate>, i: int)
    requires
        0 <= i < t.len(),
        is_merged_under(t, i),
    ensures
        t[i] == fold(leaves_under(t, i)),
    decreases t.len() - i,
{
    assert(in_subtree(i, i));
    if 2 * i + 2 < t.len() {
        let a = leaves_under(t, 2 * i + 1);
        let b = leaves_under(t, 2 * i + 2);
        lemma_merged_below(t, i);
        lemma_node_is_fold(t, 2 * i + 1);
        lemma_node_is_fold(t, 2 * i + 2);
        lemma_leaves_present(t, 2 * i + 1);
        lemma_fold_concat(a, b);
    } else if t[i].count > 0 {
        let s = seq![t[i]];
        assert(fold(s.drop_last()) == Aggregate::empty());
    }
}

/// Where the leaves of the whole tree can be indexed, so can the leaves
/// below any node.
pub proof fn lemma_indexable_under(t: Seq<Aggregate>, i: int)
    requires
        0 <= i,
        t.len() % 2 == 1,
        is_indexable(leaves_under(t, 0)),
    ensures
        is_indexable(leaves_under(t, i)),
    decreases i,
{
    if i >= t.len() {
        assert(leaves_under(t, i).len() == 0);
        assert(total_count(leaves_under(t, i)) == 0);
        assert(upper_sum(leaves_under(t, i)) == 0);
        assert(lower_sum(leaves_under(t, i)) == 0);
    } else if i > 0 {
        let p = parent(i);
        lemma_indexable_under(t, p);
        lemma_indexable_split(leaves_under(t, 2 * p + 1), leaves_under(t, 2 * p + 2));
    }
}

/// The number of leaf slots below node `i` of a tree with `cap` leaf
/// slots: the root has them all, and each level down has half as many.
pub open spec fn width_at(cap: nat, i: int) -> nat
    decreases i,
{
    if i <= 0 {
        cap
    } else {
        width_at(cap, parent(i)) / 2
    }
}

/// The index of the leftmost leaf slot below node `i`.
pub open spec fn first_at(cap: nat, i: int) -> int {
    (i + 1) * width_at(cap, i) - 1
}

/// Where the leaf slots below each node lie. Node `i` of a complete tree
/// heads a power of two of them, all on the last level; it heads one slot
/// exactly when it is that slot; and its children share its slots in
/// halves, the left child taking the first half.
pub proof fn lemma_slots(cap: nat, i: int)
    requires
        is_pow2(cap),
        0 <= i < 2 * cap - 1,
    ensures
        is_pow2(width_at(cap, i)),
        cap - 1 <= first_at(cap, i),
        first_at(cap, i) + width_at(cap, i) <= 2 * cap - 1,
        width_at(cap, i) == 1 <==> 2 * i + 2 >= 2 * cap - 1,
        width_at(cap, i) == 1 ==> first_at(cap, i) == i,
        width_at(cap, 2 * i + 1) == width_at(cap, i) / 2,
        width_at(cap, 2 * i + 2) == width_at(cap, i) / 2,
        width_at(cap, i) > 1 ==> first_at(cap, 2 * i + 1) == first_at(cap, i),
        width_at(cap, i) > 1 ==> first_at(cap, 2 * i + 2) == first_at(cap, i) + width_at(cap, i)
            / 2,
    decreases i,
{
    let w = width_at(cap, i);
    if i > 0 {
        let p = parent(i);
        let wp = width_at(cap, p);
        lemma_slots(cap, p);
        assert((2 * p + 2) * w == (p + 1) * wp) by (nonlinear_arith)
            requires
                wp == 2 * w,
        ;
        assert((2 * p + 3) * w == (p + 1) * wp + w) by (nonlinear_arith)
            requires
                wp == 2 * w,
        ;
    }
    assert(is_pow2(w));
    if w == 1 {
        assert((i + 1) * w == i + 1) by (nonlinear_arith)
            requires
                w == 1,
        ;
    } else {
        assert((i + 1) * w >= (i + 1) * 2) by (nonlinear_arith)
            requires
                w >= 2,
                i >= 0,
        ;
        assert((2 * i + 2) * (w / 2) == (i + 1) * w) by (nonlinear_arith)
            requires
                w % 2 == 0,
        ;
        assert((2 * i + 3) * (w / 2) == (i + 1) * w + w / 2) by (nonlinear_arith)
            requires
                w % 2 == 0,
        ;
    }
}

/// The end of the part of the slots `[first, first + width)` that comes
/// before slot `stop`.
pub open spec fn clip(stop: int, first: int, width: int) -> int {
    if stop <= first {
        first
    } else if stop >= first + width {
        first + width
    } else {
        stop
    }
}

/// Where the leaf slots below a node are filled from the left up to
/// `stop`, the real leaves below it are those of its slots that come
/// before `stop`.
pub proof fn lemma_leaves_are_slots(t: Seq<Aggregate>, i: int, stop: int)
    requires
        is_shaped(t.len()),
        0 <= i < t.len(),
        forall|k: int|
            first_at(capacity(t.len()), i) <= k < first_at(capacity(t.len()), i) + width_at(
                capacity(t.len()),
                i,
            ) ==> ((#[trigger] t[k]).count > 0 <==> k < stop),
    ensures
        leaves_under(t, i) == t.subrange(
            first_at(capacity(t.len()), i),
            clip(stop, first_at(capacity(t.len()), i), width_at(capacity(t.len()), i) as int),
        ),
    decreases t.len() - i,
{
    let cap = capacity(t.len());
    let f = first_at(cap, i);
    let w = width_at(cap, i) as int;
    lemma_slots(cap, i);
    if 2 * i + 2 < t.len() {
        lemma_leaves_are_slots(t, 2 * i + 1, stop);
        lemma_leaves_are_slots(t, 2 * i + 2, stop);
        let h = w / 2;
        assert(t.subrange(f, clip(stop, f, h)) + t.subrange(f + h, clip(stop, f + h, h))
            =~= t.subrange(f, clip(stop, f, w)));
    } else {
        if t[i].count > 0 {
            assert(seq![t[i]] =~= t.subrange(i, i + 1));
        } else {
            assert(Seq::<Aggregate>::empty() =~= t.subrange(i, i));
        }
    }
}

/// A node without children has no node but itself in its subtree.
pub proof fn lemma_subtree_bottom(len: nat, i: int, j: int)
    requires
        0 <= i,
        2 * i + 2 >= len,
        0 <= j < len,
        len % 2 == 1,
        in_subtree(i, j),
    ensures
        j == i,
{
    if j != i {
        lemma_subtree_splits(i, j);
        if in_subtree(2 * i + 1, j) {
            lemma_subtree_after(2 * i + 1, j);
        } else {
            lemma_subtree_after(2 * i + 2, j);
        }
    }
}

/// The leaf slots below a node lie in its subtree.
pub proof fn lemma_subtree_slots(cap: nat, i: int, k: int)
    requires
        is_pow2(cap),
        0 <= i < 2 * cap - 1,
        first_at(cap, i) <= k < first_at(cap, i) + width_at(cap, i),
    ensures
        in_subtree(i, k),
    decreases 2 * cap - i,
{
    lemma_slots(cap, i);
    if width_at(cap, i) > 1 {
        let h = width_at(cap, i) / 2;
        if k < first_at(cap, i) + h {
            lemma_subtree_slots(cap, 2 * i + 1, k);
        } else {
            lemma_subtree_slots(cap, 2 * i + 2, k);
        }
        lemma_subtree_of_child(i, k);
    }
}

/// The leaves below a node depend on the leaf slots only.
pub proof fn lemma_leaves_of_slots(t: Seq<Aggregate>, u: Seq<Aggregate>, i: int)
    requires
        t.len() == u.len(),
        forall|j: int| 0 <= j < t.len() && 2 * j + 2 >= t.len() ==> #[trigger] t[j] == u[j],
    ensures
        leaves_under(t, i) == leaves_under(u, i),
    decreases t.len() - i,
{
    if 0 <= i < t.len() && 2 * i + 2 < t.len() {
        lemma_leaves_of_slots(t, u, 2 * i + 1);
        lemma_leaves_of_slots(t, u, 2 * i + 2);
    }
}

/// An ancestor of a node, other than the node, is no later in the array
/// than the node's parent.
pub proof fn lemma_ancestor_before(j: int, i: int)
    requires
        0 <= j,
        in_subtree(j, i),
        j != i,
    ensures
        i > 0,
        j <= parent(i),
        in_subtree(j, parent(i)),
{
    lemma_subtree_after(j, parent(i));
}

} // verus!
