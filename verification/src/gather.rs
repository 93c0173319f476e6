//! Gathering aggregates in any order: the rule by which the breadth-first
//! traversal folds a node into its running result, and why the order in
//! which it meets the nodes does not matter.

use vstd::prelude::*;
use crate::layout::leaves_under;
use crate::run::{
    is_run, lemma_fold_ends, lemma_fold_totals, lemma_range_concat, lemma_run_ascends,
    lemma_run_split, lemma_selected_bounds, lemma_selected_concat, lemma_sums_signed,
    lemma_totals_concat, lower_sum, range_aggregate, selected, upper_sum, within,
};
use crate::segment::{greater, lesser, Aggregate};

verus! {

/// The aggregate of two ranges in no particular order: the span is their
/// hull, counts and sums add, and the extrema are taken over both.
pub open spec fn gathered(a: Aggregate, b: Aggregate) -> Aggregate {
    Aggregate {
        start: if a.start <= b.start {
            a.start
        } else {
            b.start
        },
        end: if a.end >= b.end {
            a.end
        } else {
            b.end
        },
        count: a.count + b.count,
        sum: a.sum + b.sum,
        min: lesser(a.min, b.min),
        max: greater(a.max, b.max),
    }
}

/// Two results gathered, either of which may be absent.
pub open spec fn gathered_results(a: Option<Aggregate>, b: Option<Aggregate>) -> Option<
    Aggregate,
> {
    match (a, b) {
        (Some(x), Some(y)) => Some(gathered(x, y)),
        (Some(x), None) => Some(x),
        (None, y) => y,
    }
}

/// What a span finds in a sequence of leaves, with the bounds between
/// which the sum of any part of it lies.
pub struct Share {
    pub found: Option<Aggregate>,
    pub upper: int,
    pub lower: int,
}

/// The share of two sequences together.
pub open spec fn joined(a: Share, b: Share) -> Share {
    Share {
        found: gathered_results(a.found, b.found),
        upper: a.upper + b.upper,
        lower: a.lower + b.lower,
    }
}

/// What the span `[lo, hi)` finds in the leaves `s`.
pub open spec fn share_of(s: Seq<Aggregate>, lo: int, hi: int) -> Share {
    Share {
        found: range_aggregate(s, lo, hi),
        upper: upper_sum(selected(s, lo, hi)),
        lower: lower_sum(selected(s, lo, hi)),
    }
}

/// What the span finds below the nodes that wait in the queue.
pub open spec fn pending(t: Seq<Aggregate>, queue: Seq<usize>, lo: int, hi: int) -> Share
    decreases queue.len(),
{
    if queue.len() == 0 {
        Share { found: None, upper: 0, lower: 0 }
    } else {
        joined(
            share_of(leaves_under(t, queue[0] as int), lo, hi),
            pending(t, queue.drop_first(), lo, hi),
        )
    }
}

/// Gathering is associative and commutative.
pub proof fn lemma_joined_laws(a: Share, b: Share, c: Share)
    ensures
        joined(joined(a, b), c) == joined(a, joined(b, c)),
        joined(a, b) == joined(b, a),
{
}

/// The sum of what a share found lies between its bounds, and the bounds
/// lie on either side of zero.
pub open spec fn is_sound(x: Share) -> bool {
    &&& x.lower <= 0 <= x.upper
    &&& x.found matches Some(f) ==> x.lower <= f.sum <= x.upper
}

/// The share of a sequence of real buckets is sound.
pub proof fn lemma_share_sound(s: Seq<Aggregate>, lo: int, hi: int)
    requires
        forall|i: int| 0 <= i < s.len() ==> (#[trigger] s[i]).count > 0,
    ensures
        is_sound(share_of(s, lo, hi)),
{
    lemma_selected_bounds(s, lo, hi);
    lemma_fold_totals(selected(s, lo, hi));
}

/// A node joins the queue behind the nodes that wait in it.
pub proof fn lemma_pending_push(t: Seq<Aggregate>, queue: Seq<usize>, node: usize, lo: int, hi: int)
    ensures
        pending(t, queue.push(node), lo, hi) == joined(
            pending(t, queue, lo, hi),
            share_of(leaves_under(t, node as int), lo, hi),
        ),
    decreases queue.len(),
{
    let x = share_of(leaves_under(t, node as int), lo, hi);
    if queue.len() == 0 {
        assert(queue.push(node).drop_first() =~= queue);
    } else {
        let rest = queue.drop_first();
        assert(queue.push(node).drop_first() =~= rest.push(node));
        lemma_pending_push(t, rest, node, lo, hi);
        lemma_joined_laws(
            share_of(leaves_under(t, queue[0] as int), lo, hi),
            pending(t, rest, lo, hi),
            x,
        );
    }
}

/// What waits in the queue is sound.
pub proof fn lemma_pending_sound(t: Seq<Aggregate>, queue: Seq<usize>, lo: int, hi: int)
    ensures
        pending(t, queue, lo, hi).lower <= 0 <= pending(t, queue, lo, hi).upper,
    decreases queue.len(),
{
    if queue.len() > 0 {
        lemma_pending_sound(t, queue.drop_first(), lo, hi);
        lemma_sums_signed(selected(leaves_under(t, queue[0] as int), lo, hi));
    }
}

/// In a gapless run, what a span selects from the first part starts and
/// ends no later than what it selects from the rest.
pub proof fn lemma_selected_in_order(a: Seq<Aggregate>, b: Seq<Aggregate>, lo: int, hi: int)
    requires
        is_run(a + b),
        selected(a, lo, hi).len() > 0,
        selected(b, lo, hi).len() > 0,
    ensures
        selected(a, lo, hi)[0].start <= selected(b, lo, hi)[0].start,
        selected(a, lo, hi).last().end <= selected(b, lo, hi).last().end,
{
    let s = a + b;
    let sa = selected(a, lo, hi);
    let sb = selected(b, lo, hi);
    a.lemma_filter_contains_rev(within(lo, hi), sa[0]);
    a.lemma_filter_contains_rev(within(lo, hi), sa.last());
    b.lemma_filter_contains_rev(within(lo, hi), sb[0]);
    b.lemma_filter_contains_rev(within(lo, hi), sb.last());
    let i0 = choose|i: int| 0 <= i < a.len() && a[i] == sa[0];
    let i1 = choose|i: int| 0 <= i < a.len() && a[i] == sa.last();
    let j0 = choose|j: int| 0 <= j < b.len() && b[j] == sb[0];
    let j1 = choose|j: int| 0 <= j < b.len() && b[j] == sb.last();
    lemma_run_ascends(s, i0, a.len() + j0);
    lemma_run_ascends(s, i1, a.len() + j1);
}

/// What a span finds in a gapless run is what it finds in its first part
/// gathered with what it finds in the rest.
pub proof fn lemma_share_concat(a: Seq<Aggregate>, b: Seq<Aggregate>, lo: int, hi: int)
    requires
        is_run(a + b),
    ensures
        share_of(a + b, lo, hi) == joined(share_of(a, lo, hi), share_of(b, lo, hi)),
{
    let sa = selected(a, lo, hi);
    let sb = selected(b, lo, hi);
    lemma_run_split(a, b);
    lemma_range_concat(a, b, lo, hi);
    lemma_selected_concat(a, b, lo, hi);
    lemma_totals_concat(sa, sb);
    if sa.len() > 0 && sb.len() > 0 {
        lemma_selected_bounds(a, lo, hi);
        lemma_selected_bounds(b, lo, hi);
        lemma_fold_ends(sa);
        lemma_fold_ends(sb);
        lemma_fold_totals(sa);
        lemma_fold_totals(sb);
        lemma_selected_in_order(a, b, lo, hi);
    }
}

/// The number of nodes in the subtree of node `i` of a tree of `len`
/// nodes.
pub open spec fn subtree_size(len: nat, i: int) -> nat
    decreases 2 * len - i,
{
    if 0 <= i < len {
        1 + subtree_size(len, 2 * i + 1) + subtree_size(len, 2 * i + 2)
    } else {
        0
    }
}

/// The work that the queue stands for: one step for each node that waits
/// in it, and two for each node of the subtrees below them.
pub open spec fn queue_weight(len: nat, queue: Seq<usize>) -> nat
    decreases queue.len(),
{
    if queue.len() == 0 {
        0
    } else {
        1 + 2 * subtree_size(len, queue[0] as int) + queue_weight(len, queue.drop_first())
    }
}

/// A node that joins the queue adds its own weight to it.
pub proof fn lemma_weight_push(len: nat, queue: Seq<usize>, node: usize)
    ensures
        queue_weight(len, queue.push(node)) == queue_weight(len, queue) + 1 + 2 * subtree_size(
            len,
            node as int,
        ),
    decreases queue.len(),
{
    if queue.len() == 0 {
        assert(queue.push(node).drop_first() =~= queue);
    } else {
        assert(queue.push(node).drop_first() =~= queue.drop_first().push(node));
        lemma_weight_push(len, queue.drop_first(), node);
    }
}

} // verus!
