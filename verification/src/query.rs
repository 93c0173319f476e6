//! Range aggregation: the two traversals of the tree that answer a query.

use std::collections::VecDeque;
use vstd::prelude::*;
use crate::gather::{
    gathered, gathered_results, is_sound, joined, lemma_joined_laws, lemma_pending_push,
    lemma_pending_sound, lemma_share_concat, lemma_share_sound, lemma_weight_push, pending,
    queue_weight, share_of, Share,
};
use crate::index::ISegmentIndex;
use crate::layout::{
    in_subtree, is_merged_under, lemma_all_under_root, lemma_indexable_under,
    lemma_leaves_present, lemma_node_is_fold,
};
use crate::run::{
    fold, is_indexable, lemma_fold_totals, lemma_range_apart, lemma_range_concat,
    lemma_range_single, lemma_range_whole, lemma_selected_bounds, lemma_selected_representable,
    range_aggregate, selected,
};
use crate::segment::{combine, Aggregate, ISegment, Span};

verus! {

/// The mathematical value of a query result.
pub open spec fn result_view(res: Option<ISegment>) -> Option<Aggregate> {
    match res {
        Some(s) => Some(s@),
        None => None,
    }
}

/// Folds a node into the running result of a traversal that meets the nodes
/// in no particular order: the first node is taken as it is; after that the
/// span grows to the hull of both, counts and sums add, and the extrema are
/// taken over both.
pub fn accumulate(acc: Option<ISegment>, node: ISegment) -> (res: Option<ISegment>)
    requires
        acc matches Some(r) ==> gathered(r@, node@).representable(),
    ensures
        result_view(res) == gathered_results(result_view(acc), Some(node@)),
{
    match acc {
        Some(r) => Some(
            ISegment {
                span: Span {
                    start: if r.span.start <= node.span.start {
                        r.span.start
                    } else {
                        node.span.start
                    },
                    end: if r.span.end >= node.span.end {
                        r.span.end
                    } else {
                        node.span.end
                    },
                },
                count: r.count + node.count,
                max: if r.max >= node.max {
                    r.max
                } else {
                    node.max
                },
                min: if r.min <= node.min {
                    r.min
                } else {
                    node.min
                },
                sum: r.sum + node.sum,
            },
        ),
        None => Some(node),
    }
}

impl ISegmentIndex {
    /// What the nodes of a structured index hold: the subtree of each is
    /// merged, its leaves can be indexed, and the node is their aggregate.
    pub proof fn lemma_node(&self, index: int)
        requires
            self.is_structured(),
            0 <= index < self.tree@.len(),
        ensures
            is_merged_under(self.nodes(), index),
            is_indexable(self.leaves_below(index)),
            self.nodes()[index] == fold(self.leaves_below(index)),
    {
        let t = self.nodes();
        assert forall|j: int| 0 <= j < t.len() && #[trigger] in_subtree(index, j) implies in_subtree(
            0,
            j,
        ) by {
            lemma_all_under_root(j);
        }
        lemma_indexable_under(t, index);
        lemma_node_is_fold(t, index);
    }

    /// Aggregates, depth first, the buckets below node `index` whose spans
    /// lie within `query_span`. A subtree that the span does not reach
    /// gives nothing; a node that lies within the span gives its own
    /// aggregate without a descent; any other node gives the merge of what
    /// its two children give.
    pub fn query_dfs(&self, index: usize, query_span: Span) -> (res: Option<ISegment>)
        requires
            self.is_structured(),
        ensures
            result_view(res) == range_aggregate(
                self.leaves_below(index as int),
                query_span.start as int,
                query_span.end as int,
            ),
        decreases self.tree@.len() - index,
    {
        let len = self.tree.len();
        let ghost lo = query_span.start as int;
        let ghost hi = query_span.end as int;
        let ghost leaves = self.leaves_below(index as int);
        if index >= len {
            return None;
        }
        let node = self.tree[index];
        proof {
            self.lemma_node(index as int);
            lemma_leaves_present(self.nodes(), index as int);
            lemma_fold_totals(leaves);
        }
        if node.count == 0 {
            return None;
        }
        if query_span.end < node.span.start || node.span.end < query_span.start {
            proof {
                lemma_range_apart(leaves, lo, hi);
            }
            return None;
        }
        if query_span.start <= node.span.start && node.span.end <= query_span.end {
            proof {
                lemma_range_whole(leaves, lo, hi);
            }
            return Some(node);
        }
        if index >= (len - 1) / 2 {
            proof {
                lemma_range_single(node@, lo, hi);
            }
            return None;
        }
        let left_res = self.query_dfs(index * 2 + 1, query_span);
        let right_res = self.query_dfs(index * 2 + 2, query_span);
        proof {
            let a = self.leaves_below(index * 2 + 1);
            let b = self.leaves_below(index * 2 + 2);
            lemma_leaves_present(self.nodes(), index * 2 + 1);
            lemma_range_concat(a, b, lo, hi);
            lemma_selected_representable(leaves, lo, hi);
        }
        match (left_res, right_res) {
            (Some(left), Some(right)) => Some(combine(left, right)),
            (Some(left), None) => Some(left),
            (None, Some(right)) => Some(right),
            (None, None) => None,
        }
    }

    /// Aggregates, breadth first, the buckets whose spans lie within
    /// `query_span`. The nodes are met level by level from the root, by
    /// way of a queue: a node that lies within the span is folded into the
    /// running result, a node that the span only overlaps has its two
    /// children join the queue, and any other node is passed over.
    pub fn query_bfs(&self, query_span: Span) -> (res: Option<ISegment>)
        requires
            self.is_structured(),
        ensures
            result_view(res) == range_aggregate(
                self.leaves(),
                query_span.start as int,
                query_span.end as int,
            ),
    {
        let len = self.tree.len();
        let ghost t = self.nodes();
        let ghost lo = query_span.start as int;
        let ghost hi = query_span.end as int;
        let ghost goal = share_of(self.leaves(), lo, hi);
        let mut queue: VecDeque<usize> = VecDeque::new();
        queue.push_back(0);
        let mut result: Option<ISegment> = None;
        let ghost mut upper: int = 0;
        let ghost mut lower: int = 0;
        proof {
            let first = queue@;
            assert(pending(t, first.drop_first(), lo, hi) == Share {
                found: None,
                upper: 0,
                lower: 0,
            });
            self.lemma_node(0);
            lemma_selected_representable(self.leaves(), lo, hi);
            lemma_selected_bounds(self.leaves(), lo, hi);
        }
        while queue.len() > 0
            invariant
                self.is_structured(),
                len == self.tree@.len(),
                t == self.nodes(),
                lo == query_span.start as int,
                hi == query_span.end as int,
                goal == share_of(self.leaves(), lo, hi),
                joined(
                    Share { found: result_view(result), upper, lower },
                    pending(t, queue@, lo, hi),
                ) == goal,
                is_sound(Share { found: result_view(result), upper, lower }),
                goal.upper <= i64::MAX,
                goal.lower >= i64::MIN,
                fold(selected(self.leaves(), lo, hi)).representable(),
            decreases queue_weight(len as nat, queue@),
        {
            let ghost acc = Share { found: result_view(result), upper, lower };
            let i = queue.pop_front().unwrap();
            let ghost rest = queue@;
            let ghost leaves = self.leaves_below(i as int);
            let ghost here = share_of(leaves, lo, hi);
            proof {
                lemma_pending_sound(t, rest, lo, hi);
                lemma_joined_laws(acc, here, pending(t, rest, lo, hi));
                lemma_leaves_present(t, i as int);
                lemma_share_sound(leaves, lo, hi);
                lemma_fold_totals(leaves);
            }
            if i < len {
                let node = self.tree[i];
                proof {
                    self.lemma_node(i as int);
                }
                if node.count > 0 {
                    if query_span.end < node.span.start || node.span.end < query_span.start {
                        proof {
                            lemma_range_apart(leaves, lo, hi);
                        }
                    } else if query_span.start <= node.span.start && node.span.end
                        <= query_span.end {
                        proof {
                            lemma_range_whole(leaves, lo, hi);
                        }
                        result = accumulate(result, node);
                        proof {
                            upper = upper + here.upper;
                            lower = lower + here.lower;
                        }
                    } else if i >= (len - 1) / 2 {
                        proof {
                            lemma_range_single(node@, lo, hi);
                        }
                    } else {
                        queue.push_back(i * 2 + 1);
                        queue.push_back(i * 2 + 2);
                        proof {
                            let l = (i * 2 + 1) as usize;
                            let r = (i * 2 + 2) as usize;
                            let a = self.leaves_below(l as int);
                            let b = self.leaves_below(r as int);
                            lemma_share_concat(a, b, lo, hi);
                            lemma_pending_push(t, rest, l, lo, hi);
                            lemma_pending_push(t, rest.push(l), r, lo, hi);
                            lemma_weight_push(len as nat, rest, l);
                            lemma_weight_push(len as nat, rest.push(l), r);
                            let p = pending(t, rest, lo, hi);
                            let sa = share_of(a, lo, hi);
                            let sb = share_of(b, lo, hi);
                            lemma_joined_laws(p, sa, sb);
                            lemma_joined_laws(p, joined(sa, sb), p);
                            lemma_joined_laws(acc, joined(sa, sb), p);
                        }
                    }
                }
            }
        }
        result
    }
}

} // verus!
