//! What holds of the index as a whole: laws that relate its operations
//! to one another and to the plain left-to-right aggregate of its
//! buckets.

use vstd::prelude::*;
use crate::index::ISegmentIndex;
use crate::layout::{
    clip, first_at, lemma_leaves_are_slots, lemma_pow2_apart, lemma_slots, lemma_slots_for,
    slots_for, width_at,
};
use crate::query::result_view;
use crate::run::{
    fold, lemma_count_of_singles, lemma_fold_extrema, lemma_fold_span, lemma_fold_totals,
    lemma_range_whole, range_aggregate, total_count, total_sum, within,
};
use crate::segment::{combined, lemma_view_injective, Aggregate, ISegment, Span};

verus! {

/// Merging is associative: three ranges in a row give the same aggregate
/// whichever neighbouring pair is merged first.
pub proof fn law_combine_associative(a: Aggregate, b: Aggregate, c: Aggregate)
    ensures
        combined(combined(a, b), c) == combined(a, combined(b, c)),
{
}

/// The root of an index holds the aggregate of all its buckets: their
/// samples counted and their sums added up, the least of their minima and
/// the greatest of their maxima, over the span from the start of the
/// first bucket to the end of the last. Where each bucket holds one
/// sample, the count is the number of buckets.
pub proof fn law_root_aggregates(index: ISegmentIndex)
    requires
        index.is_structured(),
        index.leaves().len() > 0,
    ensures
        index.nodes()[0] == fold(index.leaves()),
        index.nodes()[0].count == total_count(index.leaves()),
        index.nodes()[0].sum == total_sum(index.leaves()),
        index.nodes()[0].start == index.leaves()[0].start,
        index.nodes()[0].end == index.leaves().last().end,
        forall|k: int|
            0 <= k < index.leaves().len() ==> index.nodes()[0].min <= (
            #[trigger] index.leaves()[k]).min,
        forall|k: int|
            0 <= k < index.leaves().len() ==> index.nodes()[0].max >= (
            #[trigger] index.leaves()[k]).max,
        exists|k: int|
            0 <= k < index.leaves().len() && index.nodes()[0].min == (
            #[trigger] index.leaves()[k]).min,
        exists|k: int|
            0 <= k < index.leaves().len() && index.nodes()[0].max == (
            #[trigger] index.leaves()[k]).max,
        (forall|k: int| 0 <= k < index.leaves().len() ==> (#[trigger] index.leaves()[k]).count == 1)
            ==> index.nodes()[0].count == index.leaves().len(),
{
    let s = index.leaves();
    index.lemma_node(0);
    lemma_fold_totals(s);
    lemma_fold_span(s);
    lemma_fold_extrema(s);
    if forall|k: int| 0 <= k < s.len() ==> (#[trigger] s[k]).count == 1 {
        lemma_count_of_singles(s);
    }
}

/// The test that a leaf's span overlaps `[lo, hi)`.
pub open spec fn overlapping(lo: int, hi: int) -> spec_fn(Aggregate) -> bool {
    |a: Aggregate| a.start < hi && lo < a.end
}

/// Filtering by two tests that agree on every element gives the same.
pub proof fn lemma_filter_agrees(
    s: Seq<Aggregate>,
    p: spec_fn(Aggregate) -> bool,
    q: spec_fn(Aggregate) -> bool,
)
    requires
        forall|i: int| 0 <= i < s.len() ==> p(#[trigger] s[i]) == q(s[i]),
    ensures
        s.filter(p) == s.filter(q),
    decreases s.len(),
{
    reveal(Seq::filter);
    if s.len() > 0 {
        lemma_filter_agrees(s.drop_last(), p, q);
    }
}

/// A query whose bounds cut through no bucket aggregates the buckets that
/// overlap its span: where no bucket has an empty span, and neither bound
/// of the query lies strictly inside a bucket, the buckets within the
/// span are the buckets that overlap it.
pub proof fn law_query_folds_overlapping(index: ISegmentIndex, query_span: Span)
    requires
        index.is_structured(),
        forall|k: int|
            0 <= k < index.leaves().len() ==> (#[trigger] index.leaves()[k]).start
                < index.leaves()[k].end,
        forall|k: int|
            0 <= k < index.leaves().len() ==> !((#[trigger] index.leaves()[k]).start
                < query_span.start < index.leaves()[k].end),
        forall|k: int|
            0 <= k < index.leaves().len() ==> !((#[trigger] index.leaves()[k]).start
                < query_span.end < index.leaves()[k].end),
    ensures
        range_aggregate(index.leaves(), query_span.start as int, query_span.end as int) == {
            let picked = index.leaves().filter(
                overlapping(query_span.start as int, query_span.end as int),
            );
            if picked.len() == 0 {
                None
            } else {
                Some(fold(picked))
            }
        },
{
    let s = index.leaves();
    let lo = query_span.start as int;
    let hi = query_span.end as int;
    assert forall|i: int| 0 <= i < s.len() implies within(lo, hi)(#[trigger] s[i]) == overlapping(
        lo,
        hi,
    )(s[i]) by {}
    lemma_filter_agrees(s, within(lo, hi), overlapping(lo, hi));
}

/// A query for a span that holds every bucket gives the root as it is.
pub proof fn law_full_span_gives_root(index: ISegmentIndex, query_span: Span)
    requires
        index.is_structured(),
        index.leaves().len() > 0,
        query_span.start <= index.leaves()[0].start,
        index.leaves().last().end <= query_span.end,
    ensures
        range_aggregate(index.leaves(), query_span.start as int, query_span.end as int) == Some(
            index.nodes()[0],
        ),
{
    let s = index.leaves();
    index.lemma_node(0);
    lemma_fold_span(s);
    lemma_range_whole(s, query_span.start as int, query_span.end as int);
}

/// Whatever the two traversals return for the same index and span, they
/// return the same.
pub proof fn law_traversals_agree(
    index: ISegmentIndex,
    query_span: Span,
    depth_first: Option<ISegment>,
    breadth_first: Option<ISegment>,
)
    requires
        result_view(depth_first) == range_aggregate(
            index.leaves_below(0),
            query_span.start as int,
            query_span.end as int,
        ),
        result_view(breadth_first) == range_aggregate(
            index.leaves(),
            query_span.start as int,
            query_span.end as int,
        ),
    ensures
        depth_first == breadth_first,
{
    if let Some(a) = depth_first {
        if let Some(b) = breadth_first {
            lemma_view_injective(a, b);
        }
    }
}

/// The array of an index is the smallest complete tree with a leaf slot
/// for each of its buckets.
pub proof fn law_array_is_smallest(index: ISegmentIndex)
    requires
        index.wf(),
    ensures
        index.slots() == slots_for(index.leaves().len()),
        index.tree@.len() == 2 * slots_for(index.leaves().len()) - 1,
{
    lemma_slots_for(index.leaves().len(), index.slots());
}

/// An index is determined by its buckets: two indexes that hold the same
/// buckets are the same array, however each was arrived at. So an index
/// that grew by appending bucket after bucket is the index that is built
/// from all of them at once.
pub proof fn law_buckets_determine_index(a: ISegmentIndex, b: ISegmentIndex)
    requires
        a.wf(),
        b.wf(),
        a.leaves() == b.leaves(),
    ensures
        a.tree@ == b.tree@,
{
    let ta = a.nodes();
    let tb = b.nodes();
    let n = a.leaves().len();
    let cap = a.slots();
    if a.slots() < b.slots() {
        lemma_pow2_apart(a.slots(), b.slots());
    } else if b.slots() < a.slots() {
        lemma_pow2_apart(b.slots(), a.slots());
    }
    a.lemma_leaves();
    b.lemma_leaves();
    let stop = cap - 1 + n;
    assert forall|i: int| 0 <= i < a.tree@.len() implies a.tree@[i] == b.tree@[i] by {
        a.lemma_node(i);
        b.lemma_node(i);
        lemma_slots(cap, i);
        lemma_leaves_are_slots(ta, i, stop);
        lemma_leaves_are_slots(tb, i, stop);
        let first = first_at(cap, i);
        let end = clip(stop, first, width_at(cap, i) as int);
        assert forall|k: int| first <= k < end implies ta[k] == tb[k] by {
            assert(ta[k] == ta.subrange(cap - 1, stop)[k - (cap - 1)]);
            assert(tb[k] == tb.subrange(cap - 1, stop)[k - (cap - 1)]);
        }
        assert(ta.subrange(first, end) =~= tb.subrange(first, end));
        lemma_view_injective(a.tree@[i], b.tree@[i]);
    }
}

} // verus!
