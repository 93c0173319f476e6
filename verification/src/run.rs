//! Runs of leaves as mathematical sequences: what it means for buckets to
//! follow one another without a gap, the aggregate of a run, and the
//! aggregate of the part of a run that lies within a span.

use vstd::prelude::*;
use crate::segment::{combined, Aggregate};

verus! {

/// The aggregate of a sequence of leaves, merged from left to right.
pub open spec fn fold(s: Seq<Aggregate>) -> Aggregate
    decreases s.len(),
{
    if s.len() == 0 {
        Aggregate::empty()
    } else {
        combined(fold(s.drop_last()), s.last())
    }
}

/// Whether the leaves are real buckets in ascending order that cover a
/// range without a gap: each holds at least one sample, no span is
/// inverted, and each bucket starts where the one before it ends.
pub open spec fn is_run(s: Seq<Aggregate>) -> bool {
    &&& forall|i: int| 0 <= i < s.len() ==> (#[trigger] s[i]).count > 0 && s[i].start <= s[i].end
    &&& forall|i: int| 0 <= i < s.len() - 1 ==> (#[trigger] s[i]).end == s[i + 1].start
}

/// The number of samples in all the leaves together.
pub open spec fn total_count(s: Seq<Aggregate>) -> nat
    decreases s.len(),
{
    if s.len() == 0 {
        0
    } else {
        total_count(s.drop_last()) + s.last().count
    }
}

/// The sum of the leaves' sums.
pub open spec fn total_sum(s: Seq<Aggregate>) -> int
    decreases s.len(),
{
    if s.len() == 0 {
        0
    } else {
        total_sum(s.drop_last()) + s.last().sum
    }
}

/// The sum of those leaves' sums that are positive: no selection of the
/// leaves adds up to more.
pub open spec fn upper_sum(s: Seq<Aggregate>) -> int
    decreases s.len(),
{
    if s.len() == 0 {
        0
    } else {
        upper_sum(s.drop_last()) + if s.last().sum > 0 { s.last().sum } else { 0 }
    }
}

/// The sum of those leaves' sums that are negative: no selection of the
/// leaves adds up to less.
pub open spec fn lower_sum(s: Seq<Aggregate>) -> int
    decreases s.len(),
{
    if s.len() == 0 {
        0
    } else {
        lower_sum(s.drop_last()) + if s.last().sum < 0 { s.last().sum } else { 0 }
    }
}

/// Whether the aggregate of any selection of the leaves fits a segment:
/// each leaf does, the samples can be counted in a `usize`, and neither the
/// positive nor the negative sums leave the range of an `i64`.
pub open spec fn is_bounded(s: Seq<Aggregate>) -> bool {
    &&& forall|i: int| 0 <= i < s.len() ==> (#[trigger] s[i]).representable()
    &&& total_count(s) <= usize::MAX
    &&& upper_sum(s) <= i64::MAX
    &&& lower_sum(s) >= i64::MIN
}

/// Whether the leaves can be indexed: a gapless ascending run whose
/// aggregates all fit a segment.
pub open spec fn is_indexable(s: Seq<Aggregate>) -> bool {
    is_run(s) && is_bounded(s)
}

/// Folding holds no sample exactly when there is no leaf with one, and the
/// result is then the placeholder.
pub proof fn lemma_fold_canonical(s: Seq<Aggregate>)
    requires
        forall|i: int| 0 <= i < s.len() ==> (#[trigger] s[i]).is_canonical(),
    ensures
        fold(s).is_canonical(),
    decreases s.len(),
{
    if s.len() > 0 {
        lemma_fold_canonical(s.drop_last());
    }
}

/// The aggregate of two sequences one after the other is the merge of
/// their aggregates.
pub proof fn lemma_fold_concat(a: Seq<Aggregate>, b: Seq<Aggregate>)
    requires
        forall|i: int| 0 <= i < a.len() ==> (#[trigger] a[i]).is_canonical(),
    ensures
        fold(a + b) == combined(fold(a), fold(b)),
    decreases b.len(),
{
    if b.len() == 0 {
        lemma_fold_canonical(a);
    } else {
        assert((a + b).drop_last() =~= a + b.drop_last());
        lemma_fold_concat(a, b.drop_last());
    }
}

/// The numbers of a folded sequence: counts and sums add up, and the sum
/// stays between the negative and the positive sums.
pub proof fn lemma_fold_totals(s: Seq<Aggregate>)
    requires
        forall|i: int| 0 <= i < s.len() ==> (#[trigger] s[i]).count > 0,
    ensures
        fold(s).count == total_count(s),
        fold(s).sum == total_sum(s),
        lower_sum(s) <= total_sum(s) <= upper_sum(s),
        lower_sum(s) <= 0 <= upper_sum(s),
        s.len() > 0 ==> fold(s).count > 0,
        s.len() == 0 ==> fold(s) == Aggregate::empty(),
    decreases s.len(),
{
    if s.len() > 0 {
        lemma_fold_totals(s.drop_last());
    }
}

/// In a gapless run the boundaries ascend: a leaf starts no earlier than
/// any leaf before it, and ends no later than any leaf after it.
pub proof fn lemma_run_ascends(s: Seq<Aggregate>, i: int, j: int)
    requires
        is_run(s),
        0 <= i <= j < s.len(),
    ensures
        s[i].start <= s[j].start,
        s[i].end <= s[j].end,
    decreases j - i,
{
    if i < j {
        lemma_run_ascends(s, i, j - 1);
    }
}

/// The first and the last bucket of a sequence of real buckets give its
/// aggregate its bounds.
pub proof fn lemma_fold_ends(s: Seq<Aggregate>)
    requires
        forall|i: int| 0 <= i < s.len() ==> (#[trigger] s[i]).count > 0,
        s.len() > 0,
    ensures
        fold(s).start == s[0].start,
        fold(s).end == s.last().end,
    decreases s.len(),
{
    if s.len() > 1 {
        let p = s.drop_last();
        lemma_fold_ends(p);
        lemma_fold_totals(p);
    } else {
        assert(fold(s.drop_last()) == Aggregate::empty());
    }
}

/// The aggregate of a gapless run spans it from the start of its first
/// leaf to the end of its last.
pub proof fn lemma_fold_span(s: Seq<Aggregate>)
    requires
        is_run(s),
        s.len() > 0,
    ensures
        fold(s).start == s[0].start,
        fold(s).end == s.last().end,
        fold(s).count > 0,
{
    lemma_fold_ends(s);
    lemma_fold_totals(s);
}

/// The test that a leaf's span lies within `[lo, hi)`.
pub open spec fn within(lo: int, hi: int) -> spec_fn(Aggregate) -> bool {
    |a: Aggregate| lo <= a.start && a.end <= hi
}

/// The leaves whose spans lie within `[lo, hi)`, in their order.
pub open spec fn selected(s: Seq<Aggregate>, lo: int, hi: int) -> Seq<Aggregate> {
    s.filter(within(lo, hi))
}

/// What a query for `[lo, hi)` owes: the aggregate of the leaves whose
/// spans lie within it, or nothing where there is no such leaf.
pub open spec fn range_aggregate(s: Seq<Aggregate>, lo: int, hi: int) -> Option<Aggregate> {
    let picked = selected(s, lo, hi);
    if picked.len() == 0 {
        None
    } else {
        Some(fold(picked))
    }
}

/// Selecting from two sequences one after the other selects from each.
pub proof fn lemma_selected_concat(a: Seq<Aggregate>, b: Seq<Aggregate>, lo: int, hi: int)
    ensures
        selected(a + b, lo, hi) == selected(a, lo, hi) + selected(b, lo, hi),
{
    Seq::filter_distributes_over_add(a, b, within(lo, hi));
}

/// Where every leaf lies within the span, all are selected.
pub proof fn lemma_selected_all(s: Seq<Aggregate>, lo: int, hi: int)
    requires
        forall|i: int| 0 <= i < s.len() ==> lo <= (#[trigger] s[i]).start && s[i].end <= hi,
    ensures
        selected(s, lo, hi) == s,
    decreases s.len(),
{
    reveal(Seq::filter);
    if s.len() > 0 {
        lemma_selected_all(s.drop_last(), lo, hi);
    }
}

/// Where no leaf lies within the span, none is selected.
pub proof fn lemma_selected_none(s: Seq<Aggregate>, lo: int, hi: int)
    requires
        forall|i: int| 0 <= i < s.len() ==> !(lo <= (#[trigger] s[i]).start && s[i].end <= hi),
    ensures
        selected(s, lo, hi).len() == 0,
    decreases s.len(),
{
    reveal(Seq::filter);
    if s.len() > 0 {
        lemma_selected_none(s.drop_last(), lo, hi);
    }
}

/// A selection holds real buckets only, and its totals stay within those
/// of the sequence it was taken from.
pub proof fn lemma_selected_bounds(s: Seq<Aggregate>, lo: int, hi: int)
    requires
        forall|i: int| 0 <= i < s.len() ==> (#[trigger] s[i]).count > 0,
    ensures
        forall|i: int|
            0 <= i < selected(s, lo, hi).len() ==> (#[trigger] selected(s, lo, hi)[i]).count > 0,
        total_count(selected(s, lo, hi)) <= total_count(s),
        upper_sum(selected(s, lo, hi)) <= upper_sum(s),
        lower_sum(selected(s, lo, hi)) >= lower_sum(s),
    decreases s.len(),
{
    reveal(Seq::filter);
    if s.len() > 0 {
        let p = s.drop_last();
        lemma_selected_bounds(p, lo, hi);
        let q = selected(p, lo, hi);
        if within(lo, hi)(s.last()) {
            assert(selected(s, lo, hi) == q.push(s.last()));
            assert(q.push(s.last()).drop_last() =~= q);
        } else {
            assert(selected(s, lo, hi) == q);
        }
    }
}

/// The totals of two sequences one after the other are the sums of
/// their totals.
pub proof fn lemma_totals_concat(a: Seq<Aggregate>, b: Seq<Aggregate>)
    ensures
        total_count(a + b) == total_count(a) + total_count(b),
        total_sum(a + b) == total_sum(a) + total_sum(b),
        upper_sum(a + b) == upper_sum(a) + upper_sum(b),
        lower_sum(a + b) == lower_sum(a) + lower_sum(b),
        lower_sum(a) <= 0 <= upper_sum(a),
        lower_sum(b) <= 0 <= upper_sum(b),
    decreases b.len(),
{
    lemma_sums_signed(a);
    lemma_sums_signed(b);
    if b.len() == 0 {
        assert(a + b =~= a);
    } else {
        assert((a + b).drop_last() =~= a + b.drop_last());
        lemma_totals_concat(a, b.drop_last());
    }
}

/// The positive sums are never negative, the negative sums never positive.
pub proof fn lemma_sums_signed(s: Seq<Aggregate>)
    ensures
        lower_sum(s) <= 0 <= upper_sum(s),
    decreases s.len(),
{
    if s.len() > 0 {
        lemma_sums_signed(s.drop_last());
    }
}

/// Both parts of a gapless run are gapless runs.
pub proof fn lemma_run_split(a: Seq<Aggregate>, b: Seq<Aggregate>)
    requires
        is_run(a + b),
    ensures
        is_run(a),
        is_run(b),
{
    let s = a + b;
    assert forall|i: int| 0 <= i < a.len() implies (#[trigger] a[i]).count > 0 && a[i].start
        <= a[i].end by {
        assert(s[i] == a[i]);
    }
    assert forall|i: int| 0 <= i < a.len() - 1 implies (#[trigger] a[i]).end == a[i + 1].start by {
        assert(s[i] == a[i]);
    }
    assert forall|i: int| 0 <= i < b.len() implies (#[trigger] b[i]).count > 0 && b[i].start
        <= b[i].end by {
        assert(s[a.len() + i] == b[i]);
    }
    assert forall|i: int| 0 <= i < b.len() - 1 implies (#[trigger] b[i]).end == b[i + 1].start by {
        assert(s[a.len() + i] == b[i]);
    }
}

/// Both parts of an indexable sequence are indexable.
pub proof fn lemma_indexable_split(a: Seq<Aggregate>, b: Seq<Aggregate>)
    requires
        is_indexable(a + b),
    ensures
        is_indexable(a),
        is_indexable(b),
{
    lemma_totals_concat(a, b);
    lemma_run_split(a, b);
    let s = a + b;
    assert forall|i: int| 0 <= i < a.len() implies (#[trigger] a[i]).representable() by {
        assert(s[i] == a[i]);
    }
    assert forall|i: int| 0 <= i < b.len() implies (#[trigger] b[i]).representable() by {
        assert(s[a.len() + i] == b[i]);
    }
}

/// The aggregate of a sequence of representable leaves takes its bounds
/// and extrema from them, so these fit a segment too.
pub proof fn lemma_fold_extrema_fit(s: Seq<Aggregate>)
    requires
        forall|i: int| 0 <= i < s.len() ==> (#[trigger] s[i]).representable(),
    ensures
        fold(s).start <= usize::MAX,
        fold(s).end <= usize::MAX,
        i64::MIN <= fold(s).min <= i64::MAX,
        i64::MIN <= fold(s).max <= i64::MAX,
    decreases s.len(),
{
    if s.len() > 0 {
        lemma_fold_extrema_fit(s.drop_last());
    }
}

/// The aggregate of an indexable sequence fits a segment.
pub proof fn lemma_fold_representable(s: Seq<Aggregate>)
    requires
        is_indexable(s),
    ensures
        fold(s).representable(),
{
    lemma_fold_extrema_fit(s);
    lemma_fold_totals(s);
}

/// The aggregate of what a span selects from an indexable sequence fits a
/// segment.
pub proof fn lemma_selected_representable(s: Seq<Aggregate>, lo: int, hi: int)
    requires
        is_indexable(s),
    ensures
        fold(selected(s, lo, hi)).representable(),
{
    let q = selected(s, lo, hi);
    lemma_selected_bounds(s, lo, hi);
    assert forall|i: int| 0 <= i < q.len() implies (#[trigger] q[i]).representable() by {
        s.lemma_filter_contains_rev(within(lo, hi), q[i]);
    }
    lemma_fold_extrema_fit(q);
    lemma_fold_totals(q);
}

/// The merge of two query results, either of which may be absent.
pub open spec fn combined_results(a: Option<Aggregate>, b: Option<Aggregate>) -> Option<
    Aggregate,
> {
    match (a, b) {
        (Some(x), Some(y)) => Some(combined(x, y)),
        (Some(x), None) => Some(x),
        (None, y) => y,
    }
}

/// What a span selects from two sequences of real buckets one after the
/// other is the merge of what it selects from each.
pub proof fn lemma_range_concat(a: Seq<Aggregate>, b: Seq<Aggregate>, lo: int, hi: int)
    requires
        forall|i: int| 0 <= i < a.len() ==> (#[trigger] a[i]).count > 0,
    ensures
        range_aggregate(a + b, lo, hi) == combined_results(
            range_aggregate(a, lo, hi),
            range_aggregate(b, lo, hi),
        ),
{
    let sa = selected(a, lo, hi);
    let sb = selected(b, lo, hi);
    lemma_selected_concat(a, b, lo, hi);
    lemma_selected_bounds(a, lo, hi);
    assert forall|i: int| 0 <= i < sa.len() implies (#[trigger] sa[i]).is_canonical() by {}
    lemma_fold_concat(sa, sb);
    lemma_fold_totals(sa);
    if sb.len() == 0 {
        assert(sa + sb =~= sa);
    }
}

/// A span that ends before a run starts, or starts after it ends, selects
/// nothing from it.
pub proof fn lemma_range_apart(s: Seq<Aggregate>, lo: int, hi: int)
    requires
        is_run(s),
        s.len() > 0,
        hi < fold(s).start || fold(s).end < lo,
    ensures
        range_aggregate(s, lo, hi).is_none(),
{
    lemma_fold_span(s);
    assert forall|i: int| 0 <= i < s.len() implies !(lo <= (#[trigger] s[i]).start && s[i].end
        <= hi) by {
        lemma_run_ascends(s, 0, i);
        lemma_run_ascends(s, i, s.len() - 1);
    }
    lemma_selected_none(s, lo, hi);
}

/// A span that holds a whole run selects all of it.
pub proof fn lemma_range_whole(s: Seq<Aggregate>, lo: int, hi: int)
    requires
        is_run(s),
        s.len() > 0,
        lo <= fold(s).start,
        fold(s).end <= hi,
    ensures
        range_aggregate(s, lo, hi) == Some(fold(s)),
{
    lemma_fold_span(s);
    assert forall|i: int| 0 <= i < s.len() implies lo <= (#[trigger] s[i]).start && s[i].end
        <= hi by {
        lemma_run_ascends(s, 0, i);
        lemma_run_ascends(s, i, s.len() - 1);
    }
    lemma_selected_all(s, lo, hi);
}

/// A span selects a single bucket exactly when the bucket lies within it.
pub proof fn lemma_range_single(a: Aggregate, lo: int, hi: int)
    ensures
        range_aggregate(seq![a], lo, hi) == if lo <= a.start && a.end <= hi {
            Some(combined(Aggregate::empty(), a))
        } else {
            None
        },
{
    let s = seq![a];
    if lo <= a.start && a.end <= hi {
        assert forall|i: int| 0 <= i < s.len() implies lo <= (#[trigger] s[i]).start && s[i].end
            <= hi by {}
        lemma_selected_all(s, lo, hi);
        assert(fold(s.drop_last()) == Aggregate::empty());
    } else {
        assert forall|i: int| 0 <= i < s.len() implies !(lo <= (#[trigger] s[i]).start && s[i].end
            <= hi) by {}
        lemma_selected_none(s, lo, hi);
    }
}

/// Whether the bucket holds the time `key`: its span starts at or before
/// it and ends after it.
pub open spec fn holds(a: Aggregate, key: int) -> bool {
    a.start <= key < a.end
}

/// In a gapless run at most one bucket holds a given time.
pub proof fn lemma_holder_unique(s: Seq<Aggregate>, i: int, j: int, key: int)
    requires
        is_run(s),
        0 <= i < s.len(),
        0 <= j < s.len(),
        holds(s[i], key),
        holds(s[j], key),
    ensures
        i == j,
{
    if i < j {
        lemma_run_ascends(s, i + 1, j);
    } else if j < i {
        lemma_run_ascends(s, j + 1, i);
    }
}

/// The extrema of the aggregate of real buckets are those of the
/// buckets: no bucket goes below its minimum or above its maximum, and
/// some bucket reaches each.
pub proof fn lemma_fold_extrema(s: Seq<Aggregate>)
    requires
        forall|i: int| 0 <= i < s.len() ==> (#[trigger] s[i]).count > 0,
        s.len() > 0,
    ensures
        forall|i: int| 0 <= i < s.len() ==> fold(s).min <= (#[trigger] s[i]).min,
        forall|i: int| 0 <= i < s.len() ==> fold(s).max >= (#[trigger] s[i]).max,
        exists|i: int| 0 <= i < s.len() && fold(s).min == (#[trigger] s[i]).min,
        exists|i: int| 0 <= i < s.len() && fold(s).max == (#[trigger] s[i]).max,
    decreases s.len(),
{
    let last = s.len() - 1;
    assert(s[last].count > 0);
    if s.len() > 1 {
        let p = s.drop_last();
        lemma_fold_extrema(p);
        lemma_fold_totals(p);
        assert forall|i: int| 0 <= i < s.len() implies fold(s).min <= (#[trigger] s[i]).min by {
            if i < last {
                assert(p[i] == s[i]);
            }
        }
        assert forall|i: int| 0 <= i < s.len() implies fold(s).max >= (#[trigger] s[i]).max by {
            if i < last {
                assert(p[i] == s[i]);
            }
        }
        let i = choose|i: int| 0 <= i < p.len() && fold(p).min == (#[trigger] p[i]).min;
        let j = choose|j: int| 0 <= j < p.len() && fold(p).max == (#[trigger] p[j]).max;
        assert(p[i] == s[i]);
        assert(p[j] == s[j]);
        if fold(s).min == fold(p).min {
            assert(fold(s).min == s[i].min);
        } else {
            assert(fold(s).min == s[last].min);
        }
        if fold(s).max == fold(p).max {
            assert(fold(s).max == s[j].max);
        } else {
            assert(fold(s).max == s[last].max);
        }
    } else {
        assert(fold(s.drop_last()) == Aggregate::empty());
        assert(fold(s) == s[0]);
    }
}

/// The number of samples in buckets of one sample each is the number of
/// buckets.
pub proof fn lemma_count_of_singles(s: Seq<Aggregate>)
    requires
        forall|i: int| 0 <= i < s.len() ==> (#[trigger] s[i]).count == 1,
    ensures
        total_count(s) == s.len(),
    decreases s.len(),
{
    if s.len() > 0 {
        lemma_count_of_singles(s.drop_last());
    }
}

} // verus!
