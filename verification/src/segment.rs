//! The value types of the index: a half-open span of time units and the
//! aggregate of the samples that fall into it.

use vstd::prelude::*;

verus! {

/// A half-open interval `[start, end)` of time units.
#[derive(Clone, Copy, Debug, PartialEq, Eq, Structural)]
pub struct Span {
    pub start: usize,
    pub end: usize,
}

impl Default for Span {
    fn default() -> (res: Span)
        ensures
            res.start == 0,
            res.end == 0,
    {
        Span { start: 0, end: 0 }
    }
}

/// The aggregate of the samples of one span: a raw bucket when it is a leaf
/// of the index, a merged range when it is an inner node. The extrema and
/// the sum are integers: measured values enter as fixed-point numbers. A
/// segment whose `count` is zero is a placeholder that stands for "no
/// data".
#[derive(Clone, Copy, Debug, PartialEq, Eq, Structural)]
pub struct ISegment {
    pub span: Span,
    pub count: usize,
    pub max: i64,
    pub min: i64,
    pub sum: i64,
}

/// The mathematical value of a segment: the same six numbers, unbounded.
pub struct Aggregate {
    pub start: nat,
    pub end: nat,
    pub count: nat,
    pub sum: int,
    pub min: int,
    pub max: int,
}

impl Aggregate {
    /// The placeholder: an empty span at zero that holds no sample.
    pub open spec fn empty() -> Aggregate {
        Aggregate { start: 0, end: 0, count: 0, sum: 0, min: 0, max: 0 }
    }

    /// Whether the aggregate, if it holds no sample, is the placeholder
    /// itself: there is then one value only that stands for "no data".
    pub open spec fn is_canonical(self) -> bool {
        self.count == 0 ==> self == Aggregate::empty()
    }

    /// Whether every number of the aggregate fits the field of `ISegment`
    /// that would hold it.
    pub open spec fn representable(self) -> bool {
        &&& self.start <= usize::MAX
        &&& self.end <= usize::MAX
        &&& self.count <= usize::MAX
        &&& i64::MIN <= self.sum <= i64::MAX
        &&& i64::MIN <= self.min <= i64::MAX
        &&& i64::MIN <= self.max <= i64::MAX
    }
}

impl View for ISegment {
    type V = Aggregate;

    open spec fn view(&self) -> Aggregate {
        Aggregate {
            start: self.span.start as nat,
            end: self.span.end as nat,
            count: self.count as nat,
            sum: self.sum as int,
            min: self.min as int,
            max: self.max as int,
        }
    }
}

impl Default for ISegment {
    fn default() -> (res: ISegment)
        ensures
            res@ == Aggregate::empty(),
    {
        ISegment { span: Span { start: 0, end: 0 }, count: 0, max: 0, min: 0, sum: 0 }
    }
}

/// The mathematical values of a sequence of segments.
pub open spec fn aggregates(s: Seq<ISegment>) -> Seq<Aggregate> {
    s.map_values(|x: ISegment| x@)
}

/// The values of a part of a sequence are that part of its values.
pub proof fn lemma_aggregates_subrange(s: Seq<ISegment>, from: int, upto: int)
    requires
        0 <= from <= upto <= s.len(),
    ensures
        aggregates(s.subrange(from, upto)) == aggregates(s).subrange(from, upto),
{
}

/// The smaller of two integers.
pub open spec fn lesser(a: int, b: int) -> int {
    if a <= b { a } else { b }
}

/// The larger of two integers.
pub open spec fn greater(a: int, b: int) -> int {
    if a >= b { a } else { b }
}

/// The aggregate of an earlier range `a` followed by a later range `b`.
/// A side that holds no sample contributes nothing, neither bounds nor
/// extrema; otherwise the span runs from the start of `a` to the end of
/// `b`, counts and sums add, and the extrema are taken over both.
pub open spec fn combined(a: Aggregate, b: Aggregate) -> Aggregate {
    if a.count == 0 {
        b
    } else if b.count == 0 {
        a
    } else {
        Aggregate {
            start: a.start,
            end: b.end,
            count: a.count + b.count,
            sum: a.sum + b.sum,
            min: lesser(a.min, b.min),
            max: greater(a.max, b.max),
        }
    }
}

/// Merges two segments, `left` being the chronologically earlier one.
pub fn combine(left: ISegment, right: ISegment) -> (res: ISegment)
    requires
        combined(left@, right@).representable(),
    ensures
        res@ == combined(left@, right@),
{
    if left.count == 0 {
        right
    } else if right.count == 0 {
        left
    } else {
        ISegment {
            span: Span { start: left.span.start, end: right.span.end },
            count: left.count + right.count,
            max: if left.max >= right.max { left.max } else { right.max },
            min: if left.min <= right.min { left.min } else { right.min },
            sum: left.sum + right.sum,
        }
    }
}

/// Two segments with the same mathematical value are the same segment.
pub proof fn lemma_view_injective(a: ISegment, b: ISegment)
    requires
        a@ == b@,
    ensures
        a == b,
{
}

} // verus!
