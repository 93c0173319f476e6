use isegment_index::query::accumulate;
use isegment_index::{combine, ISegment, ISegmentIndex, Span};

fn bucket(start: usize, end: usize, count: usize, min: i64, max: i64, sum: i64) -> ISegment {
    ISegment { span: Span { start, end }, count, max, min, sum }
}

fn unit(time: usize, value: i64) -> ISegment {
    bucket(time, time + 1, 1, value, value, value)
}

fn units(values: &[i64]) -> Vec<ISegment> {
    let mut out = Vec::new();
    for (i, v) in values.iter().enumerate() {
        out.push(unit(i, *v));
    }
    out
}

/// The plain left-to-right merge of the buckets whose spans lie within
/// the span, by the rule of `combine` written out.
fn linear(leaves: &[ISegment], lo: usize, hi: usize) -> Option<ISegment> {
    let mut acc: Option<ISegment> = None;
    for leaf in leaves {
        if lo <= leaf.span.start && leaf.span.end <= hi {
            acc = Some(match acc {
                None => *leaf,
                Some(a) => ISegment {
                    span: Span { start: a.span.start, end: leaf.span.end },
                    count: a.count + leaf.count,
                    max: a.max.max(leaf.max),
                    min: a.min.min(leaf.min),
                    sum: a.sum + leaf.sum,
                },
            });
        }
    }
    acc
}

#[test]
fn root_holds_the_aggregate_of_the_batch() {
    let data = vec![
        bucket(10, 12, 3, -4, 9, 11),
        bucket(12, 13, 1, 2, 2, 2),
        bucket(13, 20, 5, -8, 1, -13),
        bucket(20, 21, 2, 0, 30, 30),
        bucket(21, 25, 4, 5, 6, 22),
    ];
    let index = ISegmentIndex::new(data);
    let root = index.tree[0];
    assert_eq!(root.count, 15);
    assert_eq!(root.sum, 52);
    assert_eq!(root.min, -8);
    assert_eq!(root.max, 30);
    assert_eq!(root.span, Span { start: 10, end: 25 });
}

#[test]
fn root_count_is_the_number_of_unit_buckets() {
    for n in 1..40usize {
        let values: Vec<i64> = (0..n as i64).collect();
        let index = ISegmentIndex::new(units(&values));
        assert_eq!(index.tree[0].count, n);
        assert_eq!(index.tree[0].sum, (n as i64) * (n as i64 - 1) / 2);
        assert_eq!(index.tree[0].span, Span { start: 0, end: n });
    }
}

#[test]
fn combine_is_associative() {
    let a = bucket(0, 2, 2, -1, 4, 3);
    let b = bucket(2, 5, 1, 7, 7, 7);
    let c = bucket(5, 6, 3, -9, 0, -12);
    assert_eq!(combine(combine(a, b), c), combine(a, combine(b, c)));
    let merged = combine(combine(a, b), c);
    assert_eq!(merged, bucket(0, 6, 6, -9, 7, -2));
}

#[test]
fn combine_is_associative_around_placeholders() {
    let a = bucket(0, 2, 2, 3, 4, 7);
    let none = ISegment::default();
    let c = bucket(2, 3, 1, 5, 5, 5);
    assert_eq!(combine(combine(a, none), c), combine(a, combine(none, c)));
    assert_eq!(combine(combine(none, a), c), combine(none, combine(a, c)));
    assert_eq!(combine(combine(a, c), none), combine(a, combine(c, none)));
    assert_eq!(combine(combine(a, none), c), bucket(0, 3, 3, 3, 5, 12));
}

#[test]
fn combine_merges_two_buckets() {
    let left = bucket(3, 5, 2, -2, 6, 4);
    let right = bucket(5, 9, 3, 1, 8, 10);
    assert_eq!(combine(left, right), bucket(3, 9, 5, -2, 8, 14));
}

#[test]
fn combine_passes_over_a_side_without_samples() {
    let real = bucket(3, 5, 2, 4, 6, 10);
    let none = ISegment::default();
    assert_eq!(combine(real, none), real);
    assert_eq!(combine(none, real), real);
    assert_eq!(combine(none, none), none);
}

#[test]
fn query_is_the_linear_fold_of_the_buckets_within() {
    let data = units(&[5, -3, 8, 0, -7, 2, 9, -1, 4, 6, -2]);
    let index = ISegmentIndex::new(data.clone());
    for lo in 0..=12usize {
        for hi in 0..=12usize {
            let span = Span { start: lo, end: hi };
            let expected = linear(&data, lo, hi);
            assert_eq!(index.query_dfs(0, span), expected);
            assert_eq!(index.query_bfs(span), expected);
        }
    }
}

#[test]
fn query_on_wide_buckets_takes_the_buckets_within() {
    let data = vec![
        bucket(0, 10, 4, 1, 5, 12),
        bucket(10, 15, 2, -6, 0, -6),
        bucket(15, 40, 7, 3, 3, 21),
    ];
    let index = ISegmentIndex::new(data.clone());
    let hit = index.query_bfs(Span { start: 10, end: 40 }).unwrap();
    assert_eq!(hit, bucket(10, 40, 9, -6, 3, 15));
    assert_eq!(index.query_dfs(0, Span { start: 3, end: 12 }), None);
    assert_eq!(index.query_bfs(Span { start: 3, end: 12 }), None);
    assert_eq!(index.query_dfs(0, Span { start: 3, end: 15 }), Some(data[1]));
    for lo in 0..=41usize {
        for hi in 0..=41usize {
            let span = Span { start: lo, end: hi };
            assert_eq!(index.query_dfs(0, span), linear(&data, lo, hi));
            assert_eq!(index.query_bfs(span), linear(&data, lo, hi));
        }
    }
}

#[test]
fn full_span_gives_the_root() {
    for n in 1..20usize {
        let values: Vec<i64> = (0..n as i64).map(|v| 3 * v - 7).collect();
        let index = ISegmentIndex::new(units(&values));
        let full = Span { start: 0, end: n };
        assert_eq!(index.query_dfs(0, full), Some(index.tree[0]));
        assert_eq!(index.query_bfs(full), Some(index.tree[0]));
        let wider = Span { start: 0, end: n + 5 };
        assert_eq!(index.query_bfs(wider), Some(index.tree[0]));
    }
}

#[test]
fn appending_one_by_one_gives_the_index_built_at_once() {
    let values: Vec<i64> = vec![4, -1, 7, 7, 0, -5, 3, 12, -9, 6, 1, 2, 8, -4, 5, 10, 11];
    let data = units(&values);
    for n in 0..data.len() {
        let mut grown = ISegmentIndex::new(data[..n].to_vec());
        for k in n..data.len() {
            grown.append(data[k]);
            let built = ISegmentIndex::new(data[..=k].to_vec());
            assert_eq!(grown.tree, built.tree);
            let full = Span { start: 0, end: k + 1 };
            assert_eq!(grown.query_bfs(full), built.query_bfs(full));
            assert_eq!(grown.query_dfs(0, full), built.query_dfs(0, full));
        }
    }
}

#[test]
fn traversals_agree() {
    let data = units(&[2, -2, 9, 4, -6, 1, 0]);
    let index = ISegmentIndex::new(data);
    for lo in 0..=8usize {
        for hi in 0..=8usize {
            let span = Span { start: lo, end: hi };
            assert_eq!(index.query_dfs(0, span), index.query_bfs(span));
        }
    }
}

#[test]
fn accumulate_takes_the_first_node_as_it_is() {
    let node = bucket(4, 6, 2, -1, 3, 2);
    assert_eq!(accumulate(None, node), Some(node));
}

#[test]
fn accumulate_gathers_in_any_order() {
    let early = bucket(0, 2, 2, -1, 3, 2);
    let late = bucket(6, 8, 1, 10, 10, 10);
    let expected = bucket(0, 8, 3, -1, 10, 12);
    assert_eq!(accumulate(Some(early), late), Some(expected));
    assert_eq!(accumulate(Some(late), early), Some(expected));
}
