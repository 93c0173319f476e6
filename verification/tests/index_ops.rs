use isegment_index::outline::OutlineRow;
use isegment_index::{ISegment, ISegmentIndex, Span};

fn bucket(start: usize, end: usize, count: usize, min: i64, max: i64, sum: i64) -> ISegment {
    ISegment { span: Span { start, end }, count, max, min, sum }
}

fn unit(time: usize, value: i64) -> ISegment {
    bucket(time, time + 1, 1, value, value, value)
}

fn units(values: &[i64]) -> Vec<ISegment> {
    let mut out = Vec::new();
    for (i, v) in values.iter().enumerate() {
        out.push(unit(i, *v));
    }
    out
}

#[test]
fn default_span_is_empty_at_zero() {
    assert_eq!(Span::default(), Span { start: 0, end: 0 });
}

#[test]
fn default_segment_is_the_placeholder() {
    let d = ISegment::default();
    assert_eq!(d.span, Span { start: 0, end: 0 });
    assert_eq!(d.count, 0);
    assert_eq!(d.sum, 0);
    assert_eq!(d.min, 0);
    assert_eq!(d.max, 0);
}

#[test]
fn array_is_the_smallest_complete_tree() {
    let sizes = [
        (0usize, 1usize),
        (1, 1),
        (2, 3),
        (3, 7),
        (4, 7),
        (5, 15),
        (6, 15),
        (8, 15),
        (9, 31),
        (16, 31),
        (17, 63),
    ];
    for (n, size) in sizes {
        let values: Vec<i64> = (0..n as i64).collect();
        let index = ISegmentIndex::new(units(&values));
        assert_eq!(index.tree.len(), size);
        assert_eq!(index.leaf_count(), n);
    }
}

#[test]
fn empty_batch_gives_one_placeholder() {
    let index = ISegmentIndex::new(Vec::new());
    assert_eq!(index.tree, vec![ISegment::default()]);
    assert_eq!(index.query_bfs(Span { start: 0, end: 10 }), None);
    assert_eq!(index.query_dfs(0, Span { start: 0, end: 10 }), None);
}

#[test]
fn single_bucket_is_the_root() {
    let only = bucket(7, 9, 3, -2, 5, 4);
    let index = ISegmentIndex::new(vec![only]);
    assert_eq!(index.tree, vec![only]);
    assert_eq!(index.query_bfs(Span { start: 7, end: 9 }), Some(only));
    assert_eq!(index.query_bfs(Span { start: 7, end: 8 }), None);
}

#[test]
fn leaves_fill_the_last_level_from_the_left() {
    let data = units(&[10, 20, 30]);
    let index = ISegmentIndex::new(data.clone());
    assert_eq!(index.tree.len(), 7);
    assert_eq!(index.tree[3], data[0]);
    assert_eq!(index.tree[4], data[1]);
    assert_eq!(index.tree[5], data[2]);
    assert_eq!(index.tree[6], ISegment::default());
    assert_eq!(index.tree[1], bucket(0, 2, 2, 10, 20, 30));
    assert_eq!(index.tree[2], data[2]);
    assert_eq!(index.tree[0], bucket(0, 3, 3, 10, 30, 60));
}

#[test]
fn padding_does_not_reach_the_extrema() {
    let index = ISegmentIndex::new(units(&[-5, -9, -2]));
    assert_eq!(index.tree[0].max, -2);
    assert_eq!(index.tree[0].min, -9);
    let all = index.query_bfs(Span { start: 0, end: 3 }).unwrap();
    assert_eq!(all.max, -2);
    let head = index.query_dfs(0, Span { start: 0, end: 2 }).unwrap();
    assert_eq!((head.min, head.max, head.count), (-9, -5, 2));
    let positive = ISegmentIndex::new(units(&[5, 9, 2]));
    assert_eq!(positive.tree[0].min, 2);
    assert_eq!(positive.query_bfs(Span { start: 0, end: 2 }).unwrap().min, 5);
}

#[test]
fn query_outside_the_buckets_finds_nothing() {
    let data: Vec<ISegment> = (0..6).map(|i| unit(10 + i, i as i64)).collect();
    let index = ISegmentIndex::new(data);
    assert_eq!(index.query_bfs(Span { start: 0, end: 9 }), None);
    assert_eq!(index.query_dfs(0, Span { start: 0, end: 9 }), None);
    assert_eq!(index.query_bfs(Span { start: 0, end: 10 }), None);
    assert_eq!(index.query_bfs(Span { start: 17, end: 30 }), None);
    assert_eq!(index.query_dfs(0, Span { start: 16, end: 30 }), None);
}

#[test]
fn inverted_or_empty_span_finds_nothing() {
    let index = ISegmentIndex::new(units(&[1, 2, 3, 4]));
    assert_eq!(index.query_bfs(Span { start: 3, end: 1 }), None);
    assert_eq!(index.query_dfs(0, Span { start: 3, end: 1 }), None);
    assert_eq!(index.query_bfs(Span { start: 2, end: 2 }), None);
    assert_eq!(index.query_dfs(0, Span { start: 0, end: 0 }), None);
}

#[test]
fn query_below_a_node_sees_its_buckets_only() {
    let index = ISegmentIndex::new(units(&[1, 2, 3, 4, 5, 6]));
    let wide = Span { start: 0, end: 6 };
    assert_eq!(index.query_dfs(1, wide), Some(bucket(0, 4, 4, 1, 4, 10)));
    assert_eq!(index.query_dfs(2, wide), Some(bucket(4, 6, 2, 5, 6, 11)));
    assert_eq!(index.query_dfs(9, wide), Some(unit(2, 3)));
    assert_eq!(index.query_dfs(13, wide), None);
    assert_eq!(index.query_dfs(15, wide), None);
    assert_eq!(index.query_dfs(1000, wide), None);
}

#[test]
fn build_below_a_node_leaves_the_rest() {
    let mut index = ISegmentIndex::new(units(&[1, 2, 3, 4, 5, 6, 7, 8]));
    let before = index.tree.clone();
    let fresh = vec![bucket(4, 5, 2, 40, 50, 90), bucket(5, 6, 1, 60, 60, 60), bucket(6, 8, 3, 0, 1, 2)];
    index.build(&fresh, 2, 0, 2);
    assert_eq!(index.tree[11], fresh[0]);
    assert_eq!(index.tree[12], fresh[1]);
    assert_eq!(index.tree[13], fresh[2]);
    assert_eq!(index.tree[14], ISegment::default());
    assert_eq!(index.tree[5], bucket(4, 6, 3, 40, 60, 150));
    assert_eq!(index.tree[6], fresh[2]);
    assert_eq!(index.tree[2], bucket(4, 8, 6, 0, 60, 152));
    for j in [0usize, 1, 3, 4, 7, 8, 9, 10] {
        assert_eq!(index.tree[j], before[j]);
    }
}

#[test]
fn build_takes_the_part_of_the_values_it_is_given() {
    let values = units(&[9, 8, 7, 6, 5]);
    let mut index = ISegmentIndex::new(units(&[0, 0, 0, 0]));
    index.build(&values, 0, 1, 3);
    assert_eq!(index.tree[3], values[1]);
    assert_eq!(index.tree[4], values[2]);
    assert_eq!(index.tree[5], values[3]);
    assert_eq!(index.tree[6], ISegment::default());
    assert_eq!(index.tree[0], bucket(1, 4, 3, 6, 8, 21));
}

#[test]
fn append_grows_to_twice_the_size_plus_one() {
    let mut index = ISegmentIndex::new(Vec::new());
    let mut lens = Vec::new();
    for i in 0..9usize {
        index.append(unit(i, i as i64));
        lens.push(index.tree.len());
    }
    assert_eq!(lens, vec![1, 3, 7, 7, 15, 15, 15, 15, 31]);
    assert_eq!(index.tree[0], bucket(0, 9, 9, 0, 8, 36));
    assert_eq!(index.leaf_count(), 9);
}

#[test]
fn append_touches_the_way_to_the_root_only() {
    let mut index = ISegmentIndex::new(units(&[1, 2, 3, 4, 5]));
    let before = index.tree.clone();
    index.append(unit(5, 60));
    assert_eq!(index.tree.len(), 15);
    assert_eq!(index.tree[12], unit(5, 60));
    assert_eq!(index.tree[5], bucket(4, 6, 2, 5, 60, 65));
    assert_eq!(index.tree[2], bucket(4, 6, 2, 5, 60, 65));
    assert_eq!(index.tree[0], bucket(0, 6, 6, 1, 60, 75));
    for j in 0..15usize {
        if ![0usize, 2, 5, 12].contains(&j) {
            assert_eq!(index.tree[j], before[j]);
        }
    }
}

#[test]
fn update_replaces_the_bucket_that_holds_the_time() {
    let mut index = ISegmentIndex::new(units(&[1, 2, 3, 4, 5, 6]));
    let before = index.tree.clone();
    index.update(2, bucket(2, 3, 4, -7, 9, 8));
    assert_eq!(index.tree[9], bucket(2, 3, 4, -7, 9, 8));
    assert_eq!(index.tree[4], bucket(2, 4, 5, -7, 9, 12));
    assert_eq!(index.tree[1], bucket(0, 4, 7, -7, 9, 15));
    assert_eq!(index.tree[0], bucket(0, 6, 9, -7, 9, 26));
    for j in 0..15usize {
        if ![0usize, 1, 4, 9].contains(&j) {
            assert_eq!(index.tree[j], before[j]);
        }
    }
    let rebuilt = ISegmentIndex::new(vec![
        unit(0, 1),
        unit(1, 2),
        bucket(2, 3, 4, -7, 9, 8),
        unit(3, 4),
        unit(4, 5),
        unit(5, 6),
    ]);
    assert_eq!(index.tree, rebuilt.tree);
}

#[test]
fn update_finds_the_bucket_by_any_time_it_holds() {
    let data = vec![bucket(0, 10, 1, 1, 1, 1), bucket(10, 30, 1, 2, 2, 2), bucket(30, 31, 1, 3, 3, 3)];
    for key in [10usize, 17, 29] {
        let mut index = ISegmentIndex::new(data.clone());
        index.update(key, bucket(10, 30, 5, -1, 8, 20));
        assert_eq!(index.tree[4], bucket(10, 30, 5, -1, 8, 20));
        assert_eq!(index.tree[0], bucket(0, 31, 7, -1, 8, 24));
    }
    let mut index = ISegmentIndex::new(data.clone());
    index.update(30, bucket(30, 31, 2, 0, 0, 0));
    assert_eq!(index.tree[5], bucket(30, 31, 2, 0, 0, 0));
    assert_eq!(index.tree[4], data[1]);
}

#[test]
fn update_of_a_time_that_no_bucket_holds_changes_nothing() {
    let data: Vec<ISegment> = (0..5).map(|i| unit(10 + i, i as i64)).collect();
    let mut index = ISegmentIndex::new(data);
    let before = index.tree.clone();
    index.update(9, unit(9, 100));
    assert_eq!(index.tree, before);
    index.update(15, unit(15, 100));
    assert_eq!(index.tree, before);
    let mut empty = ISegmentIndex::new(Vec::new());
    empty.update(0, unit(0, 1));
    assert_eq!(empty.tree, vec![ISegment::default()]);
}

#[test]
fn update_then_query_sees_the_new_bucket() {
    let mut index = ISegmentIndex::new(units(&[1, 2, 3, 4, 5, 6, 7]));
    index.update(6, unit(6, -70));
    let tail = index.query_bfs(Span { start: 4, end: 7 }).unwrap();
    assert_eq!((tail.sum, tail.min, tail.max, tail.count), (-59, -70, 6, 3));
    assert_eq!(index.query_dfs(0, Span { start: 4, end: 7 }), Some(tail));
}

#[test]
fn leaf_count_counts_the_buckets() {
    let mut index = ISegmentIndex::new(units(&[1, 2, 3]));
    assert_eq!(index.leaf_count(), 3);
    index.append(unit(3, 4));
    assert_eq!(index.leaf_count(), 4);
    index.append(unit(4, 5));
    assert_eq!(index.leaf_count(), 5);
    index.update(0, unit(0, 9));
    assert_eq!(index.leaf_count(), 5);
}

#[test]
fn outline_lists_the_nodes_right_to_left() {
    let index = ISegmentIndex::new(units(&[10, 20, 30]));
    let rows = index.outline();
    let expected = vec![
        OutlineRow { node: 6, depth: 2, is_right: true, sum: 0 },
        OutlineRow { node: 2, depth: 1, is_right: true, sum: 30 },
        OutlineRow { node: 5, depth: 2, is_right: false, sum: 30 },
        OutlineRow { node: 0, depth: 0, is_right: true, sum: 60 },
        OutlineRow { node: 4, depth: 2, is_right: true, sum: 20 },
        OutlineRow { node: 1, depth: 1, is_right: false, sum: 30 },
        OutlineRow { node: 3, depth: 2, is_right: false, sum: 10 },
    ];
    assert_eq!(rows, expected);
}

#[test]
fn outline_of_a_single_node() {
    let index = ISegmentIndex::new(vec![unit(0, 5)]);
    assert_eq!(index.outline(), vec![OutlineRow { node: 0, depth: 0, is_right: true, sum: 5 }]);
}
