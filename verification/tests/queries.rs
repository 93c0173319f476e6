use isegment_index::{ISegment, ISegmentIndex, Span};

fn tree_data() -> (Vec<ISegment>, ISegmentIndex) {
    let mut data: Vec<ISegment> = vec![ISegment::default(); 6];
    for i in 0..data.len() {
        let time: usize = i;
        let val: i64 = i as i64;
        data[i] = ISegment {
            count: 1,
            max: val,
            min: val,
            sum: val,
            span: Span {
                start: time,
                end: time + 1,
            },
        };
    }

    (data.clone(), ISegmentIndex::new(data))
}

#[test]
fn build() {
    let (data, mut tree) = tree_data();
    tree.build(&data, 0, 0, data.len() - 1);
    for i in 0..tree.tree.len() {
        println!("{:?}", tree.tree[i]);
    }

    assert_eq!(tree.tree[0].count, 6);
}

#[test]
fn sum() {
    let (data, mut tree) = tree_data();
    tree.build(&data, 0, 0, data.len() - 1);

    for i in 0..data.len() {
        println!("{:?} ", data[i].sum);
    }

    for i in 0..tree.tree.len() {
        println!("{:?}", tree.tree[i]);
    }

    assert_eq!(tree.query_bfs(Span { start: 1, end: 6 }).unwrap().sum, 15);

    assert_eq!(tree.query_bfs(Span { start: 1, end: 6 }).unwrap().sum, 15);

    assert_eq!(tree.query_bfs(Span { start: 1, end: 3 }).unwrap().sum, 3);

    assert_eq!(tree.query_bfs(Span { start: 0, end: 6 }).unwrap().sum, 15);
}

#[test]
fn max() {
    let (data, mut tree) = tree_data();
    tree.build(&data, 0, 0, data.len() - 1);

    assert_eq!(tree.query_bfs(Span { start: 2, end: 6 }).unwrap().max, 5);

    assert_eq!(tree.query_dfs(0, Span { start: 1, end: 3 }).unwrap().max, 2);

    assert_eq!(tree.query_dfs(0, Span { start: 1, end: 7 }).unwrap().max, 5);
}

#[test]
fn min() {
    let (data, mut tree) = tree_data();
    tree.build(&data, 0, 0, data.len() - 1);

    assert_eq!(tree.query_dfs(0, Span { start: 2, end: 6 }).unwrap().min, 2);

    assert_eq!(tree.query_dfs(0, Span { start: 1, end: 3 }).unwrap().min, 1);

    assert_eq!(tree.query_dfs(0, Span { start: 1, end: 7 }).unwrap().min, 1);
}

#[test]
fn count() {
    let (data, mut tree) = tree_data();
    tree.build(&data, 0, 0, data.len() - 1);

    assert_eq!(tree.query_dfs(0, Span { start: 2, end: 6 }).unwrap().count, 4);

    assert_eq!(tree.query_dfs(0, Span { start: 4, end: 6 }).unwrap().count, 2);

    assert_eq!(tree.query_dfs(0, Span { start: 1, end: 6 }).unwrap().count, 5);

    assert_eq!(tree.query_dfs(0, Span { start: 0, end: 6 }).unwrap().count, 6);
}

#[test]
fn six_unit_buckets_answer_the_three_ranges() {
    let (_, tree) = tree_data();

    let a = tree.query_dfs(0, Span { start: 1, end: 6 }).unwrap();
    assert_eq!((a.sum, a.count, a.max, a.min), (15, 5, 5, 1));
    assert_eq!(a.span, Span { start: 1, end: 6 });

    let b = tree.query_dfs(0, Span { start: 1, end: 3 }).unwrap();
    assert_eq!((b.sum, b.count, b.max, b.min), (3, 2, 2, 1));
    assert_eq!(b.span, Span { start: 1, end: 3 });

    let c = tree.query_dfs(0, Span { start: 0, end: 6 }).unwrap();
    assert_eq!((c.sum, c.count, c.max, c.min), (15, 6, 5, 0));
    assert_eq!(c.span, Span { start: 0, end: 6 });

    assert_eq!(tree.query_bfs(Span { start: 1, end: 6 }), Some(a));
    assert_eq!(tree.query_bfs(Span { start: 1, end: 3 }), Some(b));
    assert_eq!(tree.query_bfs(Span { start: 0, end: 6 }), Some(c));
}
