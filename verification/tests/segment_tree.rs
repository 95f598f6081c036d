use bsp_tree::segment::split_segment;
use bsp_tree::{BspNode, Line};

type Point = [f64; 2];

fn side(line: &Line<Point>, p: Point) -> f64 {
    let dx = line.b[0] - line.a[0];
    let dy = line.b[1] - line.a[1];
    (p[0] - line.a[0]) * dy - (p[1] - line.a[1]) * dx
}

fn split_by(line: &Line<Point>, divider: &Line<Point>) -> (Option<Line<Point>>, Option<Line<Point>>) {
    let d_a = side(divider, line.a);
    let d_b = side(divider, line.b);
    let t = d_a / (d_a - d_b);
    let mid = [
        line.a[0] + t * (line.b[0] - line.a[0]),
        line.a[1] + t * (line.b[1] - line.a[1]),
    ];
    split_segment(line, d_a >= 0.0, d_b >= 0.0, mid)
}

fn collect(tree: &BspNode<Point>, viewer: Point) -> Vec<Line<Point>> {
    let in_front: Vec<bool> = tree.splitters().iter().map(|s| side(s, viewer) >= 0.0).collect();
    let mut out = Vec::new();
    tree.collect_front_to_back(&in_front, &mut out);
    out
}

fn ends(lines: &[Line<Point>]) -> Vec<(Point, Point)> {
    lines.iter().map(|l| (l.a, l.b)).collect()
}

#[test]
fn test_split_segment_cases() {
    let l = Line::new([0, 0], [4, 0]);
    let (f, b) = split_segment(&l, true, true, [9, 9]);
    assert_eq!((f.map(|x| (x.a, x.b)), b.map(|x| (x.a, x.b))), (Some(([0, 0], [4, 0])), None));
    let (f, b) = split_segment(&l, false, false, [9, 9]);
    assert_eq!((f.map(|x| (x.a, x.b)), b.map(|x| (x.a, x.b))), (None, Some(([0, 0], [4, 0]))));
    let (f, b) = split_segment(&l, true, false, [2, 0]);
    assert_eq!(
        (f.map(|x| (x.a, x.b)), b.map(|x| (x.a, x.b))),
        (Some(([0, 0], [2, 0])), Some(([2, 0], [4, 0])))
    );
    let (f, b) = split_segment(&l, false, true, [2, 0]);
    assert_eq!(
        (f.map(|x| (x.a, x.b)), b.map(|x| (x.a, x.b))),
        (Some(([2, 0], [4, 0])), Some(([0, 0], [2, 0])))
    );
}

#[test]
fn test_split_by_crossing_line() {
    // The divider is the x axis; its front is below it.
    let divider = Line::new([0.0, 0.0], [10.0, 0.0]);
    let vertical = Line::new([5.0, -5.0], [5.0, 5.0]);
    let (f, b) = split_by(&vertical, &divider);
    assert_eq!(f.map(|x| (x.a, x.b)), Some(([5.0, -5.0], [5.0, 0.0])));
    assert_eq!(b.map(|x| (x.a, x.b)), Some(([5.0, 0.0], [5.0, 5.0])));
}

#[test]
fn test_segment_tree_parallel_lines() {
    let lines = vec![Line::new([0.0, 0.0], [10.0, 0.0]), Line::new([0.0, 3.0], [10.0, 3.0])];
    let tree = BspNode::new(lines, &split_by);
    assert_eq!(tree.node_count(), 3);
    let below = collect(&tree, [0.0, -10.0]);
    assert_eq!(ends(&below), vec![([0.0, 0.0], [10.0, 0.0]), ([0.0, 3.0], [10.0, 3.0])]);
    let above = collect(&tree, [0.0, 10.0]);
    assert_eq!(ends(&above), vec![([0.0, 3.0], [10.0, 3.0]), ([0.0, 0.0], [10.0, 0.0])]);
}

#[test]
fn test_segment_tree_empty_and_single() {
    let empty: BspNode<Point> = BspNode::new(vec![], &split_by);
    assert_eq!(empty.node_count(), 1);
    assert!(collect(&empty, [0.0, 0.0]).is_empty());
    let one = BspNode::new(vec![Line::new([0.0, 0.0], [1.0, 0.0])], &split_by);
    assert_eq!(one.node_count(), 1);
    assert_eq!(collect(&one, [0.0, 5.0]).len(), 1);
}

#[test]
fn test_segment_tree_stacked_lines() {
    // Each line lies behind the previous ones (their front is below them).
    let lines = vec![
        Line::new([0.0, 0.0], [10.0, 0.0]),
        Line::new([0.0, 3.0], [10.0, 3.0]),
        Line::new([0.0, 6.0], [10.0, 6.0]),
    ];
    let tree = BspNode::new(lines, &split_by);
    assert_eq!(tree.node_count(), 5);
    assert_eq!(tree.splitters().len(), 2);
    match &tree {
        BspNode::Branch { splitter, front, .. } => {
            assert_eq!((splitter.a, splitter.b), ([0.0, 0.0], [10.0, 0.0]));
            match &**front {
                BspNode::Leaf { lines } => assert_eq!(ends(lines), vec![([0.0, 0.0], [10.0, 0.0])]),
                _ => panic!("expected a leaf"),
            }
        }
        _ => panic!("expected a branch"),
    }
    let below = collect(&tree, [5.0, -1.0]);
    assert_eq!(
        ends(&below),
        vec![([0.0, 0.0], [10.0, 0.0]), ([0.0, 3.0], [10.0, 3.0]), ([0.0, 6.0], [10.0, 6.0])]
    );
    let between = collect(&tree, [5.0, 4.0]);
    assert_eq!(
        ends(&between),
        vec![([0.0, 6.0], [10.0, 6.0]), ([0.0, 3.0], [10.0, 3.0]), ([0.0, 0.0], [10.0, 0.0])]
    );
    let mut out = vec![Line::new([1.0, 1.0], [2.0, 2.0])];
    tree.collect_front_to_back(&vec![true, true], &mut out);
    assert_eq!(out.len(), 4);
    assert_eq!((out[0].a, out[0].b), ([1.0, 1.0], [2.0, 2.0]));
}

#[test]
fn test_simple_bsp() {
    let lines = vec![
        Line::new([0.0, 0.0], [10.0, 0.0]),
        Line::new([5.0, -5.0], [5.0, 5.0]),
        Line::new([0.0, 3.0], [10.0, 3.0]),
    ];
    let tree = BspNode::new(lines, &split_by);
    assert!(tree.node_count() >= 1);

    let mut ordered = Vec::new();
    let in_front: Vec<bool> = tree.splitters().iter().map(|s| side(s, [0.0, -10.0]) >= 0.0).collect();
    tree.collect_front_to_back(&in_front, &mut ordered);
    assert!(!ordered.is_empty());
}

#[test]
fn test_crossing_lines_are_cut_and_kept() {
    let lines = vec![
        Line::new([0.0, 0.0], [10.0, 0.0]),
        Line::new([5.0, -5.0], [5.0, 5.0]),
        Line::new([0.0, 3.0], [10.0, 3.0]),
    ];
    let tree = BspNode::new(lines, &split_by);
    assert_eq!(tree.node_count(), 9);
    let seen = collect(&tree, [0.0, -10.0]);
    assert_eq!(
        ends(&seen),
        vec![
            ([0.0, 0.0], [5.0, 0.0]),
            ([5.0, 0.0], [10.0, 0.0]),
            ([5.0, -5.0], [5.0, 0.0]),
            ([0.0, 3.0], [5.0, 3.0]),
            ([5.0, 0.0], [5.0, 3.0]),
            ([5.0, 3.0], [10.0, 3.0]),
            ([5.0, 3.0], [5.0, 5.0]),
        ]
    );
    let copy = tree.clone();
    assert_eq!(copy.node_count(), 9);
    assert_eq!(ends(&collect(&copy, [0.0, -10.0])), ends(&seen));
    assert!(Line::new([1.0, 2.0], [3.0, 4.0]) == Line::new([1.0, 2.0], [3.0, 4.0]));
}
