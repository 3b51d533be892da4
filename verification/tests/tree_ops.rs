use kd_tree_rs::dim::Dim;
use kd_tree_rs::point::Point;
use kd_tree_rs::KdNode;
use kd_tree_rs::KdNode::{Empty, Node};

fn test_points() -> Vec<Point> {
    vec![
        Point { x: 1, y: 8 },
        Point { x: 2, y: 2 },
        Point { x: 3, y: 6 },
        Point { x: 4, y: 9 },
        Point { x: 7, y: 3 },
        Point { x: 8, y: 8 },
        Point { x: 9, y: 1 },
        Point { x: 9, y: 9 },
    ]
}

#[test]
fn test_insert_empty() {
    let mut node: KdNode = KdNode::new();
    assert_eq!(node, Empty);

    // Tree root
    node.insert(1, 1);
    // Second level of the tree (routed on Y)
    node.insert_point(Point { x: 2, y: 2 });
    node.insert_point(Point { x: 2, y: -12 });
    assert_eq!(
        node,
        Node {
            id: 0,
            point: Point { x: 1, y: 1 },
            dim: Dim::X,
            right: Box::new(Node {
                id: 2,
                point: Point { x: 2, y: -12 },
                dim: Dim::Y,
                left: Box::new(Empty),
                right: Box::new(Empty)
            }),
            left: Box::new(Node {
                id: 1,
                point: Point { x: 2, y: 2 },
                dim: Dim::Y,
                left: Box::new(Empty),
                right: Box::new(Empty)
            })
        }
    );
}

#[test]
fn test_build() {
    let points: Vec<Point> = test_points();

    let node: KdNode = KdNode::build(points);

    assert_eq!(
        node,
        Node {
            id: 0,
            point: Point { x: 4, y: 9 },
            dim: Dim::X,
            right: Box::new(Node {
                id: 5,
                point: Point { x: 3, y: 6 },
                dim: Dim::Y,
                left: Box::new(Node {
                    id: 6,
                    point: Point { x: 1, y: 8 },
                    dim: Dim::X,
                    left: Box::new(Empty),
                    right: Box::new(Empty)
                }),
                right: Box::new(Node {
                    id: 7,
                    point: Point { x: 2, y: 2 },
                    dim: Dim::X,
                    left: Box::new(Empty),
                    right: Box::new(Empty)
                })
            }),
            left: Box::new(Node {
                id: 1,
                point: Point { x: 7, y: 3 },
                dim: Dim::Y,
                right: Box::new(Node {
                    id: 4,
                    point: Point { x: 9, y: 1 },
                    dim: Dim::X,
                    left: Box::new(KdNode::Empty),
                    right: Box::new(KdNode::Empty)
                }),
                left: Box::new(Node {
                    id: 2,
                    point: Point { x: 8, y: 8 },
                    dim: Dim::X,
                    right: Box::new(KdNode::Empty),
                    left: Box::new(Node {
                        id: 3,
                        point: Point { x: 9, y: 9 },
                        dim: Dim::Y,
                        left: Box::new(KdNode::Empty),
                        right: Box::new(KdNode::Empty)
                    })
                })
            })
        }
    )
}

#[test]
fn test_split_on_median() {
    let points: Vec<Point> = test_points();

    let (median, left, right): (Point, Vec<Point>, Vec<Point>) =
        KdNode::split_on_median(points, &Dim::X);

    assert_eq!(median, Point { x: 4, y: 9 });
    assert_eq!(
        right,
        vec![Point { x: 1, y: 8 }, Point { x: 2, y: 2 }, Point { x: 3, y: 6 }]
    );
    assert_eq!(
        left,
        vec![
            Point { x: 7, y: 3 },
            Point { x: 8, y: 8 },
            Point { x: 9, y: 1 },
            Point { x: 9, y: 9 },
        ]
    );

    let (median_left, left_left, right_left): (Point, Vec<Point>, Vec<Point>) =
        KdNode::split_on_median(right, &Dim::Y);
    assert_eq!(median_left, Point { x: 3, y: 6 });
    assert_eq!(left_left, vec![Point { x: 1, y: 8 }]);
    assert_eq!(right_left, vec![Point { x: 2, y: 2 }]);
}

#[test]
fn test_drill_down() {
    let node: KdNode = KdNode::build(test_points());

    match node.drill_down(Point { x: 0, y: 0 }).pop().unwrap() {
        Empty => {
            panic!()
        }
        Node { point, .. } => {
            assert_eq!(*point, Point { x: 2, y: 2 });
        }
    }
}

#[test]
fn test_node_count() {
    let node: KdNode = KdNode::build(test_points());
    assert_eq!(node.node_count(), 8);
    assert_eq!(KdNode::new().node_count(), 0);
}

/// Collect every point reachable in a tree.
fn collect_points(node: &KdNode, out: &mut Vec<Point>) {
    match node {
        Empty => {}
        Node { point, left, right, .. } => {
            out.push(*point);
            collect_points(left, out);
            collect_points(right, out);
        }
    }
}

fn sorted_pairs(points: &[Point]) -> Vec<(i32, i32)> {
    let mut v: Vec<(i32, i32)> = points.iter().map(|p| (p.x, p.y)).collect();
    v.sort();
    v
}

// The multiset of points in the built tree equals the input exactly, with a
// duplicate point kept twice.
#[test]
fn test_build_completeness() {
    let mut points = test_points();
    points.push(Point { x: 2, y: 2 });
    let node: KdNode = KdNode::build(points.clone());

    let mut found: Vec<Point> = Vec::new();
    collect_points(&node, &mut found);
    assert_eq!(sorted_pairs(&found), sorted_pairs(&points));
}

// The multiset of points after a run of insertions holds all of them.
#[test]
fn test_insert_completeness() {
    let points = test_points();
    let mut node: KdNode = KdNode::new();
    for p in points.iter() {
        node.insert_point(*p);
    }

    let mut found: Vec<Point> = Vec::new();
    collect_points(&node, &mut found);
    assert_eq!(sorted_pairs(&found), sorted_pairs(&points));
}

/// Check the ordering of a bulk-built tree: on each node's own axis, the
/// "right" subtree holds the smaller-or-equal points, the "left" subtree
/// the greater-or-equal ones.
fn check_build_partition(node: &KdNode) {
    match node {
        Empty => {}
        Node { point, dim, left, right, .. } => {
            let axis = |p: &Point| match dim {
                Dim::X => p.x,
                Dim::Y => p.y,
            };
            let mut right_points: Vec<Point> = Vec::new();
            collect_points(right, &mut right_points);
            for q in right_points.iter() {
                assert!(axis(q) <= axis(point));
            }
            let mut left_points: Vec<Point> = Vec::new();
            collect_points(left, &mut left_points);
            for q in left_points.iter() {
                assert!(axis(q) >= axis(point));
            }
            check_build_partition(left);
            check_build_partition(right);
        }
    }
}

#[test]
fn test_build_partition() {
    let node: KdNode = KdNode::build(test_points());
    check_build_partition(&node);
}
