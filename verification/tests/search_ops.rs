use kd_tree_rs::point::{distance_squared, Point};
use kd_tree_rs::radius::Radius;
use kd_tree_rs::KdNode;

fn test_points() -> Vec<Point> {
    vec![
        Point { x: 1, y: 8 },
        Point { x: 2, y: 2 },
        Point { x: 3, y: 6 },
        Point { x: 4, y: 9 },
        Point { x: 7, y: 3 },
        Point { x: 8, y: 8 },
        Point { x: 9, y: 1 },
        Point { x: 9, y: 9 },
    ]
}

// Searching around (8, 8) with radius 1.5 finds exactly (8, 8) and (9, 9),
// nearest first; the boundary point (9, 9) lies at distance sqrt(2) < 1.5.
#[test]
fn test_nearest_neighbor_radius() {
    let node: KdNode = KdNode::build(test_points());

    let nearest = node.nearest_neighbor(Point { x: 8, y: 8 }, Radius { num: 3, den: 2 });
    assert_eq!(nearest, vec![Point { x: 8, y: 8 }, Point { x: 9, y: 9 }]);
}

// A large radius finds every point of the tree.
#[test]
fn test_nearest_neighbor_all() {
    let node: KdNode = KdNode::build(test_points());

    let nearest = node.nearest_neighbor(Point { x: 0, y: 0 }, Radius { num: 100, den: 1 });
    for point in test_points() {
        assert!(nearest.contains(&point));
    }
    assert_eq!(nearest.len(), 8);
}

// The result comes sorted by distance to the origin, ascending.
#[test]
fn test_nearest_neighbor_sorted() {
    let node: KdNode = KdNode::build(test_points());
    let origin = Point { x: 0, y: 0 };

    let nearest = node.nearest_neighbor(origin, Radius { num: 100, den: 1 });
    for w in nearest.windows(2) {
        assert!(distance_squared(&origin, &w[0]) <= distance_squared(&origin, &w[1]));
    }
}

// The radius is inclusive: a point at distance exactly 5 is found with
// radius 5.
#[test]
fn test_nearest_neighbor_boundary() {
    let mut node: KdNode = KdNode::new();
    node.insert(3, 4);

    let nearest = node.nearest_neighbor(Point { x: 0, y: 0 }, Radius { num: 5, den: 1 });
    assert_eq!(nearest, vec![Point { x: 3, y: 4 }]);

    let narrower = node.nearest_neighbor(Point { x: 0, y: 0 }, Radius { num: 49, den: 10 });
    assert_eq!(narrower, Vec::<Point>::new());
}

// A child on the origin's side of a node's splitting plane is searched even
// when the plane itself lies beyond the radius: inserting (4,4) then (3,4)
// puts (3,4) below (4,4); searching from (3,4) with radius 1 must find both
// the coincident point and its parent.
#[test]
fn test_nearest_neighbor_near_side() {
    let mut node: KdNode = KdNode::new();
    node.insert(4, 4);
    node.insert(3, 4);

    let nearest = node.nearest_neighbor(Point { x: 3, y: 4 }, Radius { num: 1, den: 1 });
    assert_eq!(nearest, vec![Point { x: 3, y: 4 }, Point { x: 4, y: 4 }]);
}

// A point exactly one radius beyond a splitting plane is still reached: the
// plane test is inclusive.
#[test]
fn test_nearest_neighbor_plane_boundary() {
    // Root (0,0) splits on X; (-5,-5) lands in its "right" subtree.
    let node: KdNode = KdNode::build(vec![
        Point { x: 0, y: 0 },
        Point { x: -5, y: 0 },
        Point { x: 5, y: 0 },
    ]);

    // The origin (-10, 0) lies 5 units from the plane through (-5, 0); the
    // point (-5, 0) sits exactly on the radius.
    let nearest = node.nearest_neighbor(Point { x: -10, y: 0 }, Radius { num: 5, den: 1 });
    assert_eq!(nearest, vec![Point { x: -5, y: 0 }]);
}

// Radius zero keeps only a coincident point.
#[test]
fn test_nearest_neighbor_zero_radius() {
    let mut node: KdNode = KdNode::new();
    node.insert(2, 2);

    let at_point = node.nearest_neighbor(Point { x: 2, y: 2 }, Radius { num: 0, den: 1 });
    assert_eq!(at_point, vec![Point { x: 2, y: 2 }]);

    let off_point = node.nearest_neighbor(Point { x: 2, y: 3 }, Radius { num: 0, den: 1 });
    assert_eq!(off_point, Vec::<Point>::new());

    // the same, deeper: a zero-radius query at a non-root point of a
    // bulk-built tree
    let built: KdNode = KdNode::build(vec![Point { x: 4, y: 4 }, Point { x: 3, y: 4 }]);
    let deep = built.nearest_neighbor(Point { x: 4, y: 4 }, Radius { num: 0, den: 1 });
    assert_eq!(deep, vec![Point { x: 4, y: 4 }]);
}

// An empty tree yields an empty result for any radius.
#[test]
fn test_nearest_neighbor_empty_tree() {
    let node: KdNode = KdNode::new();

    assert_eq!(
        node.nearest_neighbor(Point { x: 1, y: 1 }, Radius { num: 1, den: 1 }),
        Vec::<Point>::new()
    );
    assert_eq!(
        node.nearest_neighbor(Point { x: -5, y: 7 }, Radius { num: 1000, den: 3 }),
        Vec::<Point>::new()
    );
    assert_eq!(node.n_nearest_neighbor(Point { x: 0, y: 0 }, 4), Vec::<Point>::new());
}

// Two distinct nodes holding the same coordinates are both returned: the
// search tells nodes apart by their index, not by their point.
#[test]
fn test_nearest_neighbor_duplicate_points() {
    let mut node: KdNode = KdNode::new();
    node.insert(1, 1);
    node.insert(1, 1);

    let nearest = node.nearest_neighbor(Point { x: 1, y: 0 }, Radius { num: 2, den: 1 });
    assert_eq!(nearest, vec![Point { x: 1, y: 1 }, Point { x: 1, y: 1 }]);
}

// The count-bounded search returns exactly `max` points here, all from the
// tree, sorted by distance.
#[test]
fn test_n_nearest_neighbor() {
    let node: KdNode = KdNode::build(test_points());
    let origin = Point { x: 0, y: 0 };

    let nearest = node.n_nearest_neighbor(origin, 4);
    for point in nearest.clone() {
        assert!(test_points().contains(&point));
    }
    assert_eq!(nearest.len(), 4);
    for w in nearest.windows(2) {
        assert!(distance_squared(&origin, &w[0]) <= distance_squared(&origin, &w[1]));
    }
}

// With no radius bound nothing is pruned: a count bound as large as the
// tree returns every point, sorted by distance.
#[test]
fn test_n_nearest_neighbor_whole_tree() {
    let node: KdNode = KdNode::build(test_points());
    let origin = Point { x: 0, y: 0 };

    let nearest = node.n_nearest_neighbor(origin, 8);
    assert_eq!(nearest.len(), 8);
    for point in test_points() {
        assert!(nearest.contains(&point));
    }
    for w in nearest.windows(2) {
        assert!(distance_squared(&origin, &w[0]) <= distance_squared(&origin, &w[1]));
    }
}

// A bound of zero yields nothing; a bound beyond the tree size at most the
// whole tree.
#[test]
fn test_n_nearest_neighbor_bounds() {
    let node: KdNode = KdNode::build(test_points());
    let origin = Point { x: 5, y: 5 };

    assert_eq!(node.n_nearest_neighbor(origin, 0), Vec::<Point>::new());
    assert!(node.n_nearest_neighbor(origin, 100).len() <= 8);
    assert!(node.n_nearest_neighbor(origin, 1).len() == 1);
}

// A radius wide enough to span the whole coordinate plane is expressible:
// the farthest pair of points lies just under 6 074 000 999 units apart.
#[test]
fn test_nearest_neighbor_extreme_radius() {
    let node: KdNode = KdNode::build(vec![
        Point { x: i32::MIN, y: i32::MIN },
        Point { x: i32::MAX, y: i32::MAX },
    ]);
    let origin = Point { x: i32::MIN, y: i32::MIN };

    let all = node.nearest_neighbor(origin, Radius { num: 6_074_000_999, den: 1 });
    assert_eq!(all.len(), 2);

    let near = node.nearest_neighbor(origin, Radius { num: 6_074_000_998, den: 1 });
    assert_eq!(near, vec![Point { x: i32::MIN, y: i32::MIN }]);
}

// The coordinate-wise entry point behaves as `nearest_neighbor`.
#[test]
fn test_nearest_neighbor_x_y() {
    let mut node: KdNode = KdNode::new();
    node.insert(1, 1);
    node.insert(2, 2);

    assert_eq!(
        node.nearest_neighbor_x_y(1, 1, Radius { num: 1, den: 1 }),
        vec![Point { x: 1, y: 1 }]
    );
    assert_eq!(
        node.nearest_neighbor(Point { x: 1, y: 1 }, Radius { num: 1, den: 1 }),
        vec![Point { x: 1, y: 1 }]
    );
}
