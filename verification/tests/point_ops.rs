use std::cmp::Ordering;

use kd_tree_rs::dim::Dim;
use kd_tree_rs::point::{distance_squared, Point};

#[test]
fn test_cmp_points() {
    let p1 = Point { x: 1, y: 1 };
    let p2 = Point { x: 2, y: 2 };
    let p3 = Point { x: 1, y: 2 };
    let p4 = Point { x: 2, y: 1 };

    assert_eq!(p1.cmp(&p2, &Dim::X), Ordering::Less);
    assert_eq!(p1.cmp(&p2, &Dim::Y), Ordering::Less);
    assert_eq!(p1.cmp(&p3, &Dim::X), Ordering::Equal);
    assert_eq!(p1.cmp(&p3, &Dim::Y), Ordering::Less);
    assert_eq!(p1.cmp(&p4, &Dim::X), Ordering::Less);
    assert_eq!(p1.cmp(&p4, &Dim::Y), Ordering::Equal);
}

#[test]
fn test_cmp_greater() {
    let p1 = Point { x: 5, y: -3 };
    let p2 = Point { x: 2, y: 2 };

    assert_eq!(p1.cmp(&p2, &Dim::X), Ordering::Greater);
    assert_eq!(p1.cmp(&p2, &Dim::Y), Ordering::Less);
}

#[test]
fn test_distance_squared() {
    let p1 = Point { x: 1, y: 1 };
    let p2 = Point { x: 2, y: 2 };
    let p3 = Point { x: 1, y: 2 };
    let p4 = Point { x: 2, y: 1 };

    assert_eq!(distance_squared(&p1, &p2), 2);
    assert_eq!(distance_squared(&p1, &p3), 1);
    assert_eq!(distance_squared(&p1, &p4), 1);
}

#[test]
fn test_distance_squared_extremes() {
    let p1 = Point { x: i32::MIN, y: i32::MIN };
    let p2 = Point { x: i32::MAX, y: i32::MAX };

    let d: u128 = 4294967295;
    assert_eq!(distance_squared(&p1, &p2), 2 * d * d);
    assert_eq!(distance_squared(&p1, &p1), 0);
}

#[test]
fn test_from_depth() {
    assert_eq!(Dim::from_depth(0), Dim::X);
    assert_eq!(Dim::from_depth(1), Dim::Y);
    assert_eq!(Dim::from_depth(2), Dim::X);
    assert_eq!(Dim::from_depth(17), Dim::Y);
}
