use sourceafis::point::Point;
use std::collections::hash_map::DefaultHasher;
use std::collections::HashSet;
use std::hash::Hash;
use std::hash::Hasher;

#[test]
fn point_test_new() {
    let p = Point::new(2, 3);
    assert_eq!(2, p.x);
    assert_eq!(3, p.y);
}

#[test]
fn point_test_area() {
    assert_eq!(6, Point::new(2, 3).area());
}

#[test]
fn point_test_length_sq() {
    assert_eq!(5 * 5, Point::new(3, 4).length_sq());
    assert_eq!(5 * 5, Point::new(-3, -4).length_sq());
}

#[test]
fn point_test_contains() {
    let p = Point::new(3, 4);
    assert!(p.contains(Point::new(1, 1)));
    assert!(p.contains(Point::new(0, 0)));
    assert!(p.contains(Point::new(2, 3)));
    assert!(p.contains(Point::new(0, 3)));
    assert!(p.contains(Point::new(2, 0)));
    assert!(!p.contains(Point::new(-1, 1)));
    assert!(!p.contains(Point::new(1, -1)));
    assert!(!p.contains(Point::new(-2, -3)));
    assert!(!p.contains(Point::new(1, 4)));
    assert!(!p.contains(Point::new(3, 1)));
    assert!(!p.contains(Point::new(1, 7)));
    assert!(!p.contains(Point::new(5, 1)));
    assert!(!p.contains(Point::new(8, 9)));
}

#[test]
fn point_test_add() {
    assert_eq!(Point::new(6, 8), Point::new(2, 3).add(Point::new(4, 5)));
}

#[test]
fn point_test_sub() {
    assert_eq!(Point::new(2, 3), Point::new(6, 8).sub(Point::new(4, 5)));
}

#[test]
fn point_test_neg() {
    assert_eq!(Point::new(-2, -3), Point::new(2, 3).neg());
}

#[test]
fn point_test_eq() {
    assert!(Point::new(2, 3) == Point::new(2, 3));
    assert!(Point::new(2, 3) != Point::new(0, 3));
    assert!(Point::new(2, 3) != Point::new(2, 0));
}

fn calculate_hash(p: Point) -> u64 {
    let mut s = DefaultHasher::new();
    p.hash(&mut s);
    s.finish()
}

#[test]
fn point_test_hash() {
    assert_eq!(calculate_hash(Point::new(2, 3)), calculate_hash(Point::new(2, 3)));
    assert_ne!(calculate_hash(Point::new(2, 3)), calculate_hash(Point::new(-2, 3)));
    assert_ne!(calculate_hash(Point::new(2, 3)), calculate_hash(Point::new(2, -3)));
}

#[test]
fn point_test_edge_neighbors() {
    let mut s = HashSet::new();
    for n in Point::edge_neighbors() {
        s.insert(n);
        assert_eq!(1, n.length_sq());
    }
    assert_eq!(4, s.len());
}

#[test]
fn point_test_corner_neighbors() {
    let mut s = HashSet::new();
    for n in Point::corner_neighbors() {
        s.insert(n);
        assert!(n.length_sq() == 1 || n.length_sq() == 2);
    }
    assert_eq!(8, s.len());
}

#[test]
fn point_test_iter() {
    let mut l = Vec::new();
    let mut it = Point::new(2, 3).into_iter();
    while let Some(p) = it.next() {
        l.push(p);
    }
    assert_eq!(
        l,
        [
            Point::new(0, 0),
            Point::new(1, 0),
            Point::new(0, 1),
            Point::new(1, 1),
            Point::new(0, 2),
            Point::new(1, 2)
        ]
    );
    let mut it = Point::new(0, 3).into_iter();
    while let Some(_) = it.next() {
        panic!();
    }
    let mut it = Point::new(3, 0).into_iter();
    while let Some(_) = it.next() {
        panic!();
    }
    let mut it = Point::new(-1, 3).into_iter();
    while let Some(_) = it.next() {
        panic!();
    }
    let mut it = Point::new(3, -1).into_iter();
    while let Some(_) = it.next() {
        panic!();
    }
}

#[test]
fn point_test_line_to() {
    check_line_to(2, 3, 2, 3, &[2, 3]);
    check_line_to(2, 3, 1, 4, &[2, 3, 1, 4]);
    check_line_to(2, 3, -1, 3, &[2, 3, 1, 3, 0, 3, -1, 3]);
    check_line_to(-1, 2, 0, -1, &[-1, 2, -1, 1, 0, 0, 0, -1]);
    check_line_to(1, 1, 3, 7, &[1, 1, 1, 2, 2, 3, 2, 4, 2, 5, 3, 6, 3, 7]);
    check_line_to(1, 3, 6, 1, &[1, 3, 2, 3, 3, 2, 4, 2, 5, 1, 6, 1]);
}

fn check_line_to(x1: i32, y1: i32, x2: i32, y2: i32, p: &[i32]) {
    let mut l = Vec::new();
    for i in 0..p.len() / 2 {
        l.push(Point::new(p[2 * i], p[2 * i + 1]));
    }
    assert_eq!(l, Point::new(x1, y1).line_to(Point::new(x2, y2)));
}
