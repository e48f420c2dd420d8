use sourceafis::int_point::IntPoint;
use sourceafis::point::Point;

#[test]
fn rect_enumeration_count_and_order() {
    let size = Point::new(3, 2);
    let pts = size.points();
    assert_eq!(6, pts.len());
    for p in pts.iter() {
        assert!(size.contains(*p));
    }
    for i in 1..pts.len() {
        assert!(pts[i - 1].before(pts[i]));
        assert!(pts[i - 1] != pts[i]);
    }
    assert_eq!(
        pts,
        vec![
            Point::new(0, 0),
            Point::new(1, 0),
            Point::new(2, 0),
            Point::new(0, 1),
            Point::new(1, 1),
            Point::new(2, 1)
        ]
    );
}

#[test]
fn rect_enumeration_degenerate_is_empty() {
    assert_eq!(0, Point::new(0, 5).points().len());
    assert_eq!(0, Point::new(5, 0).points().len());
    assert_eq!(0, Point::new(-2, 3).points().len());
    assert_eq!(0, Point::new(3, -2).points().len());
    assert_eq!(0, IntPoint::new(0, 0).points().len());
}

#[test]
fn rect_enumeration_is_restartable() {
    let size = IntPoint::new(2, 2);
    let first = size.points();
    let second = size.points();
    assert_eq!(first, second);
    let mut a = size.into_iter();
    assert_eq!(Some(IntPoint::new(0, 0)), a.next());
    let mut b = size.into_iter();
    assert_eq!(Some(IntPoint::new(0, 0)), b.next());
}

#[test]
fn line_length_and_endpoints() {
    let cases = [(-3, -7, 4, 5), (0, 0, 10, 3), (5, 5, -5, 9), (7, -2, 7, -2), (1, 2, 1, 9)];
    for (x1, y1, x2, y2) in cases {
        let from = IntPoint::new(x1, y1);
        let to = IntPoint::new(x2, y2);
        let line = from.line_to(to);
        let expected = ((x2 - x1).abs().max((y2 - y1).abs()) + 1) as usize;
        assert_eq!(expected, line.len());
        assert_eq!(from, line[0]);
        assert_eq!(to, line[line.len() - 1]);
    }
}

#[test]
fn line_degenerate_is_single_point() {
    let p = Point::new(0, 0);
    assert_eq!(vec![p], p.line_to(p));
    let q = Point::new(-5, 7);
    assert_eq!(vec![q], q.line_to(q));
}

#[test]
fn line_steps_are_continuous() {
    let from = IntPoint::new(-4, 9);
    let to = IntPoint::new(11, 2);
    let line = from.line_to(to);
    for i in 1..line.len() {
        assert_eq!(1, line[i].x - line[i - 1].x);
        assert!((line[i].y - line[i - 1].y).abs() <= 1);
    }
}

#[test]
fn ordering_sorts_row_major() {
    let mut pts = vec![Point::new(2, 3), Point::new(0, 3), Point::new(2, 0)];
    pts.sort();
    assert_eq!(vec![Point::new(2, 0), Point::new(0, 3), Point::new(2, 3)], pts);
    let mut ints = vec![IntPoint::new(2, 3), IntPoint::new(0, 3), IntPoint::new(2, 0)];
    ints.sort();
    assert_eq!(vec![IntPoint::new(2, 0), IntPoint::new(0, 3), IntPoint::new(2, 3)], ints);
}

#[test]
fn before_matches_row_major_order() {
    assert!(IntPoint::new(2, 0).before(IntPoint::new(0, 3)));
    assert!(IntPoint::new(0, 3).before(IntPoint::new(2, 3)));
    assert!(!IntPoint::new(2, 3).before(IntPoint::new(0, 3)));
    assert!(!IntPoint::new(2, 3).before(IntPoint::new(2, 3)));
}

#[test]
fn area_and_length_sq_formulas() {
    assert_eq!(-12, IntPoint::new(-3, 4).area());
    assert_eq!(0, IntPoint::new(0, 9).area());
    assert_eq!(2, IntPoint::new(1, -1).length_sq());
    assert_eq!(0, IntPoint::new(0, 0).length_sq());
}
