use cg_library::line2d::Line2D;
use cg_library::ratio::Ratio;
use cg_library::linesegment2d::LineSegment2D;
use cg_library::point2d::Point2D;
use cg_library::tools2d::ccw;

#[test]
fn test_vertical() {
    let l1 = Line2D::from_slope_and_point(1, 0, Point2D { x: 10, y: 0 });
    assert!(l1.is_vertical());
}

#[test]
fn line2d_test_from() {
    // A line of slope 1 through (1, 1): y == x.
    let l1 = Line2D::from_slope_and_point(1, 1, Point2D { x: 1, y: 1 });
    assert_eq!(l1.a, 1);
    assert_eq!(l1.b, 1);
    assert_eq!(l1.c, 0);
    // The line through (0, 2) and (2, 0): slope -1, intercept 2.
    let l2 = Line2D::from_point_and_point(Point2D { x: 0, y: 2 }, Point2D { x: 2, y: 0 });
    assert_eq!(l2.a, 2);
    assert_eq!(l2.b, -2);
    assert_eq!(l2.c, 4);
}

#[test]
fn test_intersection() {
    let l1 = Line2D::from_slope_and_point(1, 0, Point2D { x: 1, y: 0 });
    let l2 = Line2D::from_slope_and_point(1, 0, Point2D { x: 2, y: 0 });
    let l3 = Line2D::from_slope_and_point(4, 1, Point2D { x: 0, y: 1 });
    assert_eq!(None, l1.intersection(&l2));
    assert_eq!(Some(Point2D { x: 1, y: 5 }), l1.intersection(&l3));
    assert_eq!(Some(Point2D { x: 1, y: 5 }), l3.intersection(&l1));
}

#[test]
fn test_intersection_rounds_to_grid() {
    // y == x meets y == -x + 3 at (1.5, 1.5), which rounds half away from
    // zero to (2, 2).
    let l1 = Line2D::from_slope_and_point(1, 1, Point2D { x: 0, y: 0 });
    let l2 = Line2D::from_slope_and_point(-1, 1, Point2D { x: 0, y: 3 });
    assert_eq!(Some(Point2D { x: 2, y: 2 }), l1.intersection(&l2));
    assert_eq!(Some(Point2D { x: 2, y: 2 }), l2.intersection(&l1));
}

#[test]
fn test_line_contains_and_parallel() {
    let l1 = Line2D::from_point_and_point(Point2D { x: 0, y: 0 }, Point2D { x: 2, y: 2 });
    let l2 = Line2D::from_point_and_point(Point2D { x: 0, y: 1 }, Point2D { x: 2, y: 3 });
    assert!(l1.contains(&Point2D { x: 1, y: 1 }));
    assert!(!l1.contains(&Point2D { x: 1, y: 2 }));
    assert!(l1.is_parallel_to(&l2));
    assert!(l1.is_horizontal() == false);
}

#[test]
fn test_y_from_x() {
    // The line through (0,0) and (2,2) has height 5 at x == 5, as the
    // exact quotient 10/2; a vertical line hands back its own
    // x-coordinate.
    let l1 = Line2D::from_point_and_point(Point2D { x: 0, y: 0 }, Point2D { x: 2, y: 2 });
    assert_eq!(Ratio { num: 10, den: 2 }, l1.y_from_x(5));
    let l2 = Line2D::from_slope_and_point(1, 0, Point2D { x: 1, y: 0 });
    assert_eq!(Ratio { num: 1, den: 1 }, l2.y_from_x(7));
}

#[test]
fn test_ccw() {
    let p = Point2D { x: 0, y: 0 };
    let q = Point2D { x: 2, y: 2 };
    assert_eq!(4, ccw(&p, &q, &Point2D { x: 0, y: 2 }));
    assert_eq!(-4, ccw(&p, &q, &Point2D { x: 2, y: 0 }));
    assert_eq!(0, ccw(&p, &q, &Point2D { x: 1, y: 1 }));
}

#[test]
fn linesegment2d_test_new() {
    let s1 = LineSegment2D::new(Point2D { x: 0, y: 0 }, Point2D { x: 0, y: 1 });
    let s2 = LineSegment2D::new(Point2D { x: 0, y: 0 }, Point2D { x: 1, y: 0 });
    let s3 = LineSegment2D::new(Point2D { x: 1, y: 0 }, Point2D { x: 0, y: 0 });
    let s4 = LineSegment2D::new(Point2D { x: 0, y: 1 }, Point2D { x: 0, y: 0 });
    assert_eq!(Point2D { x: 0, y: 0 }, s1.p1);
    assert_eq!(Point2D { x: 0, y: 1 }, s1.p2);
    assert_eq!(Point2D { x: 0, y: 0 }, s2.p1);
    assert_eq!(Point2D { x: 1, y: 0 }, s2.p2);
    assert_eq!(Point2D { x: 0, y: 0 }, s3.p1);
    assert_eq!(Point2D { x: 1, y: 0 }, s3.p2);
    assert_eq!(Point2D { x: 0, y: 0 }, s4.p1);
    assert_eq!(Point2D { x: 0, y: 1 }, s4.p2);
}

#[test]
fn test_line() {
    // The vertical segment from (1, 0) to (1, 1) lies on the vertical
    // line through x == 1.
    let s1 = LineSegment2D::new(Point2D { x: 1, y: 0 }, Point2D { x: 1, y: 1 });
    assert!(s1.line.is_vertical());
    assert_eq!(s1.line.a, 0);
    assert_eq!(s1.line.b, 1);
    assert_eq!(s1.line.c, -1);
}

#[test]
fn test_equals() {
    let s1 = LineSegment2D::new(Point2D { x: 1, y: 0 }, Point2D { x: 1, y: 1 });
    let s2 = LineSegment2D::new(Point2D { x: 1, y: 0 }, Point2D { x: 1, y: 1 });
    assert!(s1 == s2);
}

#[test]
fn test_center() {
    let s1 = LineSegment2D::new(Point2D { x: 0, y: 0 }, Point2D { x: 2, y: 2 });
    assert_eq!(Point2D { x: 1, y: 1 }, s1.center());
}

#[test]
fn test_contains() {
    let s1 = LineSegment2D::new(Point2D { x: 0, y: 0 }, Point2D { x: 2, y: 2 });
    let p1 = Point2D { x: 1, y: 1 };
    let p2 = Point2D { x: 2, y: 1 };
    assert_eq!(true, s1.contains(&p1));
    assert_eq!(false, s1.contains(&p2));
}

#[test]
fn test_intersections() {
    // s1 and s2 are colinear and they share one endpoint (2,2)
    let s1 = LineSegment2D::new(Point2D { x: 0, y: 0 }, Point2D { x: 2, y: 2 });
    let s2 = LineSegment2D::new(Point2D { x: 3, y: 3 }, Point2D { x: 2, y: 2 });
    assert_eq!(Some(Point2D { x: 2, y: 2 }), s1.intersects(&s2));

    // s1 and s2 share one endpoint (0,0)
    let s1 = LineSegment2D::new(Point2D { x: 0, y: 0 }, Point2D { x: 2, y: 2 });
    let s2 = LineSegment2D::new(Point2D { x: 0, y: 0 }, Point2D { x: 2, y: -2 });
    assert_eq!(Some(Point2D { x: 0, y: 0 }), s1.intersects(&s2));

    // s1 and s2 are colinear and don't overlap
    let s1 = LineSegment2D::new(Point2D { x: 0, y: 0 }, Point2D { x: 4, y: 4 });
    let s2 = LineSegment2D::new(Point2D { x: 6, y: 6 }, Point2D { x: 5, y: 5 });
    assert_eq!(None, s1.intersects(&s2));

    // s1 and s2 are colinear and overlap
    let s1 = LineSegment2D::new(Point2D { x: 0, y: 0 }, Point2D { x: 4, y: 4 });
    let s2 = LineSegment2D::new(Point2D { x: 6, y: 6 }, Point2D { x: 3, y: 3 });
    assert_eq!(None, s1.intersects(&s2));

    // s1 and s2 share no point
    let s1 = LineSegment2D::new(Point2D { x: 0, y: 0 }, Point2D { x: 2, y: 2 });
    let s2 = LineSegment2D::new(Point2D { x: -2, y: 1 }, Point2D { x: 1, y: -2 });
    assert_eq!(None, s1.intersects(&s2));

    // s1 and s2 share one point at (1,1)
    let s1 = LineSegment2D::new(Point2D { x: 0, y: 0 }, Point2D { x: 2, y: 2 });
    let s2 = LineSegment2D::new(Point2D { x: 0, y: 2 }, Point2D { x: 2, y: 0 });
    assert_eq!(Some(Point2D { x: 1, y: 1 }), s1.intersects(&s2));

    // s1 and s2 are equal
    let s1 = LineSegment2D::new(Point2D { x: 0, y: 0 }, Point2D { x: 2, y: 2 });
    let s2 = LineSegment2D::new(Point2D { x: 0, y: 0 }, Point2D { x: 2, y: 2 });
    assert_eq!(None, s1.intersects(&s2));
}

#[test]
fn test_shared_endpoint_symmetric() {
    let s1 = LineSegment2D::new(Point2D { x: 0, y: 0 }, Point2D { x: 2, y: 2 });
    let s2 = LineSegment2D::new(Point2D { x: 2, y: 2 }, Point2D { x: 4, y: 0 });
    assert_eq!(Some(Point2D { x: 2, y: 2 }), s1.intersects(&s2));
    assert_eq!(Some(Point2D { x: 2, y: 2 }), s2.intersects(&s1));
}

#[test]
fn test_default() {
    let p1: Point2D = Point2D {
        ..Default::default()
    };
    let p2: Point2D = Point2D::new();
    assert_eq!(p1, Point2D { x: 0, y: 0 });
    assert_eq!(p2, Point2D { x: 0, y: 0 });
}

#[test]
fn point2d_test_order() {
    let p0: Point2D = Point2D { x: 0, y: 0 };
    let p1: Point2D = Point2D { x: 0, y: 1 };
    let p3: Point2D = Point2D { x: 1, y: 1 };
    let p4: Point2D = Point2D { x: 1, y: 0 };

    assert_eq!(true, p1 > p0);
    assert_eq!(true, p1 == p1);
    assert_eq!(true, p3 > p1);
    assert_eq!(true, p4 > p0);
}

#[test]
fn test_relation() {
    // Above of and Below of
    let p0: Point2D = Point2D { x: 0, y: 0 };
    let p1: Point2D = Point2D { x: 0, y: 1 };
    assert!(p0.is_below_of(&p1));
    assert!(p1.is_above_of(&p0));
    assert_eq!(false, p0.is_above_of(&p1));
    assert_eq!(false, p0.is_above_of(&p0));
    assert_eq!(false, p1.is_below_of(&p0));
    assert_eq!(false, p0.is_below_of(&p0));

    // Right of and Left of
    let p0: Point2D = Point2D { x: 0, y: 0 };
    let p1: Point2D = Point2D { x: 1, y: 0 };
    assert!(p0.is_left_of(&p1));
    assert!(p1.is_right_of(&p0));
    assert_eq!(false, p0.is_right_of(&p1));
    assert_eq!(false, p0.is_right_of(&p0));
    assert_eq!(false, p1.is_left_of(&p0));
    assert_eq!(false, p0.is_left_of(&p0));
}
