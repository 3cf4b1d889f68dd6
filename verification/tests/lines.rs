use cg_library::line::Line;
use cg_library::line::LineRelation;
use cg_library::line::LineVec;
use cg_library::line::max;
use cg_library::line::min;
use cg_library::point::Point;

fn line(x1: i64, y1: i64, x2: i64, y2: i64) -> Line {
    Line {
        start: Point { x: x1, y: y1 },
        end: Point { x: x2, y: y2 },
    }
}

#[test]
fn test_min_max() {
    assert_eq!(7, max(&3, &7));
    assert_eq!(3, min(&3, &7));
    assert_eq!(-3, max(&-3, &-7));
    assert_eq!(-7, min(&-3, &-7));
}

#[test]
fn test_intersecting() {
    let l1 = line(0, 0, 2, 2);
    let l2 = line(0, 2, 2, 0);
    assert!(matches!(l1.intersect(&l2), LineRelation::Intersecting));
    assert!(matches!(l2.intersect(&l1), LineRelation::Intersecting));
}

#[test]
fn test_non_intersecting() {
    let l1 = line(0, 0, 1, 1);
    let l2 = line(3, 0, 4, 1);
    assert!(matches!(l1.intersect(&l2), LineRelation::NonIntersecting));
}

#[test]
fn test_colinear_overlap() {
    let l1 = line(0, 0, 4, 4);
    let l2 = line(2, 2, 6, 6);
    assert!(matches!(l1.intersect(&l2), LineRelation::ColinearOverlap));
}

#[test]
fn test_colinear_non_overlap() {
    let l1 = line(0, 0, 1, 1);
    let l2 = line(3, 3, 4, 4);
    assert!(matches!(l1.intersect(&l2), LineRelation::ColinearNonOverlap));
}

#[test]
fn test_degenerate_segment() {
    // A single-point segment lying on the other segment counts as a
    // colinear overlap.
    let l1 = line(1, 1, 1, 1);
    let l2 = line(0, 0, 2, 2);
    assert!(matches!(l1.intersect(&l2), LineRelation::ColinearOverlap));
}

#[test]
fn test_linevec_new() {
    let v = LineVec::new(3);
    assert_eq!(3, v.rows);
    assert_eq!(3, v.data.len());
    assert_eq!(0, v.data[2].start.x);
    assert_eq!(0, v.data[2].end.y);
}
