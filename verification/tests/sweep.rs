use cg_library::eventpoint::EventPoint;
use cg_library::eventpoint::EventType;
use cg_library::linesegment2d::LineSegment2D;
use cg_library::point2d::Point2D;
use cg_library::sweepline::SweepLine;
use cg_library::tools2d::bently_ottmann;

fn seg(x1: i64, y1: i64, x2: i64, y2: i64) -> LineSegment2D {
    LineSegment2D::new(Point2D { x: x1, y: y1 }, Point2D { x: x2, y: y2 })
}

/// All pairwise intersection points, sorted, as the sweep reports them.
fn brute_force(segments: &Vec<LineSegment2D>) -> Vec<Point2D> {
    let mut points: Vec<Point2D> = Vec::new();
    for i in 0..segments.len() {
        for j in (i + 1)..segments.len() {
            if segments[i].line.is_vertical() || segments[j].line.is_vertical() {
                continue;
            }
            if let Some(p) = segments[i].intersects(&segments[j]) {
                points.push(p);
            }
        }
    }
    points.sort();
    points
}

#[test]
fn eventpoint_test_order() {
    let p1: Point2D = Point2D { x: 0, y: 0 };
    let p2: Point2D = Point2D { x: 1, y: 1 };
    let s1: LineSegment2D = LineSegment2D::new(p1, p2);
    let e1: EventPoint = EventPoint {
        point: s1.p1,
        event_type: EventType::IsLeftEndpoint,
        first_line: s1,
        second_line: None,
    };
    let e2: EventPoint = EventPoint {
        point: s1.p2,
        event_type: EventType::IsRightEndpoint,
        first_line: s1,
        second_line: None,
    };
    assert_eq!(true, e2 > e1);
}

#[test]
fn test_btree() {
    let mut sl: SweepLine = SweepLine::new();

    let s1: LineSegment2D = seg(0, 2, 2, 0);
    let e1_1: EventPoint = EventPoint {
        point: s1.p1,
        event_type: EventType::IsLeftEndpoint,
        first_line: s1,
        second_line: None,
    };
    let e1_2: EventPoint = EventPoint {
        point: s1.p2,
        event_type: EventType::IsRightEndpoint,
        first_line: s1,
        second_line: None,
    };

    let s2: LineSegment2D = seg(0, 0, 2, 2);
    let e2_1: EventPoint = EventPoint {
        point: s2.p1,
        event_type: EventType::IsLeftEndpoint,
        first_line: s2,
        second_line: None,
    };
    let e2_2: EventPoint = EventPoint {
        point: s2.p2,
        event_type: EventType::IsRightEndpoint,
        first_line: s2,
        second_line: None,
    };

    let e12: EventPoint = EventPoint {
        point: Point2D { x: 1, y: 1 },
        event_type: EventType::IsIntersection,
        first_line: s1,
        second_line: Some(s2),
    };

    sl.insert_event(e1_1);
    sl.insert_event(e1_2);
    sl.insert_event(e2_1);
    sl.insert_event(e2_2);
    sl.insert_event(e12);

    assert_eq!(EventType::IsLeftEndpoint, sl.pop_first_event().event_type);
    assert_eq!(EventType::IsLeftEndpoint, sl.pop_first_event().event_type);
    assert_eq!(EventType::IsIntersection, sl.pop_first_event().event_type);
    assert_eq!(EventType::IsRightEndpoint, sl.pop_first_event().event_type);
    assert_eq!(EventType::IsRightEndpoint, sl.pop_first_event().event_type);
}

#[test]
fn test_queue_order_independent() {
    // Whatever order events are inserted in, the queue comes out the
    // same.
    let s1: LineSegment2D = seg(0, 2, 2, 0);
    let s2: LineSegment2D = seg(0, 0, 2, 2);
    let events = [
        EventPoint {
            point: s1.p1,
            event_type: EventType::IsLeftEndpoint,
            first_line: s1,
            second_line: None,
        },
        EventPoint {
            point: s1.p2,
            event_type: EventType::IsRightEndpoint,
            first_line: s1,
            second_line: None,
        },
        EventPoint {
            point: s2.p1,
            event_type: EventType::IsLeftEndpoint,
            first_line: s2,
            second_line: None,
        },
        EventPoint {
            point: s2.p2,
            event_type: EventType::IsRightEndpoint,
            first_line: s2,
            second_line: None,
        },
    ];
    let mut forward = SweepLine::new();
    for e in events.iter() {
        forward.insert_event(*e);
    }
    let mut backward = SweepLine::new();
    for e in events.iter().rev() {
        backward.insert_event(*e);
    }
    while forward.event_queue.len() > 0 {
        assert_eq!(forward.pop_first_event(), backward.pop_first_event());
    }
    assert_eq!(0, backward.event_queue.len());
}

#[test]
fn test_queue_dedup() {
    let mut sl: SweepLine = SweepLine::new();
    let s1: LineSegment2D = seg(0, 0, 2, 2);
    let e1: EventPoint = EventPoint {
        point: s1.p1,
        event_type: EventType::IsLeftEndpoint,
        first_line: s1,
        second_line: None,
    };
    sl.insert_event(e1);
    sl.insert_event(e1);
    assert_eq!(1, sl.event_queue.len());
}

#[test]
fn test_neighbors() {
    // The inputs of the original scenario, doubled onto the integer grid.
    let mut sl: SweepLine = SweepLine::new();

    let s1: LineSegment2D = seg(-2, 6, 6, -2);
    let s2: LineSegment2D = seg(0, 0, 4, 4);
    let s3: LineSegment2D = seg(-3, 8, 8, 10);
    let events = [
        EventPoint {
            point: s1.p1,
            event_type: EventType::IsLeftEndpoint,
            first_line: s1,
            second_line: None,
        },
        EventPoint {
            point: s1.p2,
            event_type: EventType::IsRightEndpoint,
            first_line: s1,
            second_line: None,
        },
        EventPoint {
            point: s2.p1,
            event_type: EventType::IsLeftEndpoint,
            first_line: s2,
            second_line: None,
        },
        EventPoint {
            point: s2.p2,
            event_type: EventType::IsRightEndpoint,
            first_line: s2,
            second_line: None,
        },
        EventPoint {
            point: Point2D { x: 2, y: 2 },
            event_type: EventType::IsIntersection,
            first_line: s1,
            second_line: Some(s2),
        },
        EventPoint {
            point: s3.p1,
            event_type: EventType::IsLeftEndpoint,
            first_line: s3,
            second_line: None,
        },
        EventPoint {
            point: s3.p2,
            event_type: EventType::IsRightEndpoint,
            first_line: s3,
            second_line: None,
        },
    ];
    for e in events.iter() {
        sl.insert_event(*e);
    }
    while sl.event_queue.len() > 0 {
        sl.process_next_event();
    }
}

#[test]
fn test_x_crossing() {
    // Two segments crossing in an X report exactly one point.
    let segments = vec![seg(0, 0, 2, 2), seg(0, 2, 2, 0)];
    let points = bently_ottmann(&segments);
    assert_eq!(vec![Point2D { x: 1, y: 1 }], points);
}

#[test]
fn test_three_through_one_point() {
    // Two diagonals and a horizontal all meet at (1, 1): one point per
    // crossing pair, as the brute-force count confirms.
    let segments = vec![seg(0, 0, 2, 2), seg(0, 2, 2, 0), seg(0, 1, 2, 1)];
    let points = bently_ottmann(&segments);
    let reference = brute_force(&segments);
    assert_eq!(3, reference.len());
    assert_eq!(3, points.len());
    assert_eq!(reference, points);
    for p in points.iter() {
        assert_eq!(Point2D { x: 1, y: 1 }, *p);
    }
}

#[test]
fn test_idempotent() {
    let segments = vec![
        seg(0, 0, 10, 10),
        seg(0, 10, 10, 0),
        seg(0, 4, 10, 4),
        seg(1, 0, 9, 16),
    ];
    let first = bently_ottmann(&segments);
    let second = bently_ottmann(&segments);
    assert_eq!(first, second);

    let permuted = vec![
        seg(1, 0, 9, 16),
        seg(0, 4, 10, 4),
        seg(0, 0, 10, 10),
        seg(0, 10, 10, 0),
    ];
    let third = bently_ottmann(&permuted);
    assert_eq!(first, third);
}

#[test]
fn test_matches_brute_force() {
    // Four segments with six distinct pairwise crossings.
    let segments = vec![
        seg(0, 0, 10, 10),
        seg(0, 10, 10, 0),
        seg(0, 4, 10, 4),
        seg(1, 0, 9, 16),
    ];
    let points = bently_ottmann(&segments);
    let reference = brute_force(&segments);
    assert_eq!(6, reference.len());
    assert_eq!(reference, points);
}

#[test]
fn test_vertical_segments_dropped() {
    // The vertical segment never enters the sweep, so only the two
    // diagonals report their crossing.
    let segments = vec![seg(0, 0, 2, 2), seg(0, 2, 2, 0), seg(1, -5, 1, 5)];
    let points = bently_ottmann(&segments);
    assert_eq!(vec![Point2D { x: 1, y: 1 }], points);
}

#[test]
fn test_empty_input() {
    let segments: Vec<LineSegment2D> = Vec::new();
    let points = bently_ottmann(&segments);
    assert_eq!(0, points.len());
}

#[test]
fn test_shared_endpoint_reported() {
    // The second segment ends on the first one at (2, 2); the touch is
    // discovered when the second segment enters the sweep and is reported.
    let segments = vec![seg(0, 0, 4, 4), seg(0, 4, 2, 2)];
    let points = bently_ottmann(&segments);
    assert_eq!(vec![Point2D { x: 2, y: 2 }], points);
}

#[test]
fn test_output_sorted() {
    let segments = vec![
        seg(0, 0, 10, 10),
        seg(0, 10, 10, 0),
        seg(0, 4, 10, 4),
        seg(1, 0, 9, 16),
    ];
    let points = bently_ottmann(&segments);
    for w in points.windows(2) {
        assert!(w[0] <= w[1]);
    }
}
