//! Events for the plane sweep's queue.
//!
//! An event records that the sweep line must stop at a point: the left or
//! right endpoint of a segment, or a discovered intersection of two
//! segments.  Events are ordered primarily by their point; ties are broken
//! by the event kind and then by the segments, so that distinct events at
//! the same point can coexist in the queue.

use crate::linesegment2d::LineSegment2D;
use crate::linesegment2d::seg_isect;
use crate::point2d::Point2D;
use crate::point2d::in_range;
use crate::point2d::lemma_point_order_total;
use crate::point2d::point_lt;
use vstd::prelude::*;

verus! {

/// An event in the plane sweep can have one of three types.
#[derive(Clone, Copy, Debug, PartialEq, Eq, Structural, PartialOrd)]
pub enum EventType {
    /// The point is the left endpoint of a segment.
    IsLeftEndpoint,
    /// The point is the right endpoint of a segment.
    IsRightEndpoint,
    /// The point is an intersection point of two segments.
    IsIntersection,
}

/// The position of an event kind in the tie-break order.
pub open spec fn kind_rank(k: EventType) -> int {
    match k {
        EventType::IsLeftEndpoint => 0,
        EventType::IsRightEndpoint => 1,
        EventType::IsIntersection => 2,
    }
}

/// An event handled by the event queue.
#[derive(Clone, Copy, Debug, PartialEq, Eq, Structural, PartialOrd)]
pub struct EventPoint {
    /// The point associated with the event.
    pub point: Point2D,
    /// The type of the event.
    pub event_type: EventType,
    /// The segment associated with the event.
    pub first_line: LineSegment2D,
    /// For an intersection event, the second segment crossing the first
    /// one at the event's point.
    pub second_line: Option<LineSegment2D>,
}

impl EventPoint {
    /// The event is internally consistent: its segment data is well
    /// formed and non-vertical, and its point is the one its kind
    /// promises.
    pub open spec fn wf(self) -> bool {
        &&& self.first_line.wf()
        &&& self.first_line.line.a != 0
        &&& in_range(self.point)
        &&& match self.event_type {
            EventType::IsLeftEndpoint => self.point == self.first_line.p1 && self.second_line
                is None,
            EventType::IsRightEndpoint => self.point == self.first_line.p2 && self.second_line
                is None,
            EventType::IsIntersection => {
                &&& self.second_line is Some
                &&& self.second_line->0.wf()
                &&& self.second_line->0.line.a != 0
                &&& seg_isect(self.first_line, self.second_line->0) == Some(self.point)
            },
        }
    }
}

/// Strict order on segments by their endpoint pair, lexicographically.
pub open spec fn seg_lt(a: LineSegment2D, b: LineSegment2D) -> bool {
    point_lt(a.p1, b.p1) || (a.p1 == b.p1 && point_lt(a.p2, b.p2))
}

/// Strict order on optional segments, with none first.
pub open spec fn opt_seg_lt(a: Option<LineSegment2D>, b: Option<LineSegment2D>) -> bool {
    match (a, b) {
        (Option::None, Option::Some(_)) => true,
        (Option::Some(x), Option::Some(y)) => seg_lt(x, y),
        _ => false,
    }
}

/// Strict total order on events: by point first, at a tie by kind, then by
/// the segments.
pub open spec fn event_lt(e1: EventPoint, e2: EventPoint) -> bool {
    ||| point_lt(e1.point, e2.point)
    ||| (e1.point == e2.point && (kind_rank(e1.event_type) < kind_rank(e2.event_type) || (
    e1.event_type == e2.event_type && (seg_lt(e1.first_line, e2.first_line) || (e1.first_line
        == e2.first_line && opt_seg_lt(e1.second_line, e2.second_line))))))
}

/// Two well-formed segments with the same endpoints are the same segment.
pub proof fn lemma_seg_order_total(a: LineSegment2D, b: LineSegment2D)
    requires
        a.wf(),
        b.wf(),
    ensures
        seg_lt(a, b) || seg_lt(b, a) || a == b,
        !(seg_lt(a, b) && seg_lt(b, a)),
{
    lemma_point_order_total(a.p1, b.p1);
    lemma_point_order_total(a.p2, b.p2);
}

/// The event order is total on well-formed events.
pub proof fn lemma_event_order_total(e1: EventPoint, e2: EventPoint)
    requires
        e1.wf(),
        e2.wf(),
    ensures
        event_lt(e1, e2) || event_lt(e2, e1) || e1 == e2,
        !(event_lt(e1, e2) && event_lt(e2, e1)),
{
    lemma_point_order_total(e1.point, e2.point);
    lemma_seg_order_total(e1.first_line, e2.first_line);
    if e1.second_line is Some && e2.second_line is Some {
        lemma_seg_order_total(e1.second_line->0, e2.second_line->0);
    }
}

/// The event order is transitive.
pub proof fn lemma_event_lt_trans(e1: EventPoint, e2: EventPoint, e3: EventPoint)
    requires
        event_lt(e1, e2),
        event_lt(e2, e3),
    ensures
        event_lt(e1, e3),
{
}

impl LineSegment2D {
    /// Compares two segments by their endpoint pair.
    pub fn precedes(&self, other: &LineSegment2D) -> (r: bool)
        ensures
            r == seg_lt(*self, *other),
    {
        self.p1.precedes(&other.p1) || (self.p1 == other.p1 && self.p2.precedes(&other.p2))
    }
}

/// Compares two events in the queue order.
pub fn event_lt_exec(e1: &EventPoint, e2: &EventPoint) -> (r: bool)
    ensures
        r == event_lt(*e1, *e2),
{
    if e1.point.precedes(&e2.point) {
        return true;
    }
    if e1.point != e2.point {
        return false;
    }
    let r1 = kind_rank_exec(e1.event_type);
    let r2 = kind_rank_exec(e2.event_type);
    if r1 < r2 {
        return true;
    }
    if r1 > r2 {
        return false;
    }
    if e1.first_line.precedes(&e2.first_line) {
        return true;
    }
    if e1.first_line != e2.first_line {
        return false;
    }
    match (&e1.second_line, &e2.second_line) {
        (Option::None, Option::Some(_)) => true,
        (Option::Some(x), Option::Some(y)) => x.precedes(y),
        _ => false,
    }
}

/// The position of an event kind in the tie-break order.
fn kind_rank_exec(k: EventType) -> (r: u8)
    ensures
        r == kind_rank(k),
{
    match k {
        EventType::IsLeftEndpoint => 0,
        EventType::IsRightEndpoint => 1,
        EventType::IsIntersection => 2,
    }
}

} // verus!
