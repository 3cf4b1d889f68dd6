//! Calculation tools in a 2-dimensional vector space.
//!
//! Provides the orientation test and the plane-sweep driver.

use crate::eventpoint::EventPoint;
use crate::eventpoint::EventType;
use crate::linesegment2d::LineSegment2D;
use crate::linesegment2d::seg_isect;
use crate::point2d::COORD_LIMIT;
use crate::point2d::Point2D;
use crate::point2d::in_range;
use crate::point2d::point_le;
use crate::point2d::point_lt;
use crate::eventpoint::event_lt;
use crate::ratio::lemma_mul_bound;
use crate::sweepline::SweepLine;
use crate::sweepline::new_isect_event;
use crate::sweepline::lemma_queue_tail_membership;
use crate::sweepline::event_mentions;
use crate::sweepline::point_sound;
use crate::sweepline::lemma_state_seg_nonvertical;
use crate::sweepline::state_has_seg;
use vstd::prelude::*;

verus! {

/// Twice the signed area of the triangle `p`, `q`, `r`.
///
/// Zero means the three points are colinear; a positive value means `r`
/// lies counter-clockwise of the directed line from `p` to `q`, a negative
/// value clockwise.
pub open spec fn ccw_spec(p: Point2D, q: Point2D, r: Point2D) -> int {
    (p.x * q.y - p.y * q.x) + (q.x * r.y - q.y * r.x) + (p.y * r.x - p.x * r.y)
}

/// Returns the counter-clockwise value for three points.
///
/// This function returns zero if the point `r` is on the line stretched by
/// the points `p` and `q`.  It returns a value smaller than zero if the
/// point `r` follows in a clockwise direction, and one bigger than zero if
/// the point `r` follows in a counter-clockwise direction.
pub fn ccw(p: &Point2D, q: &Point2D, r: &Point2D) -> (c: i128)
    requires
        in_range(*p),
        in_range(*q),
        in_range(*r),
    ensures
        c == ccw_spec(*p, *q, *r),
        -8_000_000_000_000_000_000_000_000 <= c <= 8_000_000_000_000_000_000_000_000,
{
    proof {
        lemma_mul_bound(p.x as int, q.y as int, COORD_LIMIT as int, COORD_LIMIT as int);
        lemma_mul_bound(p.y as int, q.x as int, COORD_LIMIT as int, COORD_LIMIT as int);
        lemma_mul_bound(q.x as int, r.y as int, COORD_LIMIT as int, COORD_LIMIT as int);
        lemma_mul_bound(q.y as int, r.x as int, COORD_LIMIT as int, COORD_LIMIT as int);
        lemma_mul_bound(p.y as int, r.x as int, COORD_LIMIT as int, COORD_LIMIT as int);
        lemma_mul_bound(p.x as int, r.y as int, COORD_LIMIT as int, COORD_LIMIT as int);
    }
    ((p.x as i128) * (q.y as i128) - (p.y as i128) * (q.x as i128)) + ((q.x as i128) * (r.y as i128)
        - (q.y as i128) * (r.x as i128)) + ((p.y as i128) * (r.x as i128) - (p.x as i128) * (r.y
        as i128))
}

/// Decides the sign condition `d1 * d2 <= 0` without forming the product.
pub fn opposite_signs(d1: i128, d2: i128) -> (r: bool)
    ensures
        r == (d1 * d2 <= 0),
{
    proof {
        assert(((d1 <= 0 && d2 >= 0) || (d1 >= 0 && d2 <= 0)) == (d1 * d2 <= 0))
            by (nonlinear_arith);
    }
    (d1 <= 0 && d2 >= 0) || (d1 >= 0 && d2 <= 0)
}

/// The sequence of points is sorted in the lexicographic order.
pub open spec fn points_sorted(s: Seq<Point2D>) -> bool {
    forall|i: int, j: int| 0 <= i < j < s.len() ==> point_le(#[trigger] s[i], #[trigger] s[j])
}

/// The point is the reported intersection of some pair of the given
/// segments, both of them non-vertical, as the sweep only works on those.
pub open spec fn reported_isect(segs: Seq<LineSegment2D>, p: Point2D) -> bool {
    exists|a: LineSegment2D, b: LineSegment2D|
        segs.contains(a) && segs.contains(b) && a.line.a != 0 && b.line.a != 0
            && #[trigger] seg_isect(a, b) == Some(p)
}

/// Inserts a point at a position that keeps the sequence sorted.
fn insert_point_sorted(v: &mut Vec<Point2D>, p: Point2D)
    requires
        points_sorted(old(v)@),
    ensures
        points_sorted(final(v)@),
        final(v)@.to_multiset() == old(v)@.to_multiset().insert(p),
{
    broadcast use vstd::seq_lib::group_to_multiset_ensures;

    let ghost q0 = v@;
    let mut idx: usize = 0;
    loop
        invariant
            v@ == q0,
            points_sorted(q0),
            0 <= idx <= q0.len(),
            forall|j: int| 0 <= j < idx ==> point_lt(#[trigger] q0[j], p),
        ensures
            v@ == q0,
            0 <= idx <= q0.len(),
            forall|j: int| 0 <= j < idx ==> point_lt(#[trigger] q0[j], p),
            idx < q0.len() ==> !point_lt(q0[idx as int], p),
        decreases q0.len() - idx,
    {
        if idx >= v.len() {
            break;
        }
        if !v[idx].precedes(&p) {
            break;
        }
        idx += 1;
    }
    v.insert(idx, p);
    proof {
        let q1 = v@;
        assert(q1 == q0.insert(idx as int, p));
        assert forall|i: int, j: int| 0 <= i < j < q1.len() implies point_le(
            #[trigger] q1[i],
            #[trigger] q1[j],
        ) by {
            if j == idx {
                assert(q1[i] == q0[i]);
            } else if i == idx {
                assert(q1[j] == q0[j - 1]);
            } else if i < idx && j < idx {
            } else if i < idx {
                assert(q1[i] == q0[i] && q1[j] == q0[j - 1]);
            } else {
                assert(q1[i] == q0[i - 1] && q1[j] == q0[j - 1]);
            }
        }
        assert(q1.to_multiset() =~= q0.to_multiset().insert(p));
    }
}

/// Sorts a vector of points in the lexicographic order, keeping the
/// multiset of points.
pub fn sort_points(v: &mut Vec<Point2D>)
    ensures
        points_sorted(final(v)@),
        final(v)@.to_multiset() == old(v)@.to_multiset(),
{
    broadcast use vstd::seq_lib::group_to_multiset_ensures;

    let ghost q0 = v@;
    let mut out: Vec<Point2D> = Vec::new();
    let mut i: usize = 0;
    while i < v.len()
        invariant
            v@ == q0,
            0 <= i <= q0.len(),
            points_sorted(out@),
            out@.to_multiset() == q0.subrange(0, i as int).to_multiset(),
        decreases q0.len() - i,
    {
        let ghost pre = out@;
        insert_point_sorted(&mut out, v[i]);
        proof {
            assert(q0.subrange(0, i + 1 as int) =~= q0.subrange(0, i as int).push(q0[i as int]));
            vstd::seq_lib::to_multiset_build(q0.subrange(0, i as int), q0[i as int]);
        }
        i += 1;
    }
    proof {
        assert(q0.subrange(0, q0.len() as int) =~= q0);
    }
    *v = out;
}

/// The event belongs to the sweep over the given input: it is well
/// formed and its segments are drawn from the input.
pub open spec fn event_of_input(segs: Seq<LineSegment2D>, ev: EventPoint) -> bool {
    &&& ev.wf()
    &&& segs.contains(ev.first_line)
    &&& ev.second_line is Some ==> segs.contains(ev.second_line->0)
}

/// A position of the segment in the input sequence.
pub open spec fn seg_index(segs: Seq<LineSegment2D>, s: LineSegment2D) -> int {
    choose|i: int| 0 <= i < segs.len() && segs[i] == s
}

/// A number below `n * n + 2 * n` (with `n` the number of input segments)
/// that determines a well-formed event over the input: endpoint events
/// are numbered by their segment, intersection events by their ordered
/// pair of segments.
pub open spec fn event_code(segs: Seq<LineSegment2D>, ev: EventPoint) -> int {
    let n = segs.len() as int;
    match ev.event_type {
        EventType::IsLeftEndpoint => seg_index(segs, ev.first_line),
        EventType::IsRightEndpoint => n + seg_index(segs, ev.first_line),
        EventType::IsIntersection => 2 * n + seg_index(segs, ev.first_line) * n + seg_index(
            segs,
            ev.second_line->0,
        ),
    }
}

/// The code of an event of the input lies below `n * n + 2 * n`.
proof fn lemma_event_code_bounds(segs: Seq<LineSegment2D>, ev: EventPoint)
    requires
        event_of_input(segs, ev),
    ensures
        0 <= event_code(segs, ev) < segs.len() * segs.len() + 2 * segs.len(),
{
    let n = segs.len() as int;
    let i = seg_index(segs, ev.first_line);
    assert(0 <= i < n);
    if ev.event_type == EventType::IsIntersection {
        let j = seg_index(segs, ev.second_line->0);
        assert(0 <= j < n);
        assert(0 <= i * n + j < n * n) by (nonlinear_arith)
            requires
                0 <= i < n,
                0 <= j < n,
        ;
    }
}

/// The code determines the event: two events of the input with the same
/// code are the same event.
proof fn lemma_event_code_injective(segs: Seq<LineSegment2D>, ev1: EventPoint, ev2: EventPoint)
    requires
        event_of_input(segs, ev1),
        event_of_input(segs, ev2),
        event_code(segs, ev1) == event_code(segs, ev2),
    ensures
        ev1 == ev2,
{
    let n = segs.len() as int;
    let i1 = seg_index(segs, ev1.first_line);
    let i2 = seg_index(segs, ev2.first_line);
    assert(0 <= i1 < n && segs[i1] == ev1.first_line);
    assert(0 <= i2 < n && segs[i2] == ev2.first_line);
    lemma_event_code_bounds(segs, ev1);
    lemma_event_code_bounds(segs, ev2);
    if ev1.event_type == EventType::IsIntersection {
        let j1 = seg_index(segs, ev1.second_line->0);
        assert(0 <= j1 < n && segs[j1] == ev1.second_line->0);
        assert(0 <= i1 * n + j1 < n * n) by (nonlinear_arith)
            requires
                0 <= i1 < n,
                0 <= j1 < n,
        ;
    }
    if ev2.event_type == EventType::IsIntersection {
        let j2 = seg_index(segs, ev2.second_line->0);
        assert(0 <= j2 < n && segs[j2] == ev2.second_line->0);
        assert(0 <= i2 * n + j2 < n * n) by (nonlinear_arith)
            requires
                0 <= i2 < n,
                0 <= j2 < n,
        ;
    }
    assert(ev1.event_type == ev2.event_type);
    if ev1.event_type == EventType::IsIntersection {
        let j1 = seg_index(segs, ev1.second_line->0);
        let j2 = seg_index(segs, ev2.second_line->0);
        assert(i1 == i2 && j1 == j2) by (nonlinear_arith)
            requires
                0 <= i1 < n,
                0 <= j1 < n,
                0 <= i2 < n,
                0 <= j2 < n,
                2 * n + i1 * n + j1 == 2 * n + i2 * n + j2,
        ;
        assert(ev1.second_line == ev2.second_line);
        assert(seg_isect(ev1.first_line, ev1.second_line->0) == Some(ev1.point));
        assert(seg_isect(ev2.first_line, ev2.second_line->0) == Some(ev2.point));
        assert(ev1.point == ev2.point);
    }
}

/// A finite set of events of the input whose codes lie below `bound` has
/// at most `bound` elements.
proof fn lemma_coded_len(s: Set<EventPoint>, segs: Seq<LineSegment2D>, bound: int)
    requires
        s.finite(),
        0 <= bound,
        forall|ev: EventPoint|
            s.contains(ev) ==> event_of_input(segs, ev) && #[trigger] event_code(segs, ev)
                < bound,
    ensures
        s.len() <= bound,
    decreases bound,
{
    broadcast use vstd::set::group_set_axioms;

    if s.len() == 0 {
    } else {
        let picked = s.choose();
        assert(s.contains(picked));
        assert(event_code(segs, picked) < bound);
        lemma_event_code_bounds(segs, picked);
        assert(bound > 0);
        let top = Set::new(
            |ev: EventPoint| s.contains(ev) && event_code(segs, ev) == bound - 1,
        );
        let rest = Set::new(
            |ev: EventPoint| s.contains(ev) && event_code(segs, ev) < bound - 1,
        );
        assert(s =~= top.union(rest));
        vstd::set_lib::lemma_len_subset(top, s);
        vstd::set_lib::lemma_len_subset(rest, s);
        if top.len() > 0 {
            let t = top.choose();
            assert(top.contains(t));
            assert forall|ev: EventPoint| top.contains(ev) implies Set::empty().insert(
                t,
            ).contains(ev) by {
                lemma_event_code_injective(segs, ev, t);
            }
            vstd::set_lib::lemma_len_subset(top, Set::empty().insert(t));
            assert(Set::<EventPoint>::empty().insert(t).len() == 1);
        }
        lemma_coded_len(rest, segs, bound - 1);
        vstd::set_lib::lemma_len_union(top, rest);
    }
}

/// Calculates the intersection points of a set of line segments with the
/// plane-sweep algorithm.
///
/// Vertical input segments are excluded before the sweep begins.  The
/// result is sorted lexicographically and holds one entry per crossing
/// pair found, duplicates included; every reported point is the rounded
/// intersection of two of the input segments.
///
/// The contract states exactly that much: the order of the output, the
/// soundness of every reported point, and (through the loop below) that
/// the sweep runs until its event queue is drained.  The converse -- that
/// each crossing pair is discovered -- rests on the neighbor bookkeeping
/// of the sweep: a pair is found when its segments become adjacent in the
/// y-structure before their crossing, which the per-event contracts of
/// [`SweepLine::process_next_event`] describe but this contract does not
/// aggregate.  One boundary is inherent in the design: a crossing first
/// seen exactly at the sweep position, such as a pair touching at the
/// left endpoint of the later segment, is never enqueued, since only
/// intersections strictly right of the sweep line become events.  What
/// each step does discover is stated there: a segment entering the
/// structure is tested against both entries beside it, and a removal
/// tests the pair left straddling the vacated position.
pub fn bently_ottmann(segments: &Vec<LineSegment2D>) -> (pts: Vec<Point2D>)
    requires
        forall|i: int| 0 <= i < segments@.len() ==> (#[trigger] segments@[i]).wf(),
    ensures
        points_sorted(pts@),
        forall|k: int|
            0 <= k < pts@.len() ==> reported_isect(segments@, #[trigger] pts@[k]),
{
    broadcast use vstd::seq_lib::group_to_multiset_ensures;

    let mut sl = SweepLine::new();
    let mut i: usize = 0;
    while i < segments.len()
        invariant
            forall|j: int| 0 <= j < segments@.len() ==> (#[trigger] segments@[j]).wf(),
            0 <= i <= segments@.len(),
            sl.wf(),
            sl.intersection_points@.len() == 0,
            forall|s: LineSegment2D|
                #[trigger] state_has_seg(sl, s) ==> segments@.contains(s),
            forall|j: int|
                0 <= j < sl.event_queue@.len() ==> event_of_input(
                    segments@,
                    #[trigger] sl.event_queue@[j],
                ),
        decreases segments@.len() - i,
    {
        let seg = segments[i];
        if !seg.line.is_vertical() {
            let ghost pre = sl;
            let ev1 = EventPoint {
                point: seg.p1,
                event_type: EventType::IsLeftEndpoint,
                first_line: seg,
                second_line: None,
            };
            let ev2 = EventPoint {
                point: seg.p2,
                event_type: EventType::IsRightEndpoint,
                first_line: seg,
                second_line: None,
            };
            proof {
                assert(seg == segments@[i as int]);
                assert(segments@.contains(seg));
                assert(ev1.wf());
                assert(ev2.wf());
            }
            sl.insert_event(ev1);
            sl.insert_event(ev2);
            proof {
                assert forall|s: LineSegment2D| #[trigger] state_has_seg(sl, s) implies
                    segments@.contains(s) by {
                    if event_mentions(ev1, s) || event_mentions(ev2, s) {
                        assert(s == seg);
                    }
                }
                assert forall|j: int| 0 <= j < sl.event_queue@.len() implies event_of_input(
                    segments@,
                    #[trigger] sl.event_queue@[j],
                ) by {
                    if pre.event_queue@.contains(sl.event_queue@[j]) {
                        let j0 = choose|j0: int|
                            0 <= j0 < pre.event_queue@.len() && pre.event_queue@[j0]
                                == sl.event_queue@[j];
                    }
                }
            }
        }
        i += 1;
    }
    // The loop terminates because every processed event is new, and only
    // two endpoint events per segment and one intersection event per
    // ordered pair of segments exist.
    let ghost mut popped: Set<EventPoint> = Set::empty();
    loop
        invariant
            sl.wf(),
            forall|s: LineSegment2D|
                #[trigger] state_has_seg(sl, s) ==> segments@.contains(s),
            forall|k: int|
                0 <= k < sl.intersection_points@.len() ==> reported_isect(
                    segments@,
                    #[trigger] sl.intersection_points@[k],
                ),
            popped.finite(),
            forall|ev: EventPoint|
                #[trigger] popped.contains(ev) ==> event_of_input(segments@, ev),
            forall|j: int|
                0 <= j < sl.event_queue@.len() ==> event_of_input(
                    segments@,
                    #[trigger] sl.event_queue@[j],
                ),
            forall|j: int|
                0 <= j < sl.event_queue@.len() ==> !popped.contains(
                    #[trigger] sl.event_queue@[j],
                ),
            forall|ev: EventPoint, j: int|
                #[trigger] popped.contains(ev) && 0 <= j < sl.event_queue@.len()
                    ==> ev.point.x <= (#[trigger] sl.event_queue@[j]).point.x,
        ensures
            sl.event_queue@.len() == 0,
        decreases segments@.len() * segments@.len() + 2 * segments@.len() - popped.len(),
    {
        broadcast use vstd::set::group_set_axioms;
        broadcast use vstd::seq_lib::seq_to_set_is_finite;

        if sl.event_queue.len() == 0 {
            break;
        }
        let ghost pre = sl;
        sl.process_next_event();
        proof {
            assert forall|k: int|
                0 <= k < sl.intersection_points@.len() implies reported_isect(
                segments@,
                #[trigger] sl.intersection_points@[k],
            ) by {
                if k < pre.intersection_points@.len() {
                    assert(sl.intersection_points@[k] == pre.intersection_points@[k]);
                } else {
                    assert(point_sound(pre, sl.intersection_points@[k]));
                    let (a, b) = choose|a: LineSegment2D, b: LineSegment2D|
                        state_has_seg(pre, a) && state_has_seg(pre, b) && #[trigger] seg_isect(
                            a,
                            b,
                        ) == Some(sl.intersection_points@[k]);
                    assert(segments@.contains(a) && segments@.contains(b));
                    lemma_state_seg_nonvertical(pre, a);
                    lemma_state_seg_nonvertical(pre, b);
                }
            }
            let h = pre.event_queue@[0];
            let preset = pre.event_queue@.to_set();
            let newset = sl.event_queue@.to_set();
            let removed = preset.difference(newset);
            assert(preset.finite());
            vstd::set_lib::lemma_len_subset(removed, preset);
            let popped2 = popped.union(removed);
            // Every removed event is the head, or a drained intersection
            // event at the head's point; either way its x is the head's.
            assert forall|ev: EventPoint| removed.contains(ev) implies pre.event_queue@.contains(
                ev,
            ) && ev.point.x == h.point.x by {
                assert(pre.event_queue@.contains(ev));
                if ev != h {
                    crate::sweepline::lemma_queue_tail_membership(pre.event_queue@, ev);
                    assert(pre.event_queue@.drop_first().contains(ev));
                    assert(!sl.event_queue@.contains(ev));
                    assert(ev.point == h.point);
                }
            }
            // The head is consumed and was never processed before, so the
            // processed set grows.
            assert(pre.event_queue@.contains(h));
            assert(preset.contains(h));
            assert(!newset.contains(h));
            assert(removed.contains(h));
            assert(!popped.contains(h));
            assert(popped.insert(h).subset_of(popped2));
            vstd::set_lib::lemma_len_subset(popped.insert(h), popped2);
            assert(popped2.len() >= popped.len() + 1);
            assert forall|ev: EventPoint| #[trigger] popped2.contains(ev) implies event_of_input(
                segments@,
                ev,
            ) by {
                if removed.contains(ev) {
                    let j0 = choose|j0: int|
                        0 <= j0 < pre.event_queue@.len() && pre.event_queue@[j0] == ev;
                }
            }
            // Every event of the new queue is of the input and unprocessed.
            assert forall|j: int| 0 <= j < sl.event_queue@.len() implies event_of_input(
                segments@,
                #[trigger] sl.event_queue@[j],
            ) && !popped2.contains(sl.event_queue@[j]) by {
                let ev = sl.event_queue@[j];
                assert(sl.event_queue@.contains(ev));
                if pre.event_queue@.drop_first().contains(ev) {
                    let j0 = choose|j0: int|
                        0 <= j0 < pre.event_queue@.drop_first().len()
                            && pre.event_queue@.drop_first()[j0] == ev;
                    assert(pre.event_queue@[j0 + 1] == ev);
                    assert(event_of_input(segments@, ev));
                    assert(!popped.contains(ev));
                    assert(newset.contains(ev));
                    assert(!removed.contains(ev));
                } else {
                    assert(new_isect_event(ev, h.point.x as int));
                    assert(ev.wf());
                    assert(event_mentions(ev, ev.first_line));
                    assert(state_has_seg(sl, ev.first_line));
                    assert(event_mentions(ev, ev.second_line->0));
                    assert(state_has_seg(sl, ev.second_line->0));
                    assert(event_of_input(segments@, ev));
                    if popped.contains(ev) {
                        assert(ev.point.x <= pre.event_queue@[0].point.x);
                        assert(false);
                    }
                    if removed.contains(ev) {
                        assert(ev.point.x == h.point.x);
                        assert(false);
                    }
                }
            }
            // The sweep position never retreats: everything processed sits
            // left of everything pending.
            assert forall|ev: EventPoint, j: int|
                #[trigger] popped2.contains(ev) && 0 <= j < sl.event_queue@.len() implies
                ev.point.x <= (#[trigger] sl.event_queue@[j]).point.x by {
                let qev = sl.event_queue@[j];
                assert(sl.event_queue@.contains(qev));
                assert(ev.point.x <= h.point.x) by {
                    if popped.contains(ev) {
                        assert(ev.point.x <= pre.event_queue@[0].point.x);
                    }
                }
                if pre.event_queue@.drop_first().contains(qev) {
                    let j0 = choose|j0: int|
                        0 <= j0 < pre.event_queue@.drop_first().len()
                            && pre.event_queue@.drop_first()[j0] == qev;
                    assert(pre.event_queue@[j0 + 1] == qev);
                    assert(event_lt(h, qev));
                    assert(h.point.x <= qev.point.x);
                } else {
                    assert(new_isect_event(qev, h.point.x as int));
                }
            }
            popped = popped2;
            assert forall|ev: EventPoint| popped.contains(ev) implies event_of_input(
                segments@,
                ev,
            ) && #[trigger] event_code(segments@, ev) < segments@.len() * segments@.len() + 2
                * segments@.len() by {
                lemma_event_code_bounds(segments@, ev);
            }
            lemma_coded_len(
                popped,
                segments@,
                segments@.len() * segments@.len() + 2 * segments@.len() as int,
            );
        }
    }
    let mut pts = sl.intersection_points;
    let ghost unsorted = pts@;
    sort_points(&mut pts);
    proof {
        assert forall|k: int| 0 <= k < pts@.len() implies reported_isect(
            segments@,
            #[trigger] pts@[k],
        ) by {
            assert(pts@.to_multiset().contains(pts@[k]));
            assert(unsorted.to_multiset().contains(pts@[k]));
            assert(unsorted.contains(pts@[k]));
            let j = choose|j: int| 0 <= j < unsorted.len() && unsorted[j] == pts@[k];
            assert(reported_isect(segments@, unsorted[j]));
        }
    }
    pts
}

} // verus!
