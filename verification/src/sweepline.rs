//! The sweep state for the plane-sweep algorithm.
//!
//! A [`SweepLine`] owns the pending-event queue (the x-structure), the
//! ordered set of segments currently crossing the sweep line (the
//! y-structure), the sweep position, and the intersection points collected
//! so far.
//!
//! The y-structure keys each active segment by its exact height at the
//! current sweep position, held as a rational; at equal heights the
//! segments themselves break the tie, so that two segments meeting the
//! sweep line at the same height can both stay in the structure.

use crate::eventpoint::EventPoint;
use crate::eventpoint::EventType;
use crate::eventpoint::event_lt;
use crate::eventpoint::event_lt_exec;
use crate::eventpoint::lemma_event_lt_trans;
use crate::eventpoint::lemma_event_order_total;
use crate::eventpoint::lemma_seg_order_total;
use crate::eventpoint::seg_lt;
use crate::linesegment2d::LineSegment2D;
use crate::linesegment2d::lemma_seg_line;
use crate::linesegment2d::seg_isect;
use crate::point2d::COORD_LIMIT;
use crate::point2d::Point2D;
use crate::ratio::Ratio;
use crate::ratio::lemma_ratio_le_lt_trans;
use crate::ratio::lemma_ratio_lt_le_trans;
use crate::ratio::lemma_ratio_eq_trans;
use crate::ratio::lemma_ratio_lt_trans;
use crate::ratio::ratio_eq;
use crate::ratio::ratio_eq_exec;
use crate::ratio::ratio_lt;
use crate::ratio::ratio_lt_exec;
use vstd::prelude::*;

verus! {

/// One active segment of the y-structure, under its current key.
#[derive(Clone, Copy, Debug, PartialEq, Eq, Structural)]
pub struct StatusEntry {
    /// The exact height of the segment at the current sweep position.
    pub key: Ratio,
    /// The active segment itself.
    pub seg: LineSegment2D,
}

impl StatusEntry {
    /// The entry's key is comparable and its segment is a well-formed,
    /// non-vertical segment.
    pub open spec fn wf(self) -> bool {
        &&& self.key.bounded()
        &&& self.seg.wf()
        &&& self.seg.line.a != 0
    }
}

/// An entry used as a search position in the y-structure.
pub open spec fn probe_entry(key: Ratio, seg: LineSegment2D) -> StatusEntry {
    StatusEntry { key, seg }
}

/// Strict order on status entries: by key as rationals, at equal keys by
/// the segment.
pub open spec fn entry_lt(x: StatusEntry, y: StatusEntry) -> bool {
    ratio_lt(x.key, y.key) || (ratio_eq(x.key, y.key) && seg_lt(x.seg, y.seg))
}

/// The entries occupy the same position in the order: equal keys as
/// rationals and the same segment.
pub open spec fn entry_eq(x: StatusEntry, y: StatusEntry) -> bool {
    ratio_eq(x.key, y.key) && x.seg == y.seg
}

/// Every entry of the y-structure is well formed.
pub open spec fn status_wf(s: Seq<StatusEntry>) -> bool {
    forall|i: int| 0 <= i < s.len() ==> (#[trigger] s[i]).wf()
}

/// The y-structure is strictly sorted.
pub open spec fn status_sorted(s: Seq<StatusEntry>) -> bool {
    forall|i: int, j: int| 0 <= i < j < s.len() ==> entry_lt(#[trigger] s[i], #[trigger] s[j])
}

/// Every event of the queue is well formed.
pub open spec fn queue_wf(q: Seq<EventPoint>) -> bool {
    forall|i: int| 0 <= i < q.len() ==> (#[trigger] q[i]).wf()
}

/// The queue is strictly sorted in the event order, so every event occurs
/// at most once.
pub open spec fn queue_sorted(q: Seq<EventPoint>) -> bool {
    forall|i: int, j: int| 0 <= i < j < q.len() ==> event_lt(#[trigger] q[i], #[trigger] q[j])
}

/// The order on status entries is total: two entries compare, or they
/// occupy the same position.
pub proof fn lemma_entry_order_total(x: StatusEntry, y: StatusEntry)
    requires
        x.wf(),
        y.wf(),
    ensures
        entry_lt(x, y) || entry_lt(y, x) || entry_eq(x, y),
        !(entry_lt(x, y) && entry_lt(y, x)),
{
    lemma_seg_order_total(x.seg, y.seg);
}

/// The order on status entries is transitive.
pub proof fn lemma_entry_lt_trans(x: StatusEntry, y: StatusEntry, z: StatusEntry)
    requires
        x.key.den > 0,
        y.key.den > 0,
        z.key.den > 0,
        entry_lt(x, y),
        entry_lt(y, z),
    ensures
        entry_lt(x, z),
{
    if ratio_lt(x.key, y.key) && ratio_lt(y.key, z.key) {
        lemma_ratio_lt_trans(x.key, y.key, z.key);
    } else if ratio_lt(x.key, y.key) {
        lemma_ratio_lt_le_trans(x.key, y.key, z.key);
    } else if ratio_lt(y.key, z.key) {
        lemma_ratio_le_lt_trans(x.key, y.key, z.key);
    } else {
        lemma_ratio_eq_trans(x.key, y.key, z.key);
    }
}

/// The queue order is canonical: two strictly sorted queues of
/// well-formed events that hold the same events are identical, whatever
/// order the events were inserted in.
pub proof fn lemma_queue_canonical(q1: Seq<EventPoint>, q2: Seq<EventPoint>)
    requires
        queue_wf(q1),
        queue_sorted(q1),
        queue_wf(q2),
        queue_sorted(q2),
        forall|e: EventPoint| q1.contains(e) == #[trigger] q2.contains(e),
    ensures
        q1 == q2,
    decreases q1.len(),
{
    if q1.len() == 0 {
        if q2.len() > 0 {
            assert(q2.contains(q2[0]));
            assert(q1.contains(q2[0]));
            assert(false);
        }
        assert(q1 =~= q2);
    } else {
        assert(q1.contains(q1[0]));
        assert(q2.contains(q1[0]));
        if q2.len() == 0 {
            assert(false);
        }
        // Both heads are the least event of the same set, so they agree.
        assert(q2.contains(q2[0]));
        assert(q1.contains(q2[0]));
        let j = choose|j: int| 0 <= j < q2.len() && q2[j] == q1[0];
        let i = choose|i: int| 0 <= i < q1.len() && q1[i] == q2[0];
        if q1[0] != q2[0] {
            lemma_event_order_total(q1[0], q2[0]);
            if event_lt(q1[0], q2[0]) {
                assert(j > 0 ==> event_lt(q2[0], q2[j]));
                assert(false);
            } else {
                assert(i > 0 ==> event_lt(q1[0], q1[i]));
                assert(false);
            }
        }
        // The tails hold the same events: strict sortedness makes the
        // head the one copy of itself.
        let t1 = q1.drop_first();
        let t2 = q2.drop_first();
        assert forall|e: EventPoint| t1.contains(e) == #[trigger] t2.contains(e) by {
            lemma_queue_tail_membership(q1, e);
            lemma_queue_tail_membership(q2, e);
        }
        lemma_queue_canonical(t1, t2);
        assert forall|k: int| 0 <= k < q1.len() implies q1[k] == q2[k] by {
            if k > 0 {
                assert(t1[k - 1] == q1[k]);
                assert(t2[k - 1] == q2[k]);
            }
        }
        assert(q1 =~= q2);
    }
}

/// In a strictly sorted queue, the tail holds exactly the events other
/// than the head.
pub proof fn lemma_queue_tail_membership(q: Seq<EventPoint>, e: EventPoint)
    requires
        queue_wf(q),
        queue_sorted(q),
        q.len() > 0,
    ensures
        q.drop_first().contains(e) == (q.contains(e) && e != q[0]),
        queue_wf(q.drop_first()),
        queue_sorted(q.drop_first()),
{
    let t = q.drop_first();
    if t.contains(e) {
        let i = choose|i: int| 0 <= i < t.len() && t[i] == e;
        assert(q[i + 1] == e);
        assert(q.contains(e));
        assert(event_lt(q[0], q[i + 1]));
        lemma_event_order_total(q[0], e);
    }
    if q.contains(e) && e != q[0] {
        let i = choose|i: int| 0 <= i < q.len() && q[i] == e;
        assert(i > 0);
        assert(t[i - 1] == e);
        assert(t.contains(e));
    }
    assert forall|i: int, j: int| 0 <= i < j < t.len() implies event_lt(
        #[trigger] t[i],
        #[trigger] t[j],
    ) by {
        assert(t[i] == q[i + 1] && t[j] == q[j + 1]);
    }
    assert forall|i: int| 0 <= i < t.len() implies (#[trigger] t[i]).wf() by {
        assert(t[i] == q[i + 1]);
    }
}

/// Order-equal entries stand below exactly the same entries.
proof fn lemma_entry_eq_lt(a: StatusEntry, b: StatusEntry, c: StatusEntry)
    requires
        a.key.den > 0,
        b.key.den > 0,
        c.key.den > 0,
        entry_eq(a, b),
        entry_lt(a, c),
    ensures
        entry_lt(b, c),
{
    if ratio_lt(a.key, c.key) {
        lemma_ratio_le_lt_trans(b.key, a.key, c.key);
    } else {
        lemma_ratio_eq_trans(b.key, a.key, c.key);
    }
}

/// Order-equal entries stand above exactly the same entries.
proof fn lemma_entry_lt_eq(a: StatusEntry, b: StatusEntry, c: StatusEntry)
    requires
        a.key.den > 0,
        b.key.den > 0,
        c.key.den > 0,
        entry_lt(a, b),
        entry_eq(b, c),
    ensures
        entry_lt(a, c),
{
    if ratio_lt(a.key, b.key) {
        lemma_ratio_lt_le_trans(a.key, b.key, c.key);
    } else {
        lemma_ratio_eq_trans(a.key, b.key, c.key);
    }
}

/// In a sorted y-structure, the first entry above an occupied position is
/// the entry right after it.
proof fn lemma_next_is_upper_adjacent(s: Seq<StatusEntry>, probe: StatusEntry, m: int, i: int)
    requires
        status_wf(s),
        status_sorted(s),
        probe.key.den > 0,
        0 <= m < s.len(),
        entry_eq(s[m], probe),
        0 <= i < s.len(),
        entry_lt(probe, s[i]),
        forall|j: int| 0 <= j < i ==> !entry_lt(probe, #[trigger] s[j]),
    ensures
        i == m + 1,
{
    if i < m {
        lemma_entry_lt_trans(probe, s[i], s[m]);
        lemma_entry_lt_eq(probe, s[m], probe);
        assert(false);
    }
    if i == m {
        lemma_entry_lt_eq(probe, s[m], probe);
        assert(false);
    }
    if i > m + 1 {
        assert(entry_lt(s[m], s[m + 1]));
        lemma_entry_eq_lt(s[m], probe, s[m + 1]);
        assert(false);
    }
}

/// In a sorted y-structure, an occupied position that has no entry above
/// it is the last one.
proof fn lemma_no_upper_is_last(s: Seq<StatusEntry>, probe: StatusEntry, m: int)
    requires
        status_wf(s),
        status_sorted(s),
        probe.key.den > 0,
        0 <= m < s.len(),
        entry_eq(s[m], probe),
        forall|j: int| 0 <= j < s.len() ==> !entry_lt(probe, #[trigger] s[j]),
    ensures
        m == s.len() - 1,
{
    if m + 1 < s.len() {
        assert(entry_lt(s[m], s[m + 1]));
        lemma_entry_eq_lt(s[m], probe, s[m + 1]);
        assert(false);
    }
}

/// In a sorted y-structure, the last entry below an occupied position is
/// the entry right before it.
proof fn lemma_prev_is_lower_adjacent(s: Seq<StatusEntry>, probe: StatusEntry, m: int, i: int)
    requires
        status_wf(s),
        status_sorted(s),
        probe.key.den > 0,
        0 <= m < s.len(),
        entry_eq(s[m], probe),
        0 <= i < s.len(),
        entry_lt(s[i], probe),
        forall|j: int| i < j < s.len() ==> !entry_lt(#[trigger] s[j], probe),
    ensures
        i == m - 1,
{
    if i > m {
        lemma_entry_lt_trans(s[m], s[i], probe);
        lemma_entry_eq_lt(s[m], probe, probe);
        assert(false);
    }
    if i == m {
        lemma_entry_eq_lt(s[m], probe, probe);
        assert(false);
    }
    if i < m - 1 {
        assert(entry_lt(s[m - 1], s[m]));
        lemma_entry_lt_eq(s[m - 1], s[m], probe);
        assert(false);
    }
}

/// In a sorted y-structure, an occupied position that has no entry below
/// it is the first one.
proof fn lemma_no_lower_is_first(s: Seq<StatusEntry>, probe: StatusEntry, m: int)
    requires
        status_wf(s),
        status_sorted(s),
        probe.key.den > 0,
        0 <= m < s.len(),
        entry_eq(s[m], probe),
        forall|j: int| 0 <= j < s.len() ==> !entry_lt(#[trigger] s[j], probe),
    ensures
        m == 0,
{
    if m > 0 {
        assert(entry_lt(s[m - 1], s[m]));
        lemma_entry_lt_eq(s[m - 1], s[m], probe);
        assert(false);
    }
}

/// After removing the probed position from a sorted y-structure, a pair
/// of surviving entries that straddles the probed position at consecutive
/// positions consists exactly of the old neighbors below and above that
/// position.
proof fn lemma_straddle_pair(
    pre: Seq<StatusEntry>,
    post: Seq<StatusEntry>,
    probe: StatusEntry,
    i: int,
    sa: LineSegment2D,
    i_n: int,
    sb: LineSegment2D,
    i_p: int,
)
    requires
        status_wf(pre),
        status_sorted(pre),
        status_wf(post),
        status_sorted(post),
        probe.key.den > 0,
        forall|k: int| 0 <= k < post.len() ==> pre.contains(#[trigger] post[k]),
        forall|k: int| 0 <= k < post.len() ==> !entry_eq(#[trigger] post[k], probe),
        forall|j: int|
            0 <= j < pre.len() && !entry_eq(pre[j], probe) ==> post.contains(#[trigger] pre[j]),
        0 <= i_p < pre.len(),
        pre[i_p].seg == sb,
        entry_lt(pre[i_p], probe),
        forall|j: int| i_p < j < pre.len() ==> !entry_lt(#[trigger] pre[j], probe),
        0 <= i_n < pre.len(),
        pre[i_n].seg == sa,
        entry_lt(probe, pre[i_n]),
        forall|j: int| 0 <= j < i_n ==> !entry_lt(probe, #[trigger] pre[j]),
        0 <= i < post.len() - 1,
        entry_lt(post[i], probe),
        entry_lt(probe, post[i + 1]),
    ensures
        post[i].seg == sb,
        post[i + 1].seg == sa,
{
    let lo = post[i];
    let hi = post[i + 1];
    assert(pre.contains(lo) && pre.contains(hi));
    let q = choose|q: int| 0 <= q < pre.len() && pre[q] == lo;
    let q2 = choose|q2: int| 0 <= q2 < pre.len() && pre[q2] == hi;
    assert(q <= i_p) by {
        if q > i_p {
            assert(!entry_lt(pre[q], probe));
        }
    }
    assert(q2 >= i_n) by {
        if q2 < i_n {
            assert(!entry_lt(probe, pre[q2]));
        }
    }
    if q < i_p {
        assert(entry_lt(lo, pre[i_p]));
    }
    assert(lo == pre[i_p] || entry_lt(lo, pre[i_p]));
    if lo != pre[i_p] {
        // The old lower neighbor would survive between two consecutive
        // surviving positions.
        assert(entry_lt(pre[i_p], hi)) by {
            lemma_entry_lt_trans(pre[i_p], probe, hi);
        }
        assert(!entry_eq(pre[i_p], probe)) by {
            if entry_eq(pre[i_p], probe) {
                lemma_entry_eq_lt(pre[i_p], probe, probe);
                assert(false);
            }
        }
        assert(post.contains(pre[i_p]));
        let k_w = choose|k_w: int| 0 <= k_w < post.len() && post[k_w] == pre[i_p];
        assert(k_w <= i) by {
            if k_w > i + 1 {
                assert(entry_lt(hi, post[k_w]));
            }
            if k_w == i + 1 {
                assert(false);
            }
        }
        assert(entry_lt(post[k_w], lo) || k_w == i);
        assert(false);
    }
    if q2 > i_n {
        assert(entry_lt(pre[i_n], hi));
    }
    assert(hi == pre[i_n] || entry_lt(pre[i_n], hi));
    if hi != pre[i_n] {
        assert(entry_lt(lo, pre[i_n])) by {
            lemma_entry_lt_trans(lo, probe, pre[i_n]);
        }
        assert(!entry_eq(pre[i_n], probe)) by {
            if entry_eq(pre[i_n], probe) {
                lemma_entry_lt_eq(probe, pre[i_n], probe);
                assert(false);
            }
        }
        assert(post.contains(pre[i_n]));
        let k_w = choose|k_w: int| 0 <= k_w < post.len() && post[k_w] == pre[i_n];
        assert(k_w >= i + 1) by {
            if k_w < i {
                assert(entry_lt(post[k_w], lo));
            }
            if k_w == i {
                assert(false);
            }
        }
        assert(entry_lt(hi, post[k_w]) || k_w == i + 1);
        assert(false);
    }
}

/// After the removal, every surviving pair straddling the removed
/// position is the tested neighbor pair, so its strictly-right crossing
/// is pending.
proof fn lemma_gap_pair_tested(
    pre: Seq<StatusEntry>,
    post: Seq<StatusEntry>,
    queue: Seq<EventPoint>,
    seg: LineSegment2D,
    x: int,
    key_e: Ratio,
    seg_a: Option<LineSegment2D>,
    seg_b: Option<LineSegment2D>,
)
    requires
        status_wf(pre),
        status_sorted(pre),
        status_wf(post),
        status_sorted(post),
        key_e.den > 0,
        key_e == seg_key_at(seg, 4 * x),
        forall|k: int| 0 <= k < post.len() ==> pre.contains(#[trigger] post[k]),
        forall|k: int|
            0 <= k < post.len() ==> !entry_eq(#[trigger] post[k], probe_entry(key_e, seg)),
        forall|j: int|
            0 <= j < pre.len() && !entry_eq(pre[j], probe_entry(key_e, seg)) ==> post.contains(
                #[trigger] pre[j],
            ),
        seg_a is None ==> forall|j: int|
            0 <= j < pre.len() ==> !entry_lt(probe_entry(key_e, seg), #[trigger] pre[j]),
        seg_a is Some ==> exists|i: int|
            0 <= i < pre.len() && (#[trigger] pre[i]).seg == seg_a->0 && entry_lt(
                probe_entry(key_e, seg),
                pre[i],
            ) && (forall|j: int|
                0 <= j < i ==> !entry_lt(probe_entry(key_e, seg), #[trigger] pre[j])),
        seg_b is None ==> forall|j: int|
            0 <= j < pre.len() ==> !entry_lt(#[trigger] pre[j], probe_entry(key_e, seg)),
        seg_b is Some ==> exists|i: int|
            0 <= i < pre.len() && (#[trigger] pre[i]).seg == seg_b->0 && entry_lt(
                pre[i],
                probe_entry(key_e, seg),
            ) && (forall|j: int|
                i < j < pre.len() ==> !entry_lt(#[trigger] pre[j], probe_entry(key_e, seg))),
        seg_a is Some && seg_b is Some ==> forall|p: Point2D|
            seg_isect(seg_a->0, seg_b->0) == Some(p) && p.x > x ==> queue.contains(
                (EventPoint {
                    point: p,
                    event_type: EventType::IsIntersection,
                    first_line: seg_a->0,
                    second_line: Some(seg_b->0),
                }),
            ),
    ensures
        gap_pair_tested(post, queue, seg, x),
{
    reveal(gap_pair_tested);
    let probe = probe_entry(key_e, seg);
    assert forall|i: int|
        0 <= i < post.len() - 1 && entry_lt(#[trigger] post[i], probe) && entry_lt(
            probe,
            post[i + 1],
        ) && seg_isect(post[i + 1].seg, post[i].seg) is Some && seg_isect(
            post[i + 1].seg,
            post[i].seg,
        )->0.x > x implies queue.contains(
        (EventPoint {
            point: seg_isect(post[i + 1].seg, post[i].seg)->0,
            event_type: EventType::IsIntersection,
            first_line: post[i + 1].seg,
            second_line: Some(post[i].seg),
        }),
    ) by {
        let lo = post[i];
        let hi = post[i + 1];
        assert(pre.contains(lo) && pre.contains(hi));
        let q = choose|q: int| 0 <= q < pre.len() && pre[q] == lo;
        let q2 = choose|q2: int| 0 <= q2 < pre.len() && pre[q2] == hi;
        assert(seg_b is Some) by {
            if seg_b is None {
                assert(!entry_lt(pre[q], probe));
                assert(false);
            }
        }
        assert(seg_a is Some) by {
            if seg_a is None {
                assert(!entry_lt(probe, pre[q2]));
                assert(false);
            }
        }
        let i_p = choose|i_p: int|
            0 <= i_p < pre.len() && (#[trigger] pre[i_p]).seg == seg_b->0 && entry_lt(
                pre[i_p],
                probe,
            ) && (forall|j: int| i_p < j < pre.len() ==> !entry_lt(#[trigger] pre[j], probe));
        let i_n = choose|i_n: int|
            0 <= i_n < pre.len() && (#[trigger] pre[i_n]).seg == seg_a->0 && entry_lt(
                probe,
                pre[i_n],
            ) && (forall|j: int| 0 <= j < i_n ==> !entry_lt(probe, #[trigger] pre[j]));
        lemma_straddle_pair(pre, post, probe, i, seg_a->0, i_n, seg_b->0, i_p);
        assert(lo.seg == seg_b->0 && hi.seg == seg_a->0);
    }
}

/// Every pair of entries that has come to stand on both sides of the
/// position the given segment held at the sweep position `x` has been
/// tested: when the pair crosses strictly right of `x`, its intersection
/// event is pending.
#[verifier::opaque]
pub open spec fn gap_pair_tested(
    stat: Seq<StatusEntry>,
    queue: Seq<EventPoint>,
    seg: LineSegment2D,
    x: int,
) -> bool {
    forall|i: int|
        0 <= i < stat.len() - 1 && entry_lt(
            #[trigger] stat[i],
            probe_entry(seg_key_at(seg, 4 * x), seg),
        ) && entry_lt(probe_entry(seg_key_at(seg, 4 * x), seg), stat[i + 1]) && seg_isect(
            stat[i + 1].seg,
            stat[i].seg,
        ) is Some && seg_isect(stat[i + 1].seg, stat[i].seg)->0.x > x ==> queue.contains(
            (EventPoint {
                point: seg_isect(stat[i + 1].seg, stat[i].seg)->0,
                event_type: EventType::IsIntersection,
                first_line: stat[i + 1].seg,
                second_line: Some(stat[i].seg),
            }),
        )
}

/// The two segments stand at consecutive positions of the y-structure, in
/// either order.
pub open spec fn adjacent_in(s: Seq<StatusEntry>, x: LineSegment2D, y: LineSegment2D) -> bool {
    exists|i: int|
        0 <= i < s.len() - 1 && (((#[trigger] s[i]).seg == x && s[i + 1].seg == y) || (s[i].seg
            == y && s[i + 1].seg == x))
}

/// The heart of the plane sweep: the event queue, the active segments,
/// the sweep position and the collected intersection points.
pub struct SweepLine {
    /// The pending events, strictly sorted in the event order; the front
    /// is the next event to process.
    pub event_queue: Vec<EventPoint>,
    /// The y-structure: the active segments, sorted by their key.
    pub segments: Vec<StatusEntry>,
    /// The event handled at the moment.
    pub current_event: Option<EventPoint>,
    /// The current x-coordinate of the sweep line.
    pub current_x: i64,
    /// The intersection points found so far.
    pub intersection_points: Vec<Point2D>,
}

/// The event mentions the segment, as its primary or secondary segment.
pub open spec fn event_mentions(e: EventPoint, s: LineSegment2D) -> bool {
    e.first_line == s || e.second_line == Some(s)
}

/// The segment occurs somewhere in the sweep state: in a pending event or
/// in the y-structure.
pub open spec fn state_has_seg(sl: SweepLine, s: LineSegment2D) -> bool {
    ||| exists|i: int|
        0 <= i < sl.event_queue@.len() && event_mentions(#[trigger] sl.event_queue@[i], s)
    ||| exists|i: int| 0 <= i < sl.segments@.len() && (#[trigger] sl.segments@[i]).seg == s
}

impl SweepLine {
    /// The sweep state's invariant: both structures are sorted and hold
    /// only well-formed data, and the sweep position is a usable
    /// coordinate.
    pub open spec fn wf(self) -> bool {
        &&& queue_wf(self.event_queue@)
        &&& queue_sorted(self.event_queue@)
        &&& status_wf(self.segments@)
        &&& status_sorted(self.segments@)
        &&& -COORD_LIMIT <= self.current_x <= COORD_LIMIT
    }

    /// Returns an empty sweep state.
    pub fn new() -> (sl: SweepLine)
        ensures
            sl.wf(),
            sl.event_queue@.len() == 0,
            sl.segments@.len() == 0,
            sl.intersection_points@.len() == 0,
            sl.current_event is None,
            sl.current_x == 0,
    {
        SweepLine {
            event_queue: Vec::new(),
            segments: Vec::new(),
            current_event: None,
            current_x: 0,
            intersection_points: Vec::new(),
        }
    }

    /// Inserts a pending event at its place in the queue; an event already
    /// present is left alone, so the queue never holds duplicates.
    pub fn insert_event(&mut self, e: EventPoint)
        requires
            old(self).wf(),
            e.wf(),
        ensures
            final(self).wf(),
            final(self).segments == old(self).segments,
            final(self).intersection_points == old(self).intersection_points,
            final(self).current_event == old(self).current_event,
            final(self).current_x == old(self).current_x,
            forall|i: int|
                0 <= i < final(self).event_queue@.len() ==> old(self).event_queue@.contains(
                    #[trigger] final(self).event_queue@[i],
                ) || final(self).event_queue@[i] == e,
            forall|i: int|
                0 <= i < old(self).event_queue@.len() ==> final(self).event_queue@.contains(
                    #[trigger] old(self).event_queue@[i],
                ),
            final(self).event_queue@.contains(e),
            old(self).event_queue@.len() <= final(self).event_queue@.len() <= old(
                self,
            ).event_queue@.len() + 1,
            forall|s: LineSegment2D|
                #[trigger] state_has_seg(*final(self), s) ==> state_has_seg(*old(self), s)
                    || event_mentions(e, s),
    {
        let ghost q0 = self.event_queue@;
        let mut idx: usize = 0;
        loop
            invariant
                self == old(self),
                q0 == self.event_queue@,
                0 <= idx <= q0.len(),
                forall|j: int| 0 <= j < idx ==> event_lt(#[trigger] q0[j], e),
            ensures
                self == old(self),
                0 <= idx <= q0.len(),
                forall|j: int| 0 <= j < idx ==> event_lt(#[trigger] q0[j], e),
                idx < q0.len() ==> !event_lt(q0[idx as int], e),
            decreases q0.len() - idx,
        {
            if idx >= self.event_queue.len() {
                break;
            }
            if !event_lt_exec(&self.event_queue[idx], &e) {
                break;
            }
            idx += 1;
        }
        if idx < self.event_queue.len() {
            if self.event_queue[idx] == e {
                proof {
                    assert(self.event_queue@.contains(e));
                    assert(forall|i: int|
                        0 <= i < self.event_queue@.len() ==> q0.contains(
                            #[trigger] self.event_queue@[i],
                        ));
                }
                return ;
            }
        }
        proof {
            if idx < q0.len() {
                lemma_event_order_total(q0[idx as int], e);
            }
        }
        self.event_queue.insert(idx, e);
        proof {
            let q1 = self.event_queue@;
            assert(q1 == q0.insert(idx as int, e));
            assert forall|i: int, j: int| 0 <= i < j < q1.len() implies event_lt(
                #[trigger] q1[i],
                #[trigger] q1[j],
            ) by {
                if i < idx && j < idx {
                } else if j == idx {
                    assert(q1[j] == e);
                    assert(event_lt(q0[i], e));
                } else if i == idx {
                    assert(q1[i] == e);
                    assert(q1[j] == q0[j - 1]);
                    if j - 1 > idx {
                        lemma_event_lt_trans(e, q0[idx as int], q0[j - 1]);
                    }
                } else if i < idx {
                    assert(q1[i] == q0[i] && q1[j] == q0[j - 1]);
                } else {
                    assert(q1[i] == q0[i - 1] && q1[j] == q0[j - 1]);
                }
            }
            assert forall|i: int|
                0 <= i < q1.len() implies q0.contains(#[trigger] q1[i]) || q1[i] == e by {
                if i < idx {
                    assert(q1[i] == q0[i]);
                } else if i > idx {
                    assert(q1[i] == q0[i - 1]);
                }
            }
            assert forall|i: int| 0 <= i < q0.len() implies self.event_queue@.contains(
                #[trigger] q0[i],
            ) by {
                if i < idx {
                    assert(q1[i] == q0[i]);
                } else {
                    assert(q1[i + 1] == q0[i]);
                }
            }
            assert(q1[idx as int] == e);
            assert(q1.contains(e));
            assert forall|s: LineSegment2D| #[trigger] state_has_seg(*self, s) implies
                state_has_seg(*old(self), s) || event_mentions(e, s) by {
                if exists|i: int|
                    0 <= i < q1.len() && event_mentions(#[trigger] q1[i], s) {
                    let i = choose|i: int| 0 <= i < q1.len() && event_mentions(#[trigger] q1[i], s);
                    if q1[i] == e {
                    } else if i < idx {
                        assert(event_mentions(q0[i], s));
                    } else {
                        assert(event_mentions(q0[i - 1], s));
                    }
                }
            }
        }
    }

    /// Removes and returns the least pending event.
    pub fn pop_first_event(&mut self) -> (e: EventPoint)
        requires
            old(self).wf(),
            old(self).event_queue@.len() > 0,
        ensures
            final(self).wf(),
            e == old(self).event_queue@[0],
            e.wf(),
            final(self).event_queue@ == old(self).event_queue@.drop_first(),
            final(self).segments == old(self).segments,
            final(self).intersection_points == old(self).intersection_points,
            final(self).current_event == old(self).current_event,
            final(self).current_x == old(self).current_x,
            forall|s: LineSegment2D|
                #[trigger] state_has_seg(*final(self), s) ==> state_has_seg(*old(self), s),
    {
        let e = self.event_queue.remove(0);
        proof {
            assert(self.event_queue@ =~= old(self).event_queue@.drop_first());
            assert forall|s: LineSegment2D| #[trigger] state_has_seg(*self, s) implies
                state_has_seg(*old(self), s) by {
                if exists|i: int|
                    0 <= i < self.event_queue@.len() && event_mentions(
                        #[trigger] self.event_queue@[i],
                        s,
                    ) {
                    let i = choose|i: int|
                        0 <= i < self.event_queue@.len() && event_mentions(
                            #[trigger] self.event_queue@[i],
                            s,
                        );
                    assert(event_mentions(old(self).event_queue@[i + 1], s));
                }
            }
        }
        e
    }

    /// Returns the active segment nearest above the given position in the
    /// y-structure, if any.
    pub fn get_next_neighbor(&self, key: &Ratio, seg: &LineSegment2D) -> (r: Option<
        LineSegment2D,
    >)
        requires
            self.wf(),
            key.bounded(),
        ensures
            match r {
                Option::None => forall|i: int|
                    0 <= i < self.segments@.len() ==> !entry_lt(
                        probe_entry(*key, *seg),
                        #[trigger] self.segments@[i],
                    ),
                Option::Some(s) => exists|i: int|
                    0 <= i < self.segments@.len() && (#[trigger] self.segments@[i]).seg == s
                        && entry_lt(probe_entry(*key, *seg), self.segments@[i]) && (forall|j: int|
                        0 <= j < i ==> !entry_lt(
                            probe_entry(*key, *seg),
                            #[trigger] self.segments@[j],
                        )),
            },
    {
        let probe = StatusEntry { key: *key, seg: *seg };
        let mut i: usize = 0;
        loop
            invariant
                self.wf(),
                probe == probe_entry(*key, *seg),
                key.bounded(),
                0 <= i <= self.segments@.len(),
                forall|j: int| 0 <= j < i ==> !entry_lt(probe, #[trigger] self.segments@[j]),
            ensures
                0 <= i <= self.segments@.len(),
                forall|j: int| 0 <= j < i ==> !entry_lt(probe, #[trigger] self.segments@[j]),
                i < self.segments@.len() ==> entry_lt(probe, self.segments@[i as int]),
            decreases self.segments@.len() - i,
        {
            if i >= self.segments.len() {
                break;
            }
            let ent = self.segments[i];
            if entry_lt_exec(&probe, &ent) {
                break;
            }
            i += 1;
        }
        if i < self.segments.len() {
            Some(self.segments[i].seg)
        } else {
            None
        }
    }

    /// Returns the active segment nearest below the given position in the
    /// y-structure, if any.
    pub fn get_prev_neighbor(&self, key: &Ratio, seg: &LineSegment2D) -> (r: Option<
        LineSegment2D,
    >)
        requires
            self.wf(),
            key.bounded(),
        ensures
            match r {
                Option::None => forall|i: int|
                    0 <= i < self.segments@.len() ==> !entry_lt(
                        #[trigger] self.segments@[i],
                        probe_entry(*key, *seg),
                    ),
                Option::Some(s) => exists|i: int|
                    0 <= i < self.segments@.len() && (#[trigger] self.segments@[i]).seg == s
                        && entry_lt(self.segments@[i], probe_entry(*key, *seg)) && (forall|j: int|
                        i < j < self.segments@.len() ==> !entry_lt(
                            #[trigger] self.segments@[j],
                            probe_entry(*key, *seg),
                        )),
            },
    {
        let probe = StatusEntry { key: *key, seg: *seg };
        let mut i: usize = self.segments.len();
        loop
            invariant
                self.wf(),
                probe == probe_entry(*key, *seg),
                key.bounded(),
                0 <= i <= self.segments@.len(),
                forall|j: int|
                    i <= j < self.segments@.len() ==> !entry_lt(#[trigger] self.segments@[j], probe),
            ensures
                0 <= i <= self.segments@.len(),
                forall|j: int|
                    i <= j < self.segments@.len() ==> !entry_lt(#[trigger] self.segments@[j], probe),
                i > 0 ==> entry_lt(self.segments@[i - 1], probe),
            decreases i,
        {
            if i == 0 {
                break;
            }
            let ent = self.segments[i - 1];
            if entry_lt_exec(&ent, &probe) {
                break;
            }
            i -= 1;
        }
        if i > 0 {
            Some(self.segments[i - 1].seg)
        } else {
            None
        }
    }
}

/// The key of a non-vertical segment over the position `x4`, counted in
/// quarters of a grid unit: the exact height of the segment's line at
/// `x4 / 4`.
///
/// The quarter-unit scale lets the sweep evaluate keys a fraction of a
/// unit to the right of an intersection: far enough to clear the
/// half-unit rounding error of the event point, and within the unit, so
/// that crossings farther right keep their order.
pub open spec fn seg_key_at(s: LineSegment2D, x4: int) -> Ratio {
    Ratio { num: (s.line.b * x4 + 4 * s.line.c) as i128, den: (4 * s.line.a) as i128 }
}

/// Computes the key of a non-vertical segment over the quarter-unit
/// position `x4`.
pub fn seg_key(s: &LineSegment2D, x4: i64) -> (r: Ratio)
    requires
        s.wf(),
        s.line.a != 0,
        -4 * COORD_LIMIT <= x4 <= 4 * COORD_LIMIT + 3,
    ensures
        r == seg_key_at(*s, x4 as int),
        r.bounded(),
{
    proof {
        lemma_seg_line(*s);
        crate::ratio::lemma_mul_bound(
            s.line.b as int,
            x4 as int,
            crate::line2d::LINE_COEF_LIMIT as int,
            4 * COORD_LIMIT as int + 3,
        );
    }
    let num: i128 = (s.line.b as i128) * (x4 as i128) + 4 * s.line.c;
    let den: i128 = 4 * (s.line.a as i128);
    Ratio { num, den }
}

/// The offset added to the sweep position when the y-structure is
/// refreshed, in quarters of a grid unit: zero, except after an
/// intersection event, where a nudge of three quarters of a unit puts the
/// two crossed segments in their post-crossing order.
pub open spec fn refresh_eps(e: EventPoint) -> int {
    if e.event_type == EventType::IsIntersection {
        3
    } else {
        0
    }
}

/// Two sweep states with the same queue and the same y-structure hold the
/// same segments.
pub proof fn lemma_state_has_seg_frame(a: SweepLine, b: SweepLine)
    requires
        a.event_queue@ == b.event_queue@,
        a.segments@ == b.segments@,
    ensures
        forall|s: LineSegment2D| state_has_seg(a, s) == state_has_seg(b, s),
{
    assert forall|s: LineSegment2D| state_has_seg(a, s) == state_has_seg(b, s) by {
        if state_has_seg(a, s) {
            assert(state_has_seg(b, s));
        }
        if state_has_seg(b, s) {
            assert(state_has_seg(a, s));
        }
    }
}

/// The first `i` segments of `base` have been carried into `temp`, each
/// under its key at the sweep position `x`.
pub open spec fn refreshed_prefix(temp: Seq<StatusEntry>, base: Seq<StatusEntry>, i: int, x: int) -> bool {
    &&& forall|k: int|
        0 <= k < temp.len() ==> (#[trigger] temp[k]).key == seg_key_at(temp[k].seg, x)
    &&& forall|k: int|
        0 <= k < temp.len() ==> exists|j: int|
            0 <= j < i && (#[trigger] base[j]).seg == (#[trigger] temp[k]).seg
    &&& forall|j: int|
        0 <= j < i ==> exists|k: int|
            0 <= k < temp.len() && (#[trigger] temp[k]).seg == (#[trigger] base[j]).seg
}

/// Carrying one more entry into the refreshed structure extends the
/// refreshed prefix by one.
proof fn lemma_refresh_step(
    temp0: Seq<StatusEntry>,
    temp1: Seq<StatusEntry>,
    base: Seq<StatusEntry>,
    i: int,
    ent: StatusEntry,
    x: int,
)
    requires
        0 <= i < base.len(),
        ent.seg == base[i].seg,
        ent.key == seg_key_at(ent.seg, x),
        forall|k: int|
            0 <= k < temp1.len() ==> temp0.contains(#[trigger] temp1[k]) || temp1[k] == ent,
        forall|k: int| 0 <= k < temp0.len() ==> temp1.contains(#[trigger] temp0[k]),
        exists|k: int| 0 <= k < temp1.len() && entry_eq(#[trigger] temp1[k], ent),
        refreshed_prefix(temp0, base, i, x),
    ensures
        refreshed_prefix(temp1, base, i + 1, x),
{
    assert forall|k: int| 0 <= k < temp1.len() implies (#[trigger] temp1[k]).key == seg_key_at(
        temp1[k].seg,
        x,
    ) by {
        if temp0.contains(temp1[k]) {
            let k0 = choose|k0: int| 0 <= k0 < temp0.len() && temp0[k0] == temp1[k];
            assert(temp0[k0].key == seg_key_at(temp0[k0].seg, x));
        }
    }
    assert forall|k: int| 0 <= k < temp1.len() implies exists|j: int|
        0 <= j < i + 1 && (#[trigger] base[j]).seg == (#[trigger] temp1[k]).seg by {
        if temp0.contains(temp1[k]) {
            let k0 = choose|k0: int| 0 <= k0 < temp0.len() && temp0[k0] == temp1[k];
            let j = choose|j: int| 0 <= j < i && (#[trigger] base[j]).seg == temp0[k0].seg;
            assert(base[j].seg == temp1[k].seg);
        } else {
            assert(base[i].seg == temp1[k].seg);
        }
    }
    assert forall|j: int| 0 <= j < i + 1 implies exists|k: int|
        0 <= k < temp1.len() && (#[trigger] temp1[k]).seg == (#[trigger] base[j]).seg by {
        if j < i {
            let k0 = choose|k0: int|
                0 <= k0 < temp0.len() && (#[trigger] temp0[k0]).seg == base[j].seg;
            assert(temp1.contains(temp0[k0]));
            let k = choose|k: int| 0 <= k < temp1.len() && temp1[k] == temp0[k0];
            assert(temp1[k].seg == base[j].seg);
        } else {
            let k = choose|k: int| 0 <= k < temp1.len() && entry_eq(#[trigger] temp1[k], ent);
            assert(temp1[k].seg == base[j].seg);
        }
    }
}

impl SweepLine {
    /// Refreshes the key of every active segment for the current sweep
    /// position, re-sorting the y-structure.
    ///
    /// Every key is recomputed at the current x-coordinate; after an
    /// intersection event a small positive offset is added, so that the
    /// segments that have just crossed come out in their post-crossing
    /// vertical order.
    #[verifier::rlimit(60)]
    pub fn update_segments(&mut self)
        requires
            old(self).wf(),
            old(self).current_event is Some,
        ensures
            final(self).wf(),
            final(self).event_queue == old(self).event_queue,
            final(self).intersection_points == old(self).intersection_points,
            final(self).current_event == old(self).current_event,
            final(self).current_x == old(self).current_x,
            refreshed_prefix(
                final(self).segments@,
                old(self).segments@,
                old(self).segments@.len() as int,
                4 * old(self).current_x + refresh_eps(old(self).current_event->0),
            ),
            forall|s: LineSegment2D|
                #[trigger] state_has_seg(*final(self), s) ==> state_has_seg(*old(self), s),
    {
        let ghost sl0 = *old(self);
        let e = self.current_event.unwrap();
        let epsilon: i64 = match e.event_type {
            EventType::IsIntersection => 3,
            _ => 0,
        };
        let x: i64 = 4 * self.current_x + epsilon;
        let mut temp: Vec<StatusEntry> = Vec::new();
        let mut i: usize = 0;
        while i < self.segments.len()
            invariant
                *self == sl0,
                sl0.wf(),
                sl0.current_event == Some(e),
                x == 4 * sl0.current_x + refresh_eps(e),
                -4 * COORD_LIMIT <= x <= 4 * COORD_LIMIT + 3,
                0 <= i <= sl0.segments@.len(),
                status_wf(temp@),
                status_sorted(temp@),
                refreshed_prefix(temp@, sl0.segments@, i as int, x as int),
            decreases sl0.segments@.len() - i,
        {
            let ghost temp0 = temp@;
            let seg = self.segments[i].seg;
            let key = seg_key(&seg, x);
            insert_status(&mut temp, StatusEntry { key, seg });
            proof {
                lemma_refresh_step(temp0, temp@, sl0.segments@, i as int, probe_entry(key, seg), x as int);
            }
            i += 1;
        }
        self.segments = temp;
        proof {
            assert forall|s: LineSegment2D| #[trigger] state_has_seg(*self, s) implies
                state_has_seg(sl0, s) by {
                if exists|k: int|
                    0 <= k < self.segments@.len() && (#[trigger] self.segments@[k]).seg == s {
                    let k = choose|k: int|
                        0 <= k < self.segments@.len() && (#[trigger] self.segments@[k]).seg == s;
                    let j = choose|j: int|
                        0 <= j < sl0.segments@.len() && (#[trigger] sl0.segments@[j]).seg
                            == self.segments@[k].seg;
                    assert(state_has_seg(sl0, s));
                }
            }
        }
    }

    /// Removes the active segment held at the given position of the
    /// y-structure, if it is there: afterwards no entry occupies that
    /// position, and every other entry is kept.
    pub fn remove_segment(&mut self, key: &Ratio, seg: &LineSegment2D)
        requires
            old(self).wf(),
            key.bounded(),
        ensures
            final(self).wf(),
            final(self).event_queue == old(self).event_queue,
            final(self).intersection_points == old(self).intersection_points,
            final(self).current_event == old(self).current_event,
            final(self).current_x == old(self).current_x,
            forall|i: int|
                0 <= i < final(self).segments@.len() ==> !entry_eq(
                    #[trigger] final(self).segments@[i],
                    probe_entry(*key, *seg),
                ),
            forall|j: int|
                0 <= j < old(self).segments@.len() && !entry_eq(
                    old(self).segments@[j],
                    probe_entry(*key, *seg),
                ) ==> final(self).segments@.contains(#[trigger] old(self).segments@[j]),
            forall|i: int|
                0 <= i < final(self).segments@.len() ==> old(self).segments@.contains(
                    #[trigger] final(self).segments@[i],
                ),
            forall|s: LineSegment2D|
                #[trigger] state_has_seg(*final(self), s) ==> state_has_seg(*old(self), s),
    {
        let ghost sl0 = *old(self);
        let ghost probe = probe_entry(*key, *seg);
        let mut i: usize = 0;
        loop
            invariant
                *self == sl0,
                sl0.wf(),
                key.bounded(),
                probe == probe_entry(*key, *seg),
                0 <= i <= sl0.segments@.len(),
                forall|j: int| 0 <= j < i ==> !entry_eq(#[trigger] sl0.segments@[j], probe),
            ensures
                *self == sl0,
                0 <= i <= sl0.segments@.len(),
                forall|j: int| 0 <= j < i ==> !entry_eq(#[trigger] sl0.segments@[j], probe),
                i < sl0.segments@.len() ==> entry_eq(sl0.segments@[i as int], probe),
            decreases sl0.segments@.len() - i,
        {
            if i >= self.segments.len() {
                break;
            }
            let ent = self.segments[i];
            if ratio_eq_exec(&ent.key, key) {
                if ent.seg == *seg {
                    break;
                }
            }
            i += 1;
        }
        if i < self.segments.len() {
            let ghost q0 = self.segments@;
            self.segments.remove(i);
            proof {
                let q1 = self.segments@;
                // The probed position was occupied at most once: a second
                // occupant would tie with the first, against the strict
                // sorting.
                assert forall|j: int| i < j < q0.len() implies !entry_eq(
                    #[trigger] q0[j],
                    probe,
                ) by {
                    if entry_eq(q0[j], probe) {
                        lemma_ratio_eq_trans(q0[i as int].key, probe.key, q0[j].key);
                        assert(entry_lt(q0[i as int], q0[j]));
                        assert(false);
                    }
                }
                assert forall|a: int, b: int| 0 <= a < b < q1.len() implies entry_lt(
                    #[trigger] q1[a],
                    #[trigger] q1[b],
                ) by {
                    if a < i && b < i {
                    } else if a < i {
                        assert(q1[b] == q0[b + 1]);
                    } else {
                        assert(q1[a] == q0[a + 1] && q1[b] == q0[b + 1]);
                    }
                }
                assert forall|a: int| 0 <= a < q1.len() implies q0.contains(#[trigger] q1[a])
                    && !entry_eq(q1[a], probe) by {
                    if a < i {
                        assert(q1[a] == q0[a]);
                    } else {
                        assert(q1[a] == q0[a + 1]);
                    }
                }
                assert forall|j: int| 0 <= j < q0.len() && !entry_eq(q0[j], probe) implies
                    q1.contains(#[trigger] q0[j]) by {
                    if j < i {
                        assert(q1[j] == q0[j]);
                    } else {
                        assert(j != i);
                        assert(q1[j - 1] == q0[j]);
                    }
                }
                assert forall|s: LineSegment2D| #[trigger] state_has_seg(*self, s) implies
                    state_has_seg(sl0, s) by {
                    if exists|k: int|
                        0 <= k < q1.len() && (#[trigger] q1[k]).seg == s {
                        let k = choose|k: int| 0 <= k < q1.len() && (#[trigger] q1[k]).seg == s;
                        if k < i {
                            assert(q0[k].seg == s);
                        } else {
                            assert(q0[k + 1].seg == s);
                        }
                    }
                }
            }
        }
    }

    /// Inserts an active segment into the y-structure under its key.
    pub fn insert_segment(&mut self, entry: StatusEntry)
        requires
            old(self).wf(),
            entry.wf(),
        ensures
            final(self).wf(),
            final(self).event_queue == old(self).event_queue,
            final(self).intersection_points == old(self).intersection_points,
            final(self).current_event == old(self).current_event,
            final(self).current_x == old(self).current_x,
            exists|i: int|
                0 <= i < final(self).segments@.len() && entry_eq(
                    #[trigger] final(self).segments@[i],
                    entry,
                ),
            forall|j: int|
                0 <= j < old(self).segments@.len() ==> final(self).segments@.contains(
                    #[trigger] old(self).segments@[j],
                ),
            forall|i: int|
                0 <= i < final(self).segments@.len() ==> old(self).segments@.contains(
                    #[trigger] final(self).segments@[i],
                ) || final(self).segments@[i] == entry,
            forall|s: LineSegment2D|
                #[trigger] state_has_seg(*final(self), s) ==> state_has_seg(*old(self), s) || s
                    == entry.seg,
    {
        let ghost sl0 = *old(self);
        insert_status(&mut self.segments, entry);
        proof {
            assert forall|s: LineSegment2D| #[trigger] state_has_seg(*self, s) implies
                state_has_seg(sl0, s) || s == entry.seg by {
                if exists|k: int|
                    0 <= k < self.segments@.len() && (#[trigger] self.segments@[k]).seg == s {
                    let k = choose|k: int|
                        0 <= k < self.segments@.len() && (#[trigger] self.segments@[k]).seg == s;
                    if sl0.segments@.contains(self.segments@[k]) {
                        let j = choose|j: int|
                            0 <= j < sl0.segments@.len() && sl0.segments@[j]
                                == self.segments@[k];
                        assert(state_has_seg(sl0, s));
                    } else {
                        assert(self.segments@[k] == entry);
                    }
                }
            }
        }
    }
}

/// Compares two status entries in the y-structure order.
pub fn entry_lt_exec(x: &StatusEntry, y: &StatusEntry) -> (r: bool)
    requires
        x.key.bounded(),
        y.key.bounded(),
    ensures
        r == entry_lt(*x, *y),
{
    if ratio_lt_exec(&x.key, &y.key) {
        true
    } else if ratio_eq_exec(&x.key, &y.key) {
        x.seg.precedes(&y.seg)
    } else {
        false
    }
}

/// Inserts an entry at its place in a sorted y-structure; an entry whose
/// position is already occupied by the same segment under the same key is
/// left alone.
pub fn insert_status(v: &mut Vec<StatusEntry>, e: StatusEntry)
    requires
        status_wf(old(v)@),
        status_sorted(old(v)@),
        e.wf(),
    ensures
        status_wf(final(v)@),
        status_sorted(final(v)@),
        forall|i: int|
            0 <= i < final(v)@.len() ==> old(v)@.contains(#[trigger] final(v)@[i]) || final(v)@[i]
                == e,
        forall|i: int| 0 <= i < old(v)@.len() ==> final(v)@.contains(#[trigger] old(v)@[i]),
        exists|i: int| 0 <= i < final(v)@.len() && entry_eq(#[trigger] final(v)@[i], e),
        old(v)@.len() <= final(v)@.len() <= old(v)@.len() + 1,
{
    let ghost q0 = v@;
    let mut idx: usize = 0;
    loop
        invariant
            v@ == q0,
            status_wf(q0),
            status_sorted(q0),
            e.wf(),
            0 <= idx <= q0.len(),
            forall|j: int| 0 <= j < idx ==> entry_lt(#[trigger] q0[j], e),
        ensures
            v@ == q0,
            0 <= idx <= q0.len(),
            forall|j: int| 0 <= j < idx ==> entry_lt(#[trigger] q0[j], e),
            idx < q0.len() ==> !entry_lt(q0[idx as int], e),
        decreases q0.len() - idx,
    {
        if idx >= v.len() {
            break;
        }
        if !entry_lt_exec(&v[idx], &e) {
            break;
        }
        idx += 1;
    }
    if idx < v.len() {
        let ent = v[idx];
        if !entry_lt_exec(&e, &ent) {
            proof {
                lemma_entry_order_total(q0[idx as int], e);
                assert(entry_eq(q0[idx as int], e));
                assert(forall|i: int| 0 <= i < v@.len() ==> q0.contains(#[trigger] v@[i]));
            }
            return ;
        }
    }
    self_insert_status_at(v, idx, e);
}

/// Places `e` at index `idx` of the sorted y-structure, where everything
/// before is smaller and everything from `idx` on is larger.
fn self_insert_status_at(v: &mut Vec<StatusEntry>, idx: usize, e: StatusEntry)
    requires
        status_wf(old(v)@),
        status_sorted(old(v)@),
        e.wf(),
        0 <= idx <= old(v)@.len(),
        forall|j: int| 0 <= j < idx ==> entry_lt(#[trigger] old(v)@[j], e),
        idx < old(v)@.len() ==> entry_lt(e, old(v)@[idx as int]),
    ensures
        status_wf(final(v)@),
        status_sorted(final(v)@),
        final(v)@ == old(v)@.insert(idx as int, e),
        forall|i: int|
            0 <= i < final(v)@.len() ==> old(v)@.contains(#[trigger] final(v)@[i]) || final(v)@[i]
                == e,
        forall|i: int| 0 <= i < old(v)@.len() ==> final(v)@.contains(#[trigger] old(v)@[i]),
        exists|i: int| 0 <= i < final(v)@.len() && entry_eq(#[trigger] final(v)@[i], e),
        final(v)@.len() == old(v)@.len() + 1,
{
    let ghost q0 = v@;
    v.insert(idx, e);
    proof {
        let q1 = v@;
        assert(q1 == q0.insert(idx as int, e));
        assert forall|i: int, j: int| 0 <= i < j < q1.len() implies entry_lt(
            #[trigger] q1[i],
            #[trigger] q1[j],
        ) by {
            if j == idx {
                assert(q1[i] == q0[i]);
            } else if i == idx {
                assert(q1[j] == q0[j - 1]);
                if j - 1 > idx {
                    lemma_entry_lt_trans(e, q0[idx as int], q0[j - 1]);
                }
            } else if i < idx && j < idx {
            } else if i < idx {
                assert(q1[i] == q0[i] && q1[j] == q0[j - 1]);
            } else {
                assert(q1[i] == q0[i - 1] && q1[j] == q0[j - 1]);
            }
        }
        assert forall|i: int| 0 <= i < q1.len() implies q0.contains(#[trigger] q1[i]) || q1[i]
            == e by {
            if i < idx {
                assert(q1[i] == q0[i]);
            } else if i > idx {
                assert(q1[i] == q0[i - 1]);
            }
        }
        assert forall|i: int| 0 <= i < q0.len() implies v@.contains(#[trigger] q0[i]) by {
            if i < idx {
                assert(q1[i] == q0[i]);
            } else {
                assert(q1[i + 1] == q0[i]);
            }
        }
        assert(q1[idx as int] == e);
        assert(entry_eq(q1[idx as int], e));
    }
}

/// Every segment a well-formed sweep state holds is itself well formed
/// and non-vertical.
pub proof fn lemma_state_seg_nonvertical(sl: SweepLine, s: LineSegment2D)
    requires
        sl.wf(),
        state_has_seg(sl, s),
    ensures
        s.wf(),
        s.line.a != 0,
{
    if exists|i: int|
        0 <= i < sl.event_queue@.len() && event_mentions(#[trigger] sl.event_queue@[i], s) {
        let i = choose|i: int|
            0 <= i < sl.event_queue@.len() && event_mentions(#[trigger] sl.event_queue@[i], s);
        assert(sl.event_queue@[i].wf());
    } else {
        let i = choose|i: int|
            0 <= i < sl.segments@.len() && (#[trigger] sl.segments@[i]).seg == s;
        assert(sl.segments@[i].wf());
    }
}

/// The y-structure holds an entry for the segment.
pub open spec fn status_has_seg(s: Seq<StatusEntry>, seg: LineSegment2D) -> bool {
    exists|i: int| 0 <= i < s.len() && (#[trigger] s[i]).seg == seg
}

/// The event is a pending intersection strictly to the right of the
/// x-coordinate `x`: the only kind of event a sweep step may create.
pub open spec fn new_isect_event(ev: EventPoint, x: int) -> bool {
    ev.event_type == EventType::IsIntersection && ev.second_line is Some && ev.point.x > x
}

/// Appending to a sequence keeps every element it contains.
proof fn lemma_push_keeps_contains<A>(s: Seq<A>, v: A, q: A)
    requires
        s.contains(v),
    ensures
        s.push(q).contains(v),
{
    let i = choose|i: int| 0 <= i < s.len() && s[i] == v;
    assert(s.push(q)[i] == v);
}

/// The point is the reported intersection of two segments the sweep state
/// knows about.
pub open spec fn point_sound(sl: SweepLine, p: Point2D) -> bool {
    exists|a: LineSegment2D, b: LineSegment2D|
        state_has_seg(sl, a) && state_has_seg(sl, b) && #[trigger] seg_isect(a, b) == Some(p)
}

/// Appending to a sequence keeps every existing prefix.
proof fn lemma_push_keeps_prefix<A>(base: Seq<A>, s: Seq<A>, v: A)
    requires
        base.is_prefix_of(s),
    ensures
        base.is_prefix_of(s.push(v)),
{
    assert(s.push(v).subrange(0, base.len() as int) =~= s.subrange(0, base.len() as int));
}

/// Adds a segment to the batch unless it is already there.
fn push_unique_seg(v: &mut Vec<LineSegment2D>, s: LineSegment2D)
    ensures
        forall|k: int|
            0 <= k < final(v)@.len() ==> old(v)@.contains(#[trigger] final(v)@[k])
                || final(v)@[k] == s,
        forall|k: int| 0 <= k < old(v)@.len() ==> final(v)@[k] == old(v)@[k],
        old(v)@.is_prefix_of(final(v)@),
        final(v)@.contains(s),
        old(v)@.len() <= final(v)@.len() <= old(v)@.len() + 1,
{
    let mut i: usize = 0;
    loop
        invariant
            v@ == old(v)@,
            0 <= i <= v@.len(),
            forall|k: int| 0 <= k < i ==> v@[k] != s,
        ensures
            v@ == old(v)@,
            0 <= i <= v@.len(),
            i < v@.len() ==> v@[i as int] == s,
            i == v@.len() ==> !v@.contains(s),
        decreases v@.len() - i,
    {
        if i >= v.len() {
            proof {
                assert forall|k: int| 0 <= k < v@.len() implies v@[k] != s by {}
                assert(!v@.contains(s));
            }
            break;
        }
        if v[i] == s {
            break;
        }
        i += 1;
    }
    if i >= v.len() {
        v.push(s);
        proof {
            assert(v@ == old(v)@.push(s));
            assert(old(v)@.is_prefix_of(v@)) by {
                assert(old(v)@.push(s).subrange(0, old(v)@.len() as int) =~= old(v)@);
            }
            assert(v@[v@.len() - 1] == s);
            assert(v@.contains(s));
        }
    } else {
        proof {
            assert(v@.contains(s));
            assert(old(v)@.is_prefix_of(v@)) by {
                assert(v@.subrange(0, v@.len() as int) =~= v@);
            }
        }
    }
}

/// After a refresh followed by an insertion, the inserted segment and
/// every segment of the structure before the refresh stand in the
/// y-structure.
proof fn lemma_refresh_insert_keeps(
    base: Seq<StatusEntry>,
    refreshed: Seq<StatusEntry>,
    inserted: Seq<StatusEntry>,
    ent: StatusEntry,
    x: int,
)
    requires
        refreshed_prefix(refreshed, base, base.len() as int, x),
        forall|j: int| 0 <= j < refreshed.len() ==> inserted.contains(#[trigger] refreshed[j]),
        exists|i: int| 0 <= i < inserted.len() && entry_eq(#[trigger] inserted[i], ent),
    ensures
        status_has_seg(inserted, ent.seg),
        forall|j: int| 0 <= j < base.len() ==> status_has_seg(inserted, (#[trigger] base[j]).seg),
{
    let m = choose|m: int| 0 <= m < inserted.len() && entry_eq(#[trigger] inserted[m], ent);
    assert(inserted[m].seg == ent.seg);
    assert forall|j: int| 0 <= j < base.len() implies status_has_seg(
        inserted,
        (#[trigger] base[j]).seg,
    ) by {
        let k = choose|k: int|
            0 <= k < refreshed.len() && (#[trigger] refreshed[k]).seg == base[j].seg;
        assert(inserted.contains(refreshed[k]));
        let m2 = choose|m2: int| 0 <= m2 < inserted.len() && inserted[m2] == refreshed[k];
        assert(inserted[m2].seg == base[j].seg);
    }
}

/// After a refresh followed by the removal of the probed position, the
/// probed segment is gone from the y-structure and every other segment of
/// the structure before the refresh is kept.
proof fn lemma_refresh_remove_clears(
    base: Seq<StatusEntry>,
    refreshed: Seq<StatusEntry>,
    removed: Seq<StatusEntry>,
    probe: StatusEntry,
    x: int,
)
    requires
        refreshed_prefix(refreshed, base, base.len() as int, x),
        probe.key == seg_key_at(probe.seg, x),
        forall|i: int| 0 <= i < removed.len() ==> refreshed.contains(#[trigger] removed[i]),
        forall|i: int| 0 <= i < removed.len() ==> !entry_eq(#[trigger] removed[i], probe),
        forall|j: int|
            0 <= j < refreshed.len() && !entry_eq(refreshed[j], probe) ==> removed.contains(
                #[trigger] refreshed[j],
            ),
    ensures
        forall|i: int| 0 <= i < removed.len() ==> (#[trigger] removed[i]).seg != probe.seg,
        forall|j: int|
            0 <= j < base.len() && (#[trigger] base[j]).seg != probe.seg ==> status_has_seg(
                removed,
                base[j].seg,
            ),
{
    assert forall|i: int| 0 <= i < removed.len() implies (#[trigger] removed[i]).seg
        != probe.seg by {
        if removed[i].seg == probe.seg {
            let k = choose|k: int| 0 <= k < refreshed.len() && refreshed[k] == removed[i];
            assert(refreshed[k].key == seg_key_at(refreshed[k].seg, x));
            assert(entry_eq(removed[i], probe));
        }
    }
    assert forall|j: int|
        0 <= j < base.len() && (#[trigger] base[j]).seg != probe.seg implies status_has_seg(
        removed,
        base[j].seg,
    ) by {
        let k = choose|k: int|
            0 <= k < refreshed.len() && (#[trigger] refreshed[k]).seg == base[j].seg;
        assert(!entry_eq(refreshed[k], probe));
        assert(removed.contains(refreshed[k]));
        let m2 = choose|m2: int| 0 <= m2 < removed.len() && removed[m2] == refreshed[k];
        assert(removed[m2].seg == base[j].seg);
    }
}

impl SweepLine {
    /// Tests two active segments against each other; if they intersect
    /// strictly to the right of the sweep line, a future intersection
    /// event for them is put on the queue.
    fn try_enqueue_isect(&mut self, first: LineSegment2D, second: LineSegment2D)
        requires
            old(self).wf(),
            first.wf(),
            second.wf(),
            first.line.a != 0,
            second.line.a != 0,
        ensures
            final(self).wf(),
            final(self).segments == old(self).segments,
            final(self).intersection_points == old(self).intersection_points,
            final(self).current_event == old(self).current_event,
            final(self).current_x == old(self).current_x,
            forall|e: EventPoint|
                #[trigger] final(self).event_queue@.contains(e)
                    ==> old(self).event_queue@.contains(e) || new_isect_event(
                    e,
                    old(self).current_x as int,
                ),
            forall|e: EventPoint|
                #[trigger] old(self).event_queue@.contains(e)
                    ==> final(self).event_queue@.contains(e),
            final(self).event_queue@.len() <= old(self).event_queue@.len() + 1,
            forall|p: Point2D|
                seg_isect(first, second) == Some(p) && p.x > old(self).current_x
                    ==> final(self).event_queue@.contains(
                    (EventPoint {
                        point: p,
                        event_type: EventType::IsIntersection,
                        first_line: first,
                        second_line: Some(second),
                    }),
                ),
            forall|s: LineSegment2D|
                #[trigger] state_has_seg(*final(self), s) ==> state_has_seg(*old(self), s) || s
                    == first || s == second,
    {
        let r = first.intersects(&second);
        if let Some(p) = r {
            if p.x > self.current_x {
                let ev = EventPoint {
                    point: p,
                    event_type: EventType::IsIntersection,
                    first_line: first,
                    second_line: Some(second),
                };
                proof {
                    assert(ev.wf());
                }
                self.insert_event(ev);
                proof {
                    assert forall|s: LineSegment2D| #[trigger] state_has_seg(*self, s) implies
                        state_has_seg(*old(self), s) || s == first || s == second by {
                        if event_mentions(ev, s) {
                        }
                    }
                    assert forall|e: EventPoint| #[trigger] self.event_queue@.contains(e) implies
                        old(self).event_queue@.contains(e) || new_isect_event(
                        e,
                        old(self).current_x as int,
                    ) by {
                        let i = choose|i: int|
                            0 <= i < self.event_queue@.len() && self.event_queue@[i] == e;
                        if self.event_queue@[i] == ev {
                            assert(new_isect_event(ev, old(self).current_x as int));
                        }
                    }
                    assert forall|e: EventPoint| #[trigger] old(self).event_queue@.contains(
                        e,
                    ) implies self.event_queue@.contains(e) by {
                        let i = choose|i: int|
                            0 <= i < old(self).event_queue@.len() && old(self).event_queue@[i]
                                == e;
                    }
                }
            }
        }
    }

    /// Pops the least pending event and handles it.
    ///
    /// The sweep position moves to the event's point and the y-structure
    /// is refreshed for it.  A left endpoint inserts its segment and tests
    /// it against its two new neighbors; a right endpoint removes its
    /// segment and tests the two segments that become adjacent; an
    /// intersection event records its point, once for every crossing pair
    /// meeting there, and tests the outermost crossed segments against
    /// their new neighbors.  Every test that yields a point strictly right
    /// of the sweep line enqueues a future intersection event.
    #[verifier::rlimit(100)]
    #[verifier::spinoff_prover]
    pub fn process_next_event(&mut self)
        requires
            old(self).wf(),
            old(self).event_queue@.len() > 0,
        ensures
            final(self).wf(),
            final(self).current_event == Some(old(self).event_queue@[0]),
            final(self).current_x == old(self).event_queue@[0].point.x,
            old(self).intersection_points@.is_prefix_of(final(self).intersection_points@),
            old(self).event_queue@[0].event_type != EventType::IsIntersection
                ==> final(self).intersection_points@ == old(self).intersection_points@,
            forall|k: int|
                old(self).intersection_points@.len() <= k
                    < final(self).intersection_points@.len() ==> point_sound(
                    *old(self),
                    #[trigger] final(self).intersection_points@[k],
                ),
            forall|s: LineSegment2D|
                #[trigger] state_has_seg(*final(self), s) ==> state_has_seg(*old(self), s),
            !final(self).event_queue@.contains(old(self).event_queue@[0]),
            forall|ev: EventPoint|
                #[trigger] final(self).event_queue@.contains(ev)
                    ==> old(self).event_queue@.drop_first().contains(ev) || new_isect_event(
                    ev,
                    old(self).event_queue@[0].point.x as int,
                ),
            forall|ev: EventPoint|
                #[trigger] old(self).event_queue@.drop_first().contains(ev)
                    ==> final(self).event_queue@.contains(ev) || (ev.event_type
                    == EventType::IsIntersection && ev.point == old(self).event_queue@[0].point),
            old(self).event_queue@[0].event_type == EventType::IsLeftEndpoint ==> status_has_seg(
                final(self).segments@,
                old(self).event_queue@[0].first_line,
            ),
            old(self).event_queue@[0].event_type == EventType::IsLeftEndpoint ==> (forall|j: int|
                0 <= j < old(self).segments@.len() ==> status_has_seg(
                    final(self).segments@,
                    (#[trigger] old(self).segments@[j]).seg,
                )),
            old(self).event_queue@[0].event_type == EventType::IsRightEndpoint ==> (forall|i: int|
                0 <= i < final(self).segments@.len() ==> (#[trigger] final(self).segments@[i]).seg
                    != old(self).event_queue@[0].first_line),
            old(self).event_queue@[0].event_type == EventType::IsRightEndpoint ==> (forall|j: int|
                0 <= j < old(self).segments@.len() && (#[trigger] old(self).segments@[j]).seg
                    != old(self).event_queue@[0].first_line ==> status_has_seg(
                    final(self).segments@,
                    old(self).segments@[j].seg,
                )),
            old(self).event_queue@[0].event_type == EventType::IsIntersection
                ==> final(self).intersection_points@.contains(old(self).event_queue@[0].point),
            forall|i: int|
                0 <= i < final(self).segments@.len() ==> (#[trigger] final(self).segments@[i]).key
                    == seg_key_at(
                    final(self).segments@[i].seg,
                    4 * old(self).event_queue@[0].point.x + refresh_eps(
                        old(self).event_queue@[0],
                    ),
                ),
            old(self).event_queue@[0].event_type == EventType::IsLeftEndpoint
                ==> final(self).event_queue@.len() <= old(self).event_queue@.len() + 1,
            old(self).event_queue@[0].event_type == EventType::IsRightEndpoint
                ==> final(self).event_queue@.len() <= old(self).event_queue@.len(),
            old(self).event_queue@[0].event_type == EventType::IsLeftEndpoint ==> (forall|
                t: LineSegment2D,
            |
                #[trigger] adjacent_in(
                    final(self).segments@,
                    old(self).event_queue@[0].first_line,
                    t,
                ) && seg_isect(old(self).event_queue@[0].first_line, t) is Some && seg_isect(
                    old(self).event_queue@[0].first_line,
                    t,
                )->0.x > old(self).event_queue@[0].point.x ==> final(self).event_queue@.contains(
                    (EventPoint {
                        point: seg_isect(old(self).event_queue@[0].first_line, t)->0,
                        event_type: EventType::IsIntersection,
                        first_line: old(self).event_queue@[0].first_line,
                        second_line: Some(t),
                    }),
                )),
            old(self).event_queue@[0].event_type == EventType::IsRightEndpoint
                ==> gap_pair_tested(
                final(self).segments@,
                final(self).event_queue@,
                old(self).event_queue@[0].first_line,
                old(self).event_queue@[0].point.x as int,
            ),
    {
        let ghost sl0 = *old(self);
        let e = self.pop_first_event();
        proof {
            lemma_queue_tail_membership(sl0.event_queue@, e);
            assert(!sl0.event_queue@.drop_first().contains(e));
        }
        proof {
            assert(event_mentions(sl0.event_queue@[0], e.first_line));
            assert(state_has_seg(sl0, e.first_line));
            if e.second_line is Some {
                assert(state_has_seg(sl0, e.second_line->0));
            }
        }
        let ghost sl1 = *self;
        self.current_event = Some(e);
        self.current_x = e.point.x;
        proof {
            lemma_state_has_seg_frame(*self, sl1);
        }
        self.update_segments();
        let ghost sl2 = *self;
        proof {
            assert forall|s: LineSegment2D| #[trigger] state_has_seg(sl2, s) implies
                state_has_seg(sl0, s) by {}
            if e.event_type != EventType::IsIntersection {
                assert(refresh_eps(e) == 0);
                assert(refreshed_prefix(
                    sl2.segments@,
                    sl0.segments@,
                    sl0.segments@.len() as int,
                    4 * e.point.x,
                ));
            }
        }
        match e.event_type {
            EventType::IsLeftEndpoint => {
                self.handle_left_event(e, Ghost(sl0));
            },
            EventType::IsRightEndpoint => {
                self.handle_right_event(e, Ghost(sl0));
            },
            EventType::IsIntersection => {
                self.handle_intersection_event(e, Ghost(sl0));
            },
        }
    }

    /// Handles one left-endpoint event: the segment enters the refreshed
    /// y-structure under its key, and is tested against its two new
    /// neighbors.
    #[verifier::rlimit(100)]
    #[verifier::spinoff_prover]
    fn handle_left_event(&mut self, e: EventPoint, Ghost(sl0): Ghost<SweepLine>)
        requires
            old(self).wf(),
            e.wf(),
            e.event_type == EventType::IsLeftEndpoint,
            old(self).current_x == e.point.x,
            state_has_seg(sl0, e.first_line),
            forall|s: LineSegment2D|
                #[trigger] state_has_seg(*old(self), s) ==> state_has_seg(sl0, s),
            refreshed_prefix(
                old(self).segments@,
                sl0.segments@,
                sl0.segments@.len() as int,
                4 * e.point.x,
            ),
        ensures
            final(self).wf(),
            final(self).current_event == old(self).current_event,
            final(self).current_x == old(self).current_x,
            final(self).intersection_points == old(self).intersection_points,
            forall|s: LineSegment2D|
                #[trigger] state_has_seg(*final(self), s) ==> state_has_seg(sl0, s),
            forall|ev: EventPoint|
                #[trigger] final(self).event_queue@.contains(ev)
                    ==> old(self).event_queue@.contains(ev) || new_isect_event(
                    ev,
                    e.point.x as int,
                ),
            forall|ev: EventPoint|
                #[trigger] old(self).event_queue@.contains(ev)
                    ==> final(self).event_queue@.contains(ev),
            final(self).event_queue@.len() <= old(self).event_queue@.len() + 2,
            status_has_seg(final(self).segments@, e.first_line),
            forall|j: int|
                0 <= j < sl0.segments@.len() ==> status_has_seg(
                    final(self).segments@,
                    (#[trigger] sl0.segments@[j]).seg,
                ),
            forall|i: int|
                0 <= i < final(self).segments@.len() ==> (#[trigger] final(self).segments@[i]).key
                    == seg_key_at(final(self).segments@[i].seg, 4 * e.point.x),
            forall|t: LineSegment2D|
                #[trigger] adjacent_in(final(self).segments@, e.first_line, t) && seg_isect(
                    e.first_line,
                    t,
                ) is Some && seg_isect(e.first_line, t)->0.x > e.point.x
                    ==> final(self).event_queue@.contains(
                    (EventPoint {
                        point: seg_isect(e.first_line, t)->0,
                        event_type: EventType::IsIntersection,
                        first_line: e.first_line,
                        second_line: Some(t),
                    }),
                ),
    {
        let seg_e = e.first_line;
        let key_e = seg_key(&seg_e, 4 * self.current_x);
        self.insert_segment(StatusEntry { key: key_e, seg: seg_e });
        let ghost sl3 = *self;
        proof {
            lemma_refresh_insert_keeps(
                sl0.segments@,
                old(self).segments@,
                sl3.segments@,
                probe_entry(key_e, seg_e),
                4 * e.point.x as int,
            );
            assert forall|i: int| 0 <= i < sl3.segments@.len() implies (
            #[trigger] sl3.segments@[i]).key == seg_key_at(
                sl3.segments@[i].seg,
                4 * e.point.x,
            ) by {
                if old(self).segments@.contains(sl3.segments@[i]) {
                    let k = choose|k: int|
                        0 <= k < old(self).segments@.len() && old(self).segments@[k]
                            == sl3.segments@[i];
                } else {
                    assert(sl3.segments@[i] == probe_entry(key_e, seg_e));
                }
            }
        }
        let seg_a = self.get_next_neighbor(&key_e, &seg_e);
        let seg_b = self.get_prev_neighbor(&key_e, &seg_e);
        let ghost stat = sl3.segments@;
        let ghost probe = probe_entry(key_e, seg_e);
        let ghost m = choose|m: int| 0 <= m < stat.len() && entry_eq(#[trigger] stat[m], probe);
        proof {
            // The segment occupies exactly one position, so the two
            // neighbor queries return the entries beside it.
            assert(entry_eq(stat[m], probe));
            if seg_a is Some {
                assert(state_has_seg(*self, seg_a->0) && seg_a->0.wf() && seg_a->0.line.a != 0);
                let i = choose|i: int|
                    0 <= i < stat.len() && (#[trigger] stat[i]).seg == seg_a->0 && entry_lt(
                        probe,
                        stat[i],
                    ) && (forall|j: int| 0 <= j < i ==> !entry_lt(probe, #[trigger] stat[j]));
                lemma_next_is_upper_adjacent(stat, probe, m, i);
                assert(m + 1 < stat.len() && stat[m + 1].seg == seg_a->0);
            } else {
                lemma_no_upper_is_last(stat, probe, m);
            }
            if seg_b is Some {
                assert(state_has_seg(*self, seg_b->0) && seg_b->0.wf() && seg_b->0.line.a != 0);
                let i = choose|i: int|
                    0 <= i < stat.len() && (#[trigger] stat[i]).seg == seg_b->0 && entry_lt(
                        stat[i],
                        probe,
                    ) && (forall|j: int| i < j < stat.len() ==> !entry_lt(#[trigger] stat[j], probe));
                lemma_prev_is_lower_adjacent(stat, probe, m, i);
                assert(m - 1 >= 0 && stat[m - 1].seg == seg_b->0);
            } else {
                lemma_no_lower_is_first(stat, probe, m);
            }
        }
        let ghost before_a = *self;
        if let Some(sa) = seg_a {
            self.try_enqueue_isect(seg_e, sa);
        }
        let ghost after_a = *self;
        if let Some(sb) = seg_b {
            self.try_enqueue_isect(seg_e, sb);
        }
        proof {
            assert(self.segments == sl3.segments);
            assert(self.segments@ == sl3.segments@);
            assert forall|t: LineSegment2D|
                #[trigger] adjacent_in(stat, seg_e, t) && seg_isect(seg_e, t) is Some && seg_isect(
                    seg_e,
                    t,
                )->0.x > e.point.x implies self.event_queue@.contains(
                (EventPoint {
                    point: seg_isect(seg_e, t)->0,
                    event_type: EventType::IsIntersection,
                    first_line: seg_e,
                    second_line: Some(t),
                }),
            ) by {
                let p = seg_isect(seg_e, t)->0;
                let ev = EventPoint {
                    point: p,
                    event_type: EventType::IsIntersection,
                    first_line: seg_e,
                    second_line: Some(t),
                };
                let i_adj = choose|i_adj: int|
                    0 <= i_adj < stat.len() - 1 && (((#[trigger] stat[i_adj]).seg == seg_e
                        && stat[i_adj + 1].seg == t) || (stat[i_adj].seg == t && stat[i_adj
                        + 1].seg == seg_e));
                if stat[i_adj].seg == seg_e {
                    // The segment's one position, so the partner above is
                    // the queried upper neighbor.
                    if i_adj != m {
                        assert(entry_eq(stat[i_adj], stat[m]));
                        lemma_entry_order_total(stat[i_adj], stat[m]);
                        assert(false);
                    }
                    assert(seg_a is Some && seg_a->0 == t);
                    assert(before_a.current_x == e.point.x);
                    assert(after_a.event_queue@.contains(ev));
                    assert(self.event_queue@.contains(ev));
                } else {
                    if i_adj + 1 != m {
                        assert(entry_eq(stat[i_adj + 1], stat[m]));
                        lemma_entry_order_total(stat[i_adj + 1], stat[m]);
                        assert(false);
                    }
                    assert(seg_b is Some && seg_b->0 == t);
                    assert(after_a.current_x == e.point.x);
                    assert(self.event_queue@.contains(ev));
                }
            }
        }
    }

    /// Handles one right-endpoint event: the neighbors above and below
    /// are looked up, the segment leaves the refreshed y-structure, and
    /// the two segments that become adjacent are tested against each
    /// other.
    #[verifier::rlimit(100)]
    fn handle_right_event(&mut self, e: EventPoint, Ghost(sl0): Ghost<SweepLine>)
        requires
            old(self).wf(),
            e.wf(),
            e.event_type == EventType::IsRightEndpoint,
            old(self).current_x == e.point.x,
            forall|s: LineSegment2D|
                #[trigger] state_has_seg(*old(self), s) ==> state_has_seg(sl0, s),
            refreshed_prefix(
                old(self).segments@,
                sl0.segments@,
                sl0.segments@.len() as int,
                4 * e.point.x,
            ),
        ensures
            final(self).wf(),
            final(self).current_event == old(self).current_event,
            final(self).current_x == old(self).current_x,
            final(self).intersection_points == old(self).intersection_points,
            forall|s: LineSegment2D|
                #[trigger] state_has_seg(*final(self), s) ==> state_has_seg(sl0, s),
            forall|ev: EventPoint|
                #[trigger] final(self).event_queue@.contains(ev)
                    ==> old(self).event_queue@.contains(ev) || new_isect_event(
                    ev,
                    e.point.x as int,
                ),
            forall|ev: EventPoint|
                #[trigger] old(self).event_queue@.contains(ev)
                    ==> final(self).event_queue@.contains(ev),
            final(self).event_queue@.len() <= old(self).event_queue@.len() + 1,
            forall|i: int|
                0 <= i < final(self).segments@.len() ==> (#[trigger] final(self).segments@[i]).seg
                    != e.first_line,
            forall|j: int|
                0 <= j < sl0.segments@.len() && (#[trigger] sl0.segments@[j]).seg != e.first_line
                    ==> status_has_seg(final(self).segments@, sl0.segments@[j].seg),
            forall|i: int|
                0 <= i < final(self).segments@.len() ==> (#[trigger] final(self).segments@[i]).key
                    == seg_key_at(final(self).segments@[i].seg, 4 * e.point.x),
            gap_pair_tested(
                final(self).segments@,
                final(self).event_queue@,
                e.first_line,
                e.point.x as int,
            ),
    {
        let key_e = seg_key(&e.first_line, 4 * self.current_x);
        let seg_a = self.get_next_neighbor(&key_e, &e.first_line);
        let seg_b = self.get_prev_neighbor(&key_e, &e.first_line);
        proof {
            if seg_a is Some {
                assert(state_has_seg(*self, seg_a->0) && seg_a->0.wf() && seg_a->0.line.a != 0);
            }
            if seg_b is Some {
                assert(state_has_seg(*self, seg_b->0) && seg_b->0.wf() && seg_b->0.line.a != 0);
            }
        }
        self.remove_segment(&key_e, &e.first_line);
        let ghost sl3 = *self;
        proof {
            // After the refresh every entry of the segment carries exactly
            // the probed key, so the removal clears the segment from the
            // y-structure and spares the rest.
            lemma_refresh_remove_clears(
                sl0.segments@,
                old(self).segments@,
                sl3.segments@,
                probe_entry(key_e, e.first_line),
                4 * e.point.x as int,
            );
            assert forall|i: int| 0 <= i < sl3.segments@.len() implies (
            #[trigger] sl3.segments@[i]).key == seg_key_at(
                sl3.segments@[i].seg,
                4 * e.point.x,
            ) by {
                assert(old(self).segments@.contains(sl3.segments@[i]));
                let k = choose|k: int|
                    0 <= k < old(self).segments@.len() && old(self).segments@[k]
                        == sl3.segments@[i];
            }
        }
        proof {
            if seg_a is Some {
                assert(state_has_seg(sl0, seg_a->0));
            }
            if seg_b is Some {
                assert(state_has_seg(sl0, seg_b->0));
            }
        }
        self.finish_right_event(e, key_e, seg_a, seg_b, Ghost(old(self).segments@));
    }

    /// Finishes a right-endpoint event after the removal: the two old
    /// neighbors of the removed position, now adjacent, are tested
    /// against each other.
    #[verifier::rlimit(100)]
    fn finish_right_event(
        &mut self,
        e: EventPoint,
        key_e: Ratio,
        seg_a: Option<LineSegment2D>,
        seg_b: Option<LineSegment2D>,
        Ghost(refreshed): Ghost<Seq<StatusEntry>>,
    )
        requires
            old(self).wf(),
            e.wf(),
            e.event_type == EventType::IsRightEndpoint,
            old(self).current_x == e.point.x,
            key_e.bounded(),
            key_e == seg_key_at(e.first_line, 4 * e.point.x),
            status_wf(refreshed),
            status_sorted(refreshed),
            forall|k: int|
                0 <= k < old(self).segments@.len() ==> refreshed.contains(
                    #[trigger] old(self).segments@[k],
                ),
            forall|k: int|
                0 <= k < old(self).segments@.len() ==> !entry_eq(
                    #[trigger] old(self).segments@[k],
                    probe_entry(key_e, e.first_line),
                ),
            forall|j: int|
                0 <= j < refreshed.len() && !entry_eq(
                    refreshed[j],
                    probe_entry(key_e, e.first_line),
                ) ==> old(self).segments@.contains(#[trigger] refreshed[j]),
            seg_a is Some ==> seg_a->0.wf() && seg_a->0.line.a != 0,
            seg_b is Some ==> seg_b->0.wf() && seg_b->0.line.a != 0,
            seg_a is None ==> forall|j: int|
                0 <= j < refreshed.len() ==> !entry_lt(
                    probe_entry(key_e, e.first_line),
                    #[trigger] refreshed[j],
                ),
            seg_a is Some ==> exists|i: int|
                0 <= i < refreshed.len() && (#[trigger] refreshed[i]).seg == seg_a->0 && entry_lt(
                    probe_entry(key_e, e.first_line),
                    refreshed[i],
                ) && (forall|j: int|
                    0 <= j < i ==> !entry_lt(
                        probe_entry(key_e, e.first_line),
                        #[trigger] refreshed[j],
                    )),
            seg_b is None ==> forall|j: int|
                0 <= j < refreshed.len() ==> !entry_lt(
                    #[trigger] refreshed[j],
                    probe_entry(key_e, e.first_line),
                ),
            seg_b is Some ==> exists|i: int|
                0 <= i < refreshed.len() && (#[trigger] refreshed[i]).seg == seg_b->0 && entry_lt(
                    refreshed[i],
                    probe_entry(key_e, e.first_line),
                ) && (forall|j: int|
                    i < j < refreshed.len() ==> !entry_lt(
                        #[trigger] refreshed[j],
                        probe_entry(key_e, e.first_line),
                    )),
        ensures
            final(self).wf(),
            final(self).current_event == old(self).current_event,
            final(self).current_x == old(self).current_x,
            final(self).intersection_points == old(self).intersection_points,
            final(self).segments == old(self).segments,
            forall|s: LineSegment2D|
                #[trigger] state_has_seg(*final(self), s) ==> state_has_seg(*old(self), s) || (
                seg_a is Some && s == seg_a->0) || (seg_b is Some && s == seg_b->0),
            forall|ev: EventPoint|
                #[trigger] final(self).event_queue@.contains(ev)
                    ==> old(self).event_queue@.contains(ev) || new_isect_event(
                    ev,
                    e.point.x as int,
                ),
            forall|ev: EventPoint|
                #[trigger] old(self).event_queue@.contains(ev)
                    ==> final(self).event_queue@.contains(ev),
            final(self).event_queue@.len() <= old(self).event_queue@.len() + 1,
            gap_pair_tested(
                final(self).segments@,
                final(self).event_queue@,
                e.first_line,
                e.point.x as int,
            ),
    {
        if let (Some(sa), Some(sb)) = (seg_a, seg_b) {
            self.try_enqueue_isect(sa, sb);
        }
        proof {
            lemma_gap_pair_tested(
                refreshed,
                self.segments@,
                self.event_queue@,
                e.first_line,
                e.point.x as int,
                key_e,
                seg_a,
                seg_b,
            );
        }
    }

    /// Handles one intersection event: drains every further intersection
    /// event at the same point, records the point once per crossing pair
    /// of the segments meeting there, and tests the outermost crossed
    /// segments against their outer neighbors.
    #[verifier::rlimit(80)]
    fn handle_intersection_event(&mut self, e: EventPoint, Ghost(sl0): Ghost<SweepLine>)
        requires
            old(self).wf(),
            e.wf(),
            e.event_type == EventType::IsIntersection,
            old(self).current_x == e.point.x,
            old(self).intersection_points@ == sl0.intersection_points@,
            state_has_seg(sl0, e.first_line),
            state_has_seg(sl0, e.second_line->0),
            forall|s: LineSegment2D|
                #[trigger] state_has_seg(*old(self), s) ==> state_has_seg(sl0, s),
        ensures
            final(self).wf(),
            final(self).current_event == old(self).current_event,
            final(self).current_x == old(self).current_x,
            old(self).intersection_points@.is_prefix_of(final(self).intersection_points@),
            forall|k: int|
                old(self).intersection_points@.len() <= k
                    < final(self).intersection_points@.len() ==> point_sound(
                    sl0,
                    #[trigger] final(self).intersection_points@[k],
                ),
            forall|s: LineSegment2D|
                #[trigger] state_has_seg(*final(self), s) ==> state_has_seg(sl0, s),
            final(self).segments == old(self).segments,
            final(self).intersection_points@.contains(e.point),
            forall|ev: EventPoint|
                #[trigger] final(self).event_queue@.contains(ev)
                    ==> old(self).event_queue@.contains(ev) || new_isect_event(
                    ev,
                    e.point.x as int,
                ),
            forall|ev: EventPoint|
                #[trigger] old(self).event_queue@.contains(ev)
                    ==> final(self).event_queue@.contains(ev) || (ev.event_type
                    == EventType::IsIntersection && ev.point == e.point),
    {
        let mut batch: Vec<LineSegment2D> = Vec::new();
        let ghost b_empty = batch@;
        push_unique_seg(&mut batch, e.first_line);
        let ghost b_one = batch@;
        push_unique_seg(&mut batch, e.second_line.unwrap());
        proof {
            assert forall|k: int| 0 <= k < batch@.len() implies (#[trigger] batch@[k]).wf()
                && batch@[k].line.a != 0 && state_has_seg(sl0, batch@[k]) by {}
            // The event's own two segments are distinct and stand at the
            // front of the batch.
            if e.first_line == e.second_line->0 {
                assert(seg_isect(e.first_line, e.second_line->0) is None);
                assert(false);
            }
            assert(b_one.len() == 1 && b_one[0] == e.first_line);
            assert(batch@[0] == e.first_line);
            let k1 = choose|k1: int| 0 <= k1 < batch@.len() && batch@[k1] == e.second_line->0;
            assert(k1 == 1);
            assert(batch@.len() == 2 && batch@[1] == e.second_line->0);
        }
        loop
            invariant
                self.wf(),
                self.segments == old(self).segments,
                self.intersection_points == old(self).intersection_points,
                self.current_event == old(self).current_event,
                self.current_x == old(self).current_x,
                forall|s: LineSegment2D|
                    #[trigger] state_has_seg(*self, s) ==> state_has_seg(sl0, s),
                forall|k: int|
                    0 <= k < batch@.len() ==> (#[trigger] batch@[k]).wf() && batch@[k].line.a != 0
                        && state_has_seg(sl0, batch@[k]),
                batch@.len() >= 2,
                batch@[0] == e.first_line,
                batch@[1] == e.second_line->0,
                forall|ev: EventPoint|
                    #[trigger] self.event_queue@.contains(ev) ==> old(self).event_queue@.contains(
                        ev,
                    ),
                forall|ev: EventPoint|
                    #[trigger] old(self).event_queue@.contains(ev) ==> self.event_queue@.contains(
                        ev,
                    ) || (ev.event_type == EventType::IsIntersection && ev.point == e.point),
            ensures
                self.wf(),
                self.segments == old(self).segments,
                self.intersection_points == old(self).intersection_points,
                self.current_event == old(self).current_event,
                self.current_x == old(self).current_x,
                forall|s: LineSegment2D|
                    #[trigger] state_has_seg(*self, s) ==> state_has_seg(sl0, s),
                forall|k: int|
                    0 <= k < batch@.len() ==> (#[trigger] batch@[k]).wf() && batch@[k].line.a != 0
                        && state_has_seg(sl0, batch@[k]),
                batch@.len() >= 2,
                batch@[0] == e.first_line,
                batch@[1] == e.second_line->0,
                forall|ev: EventPoint|
                    #[trigger] self.event_queue@.contains(ev) ==> old(self).event_queue@.contains(
                        ev,
                    ),
                forall|ev: EventPoint|
                    #[trigger] old(self).event_queue@.contains(ev) ==> self.event_queue@.contains(
                        ev,
                    ) || (ev.event_type == EventType::IsIntersection && ev.point == e.point),
            decreases self.event_queue@.len(),
        {
            if self.event_queue.len() == 0 {
                break;
            }
            let front = self.event_queue[0];
            let same = match front.event_type {
                EventType::IsIntersection => front.point == e.point,
                _ => false,
            };
            if !same {
                break;
            }
            let ghost pre = *self;
            let e2 = self.pop_first_event();
            proof {
                assert(event_mentions(pre.event_queue@[0], e2.first_line));
                assert(state_has_seg(pre, e2.first_line));
                assert(state_has_seg(pre, e2.second_line->0));
                assert forall|ev: EventPoint| #[trigger] self.event_queue@.contains(ev) implies
                    pre.event_queue@.contains(ev) by {
                    lemma_queue_tail_membership(pre.event_queue@, ev);
                }
                assert forall|ev: EventPoint| #[trigger] pre.event_queue@.contains(ev) implies
                    self.event_queue@.contains(ev) || (ev.event_type
                    == EventType::IsIntersection && ev.point == e.point) by {
                    lemma_queue_tail_membership(pre.event_queue@, ev);
                    if ev == pre.event_queue@[0] {
                        assert(ev.event_type == EventType::IsIntersection && ev.point == e.point);
                    }
                }
            }
            let ghost b0 = batch@;
            push_unique_seg(&mut batch, e2.first_line);
            let ghost b1 = batch@;
            push_unique_seg(&mut batch, e2.second_line.unwrap());
            proof {
                assert forall|k: int| 0 <= k < batch@.len() implies (#[trigger] batch@[k]).wf()
                    && batch@[k].line.a != 0 && state_has_seg(sl0, batch@[k]) by {
                    if b1.contains(batch@[k]) {
                        let k1 = choose|k1: int| 0 <= k1 < b1.len() && b1[k1] == batch@[k];
                        if b0.contains(b1[k1]) {
                            let k0 = choose|k0: int| 0 <= k0 < b0.len() && b0[k0] == b1[k1];
                            assert(b0[k0].wf());
                        }
                    }
                }
            }
        }
        let ghost sld = *self;
        let ghost pts0 = self.intersection_points@;
        let mut bi: usize = 0;
        while bi < batch.len()
            invariant
                self.wf(),
                self.event_queue == sld.event_queue,
                self.segments == sld.segments,
                self.current_event == sld.current_event,
                self.current_x == sld.current_x,
                pts0 == old(self).intersection_points@,
                e.wf(),
                e.event_type == EventType::IsIntersection,
                forall|s: LineSegment2D| #[trigger] state_has_seg(sld, s) ==> state_has_seg(sl0, s),
                forall|k: int|
                    0 <= k < batch@.len() ==> (#[trigger] batch@[k]).wf() && batch@[k].line.a != 0
                        && state_has_seg(sl0, batch@[k]),
                batch@.len() >= 2,
                batch@[0] == e.first_line,
                batch@[1] == e.second_line->0,
                0 <= bi <= batch@.len(),
                pts0.is_prefix_of(self.intersection_points@),
                bi > 0 ==> self.intersection_points@.contains(e.point),
                forall|k: int|
                    pts0.len() <= k < self.intersection_points@.len() ==> point_sound(
                        sl0,
                        #[trigger] self.intersection_points@[k],
                    ),
            decreases batch@.len() - bi,
        {
            let mut bj: usize = bi + 1;
            while bj < batch.len()
                invariant
                    self.wf(),
                    self.event_queue == sld.event_queue,
                    self.segments == sld.segments,
                    self.current_event == sld.current_event,
                    self.current_x == sld.current_x,
                    pts0 == old(self).intersection_points@,
                    e.wf(),
                    e.event_type == EventType::IsIntersection,
                    forall|s: LineSegment2D|
                        #[trigger] state_has_seg(sld, s) ==> state_has_seg(sl0, s),
                    forall|k: int|
                        0 <= k < batch@.len() ==> (#[trigger] batch@[k]).wf() && batch@[k].line.a
                            != 0 && state_has_seg(sl0, batch@[k]),
                    batch@.len() >= 2,
                    batch@[0] == e.first_line,
                    batch@[1] == e.second_line->0,
                    0 <= bi < batch@.len(),
                    bi < bj <= batch@.len(),
                    pts0.is_prefix_of(self.intersection_points@),
                    (bi > 0 || bj > 1) ==> self.intersection_points@.contains(e.point),
                    forall|k: int|
                        pts0.len() <= k < self.intersection_points@.len() ==> point_sound(
                            sl0,
                            #[trigger] self.intersection_points@[k],
                        ),
                decreases batch@.len() - bj,
            {
                let r = batch[bi].intersects(&batch[bj]);
                if let Some(q) = r {
                    let ghost ptsa = self.intersection_points@;
                    self.intersection_points.push(q);
                    proof {
                        lemma_push_keeps_prefix(pts0, ptsa, q);
                        assert(seg_isect(batch@[bi as int], batch@[bj as int]) == Some(q));
                        assert(point_sound(sl0, q));
                        if bi == 0 && bj == 1 {
                            assert(q == e.point);
                            assert(self.intersection_points@[ptsa.len() as int] == q);
                            assert(self.intersection_points@.contains(e.point));
                        } else if ptsa.contains(e.point) {
                            lemma_push_keeps_contains(ptsa, e.point, q);
                        }
                    }
                } else {
                    proof {
                        if bi == 0 && bj == 1 {
                            assert(seg_isect(e.first_line, e.second_line->0) == Some(e.point));
                            assert(false);
                        }
                    }
                }
                bj += 1;
            }
            bi += 1;
        }
        let x_eps: i64 = 4 * self.current_x + 3;
        let mut upper_seg = batch[0];
        let mut upper_key = seg_key(&upper_seg, x_eps);
        let mut lower_seg = upper_seg;
        let mut lower_key = upper_key;
        let mut k: usize = 1;
        while k < batch.len()
            invariant
                forall|j: int|
                    0 <= j < batch@.len() ==> (#[trigger] batch@[j]).wf() && batch@[j].line.a != 0
                        && state_has_seg(sl0, batch@[j]),
                batch@.len() >= 1,
                1 <= k <= batch@.len(),
                -4 * COORD_LIMIT <= x_eps <= 4 * COORD_LIMIT + 3,
                upper_seg.wf() && upper_seg.line.a != 0 && state_has_seg(sl0, upper_seg),
                lower_seg.wf() && lower_seg.line.a != 0 && state_has_seg(sl0, lower_seg),
                upper_key.bounded(),
                lower_key.bounded(),
            decreases batch@.len() - k,
        {
            let cand = batch[k];
            let cand_key = seg_key(&cand, x_eps);
            if entry_lt_exec(
                &StatusEntry { key: upper_key, seg: upper_seg },
                &StatusEntry { key: cand_key, seg: cand },
            ) {
                upper_seg = cand;
                upper_key = cand_key;
            }
            if entry_lt_exec(
                &StatusEntry { key: cand_key, seg: cand },
                &StatusEntry { key: lower_key, seg: lower_seg },
            ) {
                lower_seg = cand;
                lower_key = cand_key;
            }
            k += 1;
        }
        proof {
            assert(self.event_queue@ == sld.event_queue@);
            assert(self.segments@ == sld.segments@);
            lemma_state_has_seg_frame(*self, sld);
        }
        let seg_b = self.get_next_neighbor(&upper_key, &upper_seg);
        let seg_a = self.get_prev_neighbor(&lower_key, &lower_seg);
        proof {
            if seg_a is Some {
                assert(state_has_seg(*self, seg_a->0) && seg_a->0.wf() && seg_a->0.line.a != 0);
                assert(state_has_seg(sl0, seg_a->0));
            }
            if seg_b is Some {
                assert(state_has_seg(*self, seg_b->0) && seg_b->0.wf() && seg_b->0.line.a != 0);
                assert(state_has_seg(sl0, seg_b->0));
            }
        }
        if let Some(sa) = seg_a {
            self.try_enqueue_isect(lower_seg, sa);
        }
        if let Some(sb) = seg_b {
            self.try_enqueue_isect(sb, upper_seg);
        }
        proof {
            assert forall|s: LineSegment2D| #[trigger] state_has_seg(*self, s) implies
                state_has_seg(sl0, s) by {}
            assert(self.intersection_points@.contains(e.point));
            assert forall|ev: EventPoint| #[trigger] self.event_queue@.contains(ev) implies
                old(self).event_queue@.contains(ev) || new_isect_event(ev, e.point.x as int) by {
                if sld.event_queue@.contains(ev) {
                }
            }
            assert forall|ev: EventPoint| #[trigger] old(self).event_queue@.contains(ev) implies
                self.event_queue@.contains(ev) || (ev.event_type == EventType::IsIntersection
                && ev.point == e.point) by {
                if sld.event_queue@.contains(ev) {
                }
            }
        }
    }
}

} // verus!
