//! The sweep: turns directed polygon edges into trapezoids.
//!
//! A horizontal line moves from the smallest `y` to the largest. The edges it
//! crosses are kept in left-to-right order; the span between two neighbours is
//! an open trapezoid whose top is known and whose bottom is fixed by the next
//! event that touches either side. Events are the upper and lower endpoints of
//! the edges and the crossings of neighbouring edges, found as neighbours
//! meet. A span that is closed becomes a trapezoid if it has a positive height
//! and its winding count passes the fill rule.
//!
//! After every event the sweep line is brought into order at the event's
//! position: edges that pass through it and stand in the wrong order for the
//! heights below exchange places, one pair of neighbours at a time. So the
//! result does not depend on which crossing of several edges through one
//! point happens to be queued, nor on the order in which the edges are given.
//!
//! The sweep is described twice: as a function on plain sequences, `step`,
//! and as the program that `Sweep::step` runs on the arena of the sweep line.
//! The program is proved to compute the function.

use crate::event::{Event, EventType};
use crate::geometry::{edges_wf, Edge, Rational, SweepPoint};
use crate::intersect::{crossing_below, intersection_below, lemma_crossing_within};
use crate::progress::{
    all_after,
    all_valid,
    events_ahead,
    is_after,
    lemma_events_ahead,
    lemma_events_ahead_limit,
    lemma_start_before_end,
    step_limit,
    valid_event,
};
use crate::queue::{
    end_event,
    endpoint_queue,
    enqueue,
    event_list_from_edges,
    events_wf,
    insert_if_absent,
    is_endpoint_event,
    lemma_endpoint_queue,
    lemma_enqueue,
    pop_min,
    sorted,
    start_event,
};
use crate::scan_line::{
    at,
    closed,
    exchanged,
    insert_position,
    inverted,
    is_gap,
    lemma_inverted_one_way,
    settled,
    ScanLine,
};
use crate::trapezoid::{FillRule, SweepError, Trapezoid};
use vstd::prelude::*;

verus! {

/// The state of a sweep as plain sequences.
pub struct SweepModel {
    /// The events still to handle, in increasing order.
    pub queue: Seq<Event>,
    /// The edges on the sweep line, from left to right.
    pub order: Seq<usize>,
    /// For each edge, the height at which the span to its right began.
    pub tops: Seq<Rational>,
    /// The trapezoids produced so far.
    pub traps: Seq<Trapezoid>,
}

/// The queue after two edges have become neighbours at height `y`: if they
/// cross strictly below `y`, the crossing is put into the queue unless it is
/// there already. The crossing names the edge of the smaller index first, so
/// that a pair of edges has one crossing event whichever of them is on the
/// left.
pub open spec fn scheduled(
    edges: Seq<Edge>,
    queue: Seq<Event>,
    left: Option<usize>,
    right: Option<usize>,
    y: Rational,
) -> Seq<Event> {
    match (left, right) {
        (Some(l), Some(r)) => {
            let (a, b) = if l <= r { (l, r) } else { (r, l) };
            match crossing_below(edges[a as int], edges[b as int], y) {
                Some(p) => enqueue(
                    queue,
                    Event {
                        edge_left: a,
                        edge_right: Some(b),
                        point: p,
                        event_type: EventType::Intersection,
                    },
                ),
                None => queue,
            }
        },
        _ => queue,
    }
}

/// The heights with the one of edge `id`, if any, set to `y`.
pub open spec fn with_top(tops: Seq<Rational>, id: Option<usize>, y: Rational) -> Seq<Rational> {
    match id {
        Some(i) => tops.update(i as int, y),
        None => tops,
    }
}

/// An edge enters the sweep line.
///
/// The edge goes where `insert_position` says, unless it is on the sweep line
/// already. An edge on the same segment as one on the line goes immediately
/// to its left: both count for the winding of the spans to their left, and
/// the span between them has no width. The span the edge splits is closed;
/// the spans on both sides of it begin at this height. Both new pairs of
/// neighbours are tested for a crossing.
pub open spec fn start_step(edges: Seq<Edge>, rule: FillRule, m: SweepModel, e: Event) -> SweepModel {
    let id = e.edge_left;
    let y = e.point.y;
    let k = insert_position(edges, m.order, e.point, edges[id as int].line, 0);
    if m.order.contains(id) {
        m
    } else {
        let prev = at(m.order, k - 1);
        let next = at(m.order, k);
        let first = scheduled(edges, m.queue, prev, Some(id), y);
        SweepModel {
            queue: scheduled(edges, first, Some(id), next, y),
            order: m.order.insert(k, id),
            tops: with_top(m.tops, prev, y).update(id as int, y),
            traps: closed(edges, rule, m.order, m.tops, m.traps, k - 1, y),
        }
    }
}

/// An edge leaves the sweep line.
///
/// Its two neighbours, which now meet, are tested for a crossing. The span to
/// its right and the span to its left are closed; the span of its left
/// neighbour begins anew at this height and reaches to its right neighbour.
/// Nothing happens if the edge is not on the sweep line.
pub open spec fn end_step(edges: Seq<Edge>, rule: FillRule, m: SweepModel, e: Event) -> SweepModel {
    let id = e.edge_left;
    let y = e.point.y;
    let k = m.order.index_of(id);
    if !m.order.contains(id) {
        m
    } else {
        let prev = at(m.order, k - 1);
        let next = at(m.order, k + 1);
        let own = closed(edges, rule, m.order, m.tops, m.traps, k, y);
        SweepModel {
            queue: scheduled(edges, m.queue, prev, next, y),
            order: m.order.remove(k),
            tops: with_top(m.tops, prev, y),
            traps: closed(edges, rule, m.order, m.tops, own, k - 1, y),
        }
    }
}

/// The neighbours at positions `k` and `k + 1` exchange places at height `y`.
///
/// The spans right of the left edge, right of the right edge and left of the
/// left edge are closed, in this order, and begin anew at this height. The two
/// edges exchange places, and both new pairs of neighbours are tested for a
/// crossing.
pub open spec fn swap_step(
    edges: Seq<Edge>,
    rule: FillRule,
    m: SweepModel,
    k: int,
    y: Rational,
) -> SweepModel {
    let l = m.order[k];
    let r = m.order[k + 1];
    let prev = at(m.order, k - 1);
    let next = at(m.order, k + 2);
    let left = closed(edges, rule, m.order, m.tops, m.traps, k, y);
    let right = closed(edges, rule, m.order, m.tops, left, k + 1, y);
    let first = scheduled(edges, m.queue, prev, Some(r), y);
    SweepModel {
        queue: scheduled(edges, first, Some(l), next, y),
        order: exchanged(m.order, k),
        tops: with_top(m.tops.update(l as int, y).update(r as int, y), prev, y),
        traps: closed(edges, rule, m.order, m.tops, right, k - 1, y),
    }
}

/// The edge at position `i` moves left past every neighbour with which it is
/// inverted at `p`, one exchange at a time.
pub open spec fn sink(edges: Seq<Edge>, rule: FillRule, m: SweepModel, p: SweepPoint, i: int) -> SweepModel
    decreases i,
{
    if 0 < i < m.order.len() && inverted(edges, p, m.order[i - 1], m.order[i]) {
        sink(edges, rule, swap_step(edges, rule, m, i - 1, p.y), p, i - 1)
    } else {
        m
    }
}

/// The edges at the positions from `i` to `n` are sunk, from left to right.
pub open spec fn settle_from(
    edges: Seq<Edge>,
    rule: FillRule,
    m: SweepModel,
    p: SweepPoint,
    i: int,
    n: int,
) -> SweepModel
    decreases n - i,
{
    if i < 0 || i >= n {
        m
    } else {
        settle_from(edges, rule, sink(edges, rule, m, p, i), p, i + 1, n)
    }
}

/// The sweep line is brought into order at `p`: every edge, from left to
/// right, is sunk. Edges that cross at `p` exchange places here, however many
/// of them pass through the point and whichever of their crossings was queued.
pub open spec fn settle(edges: Seq<Edge>, rule: FillRule, m: SweepModel, p: SweepPoint) -> SweepModel {
    settle_from(edges, rule, m, p, 0, m.order.len() as int)
}

/// The state after the least event of the queue has been taken off and its
/// edge has entered or left the sweep line. A crossing changes nothing here:
/// it only brings the sweep to its position.
pub open spec fn base_step(edges: Seq<Edge>, rule: FillRule, m: SweepModel) -> SweepModel {
    let e = m.queue[0];
    let rest = SweepModel {
        queue: m.queue.drop_first(),
        order: m.order,
        tops: m.tops,
        traps: m.traps,
    };
    match e.event_type {
        EventType::Start => start_step(edges, rule, rest, e),
        EventType::End => end_step(edges, rule, rest, e),
        EventType::Intersection => rest,
    }
}

/// The state after the least event of the queue has been handled: its edge
/// has entered or left the sweep line, and the line has been brought into
/// order at the event's position.
pub open spec fn step(edges: Seq<Edge>, rule: FillRule, m: SweepModel) -> SweepModel {
    settle(edges, rule, base_step(edges, rule, m), m.queue[0].point)
}

/// The state after at most `fuel` events have been handled, fewer if the
/// queue runs empty before.
pub open spec fn run(edges: Seq<Edge>, rule: FillRule, m: SweepModel, fuel: nat) -> SweepModel
    decreases fuel,
{
    if fuel == 0 || m.queue.len() == 0 {
        m
    } else {
        run(edges, rule, step(edges, rule, m), (fuel - 1) as nat)
    }
}

/// The state before the first event: every endpoint event is queued, no edge
/// is on the sweep line, and every span's top is at height zero.
pub open spec fn initial(edges: Seq<Edge>) -> SweepModel {
    SweepModel {
        queue: endpoint_queue(edges, edges.len() as int),
        order: Seq::empty(),
        tops: Seq::new(edges.len(), |i: int| Rational::of_int(0)),
        traps: Seq::empty(),
    }
}

/// The state in which a sweep over the edges ends.
pub open spec fn sweep(edges: Seq<Edge>, rule: FillRule) -> SweepModel {
    run(edges, rule, initial(edges), step_limit(edges.len()))
}

/// Every trapezoid of the list has a positive height.
pub open spec fn all_have_height(traps: Seq<Trapezoid>) -> bool {
    forall|i: int| 0 <= i < traps.len() ==> (#[trigger] traps[i]).has_height()
}

/// What the queue of a sweep satisfies while the event `cur` is handled: it
/// is strictly increasing, and each of its events is valid for the edges and
/// comes after `cur`.
pub open spec fn queue_ok(edges: Seq<Edge>, q: Seq<Event>, cur: Event) -> bool {
    &&& sorted(q)
    &&& events_wf(q)
    &&& all_valid(edges, q)
    &&& all_after(Some(cur), q)
}

/// The queue `r` holds every event of `q`, and beyond those only crossings.
pub open spec fn grown(q: Seq<Event>, r: Seq<Event>) -> bool {
    &&& forall|x: Event| q.contains(x) ==> r.contains(x)
    &&& forall|x: Event|
        r.contains(x) ==> q.contains(x) || x.event_type == EventType::Intersection
}

/// The `End` event of every edge on the sweep line, and of every edge whose
/// `Start` event is queued, is in the queue.
pub open spec fn ends_pending(edges: Seq<Edge>, m: SweepModel) -> bool {
    &&& forall|k: int|
        0 <= k < m.order.len() ==> m.queue.contains(
            end_event(edges, (#[trigger] m.order[k]) as int),
        )
    &&& forall|i: int|
        0 <= i < m.queue.len() && (#[trigger] m.queue[i]).event_type == EventType::Start
            ==> m.queue.contains(end_event(edges, m.queue[i].edge_left as int))
}

/// Testing two new neighbours for a crossing keeps the queue as a sweep needs
/// it: a crossing strictly below the current event is a valid event that
/// comes after it, and it enters the queue at most once.
pub proof fn lemma_scheduled(
    edges: Seq<Edge>,
    q: Seq<Event>,
    left: Option<usize>,
    right: Option<usize>,
    cur: Event,
)
    requires
        edges_wf(edges),
        cur.wf(),
        queue_ok(edges, q, cur),
        left.is_some() ==> left.unwrap() < edges.len(),
        right.is_some() ==> right.unwrap() < edges.len(),
    ensures
        queue_ok(edges, scheduled(edges, q, left, right, cur.point.y), cur),
        grown(q, scheduled(edges, q, left, right, cur.point.y)),
{
    let r = scheduled(edges, q, left, right, cur.point.y);
    if left.is_some() && right.is_some() {
        let (a, b) = if left.unwrap() <= right.unwrap() {
            (left.unwrap(), right.unwrap())
        } else {
            (right.unwrap(), left.unwrap())
        };
        assert(edges[a as int].wf() && edges[b as int].wf());
        match crossing_below(edges[a as int], edges[b as int], cur.point.y) {
            Some(p) => {
                let x = Event {
                    edge_left: a,
                    edge_right: Some(b),
                    point: p,
                    event_type: EventType::Intersection,
                };
                lemma_crossing_within(edges[a as int], edges[b as int]);
                lemma_enqueue(q, x);
                assert(r == enqueue(q, x));
                assert(valid_event(edges, x));
                assert(cur.lt(x));
                assert forall|i: int| 0 <= i < r.len() implies valid_event(edges, #[trigger] r[i])
                    && is_after(Some(cur), r[i]) by {
                    assert(enqueue(q, x).contains(r[i]));
                    if r[i] != x {
                        assert(q.contains(r[i]));
                        let j = choose|j: int| 0 <= j < q.len() && q[j] == r[i];
                        assert(valid_event(edges, q[j]));
                    }
                }
            },
            None => {},
        }
    }
}

/// In an order without repetition an edge is found at its own position.
pub proof fn lemma_position(order: Seq<usize>, k: int)
    requires
        order.no_duplicates(),
        0 <= k < order.len(),
    ensures
        order.contains(order[k]),
        order.index_of(order[k]) == k,
{
    let j = order.index_of(order[k]);
    assert(order[j] == order[k]);
}

/// Letting an edge enter or leave keeps the `End` events of the edges on the
/// sweep line in the queue: an edge enters the line only while its `End` event is queued,
/// and that event leaves the queue only as the edge leaves the line.
pub proof fn lemma_base_ends_pending(edges: Seq<Edge>, rule: FillRule, m: SweepModel)
    requires
        edges_wf(edges),
        edges.len() <= usize::MAX,
        m.queue.len() > 0,
        sorted(m.queue),
        events_wf(m.queue),
        all_valid(edges, m.queue),
        m.order.no_duplicates(),
        forall|k: int| 0 <= k < m.order.len() ==> (#[trigger] m.order[k]) < edges.len(),
        ends_pending(edges, m),
    ensures
        ends_pending(edges, base_step(edges, rule, m)),
{
    let e = m.queue[0];
    let q = m.queue.drop_first();
    let y = e.point.y;
    let after = base_step(edges, rule, m);
    assert(valid_event(edges, e) && e.wf());
    assert forall|i: int| 0 <= i < q.len() implies (#[trigger] q[i]) == m.queue[i + 1] by {}
    assert(queue_ok(edges, q, e)) by {
        assert forall|i: int, j: int| 0 <= i < j < q.len() implies (#[trigger] q[i]).lt(
            #[trigger] q[j],
        ) by {
            assert(m.queue[i + 1].lt(m.queue[j + 1]));
        }
        assert forall|i: int| 0 <= i < q.len() implies (#[trigger] q[i]).wf() && valid_event(
            edges,
            q[i],
        ) && is_after(Some(e), q[i]) by {
            assert(m.queue[0].lt(m.queue[i + 1]));
            assert(m.queue[i + 1].wf());
            assert(valid_event(edges, m.queue[i + 1]));
        }
    }
    // what is in the queue besides the event itself stays in the queue
    assert forall|x: Event| m.queue.contains(x) && x != e implies q.contains(x) by {
        let j = choose|j: int| 0 <= j < m.queue.len() && m.queue[j] == x;
        assert(q[j - 1] == x);
    }
    assert forall|x: Event| q.contains(x) implies m.queue.contains(x) && e.lt(x) by {
        let j = choose|j: int| 0 <= j < q.len() && q[j] == x;
        assert(m.queue[j + 1] == x);
        assert(m.queue[0].lt(m.queue[j + 1]));
    }
    // the queue after the step holds the rest of the queue, and new crossings
    let (l1, r1, l2, r2) = pairs_tested(edges, m, e);
    let first = scheduled(edges, q, l1, r1, y);
    let second = scheduled(edges, first, l2, r2, y);
    lemma_step_queue(edges, rule, m);
    lemma_scheduled(edges, q, l1, r1, e);
    lemma_scheduled(edges, first, l2, r2, e);
    assert(after.queue == q || after.queue == second);
    assert(grown(q, after.queue));
    let id = e.edge_left;
    assert forall|k: int| 0 <= k < after.order.len() implies after.queue.contains(
        end_event(edges, (#[trigger] after.order[k]) as int),
    ) by {
        let a = after.order[k];
        let end = end_event(edges, a as int);
        lemma_step_order(edges, rule, m, k);
        if m.order.contains(a) {
            let j = m.order.index_of(a);
            assert(m.queue.contains(end_event(edges, m.order[j] as int)));
            // the end of an edge that stays on the line is not the event
            assert(end != e);
        } else {
            assert(e.event_type == EventType::Start && a == id);
            assert(m.queue.contains(end_event(edges, m.queue[0].edge_left as int)));
        }
        assert(q.contains(end));
    }
    assert forall|i: int|
        0 <= i < after.queue.len() && (#[trigger] after.queue[i]).event_type
            == EventType::Start implies after.queue.contains(
        end_event(edges, after.queue[i].edge_left as int),
    ) by {
        let x = after.queue[i];
        assert(after.queue.contains(x));
        assert(q.contains(x));
        let j = choose|j: int| 0 <= j < m.queue.len() && m.queue[j] == x;
        let end = end_event(edges, x.edge_left as int);
        assert(m.queue.contains(end_event(edges, m.queue[j].edge_left as int)));
        assert(valid_event(edges, m.queue[j]));
        lemma_start_before_end(edges, x.edge_left as int);
        if end == e {
            Event::lemma_trichotomy(e, x);
        }
        assert(q.contains(end));
    }
}

/// The two pairs of neighbours that are tested for a crossing as the edge of
/// the event `e` enters or leaves, each as a left and a right edge.
pub open spec fn pairs_tested(edges: Seq<Edge>, m: SweepModel, e: Event) -> (
    Option<usize>,
    Option<usize>,
    Option<usize>,
    Option<usize>,
) {
    let id = e.edge_left;
    match e.event_type {
        EventType::Start => {
            let k = insert_position(edges, m.order, e.point, edges[id as int].line, 0);
            (at(m.order, k - 1), Some(id), Some(id), at(m.order, k))
        },
        EventType::End => {
            let k = m.order.index_of(id);
            (at(m.order, k - 1), at(m.order, k + 1), None, None)
        },
        EventType::Intersection => (None, None, None, None),
    }
}

/// The queue after an edge has entered or left is the rest of the queue, with
/// the crossings of the pairs tested put in, or the rest of the queue as it is.
pub proof fn lemma_step_queue(edges: Seq<Edge>, rule: FillRule, m: SweepModel)
    requires
        m.queue.len() > 0,
    ensures
        ({
            let e = m.queue[0];
            let q = m.queue.drop_first();
            let (l1, r1, l2, r2) = pairs_tested(edges, m, e);
            let first = scheduled(edges, q, l1, r1, e.point.y);
            let after = base_step(edges, rule, m).queue;
            after == q || after == scheduled(edges, first, l2, r2, e.point.y)
        }),
{
}

/// An edge on the sweep line after an event was there before, unless the
/// event is its `Start`; and the edge whose `End` the event is, is gone.
pub proof fn lemma_step_order(edges: Seq<Edge>, rule: FillRule, m: SweepModel, k: int)
    requires
        m.queue.len() > 0,
        m.order.no_duplicates(),
        0 <= k < base_step(edges, rule, m).order.len(),
    ensures
        ({
            let e = m.queue[0];
            let a = base_step(edges, rule, m).order[k];
            &&& m.order.contains(a) || (e.event_type == EventType::Start && a == e.edge_left)
            &&& e.event_type == EventType::End ==> a != e.edge_left
        }),
{
    let e = m.queue[0];
    let id = e.edge_left;
    let after = base_step(edges, rule, m).order;
    let a = after[k];
    match e.event_type {
        EventType::Start => {
            let p = insert_position(edges, m.order, e.point, edges[id as int].line, 0);
            crate::scan_line::lemma_insert_position(
                edges,
                m.order,
                e.point,
                edges[id as int].line,
                0,
            );
            if after == m.order {
                assert(m.order[k] == a);
            } else {
                assert(after == m.order.insert(p, id));
                if k < p {
                    assert(m.order[k] == a);
                } else if k > p {
                    assert(m.order[k - 1] == a);
                }
            }
        },
        EventType::End => {
            if m.order.contains(id) {
                let p = m.order.index_of(id);
                assert(after == m.order.remove(p));
                let k0 = if k < p { k } else { k + 1 };
                assert(m.order[k0] == a);
                assert(m.order[k0] != m.order[p]);
            } else {
                assert(m.order[k] == a);
            }
        },
        EventType::Intersection => {
            assert(m.order[k] == a);
        },
    }
}

/// The order `after` is the order `before` with the edge at position `top`
/// moved left to position `j`, past the edges between.
pub open spec fn moved_left(before: Seq<usize>, after: Seq<usize>, top: int, j: int) -> bool {
    &&& 0 <= j <= top < before.len()
    &&& after.len() == before.len()
    &&& after[j] == before[top]
    &&& forall|t: int| 0 <= t < j ==> (#[trigger] after[t]) == before[t]
    &&& forall|t: int| j < t <= top ==> (#[trigger] after[t]) == before[t - 1]
    &&& forall|t: int| top < t < before.len() ==> (#[trigger] after[t]) == before[t]
}

/// A sweep in progress.
pub struct Sweep {
    rule: FillRule,
    queue: Vec<Event>,
    line: ScanLine,
    traps: Vec<Trapezoid>,
    last: Ghost<Option<Event>>,
}

impl Sweep {
    /// The edges being swept.
    pub closed spec fn edges(&self) -> Seq<Edge> {
        self.line.edges()
    }

    /// The fill rule of the sweep.
    pub closed spec fn rule(&self) -> FillRule {
        self.rule
    }

    /// The state of the sweep.
    pub closed spec fn model(&self) -> SweepModel {
        SweepModel {
            queue: self.queue@,
            order: self.line.order(),
            tops: self.line.tops(),
            traps: self.traps@,
        }
    }

    /// Number of possible events that lie ahead of the last one handled.
    pub closed spec fn remaining(&self) -> nat {
        events_ahead(self.line.edges(), self.last@, self.line.edges().len() as int)
    }

    /// The invariant of a sweep: the sweep line is well formed, the queue is
    /// strictly increasing and holds only valid events that come after the
    /// last one handled, among them the `End` event of every edge on the
    /// sweep line, the edges through the position of the last event stand in
    /// the order they have just below it, and every trapezoid has a positive
    /// height.
    pub closed spec fn wf(&self) -> bool {
        &&& self.line.wf()
        &&& sorted(self.queue@)
        &&& events_wf(self.queue@)
        &&& all_valid(self.line.edges(), self.queue@)
        &&& all_after(self.last@, self.queue@)
        &&& self.last@.is_some() ==> self.last@.unwrap().wf()
        &&& all_have_height(self.traps@)
        &&& ends_pending(self.line.edges(), self.model())
        &&& self.last@.is_some() ==> settled(
            self.line.edges(),
            self.line.order(),
            self.last@.unwrap().point,
        )
    }

    /// What the invariant says of the state.
    pub proof fn lemma_wf(&self)
        requires
            self.wf(),
        ensures
            edges_wf(self.edges()),
            sorted(self.model().queue),
            all_valid(self.edges(), self.model().queue),
            self.model().order.no_duplicates(),
            self.model().tops.len() == self.edges().len(),
            all_have_height(self.model().traps),
            self.model().queue.len() > 0 ==> self.remaining() > 0,
            self.model().queue.len() == 0 ==> self.model().order.len() == 0,
    {
        if self.queue@.len() == 0 && self.line.order().len() > 0 {
            assert(self.queue@.contains(end_event(self.line.edges(), self.line.order()[0] as int)));
        }
        if self.queue@.len() > 0 {
            let e = self.queue@[0];
            self.line.lemma_size();
            lemma_events_ahead(
                self.line.edges(),
                self.last@,
                e,
                self.line.edges().len() as int,
            );
        }
    }

    /// A sweep over the edges that has handled no event yet.
    pub fn new(edges: &Vec<Edge>, fill_rule: FillRule) -> (s: Sweep)
        requires
            edges_wf(edges@),
        ensures
            s.wf(),
            s.edges() == edges@,
            s.rule() == fill_rule,
            s.model() == initial(edges@),
            s.remaining() <= step_limit(edges@.len()),
    {
        let queue = event_list_from_edges(edges);
        let line = ScanLine::new(Rational::from_int(0), edges);
        let s = Sweep { rule: fill_rule, queue, line, traps: Vec::new(), last: Ghost(None) };
        proof {
            assert(edges@.len() == edges.len());
            lemma_endpoint_queue(edges@, edges@.len() as int);
            assert forall|i: int| 0 <= i < s.queue@.len() implies valid_event(
                edges@,
                #[trigger] s.queue@[i],
            ) by {
                let e = s.queue@[i];
                assert(s.queue@.contains(e));
                assert(is_endpoint_event(edges@, edges@.len() as int, e));
                let k = choose|k: int|
                    0 <= k < edges@.len() && !(#[trigger] edges@[k]).line.is_degenerate() && (e
                        == start_event(edges@, k) || e == end_event(edges@, k));
                assert(e.edge_left as int == k);
            }
            assert forall|i: int|
                0 <= i < s.queue@.len() && (#[trigger] s.queue@[i]).event_type
                    == EventType::Start implies s.queue@.contains(
                end_event(edges@, s.queue@[i].edge_left as int),
            ) by {
                let e = s.queue@[i];
                assert(valid_event(edges@, e));
                assert(is_endpoint_event(
                    edges@,
                    edges@.len() as int,
                    end_event(edges@, e.edge_left as int),
                ));
            }
            lemma_events_ahead_limit(edges@, None, edges@.len() as int);
            let twice = edges@.len() * (edges@.len() + 3);
            assert(2 * events_ahead(edges@, None, edges@.len() as int) <= twice);
            assert(step_limit(edges@.len()) == twice / 2);
        }
        s
    }

    /// The events still to handle, in the order in which they will be.
    pub fn pending(&self) -> (q: &Vec<Event>)
        ensures
            q@ == self.model().queue,
    {
        &self.queue
    }

    /// The trapezoids produced so far.
    pub fn trapezoids(&self) -> (t: &Vec<Trapezoid>)
        ensures
            t@ == self.model().traps,
    {
        &self.traps
    }

    /// The edges on the sweep line, from left to right.
    pub fn active_edges(&self) -> (order: Vec<usize>)
        requires
            self.wf(),
        ensures
            order@ == self.model().order,
    {
        self.line.active_order()
    }

    /// Tests two records that have become neighbours for a crossing strictly
    /// below the current event, and queues it.
    fn schedule(&mut self, left: Option<usize>, right: Option<usize>, cur: &Event)
        requires
            old(self).line.wf(),
            cur.wf(),
            queue_ok(old(self).line.edges(), old(self).queue@, *cur),
            left.is_some() ==> left.unwrap() < old(self).line.edges().len(),
            right.is_some() ==> right.unwrap() < old(self).line.edges().len(),
        ensures
            final(self).line == old(self).line,
            final(self).traps == old(self).traps,
            final(self).rule == old(self).rule,
            final(self).last == old(self).last,
            final(self).queue@ == scheduled(
                old(self).line.edges(),
                old(self).queue@,
                left,
                right,
                cur.point.y,
            ),
            queue_ok(final(self).line.edges(), final(self).queue@, *cur),
            grown(old(self).queue@, final(self).queue@),
    {
        proof {
            lemma_scheduled(self.line.edges(), self.queue@, left, right, *cur);
        }
        match (left, right) {
            (Some(l), Some(r)) => {
                let (lo, hi) = if l <= r {
                    (l, r)
                } else {
                    (r, l)
                };
                let a = self.line.record(lo).edge;
                let b = self.line.record(hi).edge;
                assert(a.wf() && b.wf());
                match intersection_below(&a, &b, &cur.point.y) {
                    Some(p) => {
                        insert_if_absent(&mut self.queue, Event::crossing(lo, hi, &p));
                    },
                    None => {},
                }
            },
            _ => {},
        }
    }

    fn handle_start(&mut self, e: &Event)
        requires
            old(self).line.wf(),
            e.wf(),
            valid_event(old(self).line.edges(), *e),
            queue_ok(old(self).line.edges(), old(self).queue@, *e),
            all_have_height(old(self).traps@),
        ensures
            final(self).line.wf(),
            final(self).line.edges() == old(self).line.edges(),
            final(self).rule == old(self).rule,
            final(self).last == old(self).last,
            queue_ok(final(self).line.edges(), final(self).queue@, *e),
            all_have_height(final(self).traps@),
            final(self).model() == start_step(
                old(self).line.edges(),
                old(self).rule,
                old(self).model(),
                *e,
            ),
    {
        let id = e.edge_left;
        let y = e.point.y;
        if self.line.is_active(id) {
            return ;
        }
        let edge = self.line.record(id).edge;
        assert(edge.wf());
        let gap = self.line.locate(&e.point, &edge.line);
        let ghost k = insert_position(self.line.edges(), self.line.order(), e.point, edge.line, 0);
        proof {
            assert(is_gap(self.line.order(), k, gap.prev, gap.next));
            if k > 0 {
                lemma_position(self.line.order(), k - 1);
                assert(self.line.order()[k - 1] < self.line.edges().len());
            }
            if k < self.line.order().len() {
                assert(self.line.order()[k] < self.line.edges().len());
            }
        }
        match gap.prev {
            Some(p) => {
                self.line.close_and_emit(p, &y, self.rule, &mut self.traps);
                self.line.set_top(p, y);
            },
            None => {},
        }
        self.line.set_top(id, y);
        proof {
            assert(is_gap(self.line.order(), k, gap.prev, gap.next));
        }
        self.line.insert_between(id, gap.prev, gap.next);
        self.schedule(gap.prev, Some(id), e);
        self.schedule(Some(id), gap.next, e);
    }

    fn handle_end(&mut self, e: &Event)
        requires
            old(self).line.wf(),
            e.wf(),
            valid_event(old(self).line.edges(), *e),
            queue_ok(old(self).line.edges(), old(self).queue@, *e),
            all_have_height(old(self).traps@),
        ensures
            final(self).line.wf(),
            final(self).line.edges() == old(self).line.edges(),
            final(self).rule == old(self).rule,
            final(self).last == old(self).last,
            queue_ok(final(self).line.edges(), final(self).queue@, *e),
            all_have_height(final(self).traps@),
            final(self).model() == end_step(
                old(self).line.edges(),
                old(self).rule,
                old(self).model(),
                *e,
            ),
    {
        let id = e.edge_left;
        let y = e.point.y;
        if !self.line.is_active(id) {
            return ;
        }
        let record = self.line.record(id);
        let ghost k = self.line.position(id);
        proof {
            assert(self.line.order()[k] == id);
            if k > 0 {
                lemma_position(self.line.order(), k - 1);
                assert(self.line.order()[k - 1] < self.line.edges().len());
            }
            if k + 1 < self.line.order().len() {
                assert(self.line.order()[k + 1] < self.line.edges().len());
            }
        }
        self.schedule(record.prev, record.next, e);
        self.line.close_and_emit(id, &y, self.rule, &mut self.traps);
        match record.prev {
            Some(p) => {
                self.line.close_and_emit(p, &y, self.rule, &mut self.traps);
                self.line.set_top(p, y);
            },
            None => {},
        }
        self.line.remove(id);
    }

    /// Exchanges the neighbours `l` and `r`, `l` standing immediately left of
    /// `r`, at the position of the event `e`.
    fn swap(&mut self, l: usize, r: usize, e: &Event)
        requires
            old(self).line.wf(),
            e.wf(),
            queue_ok(old(self).line.edges(), old(self).queue@, *e),
            all_have_height(old(self).traps@),
            ends_pending(old(self).line.edges(), old(self).model()),
            old(self).line.order().contains(l),
            at(old(self).line.order(), old(self).line.position(l) + 1) == Some(r),
        ensures
            final(self).line.wf(),
            final(self).line.edges() == old(self).line.edges(),
            final(self).rule == old(self).rule,
            final(self).last == old(self).last,
            queue_ok(final(self).line.edges(), final(self).queue@, *e),
            all_have_height(final(self).traps@),
            ends_pending(final(self).line.edges(), final(self).model()),
            final(self).model() == swap_step(
                old(self).line.edges(),
                old(self).rule,
                old(self).model(),
                old(self).line.position(l),
                e.point.y,
            ),
    {
        let y = e.point.y;
        let left = self.line.record(l);
        let ghost k = self.line.position(l);
        let ghost before = self.model();
        proof {
            assert(self.line.order()[k] == l);
            lemma_position(self.line.order(), k + 1);
            if k > 0 {
                lemma_position(self.line.order(), k - 1);
                assert(self.line.order()[k - 1] < self.line.edges().len());
            }
            if k + 2 < self.line.order().len() {
                assert(self.line.order()[k + 2] < self.line.edges().len());
            }
        }
        let right = self.line.record(r);
        self.line.close_and_emit(l, &y, self.rule, &mut self.traps);
        self.line.close_and_emit(r, &y, self.rule, &mut self.traps);
        match left.prev {
            Some(p) => {
                self.line.close_and_emit(p, &y, self.rule, &mut self.traps);
            },
            None => {},
        }
        self.line.set_top(l, y);
        self.line.set_top(r, y);
        match left.prev {
            Some(p) => {
                self.line.set_top(p, y);
            },
            None => {},
        }
        self.line.swap_adjacent(l, r);
        self.schedule(left.prev, Some(r), e);
        self.schedule(Some(l), right.next, e);
        proof {
            let after = self.model();
            let edges = self.line.edges();
            assert(grown(before.queue, after.queue));
            assert forall|j: int| 0 <= j < after.order.len() implies after.queue.contains(
                end_event(edges, (#[trigger] after.order[j]) as int),
            ) by {
                let j0 = if j == k { k + 1 } else if j == k + 1 { k } else { j };
                assert(after.order[j] == before.order[j0]);
                assert(before.queue.contains(end_event(edges, before.order[j0] as int)));
            }
            assert forall|i: int|
                0 <= i < after.queue.len() && (#[trigger] after.queue[i]).event_type
                    == EventType::Start implies after.queue.contains(
                end_event(edges, after.queue[i].edge_left as int),
            ) by {
                let x = after.queue[i];
                assert(after.queue.contains(x));
                assert(before.queue.contains(x));
                let t = choose|t: int| 0 <= t < before.queue.len() && before.queue[t] == x;
                assert(before.queue.contains(end_event(edges, before.queue[t].edge_left as int)));
            }
        }
    }

    /// Moves the edge `c` left past every neighbour with which it is inverted
    /// at the position of the event `e`. Returns the position it comes to.
    fn sink(&mut self, c: usize, e: &Event) -> (pos: Ghost<int>)
        requires
            old(self).line.wf(),
            e.wf(),
            queue_ok(old(self).line.edges(), old(self).queue@, *e),
            all_have_height(old(self).traps@),
            ends_pending(old(self).line.edges(), old(self).model()),
            old(self).line.order().contains(c),
        ensures
            final(self).line.wf(),
            final(self).line.edges() == old(self).line.edges(),
            final(self).rule == old(self).rule,
            final(self).last == old(self).last,
            queue_ok(final(self).line.edges(), final(self).queue@, *e),
            all_have_height(final(self).traps@),
            ends_pending(final(self).line.edges(), final(self).model()),
            final(self).model() == sink(
                old(self).line.edges(),
                old(self).rule,
                old(self).model(),
                e.point,
                old(self).line.position(c),
            ),
            final(self).line.order().len() == old(self).line.order().len(),
            moved_left(
                old(self).line.order(),
                final(self).line.order(),
                old(self).line.position(c),
                pos@,
            ),
            pos@ > 0 ==> !inverted(
                final(self).line.edges(),
                e.point,
                final(self).line.order()[pos@ - 1],
                c,
            ),
            pos@ < old(self).line.position(c) ==> !inverted(
                final(self).line.edges(),
                e.point,
                c,
                final(self).line.order()[pos@ + 1],
            ),
    {
        let ghost start = self.model();
        let ghost edges = self.line.edges();
        let ghost top: int = self.line.position(c);
        let ghost mut j: int = top;
        loop
            invariant
                self.line.wf(),
                self.line.edges() == edges,
                self.rule == old(self).rule,
                self.last == old(self).last,
                e.wf(),
                queue_ok(edges, self.queue@, *e),
                all_have_height(self.traps@),
                ends_pending(edges, self.model()),
                0 <= j <= top < self.line.order().len(),
                self.line.order().len() == start.order.len(),
                start.order[top] == c,
                sink(edges, self.rule, self.model(), e.point, j) == sink(
                    edges,
                    self.rule,
                    start,
                    e.point,
                    top,
                ),
                moved_left(start.order, self.line.order(), top, j),
                j < top ==> !inverted(edges, e.point, c, self.line.order()[j + 1]),
            ensures
                self.line.wf(),
                self.line.edges() == edges,
                self.rule == old(self).rule,
                self.last == old(self).last,
                queue_ok(edges, self.queue@, *e),
                all_have_height(self.traps@),
                ends_pending(edges, self.model()),
                self.line.order().len() == start.order.len(),
                self.model() == sink(edges, self.rule, start, e.point, top),
                0 <= j <= top,
                moved_left(start.order, self.line.order(), top, j),
                j > 0 ==> !inverted(edges, e.point, self.line.order()[j - 1], c),
                j < top ==> !inverted(edges, e.point, c, self.line.order()[j + 1]),
            decreases j,
        {
            proof {
                assert(self.line.order()[j] == c);
                lemma_position(self.line.order(), j);
            }
            let rec = self.line.record(c);
            let p = match rec.prev {
                Some(p) => p,
                None => {
                    break ;
                },
            };
            proof {
                assert(self.line.order()[j - 1] == p);
                assert(self.line.order()[j - 1] < edges.len());
                assert(self.line.order()[j] < edges.len());
                lemma_position(self.line.order(), j - 1);
            }
            if !self.line.inverted_at(&e.point, p, c) {
                break ;
            }
            let ghost before = self.line.order();
            self.swap(p, c, e);
            proof {
                lemma_inverted_one_way(edges, e.point, p, c);
                assert(self.line.order() == exchanged(before, j - 1));
                j = j - 1;
            }
        }
        Ghost(j)
    }

    /// Brings the sweep line into order at the position of the event `e`.
    fn settle(&mut self, e: &Event)
        requires
            old(self).line.wf(),
            e.wf(),
            queue_ok(old(self).line.edges(), old(self).queue@, *e),
            all_have_height(old(self).traps@),
            ends_pending(old(self).line.edges(), old(self).model()),
        ensures
            final(self).line.wf(),
            final(self).line.edges() == old(self).line.edges(),
            final(self).rule == old(self).rule,
            final(self).last == old(self).last,
            queue_ok(final(self).line.edges(), final(self).queue@, *e),
            all_have_height(final(self).traps@),
            ends_pending(final(self).line.edges(), final(self).model()),
            final(self).model() == settle(
                old(self).line.edges(),
                old(self).rule,
                old(self).model(),
                e.point,
            ),
            settled(final(self).line.edges(), final(self).line.order(), e.point),
    {
        let ghost start = self.model();
        let ghost edges = self.line.edges();
        let ghost n: int = self.line.order().len() as int;
        let ghost mut i: int = 0;
        let mut cur = self.line.first();
        loop
            invariant
                self.line.wf(),
                self.line.edges() == edges,
                self.rule == old(self).rule,
                self.last == old(self).last,
                e.wf(),
                queue_ok(edges, self.queue@, *e),
                all_have_height(self.traps@),
                ends_pending(edges, self.model()),
                self.line.order().len() == n,
                0 <= i <= n,
                cur == at(self.line.order(), i),
                settle_from(edges, self.rule, self.model(), e.point, i, n) == settle_from(
                    edges,
                    self.rule,
                    start,
                    e.point,
                    0,
                    n,
                ),
                forall|k: int|
                    0 <= k && k + 1 < i ==> !inverted(
                        edges,
                        e.point,
                        #[trigger] self.line.order()[k],
                        self.line.order()[k + 1],
                    ),
            ensures
                self.line.wf(),
                self.line.edges() == edges,
                self.rule == old(self).rule,
                self.last == old(self).last,
                queue_ok(edges, self.queue@, *e),
                all_have_height(self.traps@),
                ends_pending(edges, self.model()),
                self.model() == settle_from(edges, self.rule, start, e.point, 0, n),
                settled(edges, self.line.order(), e.point),
            decreases n - i,
        {
            let c = match cur {
                Some(c) => c,
                None => {
                    break ;
                },
            };
            proof {
                lemma_position(self.line.order(), i);
            }
            let next = self.line.record(c).next;
            let ghost before = self.line.order();
            let pos = self.sink(c, e);
            proof {
                let after = self.line.order();
                let j = pos@;
                assert forall|k: int| 0 <= k && k + 1 < i + 1 implies !inverted(
                    edges,
                    e.point,
                    #[trigger] after[k],
                    after[k + 1],
                ) by {
                    if k + 1 < j {
                        assert(after[k] == before[k] && after[k + 1] == before[k + 1]);
                    } else if k + 1 == j {
                    } else if k == j {
                    } else {
                        assert(after[k] == before[k - 1] && after[k + 1] == before[k]);
                        assert(!inverted(edges, e.point, before[k - 1], before[k - 1 + 1]));
                    }
                }
            }
            cur = next;
            proof {
                i = i + 1;
            }
        }
    }

    /// Handles the least event of the queue and returns it; returns nothing,
    /// and changes nothing, if the queue is empty.
    pub fn step(&mut self) -> (handled: Option<Event>)
        requires
            old(self).wf(),
        ensures
            final(self).wf(),
            final(self).edges() == old(self).edges(),
            final(self).rule() == old(self).rule(),
            old(self).model().queue.len() == 0 ==> handled.is_none() && final(self).model() == old(
                self,
            ).model() && final(self).remaining() == old(self).remaining(),
            old(self).model().queue.len() > 0 ==> handled == Some(old(self).model().queue[0])
                && final(self).model() == step(old(self).edges(), old(self).rule(), old(self).model())
                && final(self).remaining() < old(self).remaining() && settled(
                final(self).edges(),
                final(self).model().order,
                old(self).model().queue[0].point,
            ),
    {
        let e = match pop_min(&mut self.queue) {
            Some(e) => e,
            None => {
                return None;
            },
        };
        proof {
            let q = old(self).queue@;
            let edges = self.line.edges();
            self.line.lemma_size();
            assert(e == q[0] && valid_event(edges, e) && e.wf() && is_after(old(self).last@, e));
            assert forall|i: int| 0 <= i < self.queue@.len() implies (#[trigger] self.queue@[i])
                == q[i + 1] by {}
            assert(queue_ok(edges, self.queue@, e)) by {
                assert forall|i: int, j: int| 0 <= i < j < self.queue@.len() implies (
                #[trigger] self.queue@[i]).lt(#[trigger] self.queue@[j]) by {
                    assert(q[i + 1].lt(q[j + 1]));
                }
                assert forall|i: int| 0 <= i < self.queue@.len() implies (
                #[trigger] self.queue@[i]).wf() && valid_event(edges, self.queue@[i]) && is_after(
                    Some(e),
                    self.queue@[i],
                ) by {
                    assert(q[0].lt(q[i + 1]));
                    assert(q[i + 1].wf());
                    assert(valid_event(edges, q[i + 1]));
                }
            }
            lemma_events_ahead(edges, old(self).last@, e, edges.len() as int);
            lemma_base_ends_pending(edges, self.rule, old(self).model());
        }
        match e.event_type {
            EventType::Start => self.handle_start(&e),
            EventType::End => self.handle_end(&e),
            EventType::Intersection => {},
        }
        self.settle(&e);
        self.last = Ghost(Some(e));
        Some(e)
    }

    /// Ends the sweep: hands out the trapezoids, or reports that edges are
    /// left on the sweep line, as they are while events remain to handle.
    pub fn finish(self) -> (r: Result<Vec<Trapezoid>, SweepError>)
        requires
            self.wf(),
        ensures
            match r {
                Ok(t) => self.model().order.len() == 0 && t@ == self.model().traps,
                Err(e) => self.model().order.len() > 0 && e == SweepError::OpenContour,
            },
    {
        if self.line.is_empty() {
            Ok(self.traps)
        } else {
            Err(SweepError::OpenContour)
        }
    }
}

/// Once the queue is empty the state no longer changes.
pub proof fn lemma_run_done(edges: Seq<Edge>, rule: FillRule, m: SweepModel, fuel: nat)
    requires
        m.queue.len() == 0,
    ensures
        run(edges, rule, m, fuel) == m,
{
}

/// Sweeps over the edges and returns the trapezoids of the spans that the fill
/// rule accepts, in the order in which the spans were closed.
///
/// The result is that of the step model, `sweep`. The sweep handles every
/// event, and it ends after at most `step_limit(edges.len())` of them: two
/// for each edge and one for each pair of edges.
///
/// The call always succeeds. An edge leaves the sweep line at its lower
/// endpoint, so no edge is left on the line when the last event has been
/// handled, and `OpenContour` is never returned: edges that do not form closed
/// contours are not detected, and the trapezoids then are those of the spans
/// as the winding counts of the given edges decide them.
pub fn scan(edges: Vec<Edge>, fill_rule: FillRule) -> (r: Result<Vec<Trapezoid>, SweepError>)
    requires
        edges_wf(edges@),
    ensures
        sweep(edges@, fill_rule).queue.len() == 0,
        sweep(edges@, fill_rule).order.len() == 0,
        r.is_ok(),
        match r {
            Ok(t) => sweep(edges@, fill_rule).order.len() == 0 && t@ == sweep(
                edges@,
                fill_rule,
            ).traps && all_have_height(t@),
            Err(e) => sweep(edges@, fill_rule).order.len() > 0 && e == SweepError::OpenContour,
        },
{
    let mut state = Sweep::new(&edges, fill_rule);
    let ghost mut fuel: nat = step_limit(edges@.len());
    loop
        invariant
            state.wf(),
            state.edges() == edges@,
            state.rule() == fill_rule,
            state.remaining() <= fuel,
            run(edges@, fill_rule, state.model(), fuel) == sweep(edges@, fill_rule),
        ensures
            state.wf(),
            state.model().queue.len() == 0,
            state.model() == sweep(edges@, fill_rule),
        decreases fuel,
    {
        let ghost before = state.model();
        proof {
            state.lemma_wf();
        }
        match state.step() {
            Some(_) => {
                proof {
                    assert(run(edges@, fill_rule, before, fuel) == run(
                        edges@,
                        fill_rule,
                        step(edges@, fill_rule, before),
                        (fuel - 1) as nat,
                    ));
                    fuel = (fuel - 1) as nat;
                }
            },
            None => {
                proof {
                    lemma_run_done(edges@, fill_rule, state.model(), fuel);
                }
                break ;
            },
        }
    }
    proof {
        state.lemma_wf();
    }
    state.finish()
}

} // verus!
