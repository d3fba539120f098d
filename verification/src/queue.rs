//! The event queue: a list of events kept strictly increasing in the event
//! order. Because the order is total, a strictly increasing list holds no
//! event twice, which is what keeps a crossing from being scheduled again.

use crate::event::{Event, EventType};
use crate::geometry::{edges_wf, Edge, SweepPoint};
use vstd::prelude::*;

verus! {

/// Every event of the list has a well-formed position.
pub open spec fn events_wf(q: Seq<Event>) -> bool {
    forall|i: int| 0 <= i < q.len() ==> (#[trigger] q[i]).wf()
}

/// The list is strictly increasing in the event order.
pub open spec fn sorted(q: Seq<Event>) -> bool {
    forall|i: int, j: int| 0 <= i < j < q.len() ==> (#[trigger] q[i]).lt(#[trigger] q[j])
}

/// First index at or after `from` whose event is not less than `e`; the
/// length of the list if there is none.
pub open spec fn first_not_before(q: Seq<Event>, e: Event, from: int) -> int
    decreases q.len() - from,
{
    if from < 0 || from >= q.len() {
        q.len() as int
    } else if q[from].lt(e) {
        first_not_before(q, e, from + 1)
    } else {
        from
    }
}

/// The list with `e` put at its place, or the list itself if an event with
/// the same key is already there.
pub open spec fn enqueue(q: Seq<Event>, e: Event) -> Seq<Event> {
    let i = first_not_before(q, e, 0);
    if i < q.len() && q[i].same_key(e) {
        q
    } else {
        q.insert(i, e)
    }
}

/// The list holds an event with the key of `e`.
pub open spec fn holds_key(q: Seq<Event>, e: Event) -> bool {
    exists|i: int| 0 <= i < q.len() && (#[trigger] q[i]).same_key(e)
}

/// `first_not_before` returns an index in range, every event between `from`
/// and it is less than `e`, and the event at it, if any, is not.
pub proof fn lemma_first_not_before(q: Seq<Event>, e: Event, from: int)
    requires
        0 <= from <= q.len(),
    ensures
        from <= first_not_before(q, e, from) <= q.len(),
        forall|k: int| from <= k < first_not_before(q, e, from) ==> (#[trigger] q[k]).lt(e),
        first_not_before(q, e, from) < q.len() ==> !q[first_not_before(q, e, from)].lt(e),
    decreases q.len() - from,
{
    if from < q.len() && q[from].lt(e) {
        lemma_first_not_before(q, e, from + 1);
    }
}

/// Putting an event into a sorted list keeps it sorted, adds the event unless
/// its key was present, and loses nothing.
pub proof fn lemma_enqueue(q: Seq<Event>, e: Event)
    requires
        sorted(q),
        events_wf(q),
        e.wf(),
    ensures
        sorted(enqueue(q, e)),
        events_wf(enqueue(q, e)),
        holds_key(q, e) ==> enqueue(q, e) == q,
        !holds_key(q, e) ==> enqueue(q, e) == q.insert(first_not_before(q, e, 0), e),
        enqueue(q, e).len() == q.len() + (if holds_key(q, e) { 0int } else { 1int }),
        forall|x: Event|
            enqueue(q, e).contains(x) <==> q.contains(x) || (x == e && !holds_key(q, e)),
{
    let i = first_not_before(q, e, 0);
    lemma_first_not_before(q, e, 0);
    let r = enqueue(q, e);
    if i < q.len() && q[i].same_key(e) {
        assert(holds_key(q, e));
    } else {
        assert forall|k: int| 0 <= k < q.len() implies !(#[trigger] q[k]).same_key(e) by {
            Event::lemma_trichotomy(q[k], e);
            if k >= i {
                Event::lemma_trichotomy(q[i], e);
                if k > i {
                    Event::lemma_transitive(e, q[i], q[k]);
                }
            }
        }
        assert forall|a: int, b: int| 0 <= a < b < r.len() implies (#[trigger] r[a]).lt(
            #[trigger] r[b],
        ) by {
            if b == i {
            } else if a == i {
                Event::lemma_trichotomy(q[i], e);
                if b - 1 > i {
                    Event::lemma_transitive(e, q[i], q[b - 1]);
                }
            } else {
                let a0 = if a < i { a } else { a - 1 };
                let b0 = if b < i { b } else { b - 1 };
                assert(q[a0].lt(q[b0]));
            }
        }
        assert forall|x: Event| r.contains(x) <==> q.contains(x) || x == e by {
            if r.contains(x) {
                let k = choose|k: int| 0 <= k < r.len() && r[k] == x;
                if k < i {
                    assert(q[k] == x);
                } else if k > i {
                    assert(q[k - 1] == x);
                }
            }
            if q.contains(x) {
                let k = choose|k: int| 0 <= k < q.len() && q[k] == x;
                if k < i {
                    assert(r[k] == x);
                } else {
                    assert(r[k + 1] == x);
                }
            }
            if x == e {
                assert(r[i] == x);
            }
        }
    }
}

/// The `Start` event of edge `i`: at the upper endpoint of its segment.
pub open spec fn start_event(edges: Seq<Edge>, i: int) -> Event {
    Event {
        edge_left: i as usize,
        edge_right: None,
        point: SweepPoint::of_point(edges[i].line.upper()),
        event_type: EventType::Start,
    }
}

/// The `End` event of edge `i`: at the lower endpoint of its segment.
pub open spec fn end_event(edges: Seq<Edge>, i: int) -> Event {
    Event {
        edge_left: i as usize,
        edge_right: None,
        point: SweepPoint::of_point(edges[i].line.lower()),
        event_type: EventType::End,
    }
}

/// The queue built from the first `n` edges: for each edge that is not a
/// single point, its `Start` and its `End` event, each put at its place.
pub open spec fn endpoint_queue(edges: Seq<Edge>, n: int) -> Seq<Event>
    decreases n,
{
    if n <= 0 {
        Seq::empty()
    } else {
        let q = endpoint_queue(edges, n - 1);
        if edges[n - 1].line.is_degenerate() {
            q
        } else {
            enqueue(enqueue(q, start_event(edges, n - 1)), end_event(edges, n - 1))
        }
    }
}

/// `e` is the `Start` or the `End` event of one of the first `n` edges, and
/// that edge is not a single point.
pub open spec fn is_endpoint_event(edges: Seq<Edge>, n: int, e: Event) -> bool {
    exists|i: int|
        0 <= i < n && !(#[trigger] edges[i]).line.is_degenerate() && (e == start_event(edges, i)
            || e == end_event(edges, i))
}

/// Number of edges among the first `n` that are not a single point.
pub open spec fn proper_edges(edges: Seq<Edge>, n: int) -> nat
    decreases n,
{
    if n <= 0 {
        0
    } else if edges[n - 1].line.is_degenerate() {
        proper_edges(edges, n - 1)
    } else {
        proper_edges(edges, n - 1) + 1
    }
}

/// The queue built from a list of edges is sorted, holds exactly the `Start`
/// and `End` events of the edges that are not single points, and so two events
/// for each of them.
pub proof fn lemma_endpoint_queue(edges: Seq<Edge>, n: int)
    requires
        edges_wf(edges),
        0 <= n <= edges.len(),
        edges.len() <= usize::MAX,
    ensures
        sorted(endpoint_queue(edges, n)),
        events_wf(endpoint_queue(edges, n)),
        forall|e: Event|
            endpoint_queue(edges, n).contains(e) <==> is_endpoint_event(edges, n, e),
        endpoint_queue(edges, n).len() == 2 * proper_edges(edges, n),
    decreases n,
{
    if n > 0 {
        lemma_endpoint_queue(edges, n - 1);
        let q = endpoint_queue(edges, n - 1);
        let s = start_event(edges, n - 1);
        let t = end_event(edges, n - 1);
        let edge = edges[n - 1];
        assert(edge.wf());
        if edge.line.is_degenerate() {
            assert forall|e: Event| is_endpoint_event(edges, n, e) implies is_endpoint_event(
                edges,
                n - 1,
                e,
            ) by {
                let i = choose|i: int|
                    0 <= i < n && !(#[trigger] edges[i]).line.is_degenerate() && (e == start_event(
                        edges,
                        i,
                    ) || e == end_event(edges, i));
                assert(i < n - 1);
            }
            assert forall|e: Event| is_endpoint_event(edges, n - 1, e) implies is_endpoint_event(
                edges,
                n,
                e,
            ) by {
                let i = choose|i: int|
                    0 <= i < n - 1 && !(#[trigger] edges[i]).line.is_degenerate() && (e
                        == start_event(edges, i) || e == end_event(edges, i));
                assert(0 <= i < n);
            }
        } else {
            lemma_enqueue(q, s);
            let q1 = enqueue(q, s);
            lemma_enqueue(q1, t);
            let q2 = enqueue(q1, t);
            assert(!holds_key(q, s)) by {
                if holds_key(q, s) {
                    let k = choose|k: int| 0 <= k < q.len() && (#[trigger] q[k]).same_key(s);
                    assert(q.contains(q[k]));
                    assert(is_endpoint_event(edges, n - 1, q[k]));
                }
            }
            assert(!holds_key(q1, t)) by {
                if holds_key(q1, t) {
                    let k = choose|k: int| 0 <= k < q1.len() && (#[trigger] q1[k]).same_key(t);
                    assert(q1.contains(q1[k]));
                    if q.contains(q1[k]) {
                        assert(is_endpoint_event(edges, n - 1, q1[k]));
                    }
                }
            }
            assert forall|e: Event| q2.contains(e) <==> is_endpoint_event(edges, n, e) by {
                if is_endpoint_event(edges, n, e) {
                    let i = choose|i: int|
                        0 <= i < n && !(#[trigger] edges[i]).line.is_degenerate() && (e
                            == start_event(edges, i) || e == end_event(edges, i));
                    if i < n - 1 {
                        assert(is_endpoint_event(edges, n - 1, e));
                    }
                }
                if q.contains(e) {
                    assert(is_endpoint_event(edges, n - 1, e));
                    let i = choose|i: int|
                        0 <= i < n - 1 && !(#[trigger] edges[i]).line.is_degenerate() && (e
                            == start_event(edges, i) || e == end_event(edges, i));
                    assert(is_endpoint_event(edges, n, e));
                }
                if e == s || e == t {
                    assert(!edges[n - 1].line.is_degenerate());
                    assert(is_endpoint_event(edges, n, e));
                }
            }
        }
    } else {
        assert forall|e: Event| !endpoint_queue(edges, n).contains(e) by {}
    }
}

/// Puts `e` at its place in the sorted list, unless an event with the same
/// key is already there. Returns whether the list grew.
pub fn insert_if_absent(events: &mut Vec<Event>, e: Event) -> (added: bool)
    requires
        events_wf(old(events)@),
        e.wf(),
    ensures
        final(events)@ == enqueue(old(events)@, e),
        added == (final(events)@.len() == old(events)@.len() + 1),
        !added ==> final(events)@ == old(events)@,
{
    let mut i: usize = 0;
    while i < events.len() && events[i].precedes(&e)
        invariant
            i <= events.len(),
            events@ == old(events)@,
            events_wf(events@),
            e.wf(),
            first_not_before(events@, e, 0) == first_not_before(events@, e, i as int),
        decreases events.len() - i,
    {
        i += 1;
    }
    if i < events.len() {
        let found = !e.precedes(&events[i]);
        proof {
            Event::lemma_trichotomy(events@[i as int], e);
        }
        if found {
            return false;
        }
    }
    events.insert(i, e);
    true
}

/// Takes the least event off a sorted list.
pub fn pop_min(events: &mut Vec<Event>) -> (e: Option<Event>)
    ensures
        old(events)@.len() == 0 ==> e.is_none() && final(events)@ == old(events)@,
        old(events)@.len() > 0 ==> e == Some(old(events)@[0]) && final(events)@ == old(
            events,
        )@.drop_first(),
{
    if events.len() == 0 {
        None
    } else {
        let e = events.remove(0);
        assert(events@ =~= old(events)@.drop_first());
        Some(e)
    }
}

/// Builds the initial event queue: the `Start` and `End` events of every edge
/// that is not a single point, in increasing event order.
pub fn event_list_from_edges(edges: &Vec<Edge>) -> (events: Vec<Event>)
    requires
        edges_wf(edges@),
    ensures
        events@ == endpoint_queue(edges@, edges@.len() as int),
        sorted(events@),
        events_wf(events@),
        forall|e: Event| events@.contains(e) <==> is_endpoint_event(edges@, edges@.len() as int, e),
        events@.len() == 2 * proper_edges(edges@, edges@.len() as int),
{
    let mut events: Vec<Event> = Vec::new();
    let mut i: usize = 0;
    while i < edges.len()
        invariant
            i <= edges.len(),
            edges_wf(edges@),
            events@ == endpoint_queue(edges@, i as int),
        decreases edges.len() - i,
    {
        proof {
            lemma_endpoint_queue(edges@, i as int);
        }
        let line = edges[i].line;
        assert(edges@[i as int].wf());
        if line.point1 != line.point2 {
            let first = Event::new(i, &SweepPoint::at(&line.min_y_point()), EventType::Start);
            let last = Event::new(i, &SweepPoint::at(&line.max_y_point()), EventType::End);
            insert_if_absent(&mut events, first);
            proof {
                lemma_enqueue(endpoint_queue(edges@, i as int), first);
            }
            insert_if_absent(&mut events, last);
        }
        i += 1;
    }
    proof {
        lemma_endpoint_queue(edges@, edges@.len() as int);
    }
    events
}

} // verus!
