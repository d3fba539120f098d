//! Why the sweep ends.
//!
//! Every event the sweep can ever handle is determined by the input: the
//! `Start` and the `End` of an edge, or the crossing of a pair of edges. Events are handled in strictly increasing order, so the number of
//! possible events that still lie ahead drops with each one handled.

use crate::event::{Event, EventType};
use crate::geometry::{edges_wf, Edge};
use crate::intersect::{crossing_within, lemma_crossing_within};
use crate::queue::{end_event, start_event};
use vstd::prelude::*;

verus! {

/// The event is one that the edges can give rise to: the `Start` or `End` of
/// the edge it names, which is not a single point, or the crossing of the two
/// edges it names.
pub open spec fn valid_event(edges: Seq<Edge>, e: Event) -> bool {
    &&& e.edge_left < edges.len()
    &&& match e.event_type {
        EventType::Start => !edges[e.edge_left as int].line.is_degenerate() && e == start_event(
            edges,
            e.edge_left as int,
        ),
        EventType::End => !edges[e.edge_left as int].line.is_degenerate() && e == end_event(
            edges,
            e.edge_left as int,
        ),
        EventType::Intersection => match e.edge_right {
            Some(r) => e.edge_left < r < edges.len() && crossing_within(
                edges[e.edge_left as int],
                edges[r as int],
            ).is_some() && e == crossing_event(edges, e.edge_left as int, r as int),
            None => false,
        },
    }
}

/// The `Intersection` event of the edges `i` and `j`, the smaller index
/// first, whether or not the two edges cross.
pub open spec fn crossing_event(edges: Seq<Edge>, i: int, j: int) -> Event {
    Event {
        edge_left: i as usize,
        edge_right: Some(j as usize),
        point: crossing_within(edges[i], edges[j]).unwrap(),
        event_type: EventType::Intersection,
    }
}

/// Every event of the list is valid for the edges.
pub open spec fn all_valid(edges: Seq<Edge>, q: Seq<Event>) -> bool {
    forall|i: int| 0 <= i < q.len() ==> valid_event(edges, #[trigger] q[i])
}

/// The event comes after the last one handled, if any was.
pub open spec fn is_after(last: Option<Event>, e: Event) -> bool {
    match last {
        None => true,
        Some(l) => l.lt(e),
    }
}

/// Every event of the list comes after the last one handled.
pub open spec fn all_after(last: Option<Event>, q: Seq<Event>) -> bool {
    forall|i: int| 0 <= i < q.len() ==> is_after(last, #[trigger] q[i])
}

/// One if the event lies ahead, zero if not.
pub open spec fn ahead(last: Option<Event>, e: Event) -> nat {
    if is_after(last, e) {
        1
    } else {
        0
    }
}

/// Number of crossings of edge `i` with the first `upto` edges that lie ahead.
/// It is used with `upto <= i`, so that each pair is counted once.
pub open spec fn crossings_ahead(edges: Seq<Edge>, last: Option<Event>, i: int, upto: int) -> nat
    decreases upto,
{
    if upto <= 0 {
        0
    } else {
        crossings_ahead(edges, last, i, upto - 1) + if crossing_within(
            edges[upto - 1],
            edges[i],
        ).is_some() {
            ahead(last, crossing_event(edges, upto - 1, i))
        } else {
            0
        }
    }
}

/// Number of possible events of the first `upto` edges that lie ahead: their
/// `Start` and `End` events and their crossings with one another.
pub open spec fn events_ahead(edges: Seq<Edge>, last: Option<Event>, upto: int) -> nat
    decreases upto,
{
    if upto <= 0 {
        0
    } else {
        events_ahead(edges, last, upto - 1) + ahead(last, start_event(edges, upto - 1)) + ahead(
            last,
            end_event(edges, upto - 1),
        ) + crossings_ahead(edges, last, upto - 1, upto - 1)
    }
}

/// The edge by which an event is counted: the larger of the indices it names.
pub open spec fn counted_at(e: Event) -> int {
    match e.edge_right {
        Some(r) => r as int,
        None => e.edge_left as int,
    }
}

/// Largest number of events a sweep over `n` edges can handle: two for each
/// edge and one for each pair of edges, `2n + n(n-1)/2`.
pub open spec fn step_limit(n: nat) -> nat {
    (n * (n + 3)) / 2
}

/// Handling an event leaves no more crossings of edge `i` ahead than before,
/// and one less if the event is such a crossing.
pub proof fn lemma_crossings_ahead(
    edges: Seq<Edge>,
    last: Option<Event>,
    e: Event,
    i: int,
    upto: int,
)
    requires
        edges_wf(edges),
        0 <= i < edges.len(),
        0 <= upto <= edges.len(),
        e.wf(),
        last.is_some() ==> last.unwrap().wf(),
        is_after(last, e),
    ensures
        crossings_ahead(edges, Some(e), i, upto) <= crossings_ahead(edges, last, i, upto),
        forall|j: int|
            0 <= j < upto && crossing_within(edges[j], edges[i]).is_some() && e == crossing_event(
                edges,
                j,
                i,
            ) ==> crossings_ahead(edges, Some(e), i, upto) < crossings_ahead(edges, last, i, upto),
    decreases upto,
{
    if upto > 0 {
        lemma_crossings_ahead(edges, last, e, i, upto - 1);
        let j = upto - 1;
        if crossing_within(edges[j], edges[i]).is_some() {
            let c = crossing_event(edges, j, i);
            assert(edges[i].wf() && edges[j].wf());
            lemma_crossing_within(edges[j], edges[i]);
            lemma_ahead(last, e, c);
        }
    }
}

/// An event that lies ahead once `e` is handled lay ahead before, and `e`
/// itself no longer lies ahead.
pub proof fn lemma_ahead(last: Option<Event>, e: Event, c: Event)
    requires
        e.wf(),
        c.wf(),
        last.is_some() ==> last.unwrap().wf(),
        is_after(last, e),
    ensures
        ahead(Some(e), c) <= ahead(last, c),
        c == e ==> ahead(Some(e), c) == 0 && ahead(last, c) == 1,
{
    Event::lemma_trichotomy(e, c);
    if last.is_some() && e.lt(c) {
        Event::lemma_transitive(last.unwrap(), e, c);
    }
}

/// Handling a valid event leaves fewer possible events ahead.
pub proof fn lemma_events_ahead(edges: Seq<Edge>, last: Option<Event>, e: Event, upto: int)
    requires
        edges_wf(edges),
        0 <= upto <= edges.len(),
        edges.len() <= usize::MAX,
        e.wf(),
        valid_event(edges, e),
        last.is_some() ==> last.unwrap().wf(),
        is_after(last, e),
    ensures
        events_ahead(edges, Some(e), upto) <= events_ahead(edges, last, upto),
        counted_at(e) < upto ==> events_ahead(edges, Some(e), upto) < events_ahead(
            edges,
            last,
            upto,
        ),
    decreases upto,
{
    if upto > 0 {
        lemma_events_ahead(edges, last, e, upto - 1);
        let i = upto - 1;
        assert(edges[i].wf());
        lemma_ahead(last, e, start_event(edges, i));
        lemma_ahead(last, e, end_event(edges, i));
        lemma_crossings_ahead(edges, last, e, i, i);
        if counted_at(e) == i && e.event_type == EventType::Intersection {
            let j = e.edge_left as int;
            assert(e == crossing_event(edges, j, i));
        }
    }
}

/// An edge that is not a single point starts before it ends.
pub proof fn lemma_start_before_end(edges: Seq<Edge>, i: int)
    requires
        edges_wf(edges),
        0 <= i < edges.len(),
        !edges[i].line.is_degenerate(),
    ensures
        start_event(edges, i).lt(end_event(edges, i)),
{
    assert(edges[i].wf());
}

/// No more events lie ahead than the step limit allows.
pub proof fn lemma_events_ahead_limit(edges: Seq<Edge>, last: Option<Event>, upto: int)
    requires
        0 <= upto <= edges.len(),
    ensures
        2 * events_ahead(edges, last, upto) <= upto * (upto + 3),
    decreases upto,
{
    if upto > 0 {
        lemma_events_ahead_limit(edges, last, upto - 1);
        lemma_crossings_ahead_limit(edges, last, upto - 1, upto - 1);
        assert((upto - 1) * (upto + 2) + 2 * (upto + 1) == upto * (upto + 3)) by (nonlinear_arith);
    } else {
        assert(upto * (upto + 3) == 0) by (nonlinear_arith)
            requires
                upto == 0,
        ;
    }
}

/// No more crossings of one edge lie ahead than there are edges.
pub proof fn lemma_crossings_ahead_limit(
    edges: Seq<Edge>,
    last: Option<Event>,
    i: int,
    upto: int,
)
    requires
        0 <= upto,
    ensures
        crossings_ahead(edges, last, i, upto) <= upto,
    decreases upto,
{
    if upto > 0 {
        lemma_crossings_ahead_limit(edges, last, i, upto - 1);
    }
}

} // verus!
