//! Sweep events and their total order.
//!
//! Events are ordered by position (by `y`, then by `x`), then by kind, then by
//! the edges they refer to. At one position an `End` comes before an
//! `Intersection`, which comes before a `Start`: edges leave the sweep line
//! before it is reordered, and enter it only once it has settled.

use crate::geometry::{Rational, SweepPoint};
use std::cmp::Ordering;
use vstd::prelude::*;

verus! {

/// What happens to the sweep line at an event.
#[derive(Clone, Copy, Debug, PartialEq, Eq, Structural)]
pub enum EventType {
    /// An edge enters the sweep line at its upper endpoint.
    Start,
    /// An edge leaves the sweep line at its lower endpoint.
    End,
    /// Two edges cross: the edges through the point exchange places.
    Intersection,
}

impl EventType {
    /// Position of the kind among events at one point: `End`, then
    /// `Intersection`, then `Start`.
    pub open spec fn rank(self) -> int {
        match self {
            EventType::End => 0,
            EventType::Intersection => 1,
            EventType::Start => 2,
        }
    }

    /// Computes `rank`.
    pub fn order_rank(&self) -> (r: u8)
        ensures
            r == self.rank(),
    {
        match self {
            EventType::End => 0,
            EventType::Intersection => 1,
            EventType::Start => 2,
        }
    }

    /// Compares two kinds by `rank`.
    pub fn cmp(&self, other: &EventType) -> (o: Ordering)
        ensures
            (o == Ordering::Less) == (self.rank() < other.rank()),
            (o == Ordering::Equal) == (*self == *other),
            (o == Ordering::Greater) == (self.rank() > other.rank()),
    {
        let a = self.order_rank();
        let b = other.order_rank();
        if a < b {
            Ordering::Less
        } else if a == b {
            Ordering::Equal
        } else {
            Ordering::Greater
        }
    }

    /// Compares two kinds by `rank`; never `None`.
    pub fn partial_cmp(&self, other: &EventType) -> (o: Option<Ordering>)
        ensures
            (o == Some(Ordering::Less)) == (self.rank() < other.rank()),
            (o == Some(Ordering::Equal)) == (*self == *other),
            (o == Some(Ordering::Greater)) == (self.rank() > other.rank()),
    {
        Some(self.cmp(other))
    }
}

/// An event of the sweep: a position, a kind, and the edges concerned, each
/// named by its index in the edge list. A `Start` or `End` names one edge; an
/// `Intersection` names the two edges that cross. The pair is unordered: two
/// crossings of the same two edges at one position are the same event,
/// whichever edge each names first.
#[derive(Clone, Copy, Debug, PartialEq, Eq)]
pub struct Event {
    pub edge_left: usize,
    pub edge_right: Option<usize>,
    pub point: SweepPoint,
    pub event_type: EventType,
}

impl Event {
    /// The position is well formed.
    pub open spec fn wf(self) -> bool {
        self.point.wf()
    }

    /// The smaller of the indices the event names.
    pub open spec fn low(self) -> int {
        match self.edge_right {
            None => self.edge_left as int,
            Some(r) => if self.edge_left <= r {
                self.edge_left as int
            } else {
                r as int
            },
        }
    }

    /// The larger of the indices the event names, as a sort key: an event that
    /// names one edge sorts before every event that names two.
    pub open spec fn high_key(self) -> int {
        match self.edge_right {
            None => 0,
            Some(r) => if self.edge_left <= r {
                r + 1
            } else {
                self.edge_left + 1
            },
        }
    }

    /// Order of two events at one position: by kind, then by the smaller
    /// index, then by the larger.
    pub open spec fn tie_lt(self, other: Event) -> bool {
        self.event_type.rank() < other.event_type.rank() || (self.event_type == other.event_type
            && (self.low() < other.low() || (self.low() == other.low() && self.high_key()
            < other.high_key())))
    }

    /// The strict total order of the event queue.
    pub open spec fn lt(self, other: Event) -> bool {
        self.point.before(other.point) || (self.point.coincides(other.point) && self.tie_lt(other))
    }

    /// The two events hold the same place in the order: same position, same
    /// kind, same edges, in whichever order each names them.
    pub open spec fn same_key(self, other: Event) -> bool {
        &&& self.point.coincides(other.point)
        &&& self.event_type == other.event_type
        &&& self.low() == other.low()
        &&& self.high_key() == other.high_key()
    }

    /// `lt` or `same_key`.
    pub open spec fn le(self, other: Event) -> bool {
        self.lt(other) || self.same_key(other)
    }

    /// Of two events exactly one holds: the first is less, they hold the same
    /// place, or the second is less. In particular no event is less than itself.
    pub proof fn lemma_trichotomy(a: Event, b: Event)
        ensures
            a.lt(b) || a.same_key(b) || b.lt(a),
            !(a.lt(b) && a.same_key(b)),
            !(a.lt(b) && b.lt(a)),
            !(b.lt(a) && a.same_key(b)),
            a.same_key(a),
            a.same_key(b) == b.same_key(a),
    {
    }

    /// The order is transitive, and strict as soon as one of the two steps is.
    pub proof fn lemma_transitive(a: Event, b: Event, c: Event)
        requires
            a.wf(),
            b.wf(),
            c.wf(),
            a.le(b),
            b.le(c),
        ensures
            a.le(c),
            a.lt(b) || b.lt(c) ==> a.lt(c),
    {
        let (ay, by, cy) = (a.point.y, b.point.y, c.point.y);
        let (ax, bx, cx) = (a.point.x, b.point.x, c.point.x);
        Rational::lemma_lt_transitive(ay, by, cy);
        if ay.eqv(by) && by.eqv(cy) {
            Rational::lemma_lt_transitive(ax, bx, cx);
        }
    }

    /// An event of the given kind for one edge.
    pub fn new(edge_left: usize, point: &SweepPoint, event_type: EventType) -> (e: Event)
        ensures
            e == (Event { edge_left, edge_right: None, point: *point, event_type }),
    {
        Event { edge_left, edge_right: None, point: *point, event_type }
    }

    /// The event at which the edges `a` and `b` cross at `point`. The smaller
    /// index is kept in `edge_left`.
    pub fn crossing(a: usize, b: usize, point: &SweepPoint) -> (e: Event)
        ensures
            e == (Event {
                edge_left: if a <= b { a } else { b },
                edge_right: Some(if a <= b { b } else { a }),
                point: *point,
                event_type: EventType::Intersection,
            }),
    {
        if a <= b {
            Event { edge_left: a, edge_right: Some(b), point: *point, event_type: EventType::Intersection }
        } else {
            Event { edge_left: b, edge_right: Some(a), point: *point, event_type: EventType::Intersection }
        }
    }

    fn low_index(&self) -> (r: usize)
        ensures
            r == self.low(),
    {
        match self.edge_right {
            None => self.edge_left,
            Some(r) => if self.edge_left <= r {
                self.edge_left
            } else {
                r
            },
        }
    }

    /// The larger index, if the event names two edges.
    fn high_index(&self) -> (r: Option<usize>)
        ensures
            r.is_none() <==> self.high_key() == 0,
            r.is_some() ==> r.unwrap() + 1 == self.high_key(),
    {
        match self.edge_right {
            None => None,
            Some(r) => if self.edge_left <= r {
                Some(r)
            } else {
                Some(self.edge_left)
            },
        }
    }

    fn tie_precedes(&self, other: &Event) -> (r: bool)
        ensures
            r == self.tie_lt(*other),
    {
        let a = self.event_type.order_rank();
        let b = other.event_type.order_rank();
        if a != b {
            return a < b;
        }
        let (la, lb) = (self.low_index(), other.low_index());
        if la != lb {
            return la < lb;
        }
        match (self.high_index(), other.high_index()) {
            (None, None) => false,
            (None, Some(_)) => true,
            (Some(_), None) => false,
            (Some(p), Some(q)) => p < q,
        }
    }

    /// Decides `lt`.
    pub fn precedes(&self, other: &Event) -> (r: bool)
        requires
            self.wf(),
            other.wf(),
        ensures
            r == self.lt(*other),
    {
        if self.point.y.less_than(&other.point.y) {
            true
        } else if !self.point.y.same_value(&other.point.y) {
            false
        } else if self.point.x.less_than(&other.point.x) {
            true
        } else if !self.point.x.same_value(&other.point.x) {
            false
        } else {
            self.tie_precedes(other)
        }
    }

    /// Compares two events in the order of the queue.
    pub fn cmp(&self, other: &Event) -> (o: Ordering)
        requires
            self.wf(),
            other.wf(),
        ensures
            (o == Ordering::Less) == self.lt(*other),
            (o == Ordering::Equal) == self.same_key(*other),
            (o == Ordering::Greater) == other.lt(*self),
    {
        proof {
            Event::lemma_trichotomy(*self, *other);
        }
        if self.precedes(other) {
            Ordering::Less
        } else if other.precedes(self) {
            Ordering::Greater
        } else {
            Ordering::Equal
        }
    }

    /// Compares two events in the order of the queue; never `None`.
    pub fn partial_cmp(&self, other: &Event) -> (o: Option<Ordering>)
        requires
            self.wf(),
            other.wf(),
        ensures
            (o == Some(Ordering::Less)) == self.lt(*other),
            (o == Some(Ordering::Equal)) == self.same_key(*other),
            (o == Some(Ordering::Greater)) == other.lt(*self),
    {
        Some(self.cmp(other))
    }
}

} // verus!
