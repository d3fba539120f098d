use cairus::event::{Event, EventType};
use cairus::geometry::{Edge, LineSegment, Point, SweepPoint};
use cairus::queue::{insert_if_absent, pop_min};
use std::cmp::Ordering;

fn create_edge(x1: i64, y1: i64, x2: i64, y2: i64) -> Edge {
    let mut top = y1;
    let mut bottom = y2;
    if y1 > y2 {
        top = y2;
        bottom = y1;
    }
    Edge { line: LineSegment::new(x1, y1, x2, y2), top, bottom, direction: 1 }
}

fn create_start_event(id: usize, edges: &mut Vec<Edge>, x1: i64, y1: i64, x2: i64, y2: i64) -> Event {
    while edges.len() <= id {
        edges.push(create_edge(0, 0, 0, 0));
    }
    edges[id] = create_edge(x1, y1, x2, y2);
    let point = SweepPoint::at(&Point::new(x1, y1));
    Event::new(id, &point, EventType::Start)
}

#[test]
fn event_compare_y_lesser() {
    let mut edges = Vec::new();
    let lesser = create_start_event(0, &mut edges, 0, 0, 3, 3);
    let greater = create_start_event(1, &mut edges, 1, 1, 0, 2);
    assert_eq!(lesser.cmp(&greater), Ordering::Less);
}

#[test]
fn event_compare_y_greater() {
    let mut edges = Vec::new();
    let lesser = create_start_event(0, &mut edges, 0, 0, 3, 3);
    let greater = create_start_event(1, &mut edges, 1, 1, 0, 2);
    assert_eq!(greater.cmp(&lesser), Ordering::Greater);
}

#[test]
fn event_compare_x_lesser() {
    let mut edges = Vec::new();
    let lesser = create_start_event(0, &mut edges, 0, 0, 0, 0);
    let greater = create_start_event(1, &mut edges, 1, 0, 0, 0);
    assert_eq!(lesser.cmp(&greater), Ordering::Less);
}

#[test]
fn event_compare_x_greater() {
    let mut edges = Vec::new();
    let lesser = create_start_event(0, &mut edges, 0, 0, 0, 0);
    let greater = create_start_event(1, &mut edges, 1, 0, 0, 0);
    assert_eq!(greater.cmp(&lesser), Ordering::Greater);
}

#[test]
fn event_compare_type_greater() {
    // An event holds the same place in the order as itself.
    let mut edges = Vec::new();
    let dummy = create_start_event(0, &mut edges, 0, 0, 0, 0);
    assert_eq!(dummy.cmp(&dummy), Ordering::Equal);
    assert_eq!(dummy.partial_cmp(&dummy), Some(Ordering::Equal));
    assert!(!dummy.precedes(&dummy));
}

#[test]
fn event_sorting() {
    let mut edges = Vec::new();
    let unsorted = vec![
        create_start_event(2, &mut edges, 0, 1, 0, 3),
        create_start_event(1, &mut edges, 0, 0, 1, 2),
        create_start_event(0, &mut edges, 0, 0, 0, 1),
    ];
    let mut event_list = Vec::new();
    for e in unsorted {
        assert!(insert_if_absent(&mut event_list, e));
    }
    assert_eq!(edges[event_list.get(0).unwrap().edge_left].line.point2.y, 1);
    assert_eq!(edges[event_list.get(1).unwrap().edge_left].line.point2.y, 2);
    assert_eq!(edges[event_list.get(2).unwrap().edge_left].line.point2.y, 3);
}

#[test]
fn event_constructor() {
    let edge = create_edge(0, 0, 0, 0);
    let edges = vec![edge];
    let point = SweepPoint::at(&Point { x: 0, y: 0 });
    let event = Event::new(0, &point, EventType::Start);
    assert_eq!(edges[event.edge_left].line.point1, edge.line.point1);
    assert_eq!(event.point, point);
    assert_eq!(event.event_type, EventType::Start);
    assert_eq!(event.edge_right, None);
}

#[test]
fn crossing_event_names_both_edges() {
    let point = SweepPoint::at(&Point::new(4, 7));
    let event = Event::crossing(3, 5, &point);
    assert_eq!(event.edge_left, 3);
    assert_eq!(event.edge_right, Some(5));
    assert_eq!(event.event_type, EventType::Intersection);
    assert_eq!(event.point, point);
}

#[test]
fn kinds_order_end_intersection_start() {
    assert_eq!(EventType::End.cmp(&EventType::Intersection), Ordering::Less);
    assert_eq!(EventType::Intersection.cmp(&EventType::Start), Ordering::Less);
    assert_eq!(EventType::End.cmp(&EventType::Start), Ordering::Less);
    assert_eq!(EventType::Start.cmp(&EventType::End), Ordering::Greater);
    assert_eq!(EventType::Start.cmp(&EventType::Intersection), Ordering::Greater);
    assert_eq!(EventType::Intersection.cmp(&EventType::End), Ordering::Greater);
    assert_eq!(EventType::Start.cmp(&EventType::Start), Ordering::Equal);
    assert_eq!(EventType::End.cmp(&EventType::End), Ordering::Equal);
    assert_eq!(EventType::Intersection.cmp(&EventType::Intersection), Ordering::Equal);
    assert_eq!(EventType::End.partial_cmp(&EventType::Start), Some(Ordering::Less));
    assert_eq!(EventType::End.order_rank(), 0);
    assert_eq!(EventType::Intersection.order_rank(), 1);
    assert_eq!(EventType::Start.order_rank(), 2);
}

#[test]
fn events_at_one_point_order_by_kind_then_edges() {
    let p = SweepPoint::at(&Point::new(2, 2));
    let end = Event::new(9, &p, EventType::End);
    let cross = Event::crossing(0, 1, &p);
    let start = Event::new(0, &p, EventType::Start);
    assert_eq!(end.cmp(&cross), Ordering::Less);
    assert_eq!(cross.cmp(&start), Ordering::Less);
    assert_eq!(end.cmp(&start), Ordering::Less);
    let start_later = Event::new(1, &p, EventType::Start);
    assert_eq!(start.cmp(&start_later), Ordering::Less);
    assert_eq!(start_later.cmp(&start), Ordering::Greater);
    let cross_later = Event::crossing(0, 2, &p);
    assert_eq!(cross.cmp(&cross_later), Ordering::Less);
}

#[test]
fn positions_compare_by_value_not_by_representation() {
    // (1/2, 3/2) written over 2 and over 4 is one position
    let a = SweepPoint {
        x: cairus::geometry::Rational { num: 1, den: 2 },
        y: cairus::geometry::Rational { num: 3, den: 2 },
    };
    let b = SweepPoint {
        x: cairus::geometry::Rational { num: 2, den: 4 },
        y: cairus::geometry::Rational { num: 6, den: 4 },
    };
    let ea = Event::new(0, &a, EventType::Start);
    let eb = Event::new(0, &b, EventType::Start);
    assert_eq!(ea.cmp(&eb), Ordering::Equal);
    let below = SweepPoint::at(&Point::new(0, 2));
    assert_eq!(ea.cmp(&Event::new(0, &below, EventType::Start)), Ordering::Less);
    let above = SweepPoint::at(&Point::new(9, 1));
    assert_eq!(ea.cmp(&Event::new(0, &above, EventType::Start)), Ordering::Greater);
}

#[test]
fn queue_keeps_one_event_per_key() {
    let p = SweepPoint::at(&Point::new(1, 1));
    let q = SweepPoint::at(&Point::new(0, 3));
    let mut events = Vec::new();
    assert!(insert_if_absent(&mut events, Event::crossing(0, 1, &q)));
    assert!(insert_if_absent(&mut events, Event::new(4, &p, EventType::Start)));
    assert!(!insert_if_absent(&mut events, Event::crossing(0, 1, &q)));
    // the same pair of edges, named the other way round
    assert!(!insert_if_absent(&mut events, Event::crossing(1, 0, &q)));
    let reversed = Event {
        edge_left: 1,
        edge_right: Some(0),
        point: q,
        event_type: EventType::Intersection,
    };
    assert_eq!(reversed.cmp(&Event::crossing(0, 1, &q)), Ordering::Equal);
    assert!(!insert_if_absent(&mut events, reversed));
    assert!(insert_if_absent(&mut events, Event::crossing(2, 0, &q)));
    assert_eq!(events.len(), 3);
    assert_eq!(pop_min(&mut events), Some(Event::new(4, &p, EventType::Start)));
    assert_eq!(pop_min(&mut events), Some(Event::crossing(0, 1, &q)));
    assert_eq!(pop_min(&mut events), Some(Event::crossing(0, 2, &q)));
    assert_eq!(pop_min(&mut events), None);
    assert!(events.is_empty());
}

#[test]
fn crossing_keeps_the_smaller_index_first() {
    let p = SweepPoint::at(&Point::new(4, 7));
    let event = Event::crossing(5, 3, &p);
    assert_eq!(event.edge_left, 3);
    assert_eq!(event.edge_right, Some(5));
    assert_eq!(event, Event::crossing(3, 5, &p));
}
