use cairus::geometry::{Edge, LineSegment, Point, Rational, SweepPoint};
use cairus::scan_line::ScanLine;
use cairus::trapezoid::{FillRule, Trapezoid};

fn edge(x1: i64, y1: i64, x2: i64, y2: i64, d: i32) -> Edge {
    Edge::new(LineSegment::new(x1, y1, x2, y2), d)
}

fn at(x: i64, y: i64) -> SweepPoint {
    SweepPoint::at(&Point::new(x, y))
}

/// Four vertical edges at x = 0, 10, 20, 30.
fn posts() -> Vec<Edge> {
    vec![edge(0, 0, 0, 9, -1), edge(10, 0, 10, 9, -1), edge(20, 0, 20, 9, 1), edge(30, 0, 30, 9, 1)]
}

fn insert(line: &mut ScanLine, edges: &Vec<Edge>, id: usize) -> bool {
    let u = edges[id].line.min_y_point();
    let gap = line.locate(&SweepPoint::at(&u), &edges[id].line);
    if gap.duplicate {
        return false;
    }
    line.insert_between(id, gap.prev, gap.next);
    true
}

#[test]
fn new_line_is_empty() {
    let edges = posts();
    let line = ScanLine::new(Rational::from_int(3), &edges);
    assert!(line.is_empty());
    assert_eq!(line.active_order(), Vec::<usize>::new());
    assert!(!line.is_active(2));
    let r = line.record(2);
    assert_eq!(r.edge, edges[2]);
    assert_eq!(r.top, Rational::from_int(3));
    assert!(!r.active);
}

#[test]
fn edges_go_in_by_their_x() {
    let edges = posts();
    let mut line = ScanLine::new(Rational::from_int(0), &edges);
    assert!(insert(&mut line, &edges, 2));
    assert_eq!(line.active_order(), vec![2]);
    assert!(insert(&mut line, &edges, 0));
    assert_eq!(line.active_order(), vec![0, 2]);
    assert!(insert(&mut line, &edges, 3));
    assert_eq!(line.active_order(), vec![0, 2, 3]);
    assert!(insert(&mut line, &edges, 1));
    assert_eq!(line.active_order(), vec![0, 1, 2, 3]);
    assert!(!line.is_empty());
    assert!(line.is_active(1));
    let r = line.record(1);
    assert_eq!(r.prev, Some(0));
    assert_eq!(r.next, Some(2));
    assert_eq!(line.record(0).prev, None);
    assert_eq!(line.record(3).next, None);
}

#[test]
fn locate_reports_the_gap() {
    let edges = posts();
    let mut line = ScanLine::new(Rational::from_int(0), &edges);
    insert(&mut line, &edges, 0);
    insert(&mut line, &edges, 2);
    let gap = line.locate(&at(10, 0), &edges[1].line);
    assert_eq!(gap.prev, Some(0));
    assert_eq!(gap.next, Some(2));
    assert!(!gap.duplicate);
    let gap = line.locate(&at(-5, 0), &LineSegment::new(-5, 0, -5, 9));
    assert_eq!((gap.prev, gap.next, gap.duplicate), (None, Some(0), false));
    let gap = line.locate(&at(30, 0), &edges[3].line);
    assert_eq!((gap.prev, gap.next, gap.duplicate), (Some(2), None, false));
    let gap = line.locate(&at(20, 0), &LineSegment::new(20, 9, 20, 0));
    assert_eq!((gap.prev, gap.next, gap.duplicate), (Some(0), Some(2), true));
}

#[test]
fn remove_returns_the_neighbours() {
    let edges = posts();
    let mut line = ScanLine::new(Rational::from_int(0), &edges);
    for id in 0..4 {
        insert(&mut line, &edges, id);
    }
    assert_eq!(line.remove(1), (Some(0), Some(2)));
    assert_eq!(line.active_order(), vec![0, 2, 3]);
    assert!(!line.is_active(1));
    assert_eq!(line.record(0).next, Some(2));
    assert_eq!(line.record(2).prev, Some(0));
    assert_eq!(line.remove(0), (None, Some(2)));
    assert_eq!(line.active_order(), vec![2, 3]);
    assert_eq!(line.remove(3), (Some(2), None));
    assert_eq!(line.remove(2), (None, None));
    assert!(line.is_empty());
    assert!(insert(&mut line, &edges, 1));
    assert_eq!(line.active_order(), vec![1]);
}

#[test]
fn swap_exchanges_two_neighbours() {
    let edges = posts();
    let mut line = ScanLine::new(Rational::from_int(0), &edges);
    for id in 0..4 {
        insert(&mut line, &edges, id);
    }
    line.swap_adjacent(1, 2);
    assert_eq!(line.active_order(), vec![0, 2, 1, 3]);
    assert_eq!(line.record(0).next, Some(2));
    assert_eq!(line.record(2).prev, Some(0));
    assert_eq!(line.record(2).next, Some(1));
    assert_eq!(line.record(1).prev, Some(2));
    assert_eq!(line.record(1).next, Some(3));
    assert_eq!(line.record(3).prev, Some(1));
    line.swap_adjacent(0, 2);
    assert_eq!(line.active_order(), vec![2, 0, 1, 3]);
    line.swap_adjacent(1, 3);
    assert_eq!(line.active_order(), vec![2, 0, 3, 1]);
    assert_eq!(line.record(1).next, None);
    assert_eq!(line.record(2).prev, None);
}

#[test]
fn winding_sums_the_directions_to_the_right() {
    let edges = posts();
    let mut line = ScanLine::new(Rational::from_int(0), &edges);
    for id in 0..4 {
        insert(&mut line, &edges, id);
    }
    assert_eq!(line.winding_right_of(0), 1);
    assert_eq!(line.winding_right_of(1), 2);
    assert_eq!(line.winding_right_of(2), 1);
    assert_eq!(line.winding_right_of(3), 0);
}

#[test]
fn close_and_emit_follows_the_fill_rule() {
    let edges = posts();
    let mut line = ScanLine::new(Rational::from_int(0), &edges);
    for id in 0..4 {
        insert(&mut line, &edges, id);
    }
    let bottom = Rational::from_int(9);
    let mut traps = Vec::new();
    // winding 2: filled under the non-zero rule only
    line.close_and_emit(1, &bottom, FillRule::EvenOdd, &mut traps);
    assert!(traps.is_empty());
    line.close_and_emit(1, &bottom, FillRule::NonZero, &mut traps);
    assert_eq!(
        traps,
        vec![Trapezoid {
            left: LineSegment::new(10, 0, 10, 9),
            right: LineSegment::new(20, 0, 20, 9),
            top: Rational::from_int(0),
            bottom,
        }]
    );
    // winding 1: filled under both rules
    line.close_and_emit(0, &bottom, FillRule::EvenOdd, &mut traps);
    assert_eq!(traps.len(), 2);
    assert_eq!(traps[1].left, LineSegment::new(0, 0, 0, 9));
    assert_eq!(traps[1].right, LineSegment::new(10, 0, 10, 9));
    // the rightmost edge bounds no span
    line.close_and_emit(3, &bottom, FillRule::NonZero, &mut traps);
    assert_eq!(traps.len(), 2);
}

#[test]
fn span_without_height_gives_no_trapezoid() {
    let edges = posts();
    let mut line = ScanLine::new(Rational::from_int(0), &edges);
    for id in 0..4 {
        insert(&mut line, &edges, id);
    }
    let mut traps = Vec::new();
    line.set_top(1, Rational::from_int(4));
    assert_eq!(line.record(1).top, Rational::from_int(4));
    line.close_and_emit(1, &Rational::from_int(4), FillRule::NonZero, &mut traps);
    line.close_and_emit(1, &Rational { num: 8, den: 2 }, FillRule::NonZero, &mut traps);
    line.close_and_emit(1, &Rational::from_int(3), FillRule::NonZero, &mut traps);
    assert!(traps.is_empty());
    line.close_and_emit(1, &Rational { num: 9, den: 2 }, FillRule::NonZero, &mut traps);
    assert_eq!(traps.len(), 1);
    assert_eq!(traps[0].top, Rational::from_int(4));
    assert_eq!(traps[0].bottom, Rational { num: 9, den: 2 });
}

#[test]
fn negative_winding_counts_as_odd_when_odd() {
    let edges = vec![edge(0, 0, 0, 9, 1), edge(5, 0, 5, 9, -1), edge(9, 0, 9, 9, -1)];
    let mut line = ScanLine::new(Rational::from_int(0), &edges);
    for id in 0..3 {
        insert(&mut line, &edges, id);
    }
    assert_eq!(line.winding_right_of(0), -2);
    assert_eq!(line.winding_right_of(1), -1);
    assert!(!FillRule::EvenOdd.admits(-2));
    assert!(FillRule::EvenOdd.admits(-1));
    assert!(FillRule::EvenOdd.admits(3));
    assert!(!FillRule::EvenOdd.admits(0));
    assert!(FillRule::NonZero.admits(-2));
    assert!(!FillRule::NonZero.admits(0));
}

#[test]
fn trapezoid_sides_run_downward() {
    let t = Trapezoid::new(
        &LineSegment::new(3, 8, 1, 2),
        &LineSegment::new(9, 5, 4, 5),
        Rational::from_int(2),
        Rational::from_int(8),
    );
    assert_eq!(t.left, LineSegment::new(1, 2, 3, 8));
    assert_eq!(t.right, LineSegment::new(4, 5, 9, 5));
}
