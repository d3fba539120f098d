use cairus::bo_trap::{scan, Sweep};
use cairus::event::EventType;
use cairus::geometry::{Edge, LineSegment, Rational};
use cairus::operators::Operator;
use cairus::trapezoid::{FillRule, SweepError, Trapezoid};

fn create_edge(x1: i64, y1: i64, x2: i64, y2: i64) -> Edge {
    let mut top = y1;
    let mut bottom = y2;
    if y1 > y2 {
        top = y2;
        bottom = y1;
    }
    Edge { line: LineSegment::new(x1, y1, x2, y2), top, bottom, direction: 1 }
}

fn edge(x1: i64, y1: i64, x2: i64, y2: i64, d: i32) -> Edge {
    Edge::new(LineSegment::new(x1, y1, x2, y2), d)
}

fn trap(l: (i64, i64, i64, i64), r: (i64, i64, i64, i64), top: i64, bottom: i64) -> Trapezoid {
    Trapezoid {
        left: LineSegment::new(l.0, l.1, l.2, l.3),
        right: LineSegment::new(r.0, r.1, r.2, r.3),
        top: Rational::from_int(top),
        bottom: Rational::from_int(bottom),
    }
}

/// Twice the area of a trapezoid whose heights are whole numbers.
fn double_area(t: &Trapezoid) -> i128 {
    let width = |y: &Rational| {
        let l = t.left.x_at(y);
        let r = t.right.x_at(y);
        (r.num * l.den - l.num * r.den, r.den * l.den)
    };
    assert_eq!(t.top.den, 1);
    assert_eq!(t.bottom.den, 1);
    let (wt, dt) = width(&t.top);
    let (wb, db) = width(&t.bottom);
    let sum = wt * db + wb * dt;
    assert_eq!(sum % (dt * db), 0);
    (sum / (dt * db)) * (t.bottom.num - t.top.num)
}

fn square(x: i64, y: i64, side: i64) -> Vec<Edge> {
    vec![
        edge(x, y, x, y + side, -1),
        edge(x, y + side, x + side, y + side, 0),
        edge(x + side, y + side, x + side, y, 1),
        edge(x + side, y, x, y, 0),
    ]
}

#[test]
fn scan_test() {
    let edges = vec![create_edge(0, 0, 5, 5), create_edge(3, 4, 1, 2), create_edge(0, 1, 6, 6)];
    let _ = scan(edges, FillRule::NonZero);
}

#[test]
fn unit_square_gives_one_trapezoid() {
    let edges = vec![
        edge(0, 0, 0, 10, -1),
        edge(0, 10, 10, 10, 0),
        edge(10, 10, 10, 0, 1),
        edge(10, 0, 0, 0, 0),
    ];
    let expected = vec![trap((0, 0, 0, 10), (10, 0, 10, 10), 0, 10)];
    assert_eq!(scan(edges.clone(), FillRule::NonZero), Ok(expected.clone()));
    assert_eq!(scan(edges, FillRule::EvenOdd), Ok(expected));
}

#[test]
fn edge_order_of_the_input_does_not_matter() {
    let mut edges = square(0, 0, 10);
    edges.reverse();
    assert_eq!(
        scan(edges, FillRule::NonZero),
        Ok(vec![trap((0, 0, 0, 10), (10, 0, 10, 10), 0, 10)])
    );
}

#[test]
fn empty_input_gives_no_trapezoid() {
    assert_eq!(scan(Vec::new(), FillRule::NonZero), Ok(Vec::new()));
    assert_eq!(scan(vec![edge(3, 3, 3, 3, 1)], FillRule::EvenOdd), Ok(Vec::new()));
}

#[test]
fn overlapping_squares_non_zero() {
    let mut edges = square(0, 0, 10);
    edges.extend(square(5, 5, 10));
    let traps = scan(edges, FillRule::NonZero).unwrap();
    assert_eq!(
        traps,
        vec![
            trap((0, 0, 0, 10), (10, 0, 10, 10), 0, 5),
            trap((0, 0, 0, 10), (5, 5, 5, 15), 5, 10),
            trap((10, 0, 10, 10), (15, 5, 15, 15), 5, 10),
            trap((5, 5, 5, 15), (10, 0, 10, 10), 5, 10),
            trap((5, 5, 5, 15), (15, 5, 15, 15), 10, 15),
        ]
    );
    let overlap = trap((5, 5, 5, 15), (10, 0, 10, 10), 5, 10);
    assert_eq!(traps.iter().filter(|t| **t == overlap).count(), 1);
    // the union of the two squares: 100 + 100 - 25
    assert_eq!(traps.iter().map(double_area).sum::<i128>(), 2 * 175);
}

#[test]
fn overlapping_squares_even_odd() {
    let mut edges = square(0, 0, 10);
    edges.extend(square(5, 5, 10));
    let traps = scan(edges, FillRule::EvenOdd).unwrap();
    assert_eq!(
        traps,
        vec![
            trap((0, 0, 0, 10), (10, 0, 10, 10), 0, 5),
            trap((0, 0, 0, 10), (5, 5, 5, 15), 5, 10),
            trap((10, 0, 10, 10), (15, 5, 15, 15), 5, 10),
            trap((5, 5, 5, 15), (15, 5, 15, 15), 10, 15),
        ]
    );
    let overlap = trap((5, 5, 5, 15), (10, 0, 10, 10), 5, 10);
    assert!(!traps.contains(&overlap));
    // the squares without their overlap: 200 - 2 * 25
    assert_eq!(traps.iter().map(double_area).sum::<i128>(), 2 * 150);
}

#[test]
fn winding_of_the_overlap_is_two() {
    let mut edges = square(0, 0, 10);
    edges.extend(square(5, 5, 10));
    let mut sweep = Sweep::new(&edges, FillRule::NonZero);
    // handle everything above the height 10
    while sweep.pending()[0].point.y.less_than(&Rational::from_int(10)) {
        sweep.step();
    }
    assert_eq!(sweep.active_edges(), vec![0, 4, 2, 6]);
    assert_eq!(edges[4].direction + edges[2].direction + edges[6].direction, 1);
    assert_eq!(edges[2].direction + edges[6].direction, 2);
}

#[test]
fn triangle_area_is_kept() {
    // (0,0), (8,0), (4,6)
    let edges = vec![edge(0, 0, 4, 6, -1), edge(4, 6, 8, 0, 1), edge(8, 0, 0, 0, 0)];
    let traps = scan(edges, FillRule::NonZero).unwrap();
    assert_eq!(traps, vec![trap((0, 0, 4, 6), (8, 0, 4, 6), 0, 6)]);
    assert_eq!(traps.iter().map(double_area).sum::<i128>(), 48);
}

#[test]
fn hexagon_is_split_at_its_corners() {
    // (4,0), (8,2), (8,6), (4,8), (0,6), (0,2)
    let edges = vec![
        edge(4, 0, 8, 2, 1),
        edge(8, 2, 8, 6, 1),
        edge(8, 6, 4, 8, 1),
        edge(4, 8, 0, 6, -1),
        edge(0, 6, 0, 2, -1),
        edge(0, 2, 4, 0, -1),
    ];
    let traps = scan(edges, FillRule::EvenOdd).unwrap();
    assert_eq!(
        traps,
        vec![
            trap((4, 0, 0, 2), (4, 0, 8, 2), 0, 2),
            trap((0, 2, 0, 6), (8, 2, 8, 6), 2, 6),
            trap((0, 6, 4, 8), (8, 6, 4, 8), 6, 8),
        ]
    );
    assert_eq!(traps.iter().map(double_area).sum::<i128>(), 2 * 48);
    for (i, a) in traps.iter().enumerate() {
        for b in traps.iter().skip(i + 1) {
            assert!(!a.bottom.less_than(&b.bottom) || !b.top.less_than(&a.bottom));
        }
    }
}

#[test]
fn square_with_a_hole() {
    let mut edges = square(0, 0, 12);
    // the hole runs the other way round
    edges.extend(vec![
        edge(4, 4, 4, 8, 1),
        edge(4, 8, 8, 8, 0),
        edge(8, 8, 8, 4, -1),
        edge(8, 4, 4, 4, 0),
    ]);
    for rule in [FillRule::NonZero, FillRule::EvenOdd] {
        let traps = scan(edges.clone(), rule).unwrap();
        assert_eq!(
            traps,
            vec![
                trap((0, 0, 0, 12), (12, 0, 12, 12), 0, 4),
                trap((0, 0, 0, 12), (4, 4, 4, 8), 4, 8),
                trap((8, 4, 8, 8), (12, 0, 12, 12), 4, 8),
                trap((0, 0, 0, 12), (12, 0, 12, 12), 8, 12),
            ]
        );
        assert_eq!(traps.iter().map(double_area).sum::<i128>(), 2 * (144 - 16));
    }
}

#[test]
fn triangles_sharing_an_apex() {
    let edges = vec![
        edge(0, 0, 10, 10, 1),
        edge(10, 0, 0, 10, -1),
        edge(0, 0, 10, 0, 0),
        edge(0, 10, 10, 10, 0),
    ];
    let mut sweep = Sweep::new(&edges, FillRule::NonZero);
    let mut crossings = 0;
    loop {
        let before = sweep.active_edges();
        match sweep.step() {
            None => break,
            Some(e) => {
                if e.event_type == EventType::Intersection {
                    crossings += 1;
                    assert_eq!(e.edge_left, 0);
                    assert_eq!(e.edge_right, Some(1));
                    assert!(e.point.x.same_value(&Rational::from_int(5)));
                    assert!(e.point.y.same_value(&Rational::from_int(5)));
                    assert_eq!(before, vec![0, 1]);
                    assert_eq!(sweep.active_edges(), vec![1, 0]);
                }
            },
        }
    }
    assert_eq!(crossings, 1);
    let traps = sweep.finish().unwrap();
    assert_eq!(traps.len(), 2);
    assert_eq!(traps[0].left, LineSegment::new(0, 0, 10, 10));
    assert_eq!(traps[0].right, LineSegment::new(10, 0, 0, 10));
    assert_eq!(traps[0].top, Rational::from_int(0));
    assert!(traps[0].bottom.same_value(&Rational::from_int(5)));
    assert_eq!(traps[1].left, LineSegment::new(10, 0, 0, 10));
    assert_eq!(traps[1].right, LineSegment::new(0, 0, 10, 10));
    assert!(traps[1].top.same_value(&Rational::from_int(5)));
    assert_eq!(traps[1].top, traps[0].bottom);
    assert_eq!(traps[1].bottom, Rational::from_int(10));
}

#[test]
fn order_follows_the_crossings() {
    let edges = vec![edge(0, 0, 30, 30, 1), edge(10, 0, 0, 20, 1), edge(20, 0, 18, 30, 1)];
    let mut sweep = Sweep::new(&edges, FillRule::NonZero);
    let mut seen = Vec::new();
    while let Some(e) = sweep.step() {
        let order = sweep.active_edges();
        // just below the event the edges lie in the order of their x
        let y = Rational { num: e.point.y.num * 100 + e.point.y.den, den: e.point.y.den * 100 };
        for pair in order.windows(2) {
            let a = edges[pair[0]].line.x_at(&y);
            let b = edges[pair[1]].line.x_at(&y);
            assert!(a.num * b.den < b.num * a.den);
        }
        seen.push((e.event_type, order));
    }
    assert_eq!(
        seen,
        vec![
            (EventType::Start, vec![0]),
            (EventType::Start, vec![0, 1]),
            (EventType::Start, vec![0, 1, 2]),
            (EventType::Intersection, vec![1, 0, 2]),
            (EventType::Intersection, vec![1, 2, 0]),
            (EventType::End, vec![2, 0]),
            (EventType::End, vec![0]),
            (EventType::End, vec![]),
        ]
    );
}

#[test]
fn every_trapezoid_has_a_positive_height() {
    let mut edges = square(0, 0, 10);
    edges.extend(square(5, 5, 10));
    edges.extend(vec![edge(0, 0, 30, 30, 1), edge(10, 0, 0, 20, 1), edge(20, 0, 18, 30, 1)]);
    for rule in [FillRule::NonZero, FillRule::EvenOdd] {
        let traps = scan(edges.clone(), rule).unwrap();
        assert!(!traps.is_empty());
        for t in traps {
            assert!(t.top.less_than(&t.bottom));
        }
    }
}

#[test]
fn sweep_ends_within_the_step_limit() {
    // a star of lines through many points: every pair crosses
    let mut edges = Vec::new();
    for i in 0..12 {
        edges.push(edge(i * 7, 0, 100 - i * 9, 60 + i, 1));
    }
    let n = edges.len();
    let mut sweep = Sweep::new(&edges, FillRule::NonZero);
    let mut steps = 0;
    let mut last = None;
    while let Some(e) = sweep.step() {
        steps += 1;
        if let Some(previous) = last {
            assert!(e.cmp(&previous) == std::cmp::Ordering::Greater);
        }
        last = Some(e);
    }
    assert!(steps >= 2 * n);
    assert!(steps <= 2 * n + n * (n - 1) / 2);
    assert!(sweep.pending().is_empty());
    assert!(sweep.active_edges().is_empty());
    assert_eq!(sweep.step(), None);
}

#[test]
fn same_segment_twice_enters_twice() {
    let edges = vec![edge(0, 0, 0, 10, -1), edge(0, 10, 0, 0, -1), edge(5, 0, 5, 10, 1)];
    let mut sweep = Sweep::new(&edges, FillRule::NonZero);
    sweep.step();
    assert_eq!(sweep.active_edges(), vec![0]);
    sweep.step();
    assert_eq!(sweep.active_edges(), vec![1, 0]);
    // the span between the two has no width and gives no trapezoid
    assert_eq!(
        scan(edges, FillRule::NonZero),
        Ok(vec![trap((0, 0, 0, 10), (5, 0, 5, 10), 0, 10)])
    );
}

#[test]
fn squares_that_share_a_side() {
    let mut left = square(0, 0, 10);
    let mut right = square(10, 0, 10);
    let expected = vec![
        trap((0, 0, 0, 10), (10, 0, 10, 10), 0, 10),
        trap((10, 0, 10, 10), (20, 0, 20, 10), 0, 10),
    ];
    for rule in [FillRule::NonZero, FillRule::EvenOdd] {
        let mut one = left.clone();
        one.extend(right.clone());
        let mut other = right.clone();
        other.extend(left.clone());
        let mut a = scan(one, rule).unwrap();
        let mut b = scan(other, rule).unwrap();
        assert_eq!(a.iter().map(double_area).sum::<i128>(), 2 * 200);
        a.sort_by_key(|t| t.left.point1.x);
        b.sort_by_key(|t| t.left.point1.x);
        assert_eq!(a, expected);
        assert_eq!(b, expected);
    }
    left.reverse();
    right.reverse();
    left.extend(right);
    let mut c = scan(left, FillRule::EvenOdd).unwrap();
    c.sort_by_key(|t| t.left.point1.x);
    assert_eq!(c, expected);
}

#[test]
fn doubled_side_counts_twice() {
    // the right side of the square is given twice
    let mut edges = square(0, 0, 10);
    edges.push(edge(10, 10, 10, 0, 1));
    assert_eq!(
        scan(edges.clone(), FillRule::NonZero),
        Ok(vec![trap((0, 0, 0, 10), (10, 0, 10, 10), 0, 10)])
    );
    assert_eq!(scan(edges, FillRule::EvenOdd), Ok(Vec::new()));
}

#[test]
fn edges_on_one_line_are_told_apart() {
    // two edges from one point along one line, and a wall to the right
    let edges = vec![edge(0, 0, 4, 4, -1), edge(0, 0, 8, 8, -1), edge(20, 0, 20, 8, 1)];
    let mut sweep = Sweep::new(&edges, FillRule::NonZero);
    sweep.step();
    sweep.step();
    assert_eq!(sweep.active_edges(), vec![0, 1]);
    while sweep.step().is_some() {}
    assert!(sweep.active_edges().is_empty());
}

#[test]
fn finish_reports_edges_left_on_the_line() {
    let edges = square(0, 0, 10);
    let mut sweep = Sweep::new(&edges, FillRule::NonZero);
    sweep.step();
    assert_eq!(sweep.active_edges(), vec![0]);
    assert_eq!(sweep.finish(), Err(SweepError::OpenContour));
}

#[test]
fn trapezoids_appear_as_spans_close() {
    let edges = square(0, 0, 10);
    let mut sweep = Sweep::new(&edges, FillRule::NonZero);
    assert_eq!(sweep.pending().len(), 8);
    assert!(sweep.trapezoids().is_empty());
    for _ in 0..4 {
        sweep.step();
    }
    assert!(sweep.trapezoids().is_empty());
    assert_eq!(sweep.pending().len(), 4);
    sweep.step();
    assert_eq!(sweep.trapezoids().len(), 1);
}

#[test]
fn operator_is_a_plain_value() {
    let op = Operator::Over;
    assert_eq!(op, Operator::Over);
}

fn through_one_point() -> Vec<Edge> {
    vec![edge(0, 0, 10, 10, 1), edge(10, 0, 0, 10, 1), edge(5, 0, 5, 10, 1)]
}

/// Whether the point (x, y) lies strictly inside the trapezoid.
fn holds(t: &Trapezoid, x: i64, y: i64) -> bool {
    let h = Rational::from_int(y);
    if !(t.top.less_than(&h) && h.less_than(&t.bottom)) {
        return false;
    }
    let l = t.left.x_at(&h);
    let r = t.right.x_at(&h);
    l.num < (x as i128) * l.den && (x as i128) * r.den < r.num
}

#[test]
fn edges_through_one_point_all_exchange_places() {
    let edges = through_one_point();
    let mut sweep = Sweep::new(&edges, FillRule::NonZero);
    let mut seen = Vec::new();
    while let Some(e) = sweep.step() {
        seen.push((e.event_type, e.edge_left, e.edge_right, sweep.active_edges()));
    }
    assert_eq!(
        seen,
        vec![
            (EventType::Start, 0, None, vec![0]),
            (EventType::Start, 2, None, vec![0, 2]),
            (EventType::Start, 1, None, vec![0, 2, 1]),
            (EventType::Intersection, 0, Some(2), vec![1, 2, 0]),
            (EventType::Intersection, 1, Some(2), vec![1, 2, 0]),
            (EventType::End, 1, None, vec![2, 0]),
            (EventType::End, 2, None, vec![0]),
            (EventType::End, 0, None, vec![]),
        ]
    );
    for t in sweep.trapezoids() {
        assert!(t.top.less_than(&t.bottom));
        // the left side is left of the right side over the whole height
        for y in [&t.top, &t.bottom] {
            let l = t.left.x_at(y);
            let r = t.right.x_at(y);
            assert!(l.num * r.den <= r.num * l.den);
        }
    }
}

#[test]
fn filled_region_does_not_depend_on_the_order_of_the_edges() {
    let e = through_one_point();
    let orders: Vec<Vec<Edge>> = vec![
        vec![e[0], e[1], e[2]],
        vec![e[0], e[2], e[1]],
        vec![e[1], e[0], e[2]],
        vec![e[1], e[2], e[0]],
        vec![e[2], e[0], e[1]],
        vec![e[2], e[1], e[0]],
    ];
    for rule in [FillRule::NonZero, FillRule::EvenOdd] {
        let first = scan(orders[0].clone(), rule).unwrap();
        for edges in &orders {
            let traps = scan(edges.clone(), rule).unwrap();
            assert_eq!(traps.len(), first.len());
            for t in &first {
                assert!(traps.contains(t));
            }
            // (6,8) lies between the vertical edge and the rising diagonal
            assert_eq!(traps.iter().filter(|t| holds(t, 6, 8)).count(), 1);
            // (3,8) lies between the falling diagonal and the vertical edge
            let inside_left = traps.iter().filter(|t| holds(t, 3, 8)).count();
            assert_eq!(inside_left, if rule == FillRule::NonZero { 1 } else { 0 });
            assert_eq!(traps.iter().filter(|t| holds(t, 1, 8)).count(), 0);
        }
    }
}

#[test]
fn edge_ending_between_two_crossing_edges() {
    // the middle edge ends where the outer two cross
    let edges = vec![edge(0, 0, 10, 10, 1), edge(10, 0, 0, 10, 1), edge(5, 0, 5, 5, 1)];
    let mut sweep = Sweep::new(&edges, FillRule::NonZero);
    let mut orders = Vec::new();
    while let Some(e) = sweep.step() {
        orders.push((e.event_type, sweep.active_edges()));
    }
    assert_eq!(
        orders,
        vec![
            (EventType::Start, vec![0]),
            (EventType::Start, vec![0, 2]),
            (EventType::Start, vec![0, 2, 1]),
            (EventType::End, vec![1, 0]),
            (EventType::Intersection, vec![1, 0]),
            (EventType::Intersection, vec![1, 0]),
            (EventType::End, vec![0]),
            (EventType::End, vec![]),
        ]
    );
}
