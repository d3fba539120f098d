use cairus::geometry::{
    all_well_formed, Edge, LineSegment, Point, Rational, SweepPoint, COORD_LIMIT, DEN_LIMIT,
};
use cairus::intersect::intersection_below;
use cairus::scan_line::{find_line_place, Comparator, ScanLineEdge};

fn edge(x1: i64, y1: i64, x2: i64, y2: i64, d: i32) -> Edge {
    Edge::new(LineSegment::new(x1, y1, x2, y2), d)
}

fn record(x1: i64, y1: i64, x2: i64, y2: i64) -> ScanLineEdge {
    ScanLineEdge::new(Rational::from_int(0), edge(x1, y1, x2, y2, 1))
}

fn at(x: i64, y: i64) -> SweepPoint {
    SweepPoint::at(&Point::new(x, y))
}

#[test]
fn fractions_compare_by_cross_multiplication() {
    let half = Rational { num: 1, den: 2 };
    let two_quarters = Rational { num: 2, den: 4 };
    let third = Rational { num: 1, den: 3 };
    let minus = Rational { num: -5, den: 7 };
    assert!(third.less_than(&half));
    assert!(!half.less_than(&third));
    assert!(!half.less_than(&two_quarters));
    assert!(half.same_value(&two_quarters));
    assert!(!half.same_value(&third));
    assert!(minus.less_than(&third));
    assert_ne!(half, two_quarters);
    assert_eq!(Rational::from_int(-3), Rational { num: -3, den: 1 });
}

#[test]
fn range_checks_follow_the_limits() {
    assert_eq!(COORD_LIMIT, 1 << 22);
    assert_eq!(DEN_LIMIT, 8 * (COORD_LIMIT as i128) * (COORD_LIMIT as i128));
    assert!(Point::new(COORD_LIMIT, -COORD_LIMIT).in_range());
    assert!(!Point::new(COORD_LIMIT + 1, 0).in_range());
    assert!(!Point::new(0, -COORD_LIMIT - 1).in_range());
    assert!(Rational { num: 3, den: 1 }.in_range());
    assert!(!Rational { num: 3, den: 0 }.in_range());
    assert!(!Rational { num: 3, den: -1 }.in_range());
    assert!(!Rational { num: 1, den: DEN_LIMIT + 1 }.in_range());
    assert!(Rational { num: (COORD_LIMIT as i128) * 5, den: 5 }.in_range());
    assert!(!Rational { num: (COORD_LIMIT as i128) * 5 + 1, den: 5 }.in_range());
    assert!(at(1, 2).in_range());
    let mixed = SweepPoint { x: Rational { num: 1, den: 2 }, y: Rational { num: 1, den: 3 } };
    assert!(!mixed.in_range());
    assert!(LineSegment::new(0, 0, COORD_LIMIT, 1).in_range());
    assert!(!LineSegment::new(0, 0, COORD_LIMIT + 1, 1).in_range());
}

#[test]
fn edge_bounds_must_agree_with_the_segment() {
    let good = edge(3, 9, 1, 2, -1);
    assert_eq!(good.top, 2);
    assert_eq!(good.bottom, 9);
    assert!(good.well_formed());
    let mut bad = good;
    bad.top = 3;
    assert!(!bad.well_formed());
    let mut turned = good;
    turned.direction = 2;
    assert!(!turned.well_formed());
    assert!(all_well_formed(&vec![good, edge(0, 0, 1, 1, 0)]));
    assert!(!all_well_formed(&vec![good, bad]));
    assert!(all_well_formed(&Vec::new()));
}

#[test]
fn endpoints_are_taken_in_sweep_order() {
    let down = LineSegment::new(1, 2, 3, 9);
    let up = LineSegment::new(3, 9, 1, 2);
    assert_eq!(down.min_y_point(), Point::new(1, 2));
    assert_eq!(up.min_y_point(), Point::new(1, 2));
    assert_eq!(down.max_y_point(), Point::new(3, 9));
    assert_eq!(up.max_y_point(), Point::new(3, 9));
    let flat = LineSegment::new(8, 4, 2, 4);
    assert_eq!(flat.min_y_point(), Point::new(2, 4));
    assert_eq!(flat.max_y_point(), Point::new(8, 4));
    assert_eq!(up.direction(), (2, 7));
    assert_eq!(flat.direction(), (6, 0));
    assert_eq!(LineSegment::new(3, 2, 1, 9).direction(), (-2, 7));
    assert!(down.joins_same_points(&up));
    assert!(!down.joins_same_points(&flat));
    assert!(down.key_less(&flat));
    assert!(!flat.key_less(&down));
    assert!(!down.key_less(&up));
}

#[test]
fn x_on_a_line_is_exact() {
    // from (0,0) to (6,4): at height 1 the line is at 3/2, written as 6/4
    let line = LineSegment::new(6, 4, 0, 0);
    let x = line.x_at(&Rational::from_int(1));
    assert_eq!(x, Rational { num: 6, den: 4 });
    // at height 5/3: x = 5/2, written over 3 * 4
    let x = line.x_at(&Rational { num: 5, den: 3 });
    assert_eq!(x, Rational { num: 30, den: 12 });
    // a line that leans left, from (10,2) to (4,5): at height 3 it is at 8
    let left = record(4, 5, 10, 2);
    let x = left.current_x_for_y(Rational::from_int(3));
    assert_eq!(x, Rational { num: 24, den: 3 });
}

#[test]
fn side_and_slope_signs() {
    let line = LineSegment::new(0, 0, 6, 4);
    assert_eq!(line.side(&at(2, 1)), 1);
    assert_eq!(line.side(&at(1, 1)), -1);
    assert_eq!(line.side(&at(3, 2)), 0);
    let flat = LineSegment::new(2, 5, 8, 5);
    assert_eq!(flat.side(&at(1, 5)), -1);
    assert_eq!(flat.side(&at(2, 5)), 0);
    assert_eq!(flat.side(&at(8, 5)), 0);
    assert_eq!(flat.side(&at(9, 5)), 1);
    let steep = LineSegment::new(0, 0, 1, 4);
    assert_eq!(line.slope_side(&steep), 1);
    assert_eq!(steep.slope_side(&line), -1);
    assert_eq!(line.slope_side(&LineSegment::new(3, 2, 9, 6)), 0);
    assert_eq!(flat.slope_side(&steep), 1);
}

#[test]
fn find_line_place_gives_every_answer() {
    let cand = record(4, 0, 4, 10);
    // to the left and to the right of the candidate
    assert_eq!(find_line_place(at(1, 3), LineSegment::new(1, 3, 1, 8), cand), Comparator::Less);
    assert_eq!(find_line_place(at(6, 3), LineSegment::new(6, 3, 6, 8), cand), Comparator::Greater);
    // the same segment, in either orientation
    assert_eq!(find_line_place(at(4, 0), LineSegment::new(4, 0, 4, 10), cand), Comparator::Equal);
    assert_eq!(find_line_place(at(4, 0), LineSegment::new(4, 10, 4, 0), cand), Comparator::Equal);
    // starting on the candidate: the slope decides
    assert_eq!(find_line_place(at(4, 2), LineSegment::new(4, 2, 9, 6), cand), Comparator::Greater);
    assert_eq!(find_line_place(at(4, 2), LineSegment::new(4, 2, 0, 6), cand), Comparator::Less);
    assert_eq!(find_line_place(at(4, 2), LineSegment::new(4, 2, 9, 2), cand), Comparator::Greater);
    // on the candidate with its slope: the coordinates decide
    assert_eq!(find_line_place(at(4, 2), LineSegment::new(4, 2, 4, 6), cand), Comparator::Greater);
    assert_eq!(
        find_line_place(at(4, 0), LineSegment::new(4, 0, 4, 6), cand),
        Comparator::Less
    );
    assert_ne!(Comparator::Empty, Comparator::Equal);
}

#[test]
fn horizontal_candidate_covers_its_extent() {
    let flat = record(2, 5, 8, 5);
    let line = LineSegment::new(5, 5, 5, 9);
    assert_eq!(find_line_place(at(1, 5), LineSegment::new(1, 5, 1, 9), flat), Comparator::Less);
    assert_eq!(find_line_place(at(9, 5), LineSegment::new(9, 5, 9, 9), flat), Comparator::Greater);
    // a line that starts on the horizontal edge goes to its left
    assert_eq!(find_line_place(at(5, 5), line, flat), Comparator::Less);
}

#[test]
fn crossing_is_the_common_point() {
    let a = edge(0, 0, 10, 10, 1);
    let b = edge(10, 0, 0, 10, -1);
    let p = intersection_below(&a, &b, &Rational::from_int(0)).unwrap();
    assert_eq!(p.x, Rational { num: 1000, den: 200 });
    assert_eq!(p.y, Rational { num: 1000, den: 200 });
    assert!(p.in_range());
    // the same point whichever edge is named first
    assert_eq!(intersection_below(&b, &a, &Rational::from_int(0)), Some(p));
    // (0,0)-(3,9) and (4,0)-(0,8) meet at (8/5, 24/5)
    let c = edge(0, 0, 3, 9, 1);
    let d = edge(4, 0, 0, 8, 1);
    let q = intersection_below(&c, &d, &Rational::from_int(4)).unwrap();
    assert!(q.x.same_value(&Rational { num: 8, den: 5 }));
    assert!(q.y.same_value(&Rational { num: 24, den: 5 }));
    assert_eq!(q.x.num, 96);
    assert_eq!(q.y.num, 288);
    assert_eq!(q.x.den, 60);
    assert_eq!(q.x.den, q.y.den);
}

#[test]
fn crossing_must_lie_strictly_below() {
    let a = edge(0, 0, 10, 10, 1);
    let b = edge(10, 0, 0, 10, -1);
    assert!(intersection_below(&a, &b, &Rational::from_int(4)).is_some());
    assert_eq!(intersection_below(&a, &b, &Rational::from_int(5)), None);
    assert_eq!(intersection_below(&a, &b, &Rational { num: 10, den: 2 }), None);
    assert_eq!(intersection_below(&a, &b, &Rational::from_int(6)), None);
    assert!(intersection_below(&a, &b, &Rational { num: 49, den: 10 }).is_some());
}

#[test]
fn no_crossing_outside_the_edges_or_for_parallel_lines() {
    let zero = Rational::from_int(-100);
    // the lines meet at (5,5), above the second edge
    assert_eq!(intersection_below(&edge(0, 0, 10, 10, 1), &edge(4, 6, 0, 10, 1), &zero), None);
    // parallel
    assert_eq!(intersection_below(&edge(0, 0, 10, 10, 1), &edge(1, 0, 11, 10, 1), &zero), None);
    // on one line
    assert_eq!(intersection_below(&edge(0, 0, 10, 10, 1), &edge(2, 2, 8, 8, 1), &zero), None);
    assert_eq!(intersection_below(&edge(0, 0, 10, 10, 1), &edge(0, 0, 10, 10, 1), &zero), None);
    // two horizontal edges
    assert_eq!(intersection_below(&edge(0, 3, 9, 3, 0), &edge(2, 3, 5, 3, 0), &zero), None);
    // touching at an endpoint counts
    let tip = intersection_below(&edge(0, 0, 4, 4, 1), &edge(4, 4, 8, 0, 1), &zero).unwrap();
    assert!(tip.x.same_value(&Rational::from_int(4)));
    assert!(tip.y.same_value(&Rational::from_int(4)));
}

#[test]
fn crossing_with_a_horizontal_edge_lies_at_its_height() {
    let flat = edge(0, 5, 9, 5, 0);
    let steep = edge(2, 0, 4, 10, 1);
    let p = intersection_below(&flat, &steep, &Rational::from_int(0)).unwrap();
    assert!(p.y.same_value(&Rational::from_int(5)));
    assert!(p.x.same_value(&Rational::from_int(3)));
    assert_eq!(intersection_below(&steep, &flat, &Rational::from_int(0)), Some(p));
    assert_eq!(intersection_below(&flat, &steep, &Rational::from_int(5)), None);
}

#[test]
fn crossing_at_the_limits_stays_exact() {
    let m = COORD_LIMIT;
    let a = edge(-m, -m, m, m, 1);
    let b = edge(m, -m, -m, m, 1);
    let p = intersection_below(&a, &b, &Rational::from_int(-m)).unwrap();
    assert!(p.in_range());
    assert_eq!(p.x.num, 0);
    assert_eq!(p.y.num, 0);
    assert_eq!(p.x.den, DEN_LIMIT);
}
