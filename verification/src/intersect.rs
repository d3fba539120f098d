//! Where two edges cross.
//!
//! The crossing of two edges is the common point of their lines, provided the
//! lines are not parallel and the point's height lies within the `y` range of
//! both edges. Its coordinates are fractions over the absolute value of the
//! cross product of the two directions.

use crate::geometry::{lemma_product_bound, Edge, LineSegment, Rational, SweepPoint, COORD_LIMIT};
use vstd::prelude::*;

verus! {

/// Cross product of the step from the upper endpoint of `a` to that of `b`
/// with the direction of `b`: it measures how far along `a` the lines meet.
pub open spec fn reach(a: LineSegment, b: LineSegment) -> int {
    (b.upper().x - a.upper().x) * b.dy() - (b.upper().y - a.upper().y) * b.dx()
}

/// The common point of the lines through `a` and `b`, reached along `a`. It
/// is meaningful when the lines are not parallel.
pub open spec fn crossing_via(a: LineSegment, b: LineSegment) -> SweepPoint {
    let det = a.cross(b);
    let xn = a.upper().x * det + reach(a, b) * a.dx();
    let yn = a.upper().y * det + reach(a, b) * a.dy();
    if det > 0 {
        SweepPoint {
            x: Rational { num: xn as i128, den: det as i128 },
            y: Rational { num: yn as i128, den: det as i128 },
        }
    } else {
        SweepPoint {
            x: Rational { num: (-xn) as i128, den: (-det) as i128 },
            y: Rational { num: (-yn) as i128, den: (-det) as i128 },
        }
    }
}

/// The common point of the two lines, reached along the one that is not
/// horizontal.
pub open spec fn crossing_point(a: LineSegment, b: LineSegment) -> SweepPoint {
    if a.dy() != 0 {
        crossing_via(a, b)
    } else {
        crossing_via(b, a)
    }
}

/// The height `y` lies between the grid heights `top` and `bottom`.
pub open spec fn height_within(y: Rational, top: int, bottom: int) -> bool {
    top * y.den <= y.num <= bottom * y.den
}

/// The point where the two edges cross, if their lines are not parallel and
/// meet at a height that both edges cover.
pub open spec fn crossing_within(a: Edge, b: Edge) -> Option<SweepPoint> {
    let p = crossing_point(a.line, b.line);
    if a.line.cross(b.line) != 0 && height_within(p.y, a.top as int, a.bottom as int)
        && height_within(p.y, b.top as int, b.bottom as int) {
        Some(p)
    } else {
        None
    }
}

/// The point where the two edges cross, if it lies strictly below height `y`.
pub open spec fn crossing_below(a: Edge, b: Edge, y: Rational) -> Option<SweepPoint> {
    match crossing_within(a, b) {
        Some(p) => if y.lt(p.y) {
            Some(p)
        } else {
            None
        },
        None => None,
    }
}

/// The point computed by `crossing_via` lies on both lines.
pub proof fn lemma_crossing_on_both_lines(a: LineSegment, b: LineSegment)
    requires
        a.wf(),
        b.wf(),
        a.cross(b) != 0,
    ensures
        a.line_contains(crossing_via(a, b)),
        b.line_contains(crossing_via(a, b)),
{
    let det = a.cross(b);
    let (ax, ay) = (a.upper().x as int, a.upper().y as int);
    let (bx, by) = (b.upper().x as int, b.upper().y as int);
    let (adx, ady, bdx, bdy) = (a.dx(), a.dy(), b.dx(), b.dy());
    let t = reach(a, b);
    let xn = ax * det + t * adx;
    let yn = ay * det + t * ady;
    lemma_crossing_numbers(a, b);
    // along `a`: the point is the upper endpoint moved by `t / det` of the direction
    assert((t * adx) * ady == (t * ady) * adx) by (nonlinear_arith);
    // along `b`
    let (u1, u2, v1, v2) = ((bx - ax) * bdy, (by - ay) * bdx, adx * bdy, bdx * ady);
    assert((xn - bx * det) * bdy == t * v1 - u1 * det) by (nonlinear_arith)
        requires
            xn == ax * det + t * adx,
            u1 == (bx - ax) * bdy,
            v1 == adx * bdy,
    ;
    assert((yn - by * det) * bdx == t * v2 - u2 * det) by (nonlinear_arith)
        requires
            yn == ay * det + t * ady,
            u2 == (by - ay) * bdx,
            v2 == bdx * ady,
    ;
    assert(t * v1 - u1 * det == t * v2 - u2 * det) by (nonlinear_arith)
        requires
            t == u1 - u2,
            det == v1 - v2,
    ;
    let p = crossing_via(a, b);
    if det > 0 {
        assert(p.x.num == xn && p.y.num == yn && p.x.den == det && p.y.den == det);
    } else {
        assert(p.x.num == -xn && p.y.num == -yn && p.x.den == -det && p.y.den == -det);
        assert((-xn - ax * (-det)) * ady == ((-yn) - ay * (-det)) * adx) by (nonlinear_arith)
            requires
                (xn - ax * det) * ady == (yn - ay * det) * adx,
        ;
        assert((-xn - bx * (-det)) * bdy == ((-yn) - by * (-det)) * bdx) by (nonlinear_arith)
            requires
                (xn - bx * det) * bdy == (yn - by * det) * bdx,
        ;
    }
}

/// The numbers that make up `crossing_via` are small enough for their type.
pub proof fn lemma_crossing_numbers(a: LineSegment, b: LineSegment)
    requires
        a.wf(),
        b.wf(),
    ensures
        ({
            let c = COORD_LIMIT as int;
            let det = a.cross(b);
            let t = reach(a, b);
            &&& -(8 * (c * c)) <= det <= 8 * (c * c)
            &&& -(8 * (c * c)) <= t <= 8 * (c * c)
            &&& -(24 * (c * c * c)) <= a.upper().x * det + t * a.dx() <= 24 * (c * c * c)
            &&& -(24 * (c * c * c)) <= a.upper().y * det + t * a.dy() <= 24 * (c * c * c)
            &&& c * c == 17_592_186_044_416
            &&& c * c * c == 73_786_976_294_838_206_464
        }),
{
    let c = COORD_LIMIT as int;
    let det = a.cross(b);
    let t = reach(a, b);
    assert(c * c == 17_592_186_044_416 && c * c * c == 73_786_976_294_838_206_464)
        by (nonlinear_arith)
        requires
            c == 4_194_304,
    ;
    lemma_product_bound(a.dx(), b.dy(), 2 * c, 2 * c);
    lemma_product_bound(b.dx(), a.dy(), 2 * c, 2 * c);
    lemma_product_bound(b.upper().x - a.upper().x, b.dy(), 2 * c, 2 * c);
    lemma_product_bound(b.upper().y - a.upper().y, b.dx(), 2 * c, 2 * c);
    assert((2 * c) * (2 * c) == 4 * (c * c)) by (nonlinear_arith);
    lemma_product_bound(a.upper().x as int, det, c, 8 * (c * c));
    lemma_product_bound(a.upper().y as int, det, c, 8 * (c * c));
    lemma_product_bound(t, a.dx(), 8 * (c * c), 2 * c);
    lemma_product_bound(t, a.dy(), 8 * (c * c), 2 * c);
    assert(c * (8 * (c * c)) == 8 * (c * c * c) && (8 * (c * c)) * (2 * c) == 16 * (c * c * c))
        by (nonlinear_arith);
}

/// A crossing reached along a segment that is not horizontal, at a height the
/// segment covers, is a well-formed sweep position.
pub proof fn lemma_crossing_in_range(a: LineSegment, b: LineSegment)
    requires
        a.wf(),
        b.wf(),
        a.cross(b) != 0,
        a.dy() != 0,
        height_within(crossing_via(a, b).y, a.upper().y as int, a.lower().y as int),
    ensures
        crossing_via(a, b).wf(),
{
    let c = COORD_LIMIT as int;
    let det = a.cross(b);
    let (ax, ay) = (a.upper().x as int, a.upper().y as int);
    let (lx, ly) = (a.lower().x as int, a.lower().y as int);
    let (adx, ady) = (a.dx(), a.dy());
    let t = reach(a, b);
    lemma_crossing_numbers(a, b);
    let p = crossing_via(a, b);
    let (xn, yn, den) = (p.x.num as int, p.y.num as int, p.x.den as int);
    let st = if det > 0 { t } else { -t };
    assert(den > 0 && p.y.den == den);
    assert(yn == ay * den + st * ady && xn == ax * den + st * adx) by {
        if det > 0 {
            assert(xn == ax * det + t * adx && yn == ay * det + t * ady && den == det);
        } else {
            assert(xn == -(ax * det + t * adx) && yn == -(ay * det + t * ady) && den == -det);
            assert(ax * (-det) == -(ax * det) && ay * (-det) == -(ay * det) && (-t) * adx == -(t
                * adx) && (-t) * ady == -(t * ady)) by (nonlinear_arith);
        }
    }
    assert(0 <= st <= den) by (nonlinear_arith)
        requires
            ay * den <= ay * den + st * ady <= ly * den,
            ady == ly - ay,
            ady > 0,
            den > 0,
    ;
    assert(ax * den <= xn <= lx * den || lx * den <= xn <= ax * den) by (nonlinear_arith)
        requires
            xn == ax * den + st * adx,
            adx == lx - ax,
            0 <= st <= den,
    ;
    assert(-(c * den) <= ax * den <= c * den && -(c * den) <= lx * den <= c * den && -(c * den)
        <= ay * den <= c * den && -(c * den) <= ly * den <= c * den) by (nonlinear_arith)
        requires
            den > 0,
            -c <= ax <= c,
            -c <= lx <= c,
            -c <= ay <= c,
            -c <= ly <= c,
    ;
}

/// A crossing of two well-formed edges is a well-formed sweep position whose
/// denominator is the absolute value of the cross product of the directions.
pub proof fn lemma_crossing_within(a: Edge, b: Edge)
    requires
        a.wf(),
        b.wf(),
        crossing_within(a, b).is_some(),
    ensures
        crossing_within(a, b).unwrap().wf(),
        crossing_within(a, b).unwrap() == crossing_point(a.line, b.line),
{
    assert(a.line.cross(b.line) == -b.line.cross(a.line));
    if a.line.dy() != 0 {
        lemma_crossing_in_range(a.line, b.line);
    } else {
        assert(b.line.dy() != 0) by (nonlinear_arith)
            requires
                a.line.dx() * b.line.dy() - b.line.dx() * a.line.dy() != 0,
                a.line.dy() == 0,
        ;
        lemma_crossing_in_range(b.line, a.line);
    }
}

/// The crossing of two edges lies on the lines through both of them.
pub proof fn lemma_crossing_on_lines(a: Edge, b: Edge)
    requires
        a.wf(),
        b.wf(),
        crossing_within(a, b).is_some(),
    ensures
        a.line.line_contains(crossing_within(a, b).unwrap()),
        b.line.line_contains(crossing_within(a, b).unwrap()),
{
    assert(a.line.cross(b.line) == -b.line.cross(a.line));
    if a.line.dy() != 0 {
        lemma_crossing_on_both_lines(a.line, b.line);
    } else {
        lemma_crossing_on_both_lines(b.line, a.line);
    }
}

struct Crossing {
    x: i128,
    y: i128,
    den: i128,
}

/// Computes `crossing_via` for two lines that are not parallel.
fn crossing_along(a: &LineSegment, b: &LineSegment) -> (r: Crossing)
    requires
        a.wf(),
        b.wf(),
        a.cross(*b) != 0,
    ensures
        crossing_via(*a, *b) == (SweepPoint {
            x: Rational { num: r.x, den: r.den },
            y: Rational { num: r.y, den: r.den },
        }),
        0 < r.den <= 8 * (COORD_LIMIT * COORD_LIMIT),
{
    let au = a.min_y_point();
    let bu = b.min_y_point();
    let (adx, ady) = a.direction();
    let (bdx, bdy) = b.direction();
    proof {
        lemma_crossing_numbers(*a, *b);
        let c = COORD_LIMIT as int;
        lemma_product_bound(adx as int, bdy as int, 2 * c, 2 * c);
        lemma_product_bound(bdx as int, ady as int, 2 * c, 2 * c);
        lemma_product_bound(bu.x - au.x, bdy as int, 2 * c, 2 * c);
        lemma_product_bound(bu.y - au.y, bdx as int, 2 * c, 2 * c);
        assert((2 * c) * (2 * c) == 4 * (c * c)) by (nonlinear_arith);
    }
    let det: i128 = (adx as i128) * (bdy as i128) - (bdx as i128) * (ady as i128);
    let t: i128 = ((bu.x - au.x) as i128) * (bdy as i128) - ((bu.y - au.y) as i128) * (bdx as i128);
    proof {
        let c = COORD_LIMIT as int;
        lemma_product_bound(au.x as int, det as int, c, 8 * (c * c));
        lemma_product_bound(au.y as int, det as int, c, 8 * (c * c));
        lemma_product_bound(t as int, adx as int, 8 * (c * c), 2 * c);
        lemma_product_bound(t as int, ady as int, 8 * (c * c), 2 * c);
        assert(c * (8 * (c * c)) == 8 * (c * c * c) && (8 * (c * c)) * (2 * c) == 16 * (c * c * c))
            by (nonlinear_arith);
    }
    let xn: i128 = (au.x as i128) * det + t * (adx as i128);
    let yn: i128 = (au.y as i128) * det + t * (ady as i128);
    if det > 0 {
        Crossing { x: xn, y: yn, den: det }
    } else {
        Crossing { x: -xn, y: -yn, den: -det }
    }
}

/// Decides `height_within` for a position whose numbers are known to be small.
fn covers(top: i64, bottom: i64, y: i128, den: i128) -> (r: bool)
    requires
        -COORD_LIMIT <= top <= COORD_LIMIT,
        -COORD_LIMIT <= bottom <= COORD_LIMIT,
        0 < den <= 8 * (COORD_LIMIT * COORD_LIMIT),
    ensures
        r == height_within(Rational { num: y, den }, top as int, bottom as int),
{
    proof {
        let c = COORD_LIMIT as int;
        lemma_product_bound(top as int, den as int, c, 8 * (c * c));
        lemma_product_bound(bottom as int, den as int, c, 8 * (c * c));
        assert(c * (8 * (c * c)) == 590_295_810_358_705_651_712) by (nonlinear_arith)
            requires
                c == 4_194_304,
        ;
    }
    (top as i128) * den <= y && y <= (bottom as i128) * den
}

/// The point where two edges cross strictly below the height `y`, if there is
/// one: the common point of their lines, at a height that both edges cover.
/// Parallel lines, and so edges that lie on one line, have none.
pub fn intersection_below(a: &Edge, b: &Edge, y: &Rational) -> (r: Option<SweepPoint>)
    requires
        a.wf(),
        b.wf(),
        y.wf(),
    ensures
        r == crossing_below(*a, *b, *y),
        r.is_some() ==> r.unwrap().wf(),
{
    if a.line.slope_side(&b.line) == 0 {
        return None;
    }
    let horizontal = a.line.point1.y == a.line.point2.y;
    proof {
        let c = COORD_LIMIT as int;
        assert(a.line.cross(b.line) == -b.line.cross(a.line));
        assert(8 * (c * c) == crate::geometry::DEN_LIMIT) by (nonlinear_arith)
            requires
                c == 4_194_304,
        ;
        if horizontal {
            assert(b.line.dy() != 0) by (nonlinear_arith)
                requires
                    a.line.dx() * b.line.dy() - b.line.dx() * a.line.dy() != 0,
                    a.line.dy() == 0,
            ;
        }
    }
    let p = if horizontal {
        crossing_along(&b.line, &a.line)
    } else {
        crossing_along(&a.line, &b.line)
    };
    if covers(a.top, a.bottom, p.y, p.den) && covers(b.top, b.bottom, p.y, p.den) {
        let point = SweepPoint {
            x: Rational { num: p.x, den: p.den },
            y: Rational { num: p.y, den: p.den },
        };
        proof {
            lemma_crossing_within(*a, *b);
        }
        if y.less_than(&point.y) {
            Some(point)
        } else {
            None
        }
    } else {
        None
    }
}

} // verus!
