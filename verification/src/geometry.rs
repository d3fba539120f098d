//! Geometry primitives on an integer grid.
//!
//! Coordinates are fixed-point integers. Every predicate used by the sweep is
//! decided exactly: positions that fall between grid points (crossings of two
//! edges) are kept as fractions and compared by cross-multiplication, so no
//! rounding ever influences an ordering decision.

use vstd::prelude::*;

verus! {

/// Largest absolute value a grid coordinate may take.
pub const COORD_LIMIT: i64 = 4_194_304;

/// Largest denominator a sweep position may carry: eight times the square of
/// `COORD_LIMIT`, which bounds the cross product of two edge directions.
pub const DEN_LIMIT: i128 = 140_737_488_355_328;

/// The product of two bounded integers is bounded by the product of the bounds.
pub proof fn lemma_product_bound(a: int, b: int, ma: int, mb: int)
    requires
        -ma <= a <= ma,
        -mb <= b <= mb,
    ensures
        -(ma * mb) <= a * b <= ma * mb,
{
    assert(-(ma * mb) <= a * b <= ma * mb) by (nonlinear_arith)
        requires
            -ma <= a <= ma,
            -mb <= b <= mb,
    ;
}

/// A point of the integer grid.
#[derive(Clone, Copy, Debug, PartialEq, Eq, Structural)]
pub struct Point {
    pub x: i64,
    pub y: i64,
}

impl Point {
    /// The coordinates are within the supported range.
    pub open spec fn wf(self) -> bool {
        &&& -COORD_LIMIT <= self.x <= COORD_LIMIT
        &&& -COORD_LIMIT <= self.y <= COORD_LIMIT
    }

    /// Sweep order on grid points: by `y`, then by `x`.
    pub open spec fn precedes(self, other: Point) -> bool {
        self.y < other.y || (self.y == other.y && self.x <= other.x)
    }

    pub fn new(x: i64, y: i64) -> (p: Point)
        ensures
            p == (Point { x, y }),
    {
        Point { x, y }
    }

    /// Decides `wf`.
    pub fn in_range(&self) -> (ok: bool)
        ensures
            ok == self.wf(),
    {
        -COORD_LIMIT <= self.x && self.x <= COORD_LIMIT && -COORD_LIMIT <= self.y && self.y
            <= COORD_LIMIT
    }
}

/// A fraction `num / den` with a positive denominator.
///
/// Two fractions of the same value may differ in representation; `==` on this
/// type is equality of representation, `eqv` equality of value.
#[derive(Clone, Copy, Debug, PartialEq, Eq, Structural)]
pub struct Rational {
    pub num: i128,
    pub den: i128,
}

impl Rational {
    /// Positive, bounded denominator and a value within the coordinate range.
    pub open spec fn wf(self) -> bool {
        &&& 0 < self.den <= DEN_LIMIT
        &&& -(COORD_LIMIT * self.den) <= self.num <= COORD_LIMIT * self.den
    }

    /// `self < other` as values.
    pub open spec fn lt(self, other: Rational) -> bool {
        self.num * other.den < other.num * self.den
    }

    /// `self == other` as values.
    pub open spec fn eqv(self, other: Rational) -> bool {
        self.num * other.den == other.num * self.den
    }

    /// The fraction `v / 1`.
    pub open spec fn of_int(v: int) -> Rational {
        Rational { num: v as i128, den: 1 }
    }

    /// Both cross products of two well-formed fractions fit in 128 bits.
    pub proof fn lemma_cross_bounds(self, other: Rational)
        requires
            self.wf(),
            other.wf(),
        ensures
            -0x4000_0000_0000_0000_0000_0000_0000_0000 <= self.num * other.den
                <= 0x4000_0000_0000_0000_0000_0000_0000_0000,
            -0x4000_0000_0000_0000_0000_0000_0000_0000 <= other.num * self.den
                <= 0x4000_0000_0000_0000_0000_0000_0000_0000,
    {
        let c = COORD_LIMIT as int;
        let d = DEN_LIMIT as int;
        lemma_product_bound(c, self.den as int, c, d);
        lemma_product_bound(c, other.den as int, c, d);
        lemma_product_bound(self.num as int, other.den as int, c * d, d);
        lemma_product_bound(other.num as int, self.den as int, c * d, d);
        assert(c * d * d <= 0x4000_0000_0000_0000_0000_0000_0000_0000) by (nonlinear_arith)
            requires
                c == 4_194_304,
                d == 140_737_488_355_328,
        ;
    }

    /// `lt` is transitive on fractions with positive denominators.
    pub proof fn lemma_lt_transitive(a: Rational, b: Rational, c: Rational)
        requires
            a.den > 0,
            b.den > 0,
            c.den > 0,
            a.lt(b) || a.eqv(b),
            b.lt(c) || b.eqv(c),
        ensures
            a.lt(c) || a.eqv(c),
            a.lt(b) || b.lt(c) ==> a.lt(c),
            a.eqv(b) && b.eqv(c) ==> a.eqv(c),
    {
        let (an, ad) = (a.num as int, a.den as int);
        let (bn, bd) = (b.num as int, b.den as int);
        let (cn, cd) = (c.num as int, c.den as int);
        assert(an * cd <= cn * ad && ((an * bd < bn * ad || bn * cd < cn * bd) ==> an * cd < cn
            * ad) && ((an * bd == bn * ad && bn * cd == cn * bd) ==> an * cd == cn * ad))
            by (nonlinear_arith)
            requires
                ad > 0,
                bd > 0,
                cd > 0,
                an * bd <= bn * ad,
                bn * cd <= cn * bd,
        {
            assert((an * bd) * cd <= (bn * ad) * cd);
            assert((bn * cd) * ad <= (cn * bd) * ad);
            assert((an * cd) * bd <= (cn * ad) * bd);
            assert(an * bd < bn * ad ==> (an * bd) * cd < (bn * ad) * cd);
            assert(bn * cd < cn * bd ==> (bn * cd) * ad < (cn * bd) * ad);
        }
    }

    /// The fraction `v / 1`.
    pub fn from_int(v: i64) -> (r: Rational)
        ensures
            r == Rational::of_int(v as int),
            -COORD_LIMIT <= v <= COORD_LIMIT ==> r.wf(),
    {
        Rational { num: v as i128, den: 1 }
    }

    /// Decides `lt`.
    pub fn less_than(&self, other: &Rational) -> (r: bool)
        requires
            self.wf(),
            other.wf(),
        ensures
            r == self.lt(*other),
    {
        proof {
            self.lemma_cross_bounds(*other);
        }
        self.num * other.den < other.num * self.den
    }

    /// Decides `eqv`.
    pub fn same_value(&self, other: &Rational) -> (r: bool)
        requires
            self.wf(),
            other.wf(),
        ensures
            r == self.eqv(*other),
    {
        proof {
            self.lemma_cross_bounds(*other);
        }
        self.num * other.den == other.num * self.den
    }

    /// Decides `wf`.
    pub fn in_range(&self) -> (ok: bool)
        ensures
            ok == self.wf(),
    {
        if 0 < self.den && self.den <= DEN_LIMIT {
            assert(0 <= COORD_LIMIT * self.den <= COORD_LIMIT * DEN_LIMIT) by (nonlinear_arith)
                requires
                    0 < self.den <= DEN_LIMIT,
            ;
            let limit: i128 = (COORD_LIMIT as i128) * self.den;
            -limit <= self.num && self.num <= limit
        } else {
            false
        }
    }
}

/// A position of the sweep: a point whose coordinates are fractions over one
/// common denominator.
#[derive(Clone, Copy, Debug, PartialEq, Eq, Structural)]
pub struct SweepPoint {
    pub x: Rational,
    pub y: Rational,
}

impl SweepPoint {
    pub open spec fn wf(self) -> bool {
        &&& self.x.wf()
        &&& self.y.wf()
        &&& self.x.den == self.y.den
    }

    /// The sweep position that coincides with a grid point.
    pub open spec fn of_point(p: Point) -> SweepPoint {
        SweepPoint { x: Rational::of_int(p.x as int), y: Rational::of_int(p.y as int) }
    }

    /// `self` comes strictly before `other` in sweep order: by `y`, then by `x`.
    pub open spec fn before(self, other: SweepPoint) -> bool {
        self.y.lt(other.y) || (self.y.eqv(other.y) && self.x.lt(other.x))
    }

    /// `self` and `other` are the same position.
    pub open spec fn coincides(self, other: SweepPoint) -> bool {
        self.y.eqv(other.y) && self.x.eqv(other.x)
    }

    /// The sweep position that coincides with a grid point.
    pub fn at(p: &Point) -> (r: SweepPoint)
        ensures
            r == SweepPoint::of_point(*p),
            p.wf() ==> r.wf(),
    {
        SweepPoint { x: Rational::from_int(p.x), y: Rational::from_int(p.y) }
    }

    /// Decides `wf`.
    pub fn in_range(&self) -> (ok: bool)
        ensures
            ok == self.wf(),
    {
        self.x.in_range() && self.y.in_range() && self.x.den == self.y.den
    }
}

/// A straight segment between two grid points.
#[derive(Clone, Copy, Debug, PartialEq, Eq, Structural)]
pub struct LineSegment {
    pub point1: Point,
    pub point2: Point,
}

impl LineSegment {
    pub open spec fn wf(self) -> bool {
        self.point1.wf() && self.point2.wf()
    }

    /// The endpoint met first by the sweep: the one with the smaller `y`, and
    /// for a horizontal segment the left one.
    pub open spec fn upper(self) -> Point {
        if self.point1.precedes(self.point2) {
            self.point1
        } else {
            self.point2
        }
    }

    /// The endpoint met last by the sweep.
    pub open spec fn lower(self) -> Point {
        if self.point1.precedes(self.point2) {
            self.point2
        } else {
            self.point1
        }
    }

    /// Horizontal extent travelled from `upper` to `lower`.
    pub open spec fn dx(self) -> int {
        self.lower().x - self.upper().x
    }

    /// Vertical extent travelled from `upper` to `lower`; never negative.
    pub open spec fn dy(self) -> int {
        self.lower().y - self.upper().y
    }

    pub open spec fn is_horizontal(self) -> bool {
        self.point1.y == self.point2.y
    }

    /// Both endpoints coincide.
    pub open spec fn is_degenerate(self) -> bool {
        self.point1 == self.point2
    }

    /// The two segments join the same pair of points, in either orientation.
    pub open spec fn same_segment(self, other: LineSegment) -> bool {
        self.upper() == other.upper() && self.lower() == other.lower()
    }

    /// The segment listed from its upper to its lower endpoint.
    pub open spec fn downward(self) -> LineSegment {
        LineSegment { point1: self.upper(), point2: self.lower() }
    }

    /// Lexicographic order on the coordinates of `upper`, then `lower`. It
    /// separates any two segments that are not the same segment.
    pub open spec fn key_lt(self, other: LineSegment) -> bool {
        let (a, b) = (self.upper(), other.upper());
        let (c, d) = (self.lower(), other.lower());
        a.x < b.x || (a.x == b.x && (a.y < b.y || (a.y == b.y && (c.x < d.x || (c.x == d.x && c.y
            < d.y)))))
    }

    /// `dx` of the first times `dy` of the second, minus the reverse: positive
    /// exactly when `self` runs to the right of `other` below a shared point.
    pub open spec fn cross(self, other: LineSegment) -> int {
        self.dx() * other.dy() - other.dx() * self.dy()
    }

    /// The point `p` lies on the line through this segment.
    pub open spec fn line_contains(self, p: SweepPoint) -> bool {
        (p.x.num - self.upper().x * p.x.den) * self.dy() == (p.y.num - self.upper().y * p.y.den)
            * self.dx()
    }

    /// Numerator of the line's `x` at height `y`, over the denominator
    /// `y.den * dy`.
    pub open spec fn x_numerator_at(self, y: Rational) -> int {
        self.upper().x * y.den * self.dy() + (y.num - self.upper().y * y.den) * self.dx()
    }

    pub fn new(x1: i64, y1: i64, x2: i64, y2: i64) -> (l: LineSegment)
        ensures
            l == (LineSegment { point1: Point { x: x1, y: y1 }, point2: Point { x: x2, y: y2 } }),
    {
        LineSegment { point1: Point { x: x1, y: y1 }, point2: Point { x: x2, y: y2 } }
    }

    /// Decides `wf`.
    pub fn in_range(&self) -> (ok: bool)
        ensures
            ok == self.wf(),
    {
        self.point1.in_range() && self.point2.in_range()
    }

    fn first_precedes(&self) -> (r: bool)
        ensures
            r == self.point1.precedes(self.point2),
    {
        self.point1.y < self.point2.y || (self.point1.y == self.point2.y && self.point1.x
            <= self.point2.x)
    }

    /// The endpoint with the smaller `y`; the left one if the segment is
    /// horizontal.
    pub fn min_y_point(&self) -> (p: Point)
        ensures
            p == self.upper(),
    {
        if self.first_precedes() {
            self.point1
        } else {
            self.point2
        }
    }

    /// The endpoint with the larger `y`; the right one if the segment is
    /// horizontal.
    pub fn max_y_point(&self) -> (p: Point)
        ensures
            p == self.lower(),
    {
        if self.first_precedes() {
            self.point2
        } else {
            self.point1
        }
    }

    /// Decides `same_segment`.
    pub fn joins_same_points(&self, other: &LineSegment) -> (r: bool)
        ensures
            r == self.same_segment(*other),
    {
        self.min_y_point() == other.min_y_point() && self.max_y_point() == other.max_y_point()
    }

    /// Decides `key_lt`.
    pub fn key_less(&self, other: &LineSegment) -> (r: bool)
        ensures
            r == self.key_lt(*other),
    {
        let a = self.min_y_point();
        let b = other.min_y_point();
        let c = self.max_y_point();
        let d = other.max_y_point();
        a.x < b.x || (a.x == b.x && (a.y < b.y || (a.y == b.y && (c.x < d.x || (c.x == d.x && c.y
            < d.y)))))
    }

    /// The direction from `upper` to `lower`.
    pub fn direction(&self) -> (d: (i64, i64))
        requires
            self.wf(),
        ensures
            d.0 == self.dx(),
            d.1 == self.dy(),
            -2 * COORD_LIMIT <= d.0 <= 2 * COORD_LIMIT,
            0 <= d.1 <= 2 * COORD_LIMIT,
            d.1 == 0 ==> d.0 >= 0,
    {
        let u = self.min_y_point();
        let l = self.max_y_point();
        (l.x - u.x, l.y - u.y)
    }

    /// Sign of `cross`: `1`, `0` or `-1`.
    pub fn slope_side(&self, other: &LineSegment) -> (s: i8)
        requires
            self.wf(),
            other.wf(),
        ensures
            s == 1 <==> self.cross(*other) > 0,
            s == 0 <==> self.cross(*other) == 0,
            s == -1 <==> self.cross(*other) < 0,
    {
        let (ax, ay) = self.direction();
        let (bx, by) = other.direction();
        proof {
            lemma_product_bound(ax as int, by as int, 2 * COORD_LIMIT, 2 * COORD_LIMIT);
            lemma_product_bound(bx as int, ay as int, 2 * COORD_LIMIT, 2 * COORD_LIMIT);
        }
        let c: i128 = (ax as i128) * (by as i128) - (bx as i128) * (ay as i128);
        if c > 0 {
            1
        } else if c == 0 {
            0
        } else {
            -1
        }
    }

    /// Where the point lies relative to the line, as a sign-carrying number:
    /// positive if the point is to the right of the line at the point's
    /// height, negative if to the left, zero if on it. For a horizontal
    /// segment the line's position is its own extent: the number is zero when
    /// the point's `x` is within it.
    pub open spec fn side_of(self, p: SweepPoint) -> int {
        if self.dy() != 0 {
            p.x.num * self.dy() - self.x_numerator_at(p.y)
        } else if p.x.num < self.upper().x * p.x.den {
            -1
        } else if p.x.num > self.lower().x * p.x.den {
            1
        } else {
            0
        }
    }

    /// The line's `x` at height `y`, as a fraction over `y.den * dy`. The
    /// segment must not be horizontal.
    pub fn x_at(&self, y: &Rational) -> (x: Rational)
        requires
            self.wf(),
            y.wf(),
            !self.is_horizontal(),
        ensures
            x.num == self.x_numerator_at(*y),
            x.den == y.den * self.dy(),
            x.den > 0,
    {
        let u = self.min_y_point();
        let (dx, dy) = self.direction();
        let ghost c: int = COORD_LIMIT as int;
        let ghost d: int = DEN_LIMIT as int;
        proof {
            lemma_product_bound(c, y.den as int, c, d);
            lemma_product_bound(u.x as int, y.den as int, c, d);
            lemma_product_bound(u.y as int, y.den as int, c, d);
            lemma_product_bound(u.x * y.den, dy as int, c * d, 2 * c);
            lemma_product_bound(y.num - u.y * y.den, dx as int, 2 * (c * d), 2 * c);
            lemma_product_bound(y.den as int, dy as int, d, 2 * c);
            assert(c * d == 590_295_810_358_705_651_712) by (nonlinear_arith)
                requires
                    c == 4_194_304,
                    d == 140_737_488_355_328,
            ;
            assert(y.den * dy > 0) by (nonlinear_arith)
                requires
                    y.den > 0,
                    dy > 0,
            ;
        }
        let base: i128 = (u.x as i128) * y.den * (dy as i128);
        let rise: i128 = (y.num - (u.y as i128) * y.den) * (dx as i128);
        Rational { num: base + rise, den: y.den * (dy as i128) }
    }

    /// Sign of `side_of`: `1`, `0` or `-1`.
    pub fn side(&self, p: &SweepPoint) -> (s: i8)
        requires
            self.wf(),
            p.wf(),
        ensures
            s == 1 <==> self.side_of(*p) > 0,
            s == 0 <==> self.side_of(*p) == 0,
            s == -1 <==> self.side_of(*p) < 0,
    {
        let ghost c: int = COORD_LIMIT as int;
        let ghost d: int = DEN_LIMIT as int;
        proof {
            lemma_product_bound(c, p.x.den as int, c, d);
            assert(c * d == 590_295_810_358_705_651_712) by (nonlinear_arith)
                requires
                    c == 4_194_304,
                    d == 140_737_488_355_328,
            ;
        }
        if self.point1.y != self.point2.y {
            let (_, dy) = self.direction();
            let x = self.x_at(&p.y);
            proof {
                lemma_product_bound(p.x.num as int, dy as int, c * d, 2 * c);
                let u = self.upper();
                lemma_product_bound(u.x as int, p.y.den as int, c, d);
                lemma_product_bound(u.y as int, p.y.den as int, c, d);
                lemma_product_bound(u.x * p.y.den, dy as int, c * d, 2 * c);
                lemma_product_bound(p.y.num - u.y * p.y.den, self.dx(), 2 * (c * d), 2 * c);
            }
            let v: i128 = p.x.num * (dy as i128) - x.num;
            if v > 0 {
                1
            } else if v == 0 {
                0
            } else {
                -1
            }
        } else {
            let u = self.min_y_point();
            let l = self.max_y_point();
            proof {
                lemma_product_bound(u.x as int, p.x.den as int, c, d);
                lemma_product_bound(l.x as int, p.x.den as int, c, d);
            }
            if p.x.num < (u.x as i128) * p.x.den {
                -1
            } else if p.x.num > (l.x as i128) * p.x.den {
                1
            } else {
                0
            }
        }
    }

    /// In terms of a point `p` on the line, the line's `x` at height `y` is
    /// `p.x` plus the slope times the distance from `p.y` to `y`: with all
    /// denominators cleared, `p.den * x_numerator_at(y)` equals
    /// `y.den * p.x.num * dy + dx * (y.num * p.den - y.den * p.y.num)`.
    pub proof fn lemma_x_from_point(self, p: SweepPoint, y: Rational)
        requires
            p.x.den == p.y.den,
            self.line_contains(p),
        ensures
            p.y.den * self.x_numerator_at(y) == y.den * p.x.num * self.dy() + self.dx() * (y.num
                * p.y.den - y.den * p.y.num),
    {
        let (ux, uy) = (self.upper().x as int, self.upper().y as int);
        let (dx, dy) = (self.dx(), self.dy());
        let (d, pxn, pyn) = (p.y.den as int, p.x.num as int, p.y.num as int);
        let (yn, yd) = (y.num as int, y.den as int);
        let a = self.x_numerator_at(y);
        assert(a == ux * yd * dy + (yn - uy * yd) * dx);
        // the point lies on the line
        assert((pxn - ux * d) * dy == (pyn - uy * d) * dx);
        assert(ux * d * dy == pxn * dy - pyn * dx + uy * d * dx) by (nonlinear_arith)
            requires
                (pxn - ux * d) * dy == (pyn - uy * d) * dx,
        ;
        let t = ux * d * dy;
        assert(d * (ux * yd * dy) == yd * t) by (nonlinear_arith)
            requires
                t == ux * d * dy,
        ;
        assert(yd * t == yd * pxn * dy - yd * (pyn * dx) + yd * (uy * d * dx)) by (nonlinear_arith)
            requires
                t == pxn * dy - pyn * dx + uy * d * dx,
        ;
        assert(d * ((yn - uy * yd) * dx) == dx * (yn * d) - yd * (uy * d * dx))
            by (nonlinear_arith);
        assert(dx * (yn * d - yd * pyn) == dx * (yn * d) - yd * (pyn * dx)) by (nonlinear_arith);
        assert(d * a == d * (ux * yd * dy) + d * ((yn - uy * yd) * dx)) by (nonlinear_arith)
            requires
                a == ux * yd * dy + (yn - uy * yd) * dx,
        ;
    }

    /// Of two lines through one point, neither horizontal, the one that runs
    /// further right lies to the right at every height below the point, and
    /// two lines of one slope coincide there: the `x` of `self` at `y`
    /// compares with the `x` of `other` at `y` as `cross` compares with zero.
    pub proof fn lemma_order_below_shared_point(
        self,
        other: LineSegment,
        p: SweepPoint,
        y: Rational,
    )
        requires
            self.dy() > 0,
            other.dy() > 0,
            p.x.den == p.y.den,
            p.y.den > 0,
            y.den > 0,
            self.line_contains(p),
            other.line_contains(p),
            p.y.lt(y),
        ensures
            self.cross(other) > 0 <==> self.x_numerator_at(y) * other.dy() > other.x_numerator_at(
                y,
            ) * self.dy(),
            self.cross(other) == 0 <==> self.x_numerator_at(y) * other.dy()
                == other.x_numerator_at(y) * self.dy(),
    {
        let (dxa, dya, dxb, dyb) = (self.dx(), self.dy(), other.dx(), other.dy());
        let (d, pxn, pyn) = (p.y.den as int, p.x.num as int, p.y.num as int);
        let (yn, yd) = (y.num as int, y.den as int);
        let a = self.x_numerator_at(y);
        let b = other.x_numerator_at(y);
        let w = yn * d - yd * pyn;
        let c = self.cross(other);
        self.lemma_x_from_point(p, y);
        other.lemma_x_from_point(p, y);
        assert(w > 0) by (nonlinear_arith)
            requires
                pyn * yd < yn * d,
                w == yn * d - yd * pyn,
        ;
        let k = yd * pxn;
        assert(d * (a * dyb - b * dya) == c * w) by (nonlinear_arith)
            requires
                d * a == k * dya + dxa * w,
                d * b == k * dyb + dxb * w,
                c == dxa * dyb - dxb * dya,
        {
            assert(d * (a * dyb) == (d * a) * dyb);
            assert(d * (b * dya) == (d * b) * dya);
            assert((k * dya + dxa * w) * dyb == k * dya * dyb + dxa * w * dyb);
            assert((k * dyb + dxb * w) * dya == k * dyb * dya + dxb * w * dya);
            assert(k * dya * dyb == k * dyb * dya);
        }
        assert((c > 0 <==> a * dyb - b * dya > 0) && (c == 0 <==> a * dyb - b * dya == 0))
            by (nonlinear_arith)
            requires
                d * (a * dyb - b * dya) == c * w,
                d > 0,
                w > 0,
        ;
    }
}

/// A directed polygon edge: a segment, the `y` range it covers, and its
/// contribution to the winding count of a ray that crosses it.
#[derive(Clone, Copy, Debug, PartialEq, Eq, Structural)]
pub struct Edge {
    pub line: LineSegment,
    pub top: i64,
    pub bottom: i64,
    pub direction: i32,
}

impl Edge {
    /// The bounds agree with the segment and the direction is `-1`, `0` or `1`.
    pub open spec fn wf(self) -> bool {
        &&& self.line.wf()
        &&& self.top == self.line.upper().y
        &&& self.bottom == self.line.lower().y
        &&& -1 <= self.direction <= 1
    }

    /// Builds the edge over `line`, deriving `top` and `bottom` from it.
    pub fn new(line: LineSegment, direction: i32) -> (e: Edge)
        ensures
            e.line == line,
            e.direction == direction,
            e.top == line.upper().y,
            e.bottom == line.lower().y,
            line.wf() && -1 <= direction <= 1 ==> e.wf(),
    {
        Edge { line, top: line.min_y_point().y, bottom: line.max_y_point().y, direction }
    }

    /// Decides `wf`.
    pub fn well_formed(&self) -> (ok: bool)
        ensures
            ok == self.wf(),
    {
        self.line.in_range() && self.top == self.line.min_y_point().y && self.bottom
            == self.line.max_y_point().y && -1 <= self.direction && self.direction <= 1
    }
}

/// Every edge of the list is well formed.
pub open spec fn edges_wf(edges: Seq<Edge>) -> bool {
    forall|i: int| 0 <= i < edges.len() ==> (#[trigger] edges[i]).wf()
}

/// Decides `edges_wf`.
pub fn all_well_formed(edges: &Vec<Edge>) -> (ok: bool)
    ensures
        ok == edges_wf(edges@),
{
    let mut i: usize = 0;
    while i < edges.len()
        invariant
            i <= edges.len(),
            forall|k: int| 0 <= k < i ==> (#[trigger] edges@[k]).wf(),
        decreases edges.len() - i,
    {
        if !edges[i].well_formed() {
            return false;
        }
        i += 1;
    }
    true
}

} // verus!
