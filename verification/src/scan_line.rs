//! The sweep line: the edges that cross the current height, kept in
//! left-to-right order.
//!
//! The records live in an arena with one slot per edge of the input, addressed
//! by the edge's index. Each active record names its left and right neighbour,
//! so that removing a record or exchanging two neighbours is a matter of
//! rewriting a few indices. The span between a record and its right neighbour
//! is the record's open trapezoid; the record remembers the height at which
//! that span began.

use crate::geometry::{edges_wf, Edge, LineSegment, Rational, SweepPoint};
use crate::trapezoid::{FillRule, Trapezoid};
use vstd::prelude::*;

verus! {

/// How a line compares with a record of the sweep line at a point.
#[derive(Clone, Copy, Debug, PartialEq, Eq, Structural)]
pub enum Comparator {
    /// The line belongs to the right of the record.
    Greater,
    /// The line belongs to the left of the record.
    Less,
    /// The line joins the same two points as the record's.
    Equal,
    /// Nothing has been compared.
    Empty,
}

/// Where the line through `point` belongs relative to the candidate `cand`.
///
/// The same segment compares `Equal`. Otherwise the point's `x` is compared
/// with the candidate's `x` at the point's height. Where the candidate passes
/// through the point, the line that runs further right below the point is the
/// greater; two lines of one slope are told apart by their coordinates.
pub open spec fn place(point: SweepPoint, line: LineSegment, cand: LineSegment) -> Comparator {
    if line.same_segment(cand) {
        Comparator::Equal
    } else if cand.side_of(point) > 0 {
        Comparator::Greater
    } else if cand.side_of(point) < 0 {
        Comparator::Less
    } else if line.cross(cand) > 0 {
        Comparator::Greater
    } else if line.cross(cand) < 0 {
        Comparator::Less
    } else if cand.key_lt(line) {
        Comparator::Greater
    } else {
        Comparator::Less
    }
}

/// The edge at position `k` of the order, if there is one.
pub open spec fn at(order: Seq<usize>, k: int) -> Option<usize> {
    if 0 <= k < order.len() {
        Some(order[k])
    } else {
        None
    }
}

/// Position `k` of the order is the gap between the records `prev` and `next`,
/// either of which is missing at an end of the order.
pub open spec fn is_gap(order: Seq<usize>, k: int, prev: Option<usize>, next: Option<usize>) -> bool {
    0 <= k <= order.len() && prev == at(order, k - 1) && next == at(order, k)
}

/// First position at or after `from` whose edge the line is not greater than;
/// the length of the order if there is none. A new edge is put there.
pub open spec fn insert_position(
    edges: Seq<Edge>,
    order: Seq<usize>,
    point: SweepPoint,
    line: LineSegment,
    from: int,
) -> int
    decreases order.len() - from,
{
    if from < 0 || from >= order.len() {
        order.len() as int
    } else if place(point, line, edges[order[from] as int].line) == Comparator::Greater {
        insert_position(edges, order, point, line, from + 1)
    } else {
        from
    }
}

/// Sum of the directions of the edges at position `from` and to its right:
/// the winding count of the span just left of position `from`.
pub open spec fn winding(edges: Seq<Edge>, order: Seq<usize>, from: int) -> int
    decreases order.len() - from,
{
    if from < 0 || from >= order.len() {
        0
    } else {
        edges[order[from] as int].direction + winding(edges, order, from + 1)
    }
}

/// Closing the span right of position `k` at height `bottom` yields a
/// trapezoid: the span has a right edge, which is not the same segment as its
/// left edge, a positive height, and a winding count that the rule accepts.
pub open spec fn emits(
    edges: Seq<Edge>,
    rule: FillRule,
    order: Seq<usize>,
    tops: Seq<Rational>,
    k: int,
    bottom: Rational,
) -> bool {
    &&& 0 <= k
    &&& k + 1 < order.len()
    &&& tops[order[k] as int].lt(bottom)
    &&& !edges[order[k] as int].line.same_segment(edges[order[k + 1] as int].line)
    &&& rule.passes(winding(edges, order, k + 1))
}

/// The trapezoid list after closing the span right of position `k`.
pub open spec fn closed(
    edges: Seq<Edge>,
    rule: FillRule,
    order: Seq<usize>,
    tops: Seq<Rational>,
    traps: Seq<Trapezoid>,
    k: int,
    bottom: Rational,
) -> Seq<Trapezoid> {
    if emits(edges, rule, order, tops, k, bottom) {
        traps.push(
            Trapezoid::between(
                edges[order[k] as int].line,
                edges[order[k + 1] as int].line,
                tops[order[k] as int],
                bottom,
            ),
        )
    } else {
        traps
    }
}

/// The edge reaches below the height of `p`.
pub open spec fn continues_below(e: Edge, p: SweepPoint) -> bool {
    p.y.num < e.bottom * p.y.den
}

/// The edges `a` and `b`, with `a` on the left, stand in the wrong order just
/// below `p`: both pass through `p` and reach below it, and `a` belongs to
/// the right of `b` there.
pub open spec fn inverted(edges: Seq<Edge>, p: SweepPoint, a: usize, b: usize) -> bool {
    let (ea, eb) = (edges[a as int], edges[b as int]);
    &&& ea.line.side_of(p) == 0
    &&& eb.line.side_of(p) == 0
    &&& continues_below(ea, p)
    &&& continues_below(eb, p)
    &&& place(p, ea.line, eb.line) == Comparator::Greater
}

/// No two neighbours of the order are inverted at `p`: the edges through `p`
/// stand in the order that `place` gives them just below it.
pub open spec fn settled(edges: Seq<Edge>, order: Seq<usize>, p: SweepPoint) -> bool {
    forall|k: int|
        0 <= k && k + 1 < order.len() ==> !inverted(edges, p, #[trigger] order[k], order[k + 1])
}

/// Of two edges at most one order is inverted.
pub proof fn lemma_inverted_one_way(edges: Seq<Edge>, p: SweepPoint, a: usize, b: usize)
    requires
        inverted(edges, p, a, b),
    ensures
        !inverted(edges, p, b, a),
{
}

/// The order with the neighbours at positions `k` and `k + 1` exchanged.
pub open spec fn exchanged(order: Seq<usize>, k: int) -> Seq<usize> {
    order.update(k, order[k + 1]).update(k + 1, order[k])
}

/// An order without repetition, over indices below `n`, has at most `n`
/// entries.
pub proof fn lemma_order_length(order: Seq<usize>, n: int)
    requires
        order.no_duplicates(),
        forall|k: int| 0 <= k < order.len() ==> (#[trigger] order[k]) < n,
        0 <= n <= usize::MAX,
    ensures
        order.len() <= n,
    decreases n,
{
    if order.len() > 0 {
        assert(order[0] < n);
        let last = (n - 1) as usize;
        let rest = if order.contains(last) {
            order.remove(order.index_of(last))
        } else {
            order
        };
        assert(rest.no_duplicates() && forall|k: int|
            0 <= k < rest.len() ==> (#[trigger] rest[k]) < n - 1) by {
            if order.contains(last) {
                let j = order.index_of(last);
                assert forall|k: int| 0 <= k < rest.len() implies (#[trigger] rest[k]) < n - 1 by {
                    let k0 = if k < j { k } else { k + 1 };
                    assert(rest[k] == order[k0]);
                    assert(order[k0] != order[j]);
                }
                assert forall|a: int, b: int|
                    0 <= a < rest.len() && 0 <= b < rest.len() && a != b implies rest[a]
                    != rest[b] by {
                    let a0 = if a < j { a } else { a + 1 };
                    let b0 = if b < j { b } else { b + 1 };
                    assert(order[a0] != order[b0]);
                }
            } else {
                assert forall|k: int| 0 <= k < rest.len() implies (#[trigger] rest[k]) < n - 1 by {
                    assert(order.contains(order[k]));
                }
            }
        }
        lemma_order_length(rest, n - 1);
    }
}

/// A new edge goes to the right of every edge it is greater than, up to the
/// first edge it is not greater than: `insert_position` returns a position in
/// range, the line is greater than every record between `from` and it, and
/// not greater than the record at it, if there is one.
pub proof fn lemma_insert_position(
    edges: Seq<Edge>,
    order: Seq<usize>,
    point: SweepPoint,
    line: LineSegment,
    from: int,
)
    requires
        0 <= from <= order.len(),
    ensures
        from <= insert_position(edges, order, point, line, from) <= order.len(),
        forall|j: int|
            from <= j < insert_position(edges, order, point, line, from) ==> place(
                point,
                line,
                edges[(#[trigger] order[j]) as int].line,
            ) == Comparator::Greater,
        insert_position(edges, order, point, line, from) < order.len() ==> place(
            point,
            line,
            edges[order[insert_position(edges, order, point, line, from)] as int].line,
        ) != Comparator::Greater,
    decreases order.len() - from,
{
    if from < order.len() && place(point, line, edges[order[from] as int].line)
        == Comparator::Greater {
        lemma_insert_position(edges, order, point, line, from + 1);
    }
}

/// Compares the line through `point` with a record of the sweep line.
pub fn find_line_place(point: SweepPoint, line: LineSegment, next_sl_edge: ScanLineEdge) -> (r:
    Comparator)
    requires
        point.wf(),
        line.wf(),
        next_sl_edge.edge.line.wf(),
    ensures
        r == place(point, line, next_sl_edge.edge.line),
{
    let next_line = next_sl_edge.edge.line;
    if line.joins_same_points(&next_line) {
        return Comparator::Equal;
    }
    let side = next_line.side(&point);
    if side > 0 {
        return Comparator::Greater;
    }
    if side < 0 {
        return Comparator::Less;
    }
    let slope = line.slope_side(&next_line);
    if slope > 0 {
        Comparator::Greater
    } else if slope < 0 {
        Comparator::Less
    } else if next_line.key_less(&line) {
        Comparator::Greater
    } else {
        Comparator::Less
    }
}

/// A record of the sweep line: an edge, the height at which the span to its
/// right began, and its neighbours in the order.
#[derive(Clone, Copy, Debug)]
pub struct ScanLineEdge {
    /// Top of the open trapezoid between this edge and its right neighbour.
    pub top: Rational,
    pub edge: Edge,
    /// The record immediately to the left, if any.
    pub prev: Option<usize>,
    /// The record immediately to the right, which bounds the open trapezoid.
    pub next: Option<usize>,
    /// Whether the edge currently crosses the sweep line.
    pub active: bool,
}

impl ScanLineEdge {
    /// A record for `edge` that is not on the sweep line.
    pub fn new(top: Rational, edge: Edge) -> (r: ScanLineEdge)
        ensures
            r == (ScanLineEdge { top, edge, prev: None, next: None, active: false }),
    {
        ScanLineEdge { top, edge, prev: None, next: None, active: false }
    }

    /// The `x` at which the record's line passes the height `y`, as a fraction
    /// over `y.den` times the line's vertical extent. The line must not be
    /// horizontal.
    pub fn current_x_for_y(&self, y: Rational) -> (x: Rational)
        requires
            self.edge.line.wf(),
            y.wf(),
            !self.edge.line.is_horizontal(),
        ensures
            x.num == self.edge.line.x_numerator_at(y),
            x.den == y.den * self.edge.line.dy(),
            x.den > 0,
    {
        self.edge.line.x_at(&y)
    }
}

/// The gap of the order into which a new edge goes.
#[derive(Clone, Copy, Debug)]
pub struct Placement {
    /// The record left of the gap, if any.
    pub prev: Option<usize>,
    /// The record right of the gap, if any.
    pub next: Option<usize>,
    /// The record right of the gap holds the same segment as the line: the
    /// two coincide, and the span between them has no width.
    pub duplicate: bool,
}

/// The sweep line.
pub struct ScanLine {
    records: Vec<ScanLineEdge>,
    head: Option<usize>,
    order: Ghost<Seq<usize>>,
}

impl ScanLine {
    /// The active edges from left to right, each named by its index.
    pub closed spec fn order(&self) -> Seq<usize> {
        self.order@
    }

    /// For each edge, the height at which the span to its right began.
    pub closed spec fn tops(&self) -> Seq<Rational> {
        Seq::new(self.records@.len(), |i: int| self.records@[i].top)
    }

    /// The edges the sweep line was made for.
    pub closed spec fn edges(&self) -> Seq<Edge> {
        Seq::new(self.records@.len(), |i: int| self.records@[i].edge)
    }

    /// The links of the records spell out the order.
    pub closed spec fn linked(&self) -> bool {
        &&& forall|k: int|
            0 <= k < self.order@.len() ==> {
                let r = #[trigger] self.records@[self.order@[k] as int];
                r.active && r.prev == at(self.order@, k - 1) && r.next == at(self.order@, k + 1)
            }
        &&& forall|i: int|
            0 <= i < self.records@.len() && (#[trigger] self.records@[i]).active
                ==> self.order@.contains(i as usize)
        &&& forall|i: int|
            0 <= i < self.records@.len() && !(#[trigger] self.records@[i]).active
                ==> self.records@[i].prev.is_none() && self.records@[i].next.is_none()
        &&& self.head == at(self.order@, 0)
    }

    /// The invariant of the sweep line: the order lists active edges without
    /// repetition, the links agree with it, and every stored height is well
    /// formed.
    pub open spec fn wf(&self) -> bool {
        &&& self.linked()
        &&& self.order().no_duplicates()
        &&& forall|k: int| 0 <= k < self.order().len() ==> (#[trigger] self.order()[k]) < self.edges().len()
        &&& self.tops().len() == self.edges().len()
        &&& forall|i: int| 0 <= i < self.tops().len() ==> (#[trigger] self.tops()[i]).wf()
        &&& edges_wf(self.edges())
    }

    /// Position of an active edge in the order.
    pub open spec fn position(&self, id: usize) -> int {
        self.order().index_of(id)
    }

    /// The sweep line holds no more active edges than it has records, and the
    /// number of records fits the index type.
    pub proof fn lemma_size(&self)
        requires
            self.wf(),
        ensures
            self.order().len() <= self.edges().len() <= usize::MAX,
    {
        assert(self.records@.len() == self.records.len());
        lemma_order_length(self.order@, self.edges().len() as int);
    }

    /// An empty sweep line for the given edges; every span's top starts at `y`.
    pub fn new(y: Rational, edges: &Vec<Edge>) -> (s: ScanLine)
        requires
            y.wf(),
            edges_wf(edges@),
        ensures
            s.wf(),
            s.order() == Seq::<usize>::empty(),
            s.edges() == edges@,
            s.tops() == Seq::new(edges@.len(), |i: int| y),
    {
        let mut records: Vec<ScanLineEdge> = Vec::new();
        let mut i: usize = 0;
        while i < edges.len()
            invariant
                i <= edges.len(),
                records@.len() == i,
                forall|k: int|
                    0 <= k < i ==> (#[trigger] records@[k]) == (ScanLineEdge {
                        top: y,
                        edge: edges@[k],
                        prev: None,
                        next: None,
                        active: false,
                    }),
            decreases edges.len() - i,
        {
            records.push(ScanLineEdge::new(y, edges[i]));
            i += 1;
        }
        let s = ScanLine { records, head: None, order: Ghost(Seq::empty()) };
        assert(s.edges() =~= edges@);
        assert(s.tops() =~= Seq::new(edges@.len(), |i: int| y));
        s
    }

    /// The leftmost edge on the sweep line, if any.
    pub fn first(&self) -> (r: Option<usize>)
        requires
            self.wf(),
        ensures
            r == at(self.order(), 0),
    {
        self.head
    }

    /// Whether `a`, standing left of `b`, belongs to its right just below `p`.
    pub fn inverted_at(&self, p: &SweepPoint, a: usize, b: usize) -> (r: bool)
        requires
            self.wf(),
            p.wf(),
            a < self.edges().len(),
            b < self.edges().len(),
        ensures
            r == inverted(self.edges(), *p, a, b),
    {
        let ra = self.records[a];
        let rb = self.records[b];
        proof {
            assert(self.edges()[a as int].wf() && self.edges()[b as int].wf());
            assert(ra.edge == self.edges()[a as int] && rb.edge == self.edges()[b as int]);
            let c = crate::geometry::COORD_LIMIT as int;
            let d = crate::geometry::DEN_LIMIT as int;
            crate::geometry::lemma_product_bound(ra.edge.bottom as int, p.y.den as int, c, d);
            crate::geometry::lemma_product_bound(rb.edge.bottom as int, p.y.den as int, c, d);
            assert(c * d == 590_295_810_358_705_651_712) by (nonlinear_arith)
                requires
                    c == 4_194_304,
                    d == 140_737_488_355_328,
            ;
        }
        if ra.edge.line.side(p) != 0 || rb.edge.line.side(p) != 0 {
            return false;
        }
        if p.y.num >= (ra.edge.bottom as i128) * p.y.den {
            return false;
        }
        if p.y.num >= (rb.edge.bottom as i128) * p.y.den {
            return false;
        }
        match find_line_place(*p, ra.edge.line, rb) {
            Comparator::Greater => true,
            _ => false,
        }
    }

    /// Whether any edge crosses the sweep line.
    pub fn is_empty(&self) -> (r: bool)
        requires
            self.wf(),
        ensures
            r == (self.order().len() == 0),
    {
        self.head.is_none()
    }

    /// Whether the edge crosses the sweep line.
    pub fn is_active(&self, id: usize) -> (r: bool)
        requires
            self.wf(),
            id < self.edges().len(),
        ensures
            r == self.order().contains(id),
    {
        proof {
            if self.order@.contains(id) {
                let k = self.order@.index_of(id);
                assert(self.records@[self.order@[k] as int].active);
            }
        }
        self.records[id].active
    }

    /// The record of an edge.
    pub fn record(&self, id: usize) -> (r: ScanLineEdge)
        requires
            self.wf(),
            id < self.edges().len(),
        ensures
            r.edge == self.edges()[id as int],
            r.top == self.tops()[id as int],
            r.active == self.order().contains(id),
            r.active ==> r.prev == at(self.order(), self.position(id) - 1) && r.next == at(
                self.order(),
                self.position(id) + 1,
            ),
            !r.active ==> r.prev.is_none() && r.next.is_none(),
    {
        proof {
            if self.order@.contains(id) {
                let k = self.order@.index_of(id);
                assert(self.records@[self.order@[k] as int].active);
            }
        }
        self.records[id]
    }

    /// Sets the height at which the span right of the edge begins.
    pub fn set_top(&mut self, id: usize, top: Rational)
        requires
            old(self).wf(),
            id < old(self).edges().len(),
            top.wf(),
        ensures
            final(self).wf(),
            final(self).order() == old(self).order(),
            final(self).edges() == old(self).edges(),
            final(self).tops() == old(self).tops().update(id as int, top),
    {
        let mut r = self.records[id];
        r.top = top;
        self.records.set(id, r);
        proof {
            assert(self.edges() =~= old(self).edges());
            assert(self.tops() =~= old(self).tops().update(id as int, top));
            assert forall|k: int| 0 <= k < self.order@.len() implies {
                let r = #[trigger] self.records@[self.order@[k] as int];
                r.active && r.prev == at(self.order@, k - 1) && r.next == at(self.order@, k + 1)
            } by {
                assert(old(self).records@[old(self).order@[k] as int].active);
            }
        }
    }

    /// Finds the gap into which a line through `point` goes: walks from the
    /// left while the line is greater than the record met, and stops before
    /// the first record it is not greater than.
    pub fn locate(&self, point: &SweepPoint, line: &LineSegment) -> (p: Placement)
        requires
            self.wf(),
            point.wf(),
            line.wf(),
        ensures
            ({
                let k = insert_position(self.edges(), self.order(), *point, *line, 0);
                &&& 0 <= k <= self.order().len()
                &&& p.prev == at(self.order(), k - 1)
                &&& p.next == at(self.order(), k)
                &&& p.duplicate == (k < self.order().len() && place(
                    *point,
                    *line,
                    self.edges()[self.order()[k] as int].line,
                ) == Comparator::Equal)
            }),
    {
        let mut prev: Option<usize> = None;
        let mut cur: Option<usize> = self.head;
        let mut duplicate = false;
        let ghost mut k: int = 0;
        loop
            invariant
                self.wf(),
                point.wf(),
                line.wf(),
                0 <= k <= self.order@.len(),
                prev == at(self.order@, k - 1),
                cur == at(self.order@, k),
                insert_position(self.edges(), self.order@, *point, *line, 0) == insert_position(
                    self.edges(),
                    self.order@,
                    *point,
                    *line,
                    k,
                ),
            ensures
                0 <= k <= self.order@.len(),
                prev == at(self.order@, k - 1),
                cur == at(self.order@, k),
                k == insert_position(self.edges(), self.order@, *point, *line, 0),
                duplicate == (k < self.order@.len() && place(
                    *point,
                    *line,
                    self.edges()[self.order@[k] as int].line,
                ) == Comparator::Equal),
            decreases self.order@.len() - k,
        {
            match cur {
                None => {
                    duplicate = false;
                    break ;
                },
                Some(c) => {
                    assert(self.order@[k] == c);
                    assert(self.order()[k] < self.edges().len());
                    assert(self.records@[self.order@[k] as int].active);
                    assert(self.edges()[c as int].wf());
                    let r = self.records[c];
                    let found = find_line_place(*point, *line, r);
                    match found {
                        Comparator::Greater => {
                            prev = cur;
                            cur = r.next;
                            proof {
                                k = k + 1;
                            }
                        },
                        Comparator::Equal => {
                            duplicate = true;
                            break ;
                        },
                        _ => {
                            duplicate = false;
                            break ;
                        },
                    }
                },
            }
        }
        Placement { prev, next: cur, duplicate }
    }

    /// Puts an edge that is not on the sweep line into the gap between two
    /// neighbouring records, or at either end.
    pub fn insert_between(&mut self, id: usize, prev: Option<usize>, next: Option<usize>)
        requires
            old(self).wf(),
            id < old(self).edges().len(),
            !old(self).order().contains(id),
            exists|k: int| is_gap(old(self).order(), k, prev, next),
        ensures
            final(self).wf(),
            final(self).edges() == old(self).edges(),
            final(self).tops() == old(self).tops(),
            forall|k: int|
                is_gap(old(self).order(), k, prev, next) ==> final(self).order() == old(
                    self,
                ).order().insert(k, id),
    {
        let ghost old_order = self.order@;
        let ghost k: int = choose|k: int| is_gap(old_order, k, prev, next);
        proof {
            assert forall|j: int| is_gap(old_order, j, prev, next) implies j == k by {
                if j != k {
                    // two different gaps share no neighbour, since no edge occurs twice
                    if j < k {
                        assert(at(old_order, j) == at(old_order, k));
                        if k < old_order.len() {
                            assert(old_order[j] == old_order[k]);
                        } else {
                            assert(at(old_order, j - 1) == at(old_order, k - 1));
                            if j > 0 {
                                assert(old_order[j - 1] == old_order[k - 1]);
                            }
                        }
                    } else {
                        assert(at(old_order, j) == at(old_order, k));
                        if j < old_order.len() {
                            assert(old_order[j] == old_order[k]);
                        } else {
                            assert(at(old_order, j - 1) == at(old_order, k - 1));
                            if k > 0 {
                                assert(old_order[j - 1] == old_order[k - 1]);
                            }
                        }
                    }
                }
            }
            if k > 0 {
                assert(old_order[k - 1] < self.edges().len());
                assert(self.records@[old_order[k - 1] as int].active);
            }
            if k < old_order.len() {
                assert(old_order[k] < self.edges().len());
                assert(self.records@[old_order[k] as int].active);
            }
        }
        let mut r = self.records[id];
        r.prev = prev;
        r.next = next;
        r.active = true;
        self.records.set(id, r);
        match prev {
            Some(p) => {
                let mut left = self.records[p];
                left.next = Some(id);
                self.records.set(p, left);
            },
            None => {
                self.head = Some(id);
            },
        }
        match next {
            Some(n) => {
                let mut right = self.records[n];
                right.prev = Some(id);
                self.records.set(n, right);
            },
            None => {},
        }
        self.order = Ghost(old_order.insert(k, id));
        proof {
            let new_order = self.order@;
            assert(self.edges() =~= old(self).edges());
            assert(self.tops() =~= old(self).tops());
            assert forall|j: int| 0 <= j < new_order.len() implies {
                let r = #[trigger] self.records@[new_order[j] as int];
                r.active && r.prev == at(new_order, j - 1) && r.next == at(new_order, j + 1)
            } by {
                if j < k {
                    assert(new_order[j] == old_order[j]);
                    assert(old(self).records@[old_order[j] as int].active);
                    if j + 1 < k {
                        assert(new_order[j + 1] == old_order[j + 1]);
                    }
                    if j > 0 {
                        assert(new_order[j - 1] == old_order[j - 1]);
                    }
                } else if j > k {
                    assert(new_order[j] == old_order[j - 1]);
                    assert(old(self).records@[old_order[j - 1] as int].active);
                    if j + 1 < new_order.len() {
                        assert(new_order[j + 1] == old_order[j]);
                    }
                    if j - 1 > k {
                        assert(new_order[j - 1] == old_order[j - 2]);
                    }
                }
            }
            assert forall|i: int|
                0 <= i < self.records@.len() && (#[trigger] self.records@[i]).active
                    implies new_order.contains(i as usize) by {
                if i == id {
                    assert(new_order[k] == id);
                } else {
                    assert(old(self).records@[i].active);
                    let j = old_order.index_of(i as usize);
                    if j < k {
                        assert(new_order[j] == i as usize);
                    } else {
                        assert(new_order[j + 1] == i as usize);
                    }
                }
            }
            assert(new_order.no_duplicates()) by {
                assert forall|a: int, b: int|
                    0 <= a < new_order.len() && 0 <= b < new_order.len() && a != b
                        implies new_order[a] != new_order[b] by {
                    let a0 = if a < k { a } else { a - 1 };
                    let b0 = if b < k { b } else { b - 1 };
                    if a != k && b != k {
                        assert(old_order[a0] != old_order[b0]);
                    } else if a == k {
                        assert(old_order.contains(old_order[b0]));
                    } else {
                        assert(old_order.contains(old_order[a0]));
                    }
                }
            }
            assert forall|j: int| 0 <= j < self.order().len() implies (
            #[trigger] self.order()[j]) < self.edges().len() by {
                if j < k {
                    assert(new_order[j] == old_order[j]);
                } else if j > k {
                    assert(new_order[j] == old_order[j - 1]);
                }
            }
            assert forall|i: int| 0 <= i < self.tops().len() implies (
            #[trigger] self.tops()[i]).wf() by {
                assert(old(self).tops()[i].wf());
            }
        }
    }

    /// Takes an active edge off the sweep line and returns its former left
    /// and right neighbour.
    pub fn remove(&mut self, id: usize) -> (n: (Option<usize>, Option<usize>))
        requires
            old(self).wf(),
            old(self).order().contains(id),
        ensures
            final(self).wf(),
            final(self).edges() == old(self).edges(),
            final(self).tops() == old(self).tops(),
            final(self).order() == old(self).order().remove(old(self).position(id)),
            n.0 == at(old(self).order(), old(self).position(id) - 1),
            n.1 == at(old(self).order(), old(self).position(id) + 1),
    {
        let ghost old_order = self.order@;
        let ghost k: int = old_order.index_of(id);
        proof {
            assert(old_order[k] < self.edges().len());
            assert(self.records@[old_order[k] as int].active);
            if k > 0 {
                assert(old_order[k - 1] < self.edges().len());
                assert(self.records@[old_order[k - 1] as int].active);
            }
            if k + 1 < old_order.len() {
                assert(old_order[k + 1] < self.edges().len());
                assert(self.records@[old_order[k + 1] as int].active);
            }
        }
        let mut r = self.records[id];
        let prev = r.prev;
        let next = r.next;
        r.prev = None;
        r.next = None;
        r.active = false;
        self.records.set(id, r);
        match prev {
            Some(p) => {
                let mut left = self.records[p];
                left.next = next;
                self.records.set(p, left);
            },
            None => {
                self.head = next;
            },
        }
        match next {
            Some(n) => {
                let mut right = self.records[n];
                right.prev = prev;
                self.records.set(n, right);
            },
            None => {},
        }
        self.order = Ghost(old_order.remove(k));
        proof {
            let new_order = self.order@;
            assert(self.edges() =~= old(self).edges());
            assert(self.tops() =~= old(self).tops());
            assert forall|j: int| 0 <= j < new_order.len() implies {
                let r = #[trigger] self.records@[new_order[j] as int];
                r.active && r.prev == at(new_order, j - 1) && r.next == at(new_order, j + 1)
            } by {
                let j0 = if j < k { j } else { j + 1 };
                assert(new_order[j] == old_order[j0]);
                assert(old(self).records@[old_order[j0] as int].active);
                assert(old_order[j0] != old_order[k]);
                if j > 0 {
                    let p0 = if j - 1 < k { j - 1 } else { j };
                    assert(new_order[j - 1] == old_order[p0]);
                    assert(old_order[j0] != old_order[p0]);
                }
                if j + 1 < new_order.len() {
                    let n0 = if j + 1 < k { j + 1 } else { j + 2 };
                    assert(new_order[j + 1] == old_order[n0]);
                    assert(old_order[j0] != old_order[n0]);
                }
            }
            assert forall|i: int|
                0 <= i < self.records@.len() && (#[trigger] self.records@[i]).active
                    implies new_order.contains(i as usize) by {
                old(self).lemma_size();
                assert(i != id);
                assert(old(self).records@[i].active);
                let j = old_order.index_of(i as usize);
                assert(j != k);
                if j < k {
                    assert(new_order[j] == i as usize);
                } else {
                    assert(new_order[j - 1] == i as usize);
                }
            }
            assert(new_order.no_duplicates()) by {
                assert forall|a: int, b: int|
                    0 <= a < new_order.len() && 0 <= b < new_order.len() && a != b
                        implies new_order[a] != new_order[b] by {
                    let a0 = if a < k { a } else { a + 1 };
                    let b0 = if b < k { b } else { b + 1 };
                    assert(old_order[a0] != old_order[b0]);
                }
            }
            assert forall|j: int| 0 <= j < self.order().len() implies (
            #[trigger] self.order()[j]) < self.edges().len() by {
                let j0 = if j < k { j } else { j + 1 };
                assert(new_order[j] == old_order[j0]);
            }
            assert forall|i: int| 0 <= i < self.tops().len() implies (
            #[trigger] self.tops()[i]).wf() by {
                assert(old(self).tops()[i].wf());
            }
        }
        (prev, next)
    }

    /// Exchanges two neighbours: `a`, immediately left of `b`, becomes its
    /// right neighbour.
    pub fn swap_adjacent(&mut self, a: usize, b: usize)
        requires
            old(self).wf(),
            old(self).order().contains(a),
            at(old(self).order(), old(self).position(a) + 1) == Some(b),
        ensures
            final(self).wf(),
            final(self).edges() == old(self).edges(),
            final(self).tops() == old(self).tops(),
            final(self).order() == exchanged(old(self).order(), old(self).position(a)),
    {
        let ghost old_order = self.order@;
        let ghost k: int = old_order.index_of(a);
        proof {
            assert(old_order[k] < self.edges().len());
            assert(self.records@[old_order[k] as int].active);
            assert(old_order[k + 1] < self.edges().len());
            assert(self.records@[old_order[k + 1] as int].active);
            assert(old_order[k] != old_order[k + 1]);
            if k > 0 {
                assert(old_order[k - 1] < self.edges().len());
                assert(self.records@[old_order[k - 1] as int].active);
                assert(old_order[k - 1] != old_order[k]);
                assert(old_order[k - 1] != old_order[k + 1]);
            }
            if k + 2 < old_order.len() {
                assert(old_order[k + 2] < self.edges().len());
                assert(self.records@[old_order[k + 2] as int].active);
                assert(old_order[k + 2] != old_order[k]);
                assert(old_order[k + 2] != old_order[k + 1]);
            }
        }
        let mut left = self.records[a];
        let mut right = self.records[b];
        let before = left.prev;
        let after = right.next;
        right.prev = before;
        right.next = Some(a);
        left.prev = Some(b);
        left.next = after;
        self.records.set(a, left);
        self.records.set(b, right);
        match before {
            Some(p) => {
                let mut outer = self.records[p];
                outer.next = Some(b);
                self.records.set(p, outer);
            },
            None => {
                self.head = Some(b);
            },
        }
        match after {
            Some(n) => {
                let mut outer = self.records[n];
                outer.prev = Some(a);
                self.records.set(n, outer);
            },
            None => {},
        }
        self.order = Ghost(exchanged(old_order, k));
        proof {
            let new_order = self.order@;
            assert(self.edges() =~= old(self).edges());
            assert(self.tops() =~= old(self).tops());
            assert forall|j: int| 0 <= j < new_order.len() implies {
                let r = #[trigger] self.records@[new_order[j] as int];
                r.active && r.prev == at(new_order, j - 1) && r.next == at(new_order, j + 1)
            } by {
                if j != k && j != k + 1 {
                    assert(new_order[j] == old_order[j]);
                    assert(old(self).records@[old_order[j] as int].active);
                    assert(old_order[j] != old_order[k]);
                    assert(old_order[j] != old_order[k + 1]);
                    if j > 0 && j - 1 != k + 1 {
                        assert(old_order[j] != old_order[j - 1]);
                    }
                    if j + 1 < new_order.len() && j + 1 != k {
                        assert(old_order[j] != old_order[j + 1]);
                    }
                }
            }
            assert forall|i: int|
                0 <= i < self.records@.len() && (#[trigger] self.records@[i]).active
                    implies new_order.contains(i as usize) by {
                assert(old(self).records@[i].active);
                let j = old_order.index_of(i as usize);
                if j == k {
                    assert(new_order[k + 1] == i as usize);
                } else if j == k + 1 {
                    assert(new_order[k] == i as usize);
                } else {
                    assert(new_order[j] == i as usize);
                }
            }
            assert(new_order.no_duplicates()) by {
                assert forall|x: int, y: int|
                    0 <= x < new_order.len() && 0 <= y < new_order.len() && x != y
                        implies new_order[x] != new_order[y] by {
                    let x0 = if x == k { k + 1 } else if x == k + 1 { k } else { x };
                    let y0 = if y == k { k + 1 } else if y == k + 1 { k } else { y };
                    assert(old_order[x0] != old_order[y0]);
                }
            }
            assert forall|j: int| 0 <= j < self.order().len() implies (
            #[trigger] self.order()[j]) < self.edges().len() by {
                let j0 = if j == k { k + 1 } else if j == k + 1 { k } else { j };
                assert(new_order[j] == old_order[j0]);
            }
            assert forall|i: int| 0 <= i < self.tops().len() implies (
            #[trigger] self.tops()[i]).wf() by {
                assert(old(self).tops()[i].wf());
            }
        }
    }

    /// The active edges from left to right.
    pub fn active_order(&self) -> (ids: Vec<usize>)
        requires
            self.wf(),
        ensures
            ids@ == self.order(),
    {
        let mut ids: Vec<usize> = Vec::new();
        let mut cur: Option<usize> = self.head;
        loop
            invariant
                self.wf(),
                ids@.len() <= self.order@.len(),
                ids@ == self.order@.take(ids@.len() as int),
                cur == at(self.order@, ids@.len() as int),
            ensures
                ids@ == self.order@,
            decreases self.order@.len() - ids@.len(),
        {
            match cur {
                None => {
                    assert(self.order@.take(ids@.len() as int) =~= self.order@);
                    break ;
                },
                Some(c) => {
                    let ghost k = ids@.len() as int;
                    assert(self.order()[k] < self.edges().len());
                    assert(self.records@[self.order@[k] as int].active);
                    ids.push(c);
                    cur = self.records[c].next;
                    assert(ids@ =~= self.order@.take(k + 1));
                },
            }
        }
        ids
    }

    /// The winding count of the span between an active edge and its right
    /// neighbour: the sum of the directions of all edges to the right.
    pub fn winding_right_of(&self, id: usize) -> (sum: i128)
        requires
            self.wf(),
            self.order().contains(id),
        ensures
            sum == winding(self.edges(), self.order(), self.position(id) + 1),
            -(usize::MAX as int) <= sum <= usize::MAX,
    {
        let ghost start: int = self.order@.index_of(id) + 1;
        proof {
            self.lemma_size();
            assert(self.order@[start - 1] < self.edges().len());
            assert(self.records@[self.order@[start - 1] as int].active);
        }
        let mut cur: Option<usize> = self.records[id].next;
        let mut sum: i128 = 0;
        let ghost mut k: int = start;
        loop
            invariant
                self.wf(),
                1 <= start <= k <= self.order@.len(),
                cur == at(self.order@, k),
                sum + winding(self.edges(), self.order@, k) == winding(
                    self.edges(),
                    self.order@,
                    start,
                ),
                -(k - start) <= sum <= k - start,
                self.order@.len() <= usize::MAX,
            ensures
                sum == winding(self.edges(), self.order@, start),
                -(self.order@.len() as int) <= sum <= self.order@.len(),
            decreases self.order@.len() - k,
        {
            match cur {
                None => {
                    break ;
                },
                Some(c) => {
                    assert(self.order()[k] < self.edges().len());
                    assert(self.records@[self.order@[k] as int].active);
                    assert(self.edges()[c as int].wf());
                    let r = self.records[c];
                    sum = sum + (r.edge.direction as i128);
                    cur = r.next;
                    proof {
                        k = k + 1;
                    }
                },
            }
        }
        sum
    }

    /// Closes the span between an active edge and its right neighbour at the
    /// height `bottom`. A trapezoid is added to `traps` if the span has a
    /// right edge on another segment than its left edge, `bottom` lies
    /// strictly below the span's top, and the winding count of the span
    /// passes the fill rule; otherwise nothing happens. The span's top is
    /// left as it was.
    pub fn close_and_emit(
        &self,
        id: usize,
        bottom: &Rational,
        fill_rule: FillRule,
        traps: &mut Vec<Trapezoid>,
    )
        requires
            self.wf(),
            self.order().contains(id),
            bottom.wf(),
        ensures
            final(traps)@ == closed(
                self.edges(),
                fill_rule,
                self.order(),
                self.tops(),
                old(traps)@,
                self.position(id),
                *bottom,
            ),
            !self.tops()[id as int].lt(*bottom) ==> final(traps)@ == old(traps)@,
    {
        let ghost k: int = self.order@.index_of(id);
        proof {
            assert(self.order()[k] < self.edges().len());
            assert(self.records@[self.order@[k] as int].active);
            assert(self.tops()[id as int].wf());
        }
        let r = self.records[id];
        match r.next {
            None => {},
            Some(n) => {
                proof {
                    assert(self.order()[k + 1] < self.edges().len());
                }
                let right = self.records[n];
                if r.top.less_than(bottom) && !r.edge.line.joins_same_points(&right.edge.line) {
                    let sum = self.winding_right_of(id);
                    if fill_rule.admits(sum) {
                        traps.push(Trapezoid::new(&r.edge.line, &right.edge.line, r.top, *bottom));
                    }
                }
            },
        }
    }
}

} // verus!
