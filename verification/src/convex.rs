//! What the scan-line fill paints of a simple convex polygon.

use vstd::prelude::*;
use crate::draw::{covered, in_leading_spans, in_spans};
use crate::sorting::lemma_sort_two;
use crate::utils::{
    beyond, crosses, crossing_x, lemma_crossings_of_two, lemma_side_of_crossing,
    lemma_successor_in_loop, lemma_uncrossed_row_is_empty, polygon_edges, row_crossings, Point,
};

verus! {

/// Twice the signed area of the triangle `a`, `b`, `(x, y)`: positive on one
/// side of the line from `a` to `b`, negative on the other, zero on it.
pub open spec fn turn(a: Point, b: Point, x: int, y: int) -> int {
    (b.0 - a.0) * (y - a.1) - (b.1 - a.1) * (x - a.0)
}

/// The column at which the line through `a` and `b` meets row `y`, times
/// the rise `b.1 - a.1` of the line.
pub open spec fn reach(a: Point, b: Point, y: int) -> int {
    a.0 * (b.1 - a.1) + (b.0 - a.0) * (y - a.1)
}

/// The index of the vertex that follows vertex `i` in the loop.
pub open spec fn next(points: Seq<Point>, i: int) -> int {
    (i + 1) % (points.len() as int)
}

/// On which side of edge `i` the point `(x, y)` lies: positive on the inner
/// side, negative on the outer side, zero on the line of the edge. The inner
/// side is the one on which `turn` is positive if `positive` is set, else
/// the other one; which of the two it is depends on the direction in which
/// the loop runs.
pub open spec fn inner(points: Seq<Point>, positive: bool, i: int, x: int, y: int) -> int {
    if positive {
        turn(points[i], points[next(points, i)], x, y)
    } else {
        -turn(points[i], points[next(points, i)], x, y)
    }
}

/// On which side of edge `i` vertex `j` lies.
pub open spec fn vertex_side(points: Seq<Point>, positive: bool, i: int, j: int) -> int {
    inner(points, positive, i, points[j].0 as int, points[j].1 as int)
}

/// The point `p` lies in the box that `a` and `b` span.
pub open spec fn between(a: Point, b: Point, p: Point) -> bool {
    &&& a.0 <= p.0 <= b.0 || b.0 <= p.0 <= a.0
    &&& a.1 <= p.1 <= b.1 || b.1 <= p.1 <= a.1
}

/// Vertex `j` lies on edge `i`, its endpoints included.
pub open spec fn on_edge(points: Seq<Point>, i: int, j: int) -> bool {
    &&& turn(points[i], points[next(points, i)], points[j].0 as int, points[j].1 as int) == 0
    &&& between(points[i], points[next(points, i)], points[j])
}

/// The loop `points` is a simple convex polygon: it has at least three
/// vertices, no vertex lies on the outer side of an edge, and no vertex lies
/// on an edge that it is not an endpoint of. Vertices at which the boundary
/// runs straight on are admitted.
pub open spec fn simple_convex(points: Seq<Point>, positive: bool) -> bool {
    &&& points.len() >= 3
    &&& forall|i: int, j: int|
        0 <= i < points.len() && 0 <= j < points.len() ==> #[trigger] vertex_side(
            points,
            positive,
            i,
            j,
        ) >= 0
    &&& forall|i: int, j: int|
        0 <= i < points.len() && 0 <= j < points.len() && j != i && j != next(points, i)
            ==> !#[trigger] on_edge(points, i, j)
}

/// The point `(x, y)` lies strictly on the inner side of every edge.
pub open spec fn strictly_inside(points: Seq<Point>, positive: bool, x: int, y: int) -> bool {
    forall|i: int| 0 <= i < points.len() ==> #[trigger] inner(points, positive, i, x, y) > 0
}

/// The point `(x, y)` lies strictly on the outer side of some edge.
pub open spec fn strictly_outside(points: Seq<Point>, positive: bool, x: int, y: int) -> bool {
    exists|i: int| 0 <= i < points.len() && #[trigger] inner(points, positive, i, x, y) < 0
}

/// Edge `i` runs from a vertex in row `y` or before it to one after it.
pub open spec fn rising(points: Seq<Point>, i: int, y: int) -> bool {
    points[i].1 <= y < points[next(points, i)].1
}

/// Edge `i` runs from a vertex after row `y` to one in it or before it.
pub open spec fn falling(points: Seq<Point>, i: int, y: int) -> bool {
    points[next(points, i)].1 <= y < points[i].1
}

/// Vertex `j` lies after row `y`.
pub open spec fn above(points: Seq<Point>, j: int, y: int) -> bool {
    points[j].1 > y
}

/// The side of a line on which a point of row `y` lies, by the column at
/// which the line meets the row.
proof fn lemma_turn_by_reach(a: Point, b: Point, x: int, y: int)
    ensures
        turn(a, b, x, y) == reach(a, b, y) - (b.1 - a.1) * x,
{
    let ax = a.0 as int;
    let ay = a.1 as int;
    let bx = b.0 as int;
    let by = b.1 as int;
    assert((bx - ax) * (y - ay) - (by - ay) * (x - ax) == ax * (by - ay) + (bx - ax) * (y - ay) - (by
        - ay) * x) by (nonlinear_arith);
}

/// Products distribute over a sum of two weighted differences.
proof fn lemma_weighted_sum(m1: int, m2: int, p: int, q: int, a1: int, b1: int, a2: int, b2: int)
    ensures
        m1 * (p * a1 - q * b1) + m2 * (p * a2 - q * b2) == p * (m1 * a1 + m2 * a2) - q * (m1 * b1
            + m2 * b2),
{
    assert(m1 * (p * a1 - q * b1) == p * (m1 * a1) - q * (m1 * b1)) by (nonlinear_arith);
    assert(m2 * (p * a2 - q * b2) == p * (m2 * a2) - q * (m2 * b2)) by (nonlinear_arith);
    assert(p * (m1 * a1 + m2 * a2) == p * (m1 * a1) + p * (m2 * a2)) by (nonlinear_arith);
    assert(q * (m1 * b1 + m2 * b2) == q * (m1 * b1) + q * (m2 * b2)) by (nonlinear_arith);
}

/// The side of the line `a b` on which the point of the line `c d` in row
/// `y` lies, from the sides on which `c` and `d` lie.
proof fn lemma_turn_at_crossing(a: Point, b: Point, c: Point, d: Point, y: int)
    ensures
        (d.1 - y) * turn(a, b, c.0 as int, c.1 as int) + (y - c.1) * turn(
            a,
            b,
            d.0 as int,
            d.1 as int,
        ) == reach(a, b, y) * (d.1 - c.1) - (b.1 - a.1) * reach(c, d, y),
{
    let p = (b.0 - a.0) as int;
    let q = (b.1 - a.1) as int;
    let ax = a.0 as int;
    let ay = a.1 as int;
    let cx = c.0 as int;
    let cy = c.1 as int;
    let ex = d.0 as int;
    let ey = d.1 as int;
    let m1 = ey - y;
    let m2 = y - cy;
    let w = ey - cy;
    let h = y - ay;
    let g = (ex - cx) * (y - cy);
    lemma_weighted_sum(m1, m2, p, q, cy - ay, cx - ax, ey - ay, ex - ax);
    assert(m1 * (cy - ay) + m2 * (ey - ay) == h * w) by (nonlinear_arith)
        requires
            m1 == ey - y,
            m2 == y - cy,
            w == ey - cy,
            h == y - ay,
    ;
    assert(m1 * (cx - ax) + m2 * (ex - ax) == (cx - ax) * w + g) by (nonlinear_arith)
        requires
            m1 == ey - y,
            m2 == y - cy,
            w == ey - cy,
            g == (ex - cx) * (y - cy),
    ;
    assert((ax * q + p * h) * w - q * (cx * w + g) == p * (h * w) - q * ((cx - ax) * w + g))
        by (nonlinear_arith);
}

/// Two vertices have the same successor only if they are the same.
proof fn lemma_next_injective(points: Seq<Point>, i: int, k: int)
    requires
        0 <= i < points.len(),
        0 <= k < points.len(),
        next(points, i) == next(points, k),
    ensures
        i == k,
{
    lemma_successor_in_loop(i, points.len() as int);
    lemma_successor_in_loop(k, points.len() as int);
}

/// A sum of two terms with weights that are not negative has the sign that
/// both terms have.
proof fn lemma_weighted_weak_sign(m1: int, m2: int, t1: int, t2: int)
    requires
        m1 >= 0,
        m2 >= 0,
    ensures
        t1 >= 0 && t2 >= 0 ==> m1 * t1 + m2 * t2 >= 0,
        t1 <= 0 && t2 <= 0 ==> m1 * t1 + m2 * t2 <= 0,
{
    assert(t1 >= 0 && t2 >= 0 ==> m1 * t1 >= 0 && m2 * t2 >= 0) by (nonlinear_arith)
        requires
            m1 >= 0,
            m2 >= 0,
    ;
    assert(t1 <= 0 && t2 <= 0 ==> m1 * t1 <= 0 && m2 * t2 <= 0) by (nonlinear_arith)
        requires
            m1 >= 0,
            m2 >= 0,
    ;
}

/// If such a sum is zero, a term with a positive weight is zero.
proof fn lemma_weighted_zero(m1: int, m2: int, t1: int, t2: int)
    requires
        m1 > 0,
        m2 >= 0,
        (t1 >= 0 && t2 >= 0) || (t1 <= 0 && t2 <= 0),
        m1 * t1 + m2 * t2 == 0,
    ensures
        t1 == 0,
{
    assert(t1 == 0) by (nonlinear_arith)
        requires
            m1 > 0,
            m2 >= 0,
            (t1 >= 0 && t2 >= 0) || (t1 <= 0 && t2 <= 0),
            m1 * t1 + m2 * t2 == 0,
    ;
}

/// A point of the line through `a` and `b` whose row lies between their
/// rows lies in the box that they span.
proof fn lemma_collinear_between(a: Point, b: Point, p: Point)
    requires
        turn(a, b, p.0 as int, p.1 as int) == 0,
        a.1 != b.1,
        a.1 <= p.1 <= b.1 || b.1 <= p.1 <= a.1,
    ensures
        between(a, b, p),
{
    let dx = b.0 - a.0;
    let dy = b.1 - a.1;
    let px = p.0 - a.0;
    let py = p.1 - a.1;
    assert(dx * py == dy * px);
    assert((0 <= px <= dx) || (dx <= px <= 0)) by (nonlinear_arith)
        requires
            dx * py == dy * px,
            (dy > 0 && 0 <= py <= dy) || (dy < 0 && dy <= py <= 0),
    ;
}

/// No vertex of a convex polygon lies on the outer side of the point at
/// which edge `k` crosses row `y`, seen from edge `i`: stated of the reaches
/// of the two lines, with the sign that the direction of edge `k` and the
/// orientation give.
proof fn lemma_crossing_not_outside(points: Seq<Point>, positive: bool, y: int, i: int, k: int)
    requires
        simple_convex(points, positive),
        0 <= i < points.len(),
        0 <= k < points.len(),
        rising(points, k, y) || falling(points, k, y),
    ensures
        ({
            let p = points[i];
            let q = points[next(points, i)];
            let c = points[k];
            let d = points[next(points, k)];
            let e = reach(p, q, y) * (d.1 - c.1) - (q.1 - p.1) * reach(c, d, y);
            if positive == rising(points, k, y) {
                e >= 0
            } else {
                e <= 0
            }
        }),
{
    let n = points.len() as int;
    lemma_successor_in_loop(k, n);
    let nk = next(points, k);
    let p = points[i];
    let q = points[next(points, i)];
    let c = points[k];
    let d = points[nk];
    assert(vertex_side(points, positive, i, k) >= 0);
    assert(vertex_side(points, positive, i, nk) >= 0);
    let t1 = turn(p, q, c.0 as int, c.1 as int);
    let t2 = turn(p, q, d.0 as int, d.1 as int);
    lemma_turn_at_crossing(p, q, c, d, y);
    if rising(points, k, y) {
        lemma_weighted_weak_sign(d.1 - y, y - c.1, t1, t2);
    } else {
        lemma_weighted_weak_sign(c.1 - y, y - d.1, t2, t1);
        assert((c.1 - y) * t2 + (y - d.1) * t1 == -((d.1 - y) * t1 + (y - c.1) * t2))
            by (nonlinear_arith);
    }
}

/// If two edges cross a row in the same direction, an endpoint of the
/// second lies on the line of the first: the one in the row or before it if
/// they rise, the one after the row if they fall.
proof fn lemma_endpoint_on_other_line(points: Seq<Point>, positive: bool, y: int, i: int, k: int)
    requires
        simple_convex(points, positive),
        0 <= i < points.len(),
        0 <= k < points.len(),
        (rising(points, i, y) && rising(points, k, y)) || (falling(points, i, y) && falling(
            points,
            k,
            y,
        )),
    ensures
        rising(points, i, y) ==> turn(
            points[i],
            points[next(points, i)],
            points[k].0 as int,
            points[k].1 as int,
        ) == 0,
        falling(points, i, y) ==> turn(
            points[i],
            points[next(points, i)],
            points[next(points, k)].0 as int,
            points[next(points, k)].1 as int,
        ) == 0,
{
    let n = points.len() as int;
    lemma_successor_in_loop(i, n);
    lemma_successor_in_loop(k, n);
    let a = points[i];
    let b = points[next(points, i)];
    let c = points[k];
    let d = points[next(points, k)];
    lemma_crossing_not_outside(points, positive, y, i, k);
    lemma_crossing_not_outside(points, positive, y, k, i);
    let e1 = reach(a, b, y) * (d.1 - c.1) - (b.1 - a.1) * reach(c, d, y);
    let e2 = reach(c, d, y) * (b.1 - a.1) - (d.1 - c.1) * reach(a, b, y);
    assert(e1 == -e2) by (nonlinear_arith)
        requires
            e1 == reach(a, b, y) * (d.1 - c.1) - (b.1 - a.1) * reach(c, d, y),
            e2 == reach(c, d, y) * (b.1 - a.1) - (d.1 - c.1) * reach(a, b, y),
    ;
    assert(e1 == 0);
    let t1 = turn(a, b, c.0 as int, c.1 as int);
    let t2 = turn(a, b, d.0 as int, d.1 as int);
    assert(vertex_side(points, positive, i, k) >= 0);
    assert(vertex_side(points, positive, i, next(points, k)) >= 0);
    lemma_turn_at_crossing(a, b, c, d, y);
    if rising(points, i, y) {
        lemma_weighted_zero(d.1 - y, y - c.1, t1, t2);
    } else {
        assert((c.1 - y) * t2 + (y - d.1) * t1 == -((d.1 - y) * t1 + (y - c.1) * t2))
            by (nonlinear_arith);
        lemma_weighted_zero(c.1 - y, y - d.1, t2, t1);
    }
}

/// At most one edge of a simple convex polygon rises through a row, and at
/// most one falls through it.
pub proof fn lemma_one_edge_each_way(points: Seq<Point>, positive: bool, y: int, i: int, k: int)
    requires
        simple_convex(points, positive),
        0 <= i < points.len(),
        0 <= k < points.len(),
        (rising(points, i, y) && rising(points, k, y)) || (falling(points, i, y) && falling(
            points,
            k,
            y,
        )),
    ensures
        i == k,
{
    if i != k {
        let n = points.len() as int;
        lemma_successor_in_loop(i, n);
        lemma_successor_in_loop(k, n);
        let ni = next(points, i);
        let nk = next(points, k);
        if nk == ni {
            lemma_next_injective(points, i, k);
        }
        let a = points[i];
        let b = points[ni];
        let c = points[k];
        let d = points[nk];
        lemma_endpoint_on_other_line(points, positive, y, i, k);
        lemma_endpoint_on_other_line(points, positive, y, k, i);
        if rising(points, i, y) {
            assert(!on_edge(points, i, k));
            assert(!on_edge(points, k, i));
            if a.1 <= c.1 {
                lemma_collinear_between(a, b, c);
            } else {
                lemma_collinear_between(c, d, a);
            }
        } else {
            assert(!on_edge(points, i, nk));
            assert(!on_edge(points, k, ni));
            if b.1 <= d.1 {
                lemma_collinear_between(a, b, d);
            } else {
                lemma_collinear_between(c, d, b);
            }
        }
    }
}

/// Between two vertices on different sides of a row, one is followed by a
/// vertex on the other side.
proof fn lemma_step_between(points: Seq<Point>, y: int, lo: int, hi: int) -> (t: int)
    requires
        0 <= lo < hi < points.len(),
        above(points, lo, y) != above(points, hi, y),
    ensures
        lo <= t < hi,
        above(points, t, y) == above(points, lo, y),
        above(points, t + 1, y) != above(points, lo, y),
    decreases hi - lo,
{
    if above(points, lo + 1, y) != above(points, lo, y) {
        lo
    } else {
        lemma_step_between(points, y, lo + 1, hi)
    }
}

/// A loop that has vertices on both sides of a row has an edge that leaves
/// the side of the vertex `from`.
proof fn lemma_loop_changes_side(points: Seq<Point>, y: int, from: int, to: int) -> (t: int)
    requires
        0 <= from < points.len(),
        0 <= to < points.len(),
        above(points, from, y) != above(points, to, y),
    ensures
        0 <= t < points.len(),
        above(points, t, y) == above(points, from, y),
        above(points, next(points, t), y) != above(points, from, y),
{
    let n = points.len() as int;
    let t = if from < to {
        lemma_step_between(points, y, from, to)
    } else if above(points, n - 1, y) != above(points, from, y) {
        lemma_step_between(points, y, from, n - 1)
    } else if above(points, 0, y) != above(points, from, y) {
        n - 1
    } else {
        lemma_step_between(points, y, 0, to)
    };
    lemma_successor_in_loop(t, n);
    t
}

/// Among the first `k` vertices, one that no other of them lies after
/// (`top`), or one that no other of them lies before.
proof fn lemma_extreme_among(points: Seq<Point>, top: bool, k: int) -> (m: int)
    requires
        0 < k <= points.len(),
    ensures
        0 <= m < k,
        top ==> forall|i: int| 0 <= i < k ==> (#[trigger] points[i]).1 <= points[m].1,
        !top ==> forall|i: int| 0 <= i < k ==> (#[trigger] points[i]).1 >= points[m].1,
    decreases k,
{
    if k == 1 {
        0
    } else {
        let m = lemma_extreme_among(points, top, k - 1);
        if (top && points[k - 1].1 > points[m].1) || (!top && points[k - 1].1 < points[m].1) {
            k - 1
        } else {
            m
        }
    }
}

/// The sides on which a point lies of the two edges that meet in `v`, and
/// the side on which `w` lies of the edge from `u` to `v`, weigh the rows of
/// `u`, `w` and the point against each other.
proof fn lemma_apex(u: Point, v: Point, w: Point, x: int, y: int)
    ensures
        turn(u, v, w.0 as int, w.1 as int) * (y - v.1) == turn(u, v, x, y) * (w.1 - v.1) + turn(
            v,
            w,
            x,
            y,
        ) * (u.1 - v.1),
{
    let ax = u.0 - v.0;
    let ay = u.1 - v.1;
    let bx = w.0 - v.0;
    let by = w.1 - v.1;
    let qx = x - v.0;
    let qy = y - v.1;
    assert(turn(u, v, w.0 as int, w.1 as int) == bx * ay - by * ax) by (nonlinear_arith)
        requires
            turn(u, v, w.0 as int, w.1 as int) == (v.0 - u.0) * (w.1 - u.1) - (v.1 - u.1) * (w.0
                - u.0),
            ax == u.0 - v.0,
            ay == u.1 - v.1,
            bx == w.0 - v.0,
            by == w.1 - v.1,
    ;
    assert(turn(u, v, x, y) == qx * ay - qy * ax) by (nonlinear_arith)
        requires
            turn(u, v, x, y) == (v.0 - u.0) * (y - u.1) - (v.1 - u.1) * (x - u.0),
            ax == u.0 - v.0,
            ay == u.1 - v.1,
            qx == x - v.0,
            qy == y - v.1,
    ;
    assert(turn(v, w, x, y) == bx * qy - by * qx) by (nonlinear_arith)
        requires
            turn(v, w, x, y) == (w.0 - v.0) * (y - v.1) - (w.1 - v.1) * (x - v.0),
            bx == w.0 - v.0,
            by == w.1 - v.1,
            qx == x - v.0,
            qy == y - v.1,
    ;
    assert((bx * ay - by * ax) * qy == (qx * ay - qy * ax) * by + (bx * qy - by * qx) * ay)
        by (nonlinear_arith);
}

/// Weights of one sign, the last two not zero, cannot balance a row against
/// two rows on its other side, unless these two are the row of the apex.
proof fn lemma_apex_signs(t1: int, t2: int, t3: int, qy: int, by: int, ay: int)
    requires
        t1 * qy == t2 * by + t3 * ay,
        (t1 >= 0 && t2 > 0 && t3 > 0) || (t1 <= 0 && t2 < 0 && t3 < 0),
        (qy >= 0 && by <= 0 && ay <= 0) || (qy <= 0 && by >= 0 && ay >= 0),
    ensures
        by == 0,
        ay == 0,
{
    assert(by == 0 && ay == 0) by (nonlinear_arith)
        requires
            t1 * qy == t2 * by + t3 * ay,
            (t1 >= 0 && t2 > 0 && t3 > 0) || (t1 <= 0 && t2 < 0 && t3 < 0),
            (qy >= 0 && by <= 0 && ay <= 0) || (qy <= 0 && by >= 0 && ay >= 0),
    ;
}

/// Along edges that all run the same way in their row, the columns of the
/// vertices move away from the column of the first vertex.
proof fn lemma_row_runs_on(points: Seq<Point>, forward: bool, k: int)
    requires
        1 <= k < points.len(),
        forall|i: int|
            0 <= i < points.len() - 1 ==> (if forward {
                (#[trigger] points[i]).0 < points[i + 1].0
            } else {
                points[i].0 > points[i + 1].0
            }),
    ensures
        forward ==> points[0].0 < points[k].0,
        !forward ==> points[0].0 > points[k].0,
    decreases k,
{
    assert(if forward {
        points[k - 1].0 < points[k].0
    } else {
        points[k - 1].0 > points[k].0
    });
    if k > 1 {
        lemma_row_runs_on(points, forward, k - 1);
    }
}

/// A point strictly inside a simple convex polygon lies strictly between
/// the rows of its first and last vertices: there is a vertex after its row
/// and a vertex before it.
proof fn lemma_inside_between_rows(points: Seq<Point>, positive: bool, x: int, y: int) -> (r: (
    int,
    int,
))
    requires
        simple_convex(points, positive),
        strictly_inside(points, positive, x, y),
    ensures
        0 <= r.0 < points.len(),
        0 <= r.1 < points.len(),
        points[r.0].1 > y,
        points[r.1].1 < y,
{
    let n = points.len() as int;
    let top = lemma_extreme_among(points, true, n);
    let bottom = lemma_extreme_among(points, false, n);
    lemma_extreme_vertex_beyond(points, positive, x, y, top, true);
    lemma_extreme_vertex_beyond(points, positive, x, y, bottom, false);
    (top, bottom)
}

/// A point strictly inside a simple convex polygon lies strictly before the
/// row of a last vertex, and strictly after the row of a first one.
proof fn lemma_extreme_vertex_beyond(
    points: Seq<Point>,
    positive: bool,
    x: int,
    y: int,
    m: int,
    top: bool,
)
    requires
        simple_convex(points, positive),
        strictly_inside(points, positive, x, y),
        0 <= m < points.len(),
        top ==> forall|i: int| 0 <= i < points.len() ==> (#[trigger] points[i]).1 <= points[m].1,
        !top ==> forall|i: int| 0 <= i < points.len() ==> (#[trigger] points[i]).1 >= points[m].1,
    ensures
        top ==> points[m].1 > y,
        !top ==> points[m].1 < y,
{
    if (top && points[m].1 > y) || (!top && points[m].1 < y) {
        return ;
    }
    let n = points.len() as int;
    let before = if m == 0 {
        n - 1
    } else {
        m - 1
    };
    lemma_successor_in_loop(before, n);
    lemma_successor_in_loop(m, n);
    let after = next(points, m);
    assert(next(points, before) == m);
    let u = points[before];
    let v = points[m];
    let w = points[after];
    assert(vertex_side(points, positive, before, after) >= 0);
    assert(inner(points, positive, before, x, y) > 0);
    assert(inner(points, positive, m, x, y) > 0);
    let t1 = turn(u, v, w.0 as int, w.1 as int);
    let t2 = turn(u, v, x, y);
    let t3 = turn(v, w, x, y);
    lemma_apex(u, v, w, x, y);
    assert(u.1 == points[before].1 && w.1 == points[after].1);
    lemma_apex_signs(t1, t2, t3, y - v.1, w.1 - v.1, u.1 - v.1);
    // The two edges at the extreme vertex lie in its row, and the point does not.
    let bx = w.0 - v.0;
    let qy = y - v.1;
    assert(t3 == bx * qy) by (nonlinear_arith)
        requires
            t3 == (w.0 - v.0) * (y - v.1) - (w.1 - v.1) * (x - v.0),
            w.1 - v.1 == 0,
            bx == w.0 - v.0,
            qy == y - v.1,
    ;
    // So every vertex lies in that row,
    assert forall|j: int| 0 <= j < n implies (#[trigger] points[j]).1 == v.1 by {
        let z = points[j];
        let zy = z.1 - v.1;
        assert(vertex_side(points, positive, m, j) >= 0);
        assert(turn(v, w, z.0 as int, z.1 as int) == bx * zy) by (nonlinear_arith)
            requires
                turn(v, w, z.0 as int, z.1 as int) == (w.0 - v.0) * (z.1 - v.1) - (w.1 - v.1) * (z.0
                    - v.0),
                w.1 - v.1 == 0,
                bx == w.0 - v.0,
                zy == z.1 - v.1,
        ;
        assert(zy == 0) by (nonlinear_arith)
            requires
                (bx * qy > 0 && bx * zy >= 0) || (bx * qy < 0 && bx * zy <= 0),
                (qy >= 0 && zy <= 0) || (qy <= 0 && zy >= 0),
        ;
    }
    // and every edge runs the same way in it, which no loop does.
    let forward = (qy > 0) == positive;
    assert forall|i: int| 0 <= i < n implies (if forward {
        (#[trigger] points[i]).0 < points[next(points, i)].0
    } else {
        points[i].0 > points[next(points, i)].0
    }) by {
        lemma_successor_in_loop(i, n);
        let p = points[i];
        let q = points[next(points, i)];
        let dx = q.0 - p.0;
        assert(inner(points, positive, i, x, y) > 0);
        assert(p.1 == v.1 && q.1 == v.1);
        assert(turn(p, q, x, y) == dx * qy) by (nonlinear_arith)
            requires
                turn(p, q, x, y) == (q.0 - p.0) * (y - p.1) - (q.1 - p.1) * (x - p.0),
                q.1 - p.1 == 0,
                dx == q.0 - p.0,
                qy == y - p.1,
        ;
        assert((dx > 0) == forward && dx != 0) by (nonlinear_arith)
            requires
                (positive && dx * qy > 0) || (!positive && dx * qy < 0),
                forward == ((qy > 0) == positive),
        ;
    }
    assert forall|i: int| 0 <= i < n - 1 implies (if forward {
        (#[trigger] points[i]).0 < points[i + 1].0
    } else {
        points[i].0 > points[i + 1].0
    }) by {
        lemma_successor_in_loop(i, n);
    }
    lemma_row_runs_on(points, forward, n - 1);
    lemma_successor_in_loop(n - 1, n);
    assert(if forward {
        points[n - 1].0 < points[next(points, n - 1)].0
    } else {
        points[n - 1].0 > points[next(points, n - 1)].0
    });
}

/// How the edges of the loop cross a row: an edge crosses it if it rises or
/// falls through it, and the side of the line on which a column lies tells
/// whether the column lies beyond the crossing.
proof fn lemma_edge_direction(points: Seq<Point>, i: int, x: int, y: int)
    requires
        0 <= i < points.len(),
    ensures
        polygon_edges(points)[i] == (points[i], points[next(points, i)]),
        crosses(y, polygon_edges(points)[i]) <==> rising(points, i, y) || falling(points, i, y),
        rising(points, i, y) ==> beyond(y, polygon_edges(points)[i], x) == -turn(
            points[i],
            points[next(points, i)],
            x,
            y,
        ),
        falling(points, i, y) ==> beyond(y, polygon_edges(points)[i], x) == turn(
            points[i],
            points[next(points, i)],
            x,
            y,
        ),
{
    let a = points[i];
    let b = points[next(points, i)];
    let e = polygon_edges(points)[i];
    assert(e == (a, b));
    if rising(points, i, y) {
        assert((x - a.0) * (b.1 - a.1) - (y - a.1) * (b.0 - a.0) == -((b.0 - a.0) * (y - a.1) - (b.1
            - a.1) * (x - a.0))) by (nonlinear_arith);
    }
    if falling(points, i, y) {
        assert((x - b.0) * (a.1 - b.1) - (y - b.1) * (a.0 - b.0) == (b.0 - a.0) * (y - a.1) - (b.1
            - a.1) * (x - a.0)) by (nonlinear_arith);
    }
}

/// The row of a simple convex polygon through which edge `r` rises and
/// edge `f` falls is crossed by these two edges only: its sorted crossing
/// columns are theirs, the smaller one first.
proof fn lemma_two_crossings(points: Seq<Point>, positive: bool, y: int, r: int, f: int)
    requires
        simple_convex(points, positive),
        0 <= r < points.len(),
        0 <= f < points.len(),
        rising(points, r, y),
        falling(points, f, y),
    ensures
        ({
            let xr = crossing_x(y, polygon_edges(points)[r]);
            let xf = crossing_x(y, polygon_edges(points)[f]);
            row_crossings(y, polygon_edges(points)).sort() == (if xr <= xf {
                seq![xr, xf]
            } else {
                seq![xf, xr]
            })
        }),
{
    let edges = polygon_edges(points);
    let xr = crossing_x(y, edges[r]);
    let xf = crossing_x(y, edges[f]);
    lemma_edge_direction(points, r, 0, y);
    lemma_edge_direction(points, f, 0, y);
    assert forall|j: int| 0 <= j < edges.len() && j != r && j != f implies !crosses(
        y,
        #[trigger] edges[j],
    ) by {
        lemma_edge_direction(points, j, 0, y);
        if rising(points, j, y) {
            lemma_one_edge_each_way(points, positive, y, j, r);
        }
        if falling(points, j, y) {
            lemma_one_edge_each_way(points, positive, y, j, f);
        }
    }
    if r < f {
        lemma_crossings_of_two(y, edges, r, f);
        lemma_sort_two(xr, xf);
    } else {
        lemma_crossings_of_two(y, edges, f, r);
        lemma_sort_two(xf, xr);
        if xr == xf {
            assert(seq![xr, xf] =~= seq![xf, xr]);
        }
    }
}

/// A point of row `x` lies on the inner side of a line, if it does of a
/// second line that the first one meets the row no earlier than.
proof fn lemma_inner_by_other_line(r: int, d: int, r2: int, d2: int, x: int)
    requires
        d2 > 0,
        r * d2 - d * r2 >= 0,
        (d >= 0 && r2 - d2 * x >= 0) || (d <= 0 && r2 - d2 * x <= 0),
    ensures
        r - d * x >= 0,
{
    assert(d * (r2 - d2 * x) >= 0) by (nonlinear_arith)
        requires
            (d >= 0 && r2 - d2 * x >= 0) || (d <= 0 && r2 - d2 * x <= 0),
    ;
    assert(d2 * (r - d * x) == (r * d2 - d * r2) + d * (r2 - d2 * x)) by (nonlinear_arith);
    assert(r - d * x >= 0) by (nonlinear_arith)
        requires
            d2 > 0,
            d2 * (r - d * x) >= 0,
    ;
}

/// A point strictly on the inner side of the edge that rises through its
/// row and of the edge that falls through it lies on the outer side of no
/// edge.
proof fn lemma_between_crossings_is_inside(
    points: Seq<Point>,
    positive: bool,
    x: int,
    y: int,
    r: int,
    f: int,
    i: int,
)
    requires
        simple_convex(points, positive),
        0 <= r < points.len(),
        0 <= f < points.len(),
        0 <= i < points.len(),
        rising(points, r, y),
        falling(points, f, y),
        inner(points, positive, r, x, y) > 0,
        inner(points, positive, f, x, y) > 0,
    ensures
        inner(points, positive, i, x, y) >= 0,
{
    let p = points[i];
    let q = points[next(points, i)];
    let a = points[r];
    let b = points[next(points, r)];
    let c = points[f];
    let d = points[next(points, f)];
    let ri = reach(p, q, y);
    let di = (q.1 - p.1) as int;
    let rr = reach(a, b, y);
    let dr = (b.1 - a.1) as int;
    let rf = reach(c, d, y);
    let df = (d.1 - c.1) as int;
    lemma_turn_by_reach(p, q, x, y);
    lemma_turn_by_reach(a, b, x, y);
    lemma_turn_by_reach(c, d, x, y);
    lemma_crossing_not_outside(points, positive, y, i, r);
    lemma_crossing_not_outside(points, positive, y, i, f);
    let er = ri * dr - di * rr;
    let ef = ri * df - di * rf;
    if positive {
        assert(er >= 0 && ef <= 0);
        if di >= 0 {
            lemma_inner_by_other_line(ri, di, rr, dr, x);
        } else {
            assert(ri * (-df) - di * (-rf) == -ef) by (nonlinear_arith)
                requires
                    ef == ri * df - di * rf,
            ;
            assert((-rf) - (-df) * x == -(rf - df * x)) by (nonlinear_arith);
            lemma_inner_by_other_line(ri, di, -rf, -df, x);
        }
    } else {
        assert(er <= 0 && ef >= 0);
        if di >= 0 {
            assert((-ri) * dr - (-di) * rr == -er) by (nonlinear_arith)
                requires
                    er == ri * dr - di * rr,
            ;
            lemma_inner_by_other_line(-ri, -di, rr, dr, x);
            assert((-ri) - (-di) * x == -(ri - di * x)) by (nonlinear_arith);
        } else {
            assert((-ri) * (-df) - (-di) * (-rf) == ef) by (nonlinear_arith)
                requires
                    ef == ri * df - di * rf,
            ;
            assert((-rf) - (-df) * x == -(rf - df * x)) by (nonlinear_arith);
            lemma_inner_by_other_line(-ri, -di, -rf, -df, x);
            assert((-ri) - (-di) * x == -(ri - di * x)) by (nonlinear_arith);
        }
    }
}

/// No point lies strictly on the outer side both of the edge that rises
/// through its row and of the edge that falls through it.
proof fn lemma_crossings_in_order(points: Seq<Point>, positive: bool, x: int, y: int, r: int, f: int)
    requires
        simple_convex(points, positive),
        0 <= r < points.len(),
        0 <= f < points.len(),
        rising(points, r, y),
        falling(points, f, y),
    ensures
        !(inner(points, positive, r, x, y) < 0 && inner(points, positive, f, x, y) < 0),
{
    let a = points[r];
    let b = points[next(points, r)];
    let c = points[f];
    let d = points[next(points, f)];
    let rr = reach(a, b, y);
    let dr = (b.1 - a.1) as int;
    let rf = reach(c, d, y);
    let df = (d.1 - c.1) as int;
    lemma_turn_by_reach(a, b, x, y);
    lemma_turn_by_reach(c, d, x, y);
    lemma_crossing_not_outside(points, positive, y, r, f);
    let e = rr * df - dr * rf;
    if inner(points, positive, r, x, y) < 0 && inner(points, positive, f, x, y) < 0 {
        let tr = rr - dr * x;
        let tf = rf - df * x;
        assert(e == tr * df - dr * tf) by (nonlinear_arith)
            requires
                e == rr * df - dr * rf,
                tr == rr - dr * x,
                tf == rf - df * x,
        ;
        if positive {
            assert(tr * df - dr * tf > 0) by (nonlinear_arith)
                requires
                    tr < 0,
                    tf < 0,
                    df < 0,
                    dr > 0,
            ;
        } else {
            assert(tr * df - dr * tf < 0) by (nonlinear_arith)
                requires
                    tr > 0,
                    tf > 0,
                    df < 0,
                    dr > 0,
            ;
        }
    }
}

/// A pixel strictly outside a simple convex polygon is not painted,
/// unless its column is the one taken for the crossing of an edge with its
/// row: rounding moves that column by less than one column off the edge,
/// and may move it outward.
pub proof fn theorem_exterior_is_not_painted(points: Seq<Point>, positive: bool, x: int, y: int)
    requires
        simple_convex(points, positive),
        strictly_outside(points, positive, x, y),
        forall|i: int|
            0 <= i < points.len() && crosses(y, #[trigger] polygon_edges(points)[i]) ==> crossing_x(
                y,
                polygon_edges(points)[i],
            ) != x,
    ensures
        !covered(points, x, y),
{
    let edges = polygon_edges(points);
    let n = points.len() as int;
    if exists|j: int| 0 <= j < n && crosses(y, #[trigger] edges[j]) {
        let j = choose|j: int| 0 <= j < n && crosses(y, #[trigger] edges[j]);
        lemma_edge_direction(points, j, x, y);
        lemma_successor_in_loop(j, n);
        let other = lemma_loop_changes_side(points, y, next(points, j), j);
        let r = if rising(points, j, y) {
            j
        } else {
            other
        };
        let f = if rising(points, j, y) {
            other
        } else {
            j
        };
        let xr = crossing_x(y, edges[r]);
        let xf = crossing_x(y, edges[f]);
        lemma_two_crossings(points, positive, y, r, f);
        lemma_edge_direction(points, r, x, y);
        lemma_edge_direction(points, f, x, y);
        lemma_side_of_crossing(y, edges[r], x);
        lemma_side_of_crossing(y, edges[f], x);
        let s = row_crossings(y, edges).sort();
        if in_spans(s, x) {
            let k = choose|k: int| 0 <= k && 2 * k + 1 < s.len() && #[trigger] s[2 * k] <= x <= s[2
                * k + 1];
            assert(k == 0);
            assert(xr != x && xf != x);
            lemma_crossings_in_order(points, positive, x, y, r, f);
            assert(inner(points, positive, r, x, y) > 0 && inner(points, positive, f, x, y) > 0);
            let i = choose|i: int| 0 <= i < points.len() && #[trigger] inner(points, positive, i, x, y)
                < 0;
            lemma_between_crossings_is_inside(points, positive, x, y, r, f, i);
        }
    } else {
        lemma_uncrossed_row_is_empty(y, edges);
        crate::draw::lemma_empty_row_uncovered(points, x, y);
    }
}

/// Every pixel strictly inside a simple convex polygon is painted.
pub proof fn theorem_interior_is_painted(points: Seq<Point>, positive: bool, x: int, y: int)
    requires
        simple_convex(points, positive),
        strictly_inside(points, positive, x, y),
    ensures
        covered(points, x, y),
{
    let (hi, lo) = lemma_inside_between_rows(points, positive, x, y);
    let r = lemma_loop_changes_side(points, y, lo, hi);
    let f = lemma_loop_changes_side(points, y, hi, lo);
    let edges = polygon_edges(points);
    let xr = crossing_x(y, edges[r]);
    let xf = crossing_x(y, edges[f]);
    lemma_two_crossings(points, positive, y, r, f);
    lemma_edge_direction(points, r, x, y);
    lemma_edge_direction(points, f, x, y);
    lemma_side_of_crossing(y, edges[r], x);
    lemma_side_of_crossing(y, edges[f], x);
    assert(inner(points, positive, r, x, y) > 0);
    assert(inner(points, positive, f, x, y) > 0);
    let s = row_crossings(y, edges).sort();
    if positive {
        assert(xf <= x <= xr);
    } else {
        assert(xr <= x <= xf);
    }
    let k = 0int;
    assert(s[2 * k] <= x <= s[2 * k + 1]);
    assert(in_leading_spans(s, s.len() as int, x));
}

} // verus!
