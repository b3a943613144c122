//! Scan-line geometry: where the edges of a polygon meet a pixel row.

use vstd::prelude::*;

verus! {

/// A point of the pixel plane, `(x, y)`.
pub type Point = (i32, i32);

/// A polygon edge, from its first endpoint to its second.
pub type Edge = ((i32, i32), (i32, i32));

/// The quotient of `n` by a positive `d`, rounded toward zero.
pub open spec fn trunc_div(n: int, d: int) -> int {
    if n >= 0 {
        n / d
    } else {
        -((-n) / d)
    }
}

/// Both endpoints of the edge lie on the same row.
pub open spec fn is_horizontal(e: Edge) -> bool {
    e.0.1 == e.1.1
}

/// The endpoint with the smaller `y` (the first one on a tie).
pub open spec fn lower(e: Edge) -> Point {
    if e.0.1 <= e.1.1 {
        e.0
    } else {
        e.1
    }
}

/// The endpoint with the larger `y` (the second one on a tie).
pub open spec fn upper(e: Edge) -> Point {
    if e.0.1 <= e.1.1 {
        e.1
    } else {
        e.0
    }
}

/// The edge meets row `rowy`: it is not horizontal and the row lies in the
/// half-open range from its lower endpoint (included) to its upper endpoint
/// (excluded), so that a vertex shared by two edges is counted once.
pub open spec fn crosses(rowy: int, e: Edge) -> bool {
    !is_horizontal(e) && lower(e).1 <= rowy < upper(e).1
}

/// The column at which an edge that crosses row `rowy` meets it: linear
/// interpolation from the lower endpoint, the offset rounded toward zero.
pub open spec fn crossing_x(rowy: int, e: Edge) -> int {
    let lo = lower(e);
    let hi = upper(e);
    lo.0 + trunc_div((rowy - lo.1) * (hi.0 - lo.0), hi.1 - lo.1)
}

/// The crossing columns of row `rowy`, one for each edge that crosses it, in
/// the order of the edges.
pub open spec fn row_crossings(rowy: int, edges: Seq<Edge>) -> Seq<int>
    decreases edges.len(),
{
    if edges.len() == 0 {
        Seq::empty()
    } else if crosses(rowy, edges.last()) {
        row_crossings(rowy, edges.drop_last()).push(crossing_x(rowy, edges.last()))
    } else {
        row_crossings(rowy, edges.drop_last())
    }
}

/// The edges of the closed loop through `points`: each vertex joined to the
/// next one, and the last one to the first.
pub open spec fn polygon_edges(points: Seq<Point>) -> Seq<Edge> {
    Seq::new(points.len(), |i: int| (points[i], points[(i + 1) % (points.len() as int)]))
}

/// The index that follows `i` in a loop of `n` vertices.
pub proof fn lemma_successor_in_loop(i: int, n: int)
    requires
        0 <= i < n,
    ensures
        i + 1 < n ==> (i + 1) % n == i + 1,
        i + 1 == n ==> (i + 1) % n == 0,
{
    if i + 1 < n {
        vstd::arithmetic::div_mod::lemma_small_mod((i + 1) as nat, n as nat);
    } else {
        vstd::arithmetic::div_mod::lemma_mod_self_0(n);
    }
}

/// A row that no edge crosses has no crossing columns.
pub proof fn lemma_uncrossed_row_is_empty(rowy: int, edges: Seq<Edge>)
    requires
        forall|k: int| 0 <= k < edges.len() ==> !crosses(rowy, #[trigger] edges[k]),
    ensures
        row_crossings(rowy, edges) == Seq::<int>::empty(),
    decreases edges.len(),
{
    if edges.len() > 0 {
        assert forall|k: int| 0 <= k < edges.drop_last().len() implies !crosses(
            rowy,
            #[trigger] edges.drop_last()[k],
        ) by {
            assert(edges.drop_last()[k] == edges[k]);
        }
        lemma_uncrossed_row_is_empty(rowy, edges.drop_last());
    }
}

/// A sequence of machine integers read as mathematical integers.
pub open spec fn as_ints(s: Seq<i32>) -> Seq<int> {
    s.map_values(|v: i32| v as int)
}

/// The interpolated offset never leaves the span between the two endpoints.
pub proof fn lemma_offset_bounded(t: int, dx: int, d: int)
    requires
        0 <= t < d,
    ensures
        dx >= 0 ==> 0 <= trunc_div(t * dx, d) <= dx,
        dx <= 0 ==> dx <= trunc_div(t * dx, d) <= 0,
{
    if dx >= 0 {
        assert(0 <= t * dx <= d * dx) by (nonlinear_arith)
            requires
                0 <= t < d,
                dx >= 0,
        ;
        assert(0 <= (t * dx) / d <= dx) by (nonlinear_arith)
            requires
                0 <= t * dx <= d * dx,
                d > 0,
        ;
    }
    if dx <= 0 {
        let m = -dx;
        assert(t * dx == -(t * m)) by (nonlinear_arith)
            requires
                m == -dx,
        ;
        assert(0 <= t * m <= d * m) by (nonlinear_arith)
            requires
                0 <= t < d,
                m >= 0,
        ;
        assert(0 <= (t * m) / d <= m) by (nonlinear_arith)
            requires
                0 <= t * m <= d * m,
                d > 0,
        ;
    }
}

/// How far column `x` lies beyond the point at which the line of the edge
/// meets row `rowy`, times the rise of the edge from its lower to its upper
/// endpoint: positive after that point, negative before it, zero at it.
pub open spec fn beyond(rowy: int, e: Edge, x: int) -> int {
    let lo = lower(e);
    let hi = upper(e);
    (x - lo.0) * (hi.1 - lo.1) - (rowy - lo.1) * (hi.0 - lo.0)
}

/// Rounding moves a crossing column by less than one column away from the
/// point at which the edge meets the row.
pub proof fn lemma_crossing_near_line(rowy: int, e: Edge)
    requires
        crosses(rowy, e),
    ensures
        -(upper(e).1 - lower(e).1) < beyond(rowy, e, crossing_x(rowy, e)) < upper(e).1 - lower(e).1,
{
    let lo = lower(e);
    let hi = upper(e);
    let d = (hi.1 - lo.1) as int;
    let n = (rowy - lo.1) * (hi.0 - lo.0);
    let q = trunc_div(n, d);
    if n >= 0 {
        vstd::arithmetic::div_mod::lemma_fundamental_div_mod(n, d);
        vstd::arithmetic::div_mod::lemma_mod_bound(n, d);
        assert(q * d == d * (n / d)) by (nonlinear_arith)
            requires
                q == n / d,
        ;
    } else {
        vstd::arithmetic::div_mod::lemma_fundamental_div_mod(-n, d);
        vstd::arithmetic::div_mod::lemma_mod_bound(-n, d);
        assert(q * d == -(d * ((-n) / d))) by (nonlinear_arith)
            requires
                q == -((-n) / d),
        ;
    }
    assert(-d < q * d - n < d);
    assert((lo.0 + q - lo.0) * d == q * d);
}

/// A column after the crossing column lies beyond the line of the edge, and
/// a column before the crossing column lies before it.
pub proof fn lemma_side_of_crossing(rowy: int, e: Edge, x: int)
    requires
        crosses(rowy, e),
    ensures
        x > crossing_x(rowy, e) ==> beyond(rowy, e, x) > 0,
        x < crossing_x(rowy, e) ==> beyond(rowy, e, x) < 0,
{
    let lo = lower(e);
    let hi = upper(e);
    let d = (hi.1 - lo.1) as int;
    let cx = crossing_x(rowy, e);
    lemma_crossing_near_line(rowy, e);
    assert(beyond(rowy, e, x) == beyond(rowy, e, cx) + (x - cx) * d) by (nonlinear_arith)
        requires
            beyond(rowy, e, x) == (x - lo.0) * d - (rowy - lo.1) * (hi.0 - lo.0),
            beyond(rowy, e, cx) == (cx - lo.0) * d - (rowy - lo.1) * (hi.0 - lo.0),
    ;
    assert(x > cx ==> (x - cx) * d >= d) by (nonlinear_arith)
        requires
            d > 0,
    ;
    assert(x < cx ==> (x - cx) * d <= -d) by (nonlinear_arith)
        requires
            d > 0,
    ;
}

/// An edge that does not cross a row adds nothing to the row's crossing
/// columns: they are those of the other edges.
pub proof fn lemma_uncrossing_edge_contributes_nothing(rowy: int, edges: Seq<Edge>, k: int)
    requires
        0 <= k < edges.len(),
        !crosses(rowy, edges[k]),
    ensures
        row_crossings(rowy, edges) == row_crossings(rowy, edges.remove(k)),
    decreases edges.len(),
{
    if k == edges.len() - 1 {
        assert(edges.remove(k) =~= edges.drop_last());
    } else {
        assert(edges.remove(k).drop_last() =~= edges.drop_last().remove(k));
        assert(edges.remove(k).last() == edges.last());
        lemma_uncrossing_edge_contributes_nothing(rowy, edges.drop_last(), k);
    }
}

/// A horizontal edge contributes no crossing column to any row, its own
/// row included.
pub proof fn lemma_horizontal_edge_contributes_nothing(rowy: int, edges: Seq<Edge>, k: int)
    requires
        0 <= k < edges.len(),
        is_horizontal(edges[k]),
    ensures
        !crosses(rowy, edges[k]),
        row_crossings(rowy, edges) == row_crossings(rowy, edges.remove(k)),
{
    lemma_uncrossing_edge_contributes_nothing(rowy, edges, k);
}

/// A row that a single edge crosses has that edge's crossing column.
pub proof fn lemma_crossings_of_one(rowy: int, edges: Seq<Edge>, i: int)
    requires
        0 <= i < edges.len(),
        crosses(rowy, edges[i]),
        forall|k: int| 0 <= k < edges.len() && k != i ==> !crosses(rowy, #[trigger] edges[k]),
    ensures
        row_crossings(rowy, edges) == seq![crossing_x(rowy, edges[i])],
    decreases edges.len(),
{
    let rest = edges.drop_last();
    assert(forall|k: int| 0 <= k < rest.len() ==> rest[k] == edges[k]);
    if i == edges.len() - 1 {
        lemma_uncrossed_row_is_empty(rowy, rest);
        assert(row_crossings(rowy, edges) =~= seq![crossing_x(rowy, edges[i])]);
    } else {
        lemma_crossings_of_one(rowy, rest, i);
    }
}

/// A row that two edges cross has their crossing columns, in the order of
/// the edges.
pub proof fn lemma_crossings_of_two(rowy: int, edges: Seq<Edge>, i: int, k: int)
    requires
        0 <= i < k < edges.len(),
        crosses(rowy, edges[i]),
        crosses(rowy, edges[k]),
        forall|j: int|
            0 <= j < edges.len() && j != i && j != k ==> !crosses(rowy, #[trigger] edges[j]),
    ensures
        row_crossings(rowy, edges) == seq![crossing_x(rowy, edges[i]), crossing_x(rowy, edges[k])],
    decreases edges.len(),
{
    let rest = edges.drop_last();
    assert(forall|j: int| 0 <= j < rest.len() ==> rest[j] == edges[j]);
    if k == edges.len() - 1 {
        lemma_crossings_of_one(rowy, rest, i);
        assert(row_crossings(rowy, edges) =~= seq![
            crossing_x(rowy, edges[i]),
            crossing_x(rowy, edges[k]),
        ]);
    } else {
        lemma_crossings_of_two(rowy, rest, i, k);
    }
}

/// The edges of the closed loop through `points`.
pub fn edges_of(points: &Vec<(i32, i32)>) -> (edges: Vec<((i32, i32), (i32, i32))>)
    ensures
        edges@ == polygon_edges(points@),
{
    let n = points.len();
    let mut edges: Vec<((i32, i32), (i32, i32))> = Vec::new();
    let mut i: usize = 0;
    while i < n
        invariant
            i <= n,
            n == points.len(),
            edges@.len() == i,
            forall|k: int| 0 <= k < i ==> #[trigger] edges@[k] == polygon_edges(points@)[k],
        decreases n - i,
    {
        let next: usize = if i + 1 == n {
            0
        } else {
            i + 1
        };
        proof {
            lemma_successor_in_loop(i as int, n as int);
        }
        edges.push((points[i], points[next]));
        i += 1;
    }
    assert(edges@ =~= polygon_edges(points@));
    edges
}

/// The smallest and the largest `y` among the vertices.
pub fn row_range(points: &Vec<(i32, i32)>) -> (range: (i32, i32))
    requires
        points.len() > 0,
    ensures
        forall|i: int| 0 <= i < points.len() ==> range.0 <= (#[trigger] points[i]).1 <= range.1,
        exists|i: int| 0 <= i < points.len() && (#[trigger] points[i]).1 == range.0,
        exists|i: int| 0 <= i < points.len() && (#[trigger] points[i]).1 == range.1,
{
    let mut ymin: i32 = points[0].1;
    let mut ymax: i32 = points[0].1;
    let mut i: usize = 1;
    while i < points.len()
        invariant
            1 <= i <= points.len(),
            forall|k: int| 0 <= k < i ==> ymin <= (#[trigger] points[k]).1 <= ymax,
            exists|k: int| 0 <= k < i && (#[trigger] points[k]).1 == ymin,
            exists|k: int| 0 <= k < i && (#[trigger] points[k]).1 == ymax,
        decreases points.len() - i,
    {
        let y = points[i].1;
        if y < ymin {
            ymin = y;
        }
        if y > ymax {
            ymax = y;
        }
        i += 1;
    }
    (ymin, ymax)
}

/// No edge of a polygon crosses a row above its topmost vertex, or at or
/// below its bottommost one.
pub proof fn lemma_rows_beyond_vertices_are_empty(points: Seq<Point>, ymin: int, ymax: int, rowy: int)
    requires
        forall|i: int| 0 <= i < points.len() ==> ymin <= (#[trigger] points[i]).1 <= ymax,
        rowy < ymin || rowy >= ymax,
    ensures
        row_crossings(rowy, polygon_edges(points)) == Seq::<int>::empty(),
{
    let edges = polygon_edges(points);
    let n = points.len() as int;
    assert forall|k: int| 0 <= k < edges.len() implies !crosses(rowy, #[trigger] edges[k]) by {
        let j = (k + 1) % n;
        assert(edges[k] == (points[k], points[j]));
        assert(ymin <= points[k].1 <= ymax);
        assert(ymin <= points[j].1 <= ymax);
    }
    lemma_uncrossed_row_is_empty(rowy, edges);
}

/// The column at which edge `e` meets row `rowy`.
fn crossing_column(rowy: i32, e: Edge) -> (x: i32)
    requires
        crosses(rowy as int, e),
    ensures
        x == crossing_x(rowy as int, e),
{
    let (lo, hi) = if e.0.1 <= e.1.1 {
        (e.0, e.1)
    } else {
        (e.1, e.0)
    };
    let t: i128 = rowy as i128 - lo.1 as i128;
    let dx: i128 = hi.0 as i128 - lo.0 as i128;
    let d: i128 = hi.1 as i128 - lo.1 as i128;
    proof {
        lemma_offset_bounded(t as int, dx as int, d as int);
        assert(-0x1_0000_0000 * 0x1_0000_0000 <= t * dx <= 0x1_0000_0000 * 0x1_0000_0000)
            by (nonlinear_arith)
            requires
                0 <= t <= 0x1_0000_0000,
                -0x1_0000_0000 <= dx <= 0x1_0000_0000,
        ;
    }
    let q: i128 = (t * dx) / d;
    (lo.0 as i128 + q) as i32
}

/// The columns at which the edges meet row `rowy`, in the order of the edges.
///
/// Horizontal edges are skipped. Every other edge contributes one column if
/// the row lies between its lower endpoint (included) and its upper endpoint
/// (excluded).
pub fn intersections(rowy: i32, edges: &Vec<((i32, i32), (i32, i32))>) -> (out: Vec<i32>)
    ensures
        as_ints(out@) == row_crossings(rowy as int, edges@),
{
    let mut out: Vec<i32> = Vec::new();
    let mut i: usize = 0;
    while i < edges.len()
        invariant
            i <= edges.len(),
            as_ints(out@) == row_crossings(rowy as int, edges@.take(i as int)),
        decreases edges.len() - i,
    {
        let e = edges[i];
        proof {
            assert(edges@.take(i + 1).drop_last() == edges@.take(i as int));
            assert(edges@.take(i + 1).last() == e);
        }
        if e.0.1 != e.1.1 {
            let (lo_y, hi_y) = if e.0.1 <= e.1.1 {
                (e.0.1, e.1.1)
            } else {
                (e.1.1, e.0.1)
            };
            if rowy >= lo_y && rowy < hi_y {
                let x = crossing_column(rowy, e);
                let ghost before = out@;
                out.push(x);
                assert(as_ints(out@) == as_ints(before).push(x as int));
            }
        }
        i += 1;
    }
    assert(edges@.take(edges.len() as int) == edges@);
    out
}

} // verus!
