//! Facts about the shapes the painter fills: the triangle test and its independence
//! from the bounding box and from the order of the vertices, and the fan that fills a
//! strictly convex polygon covering exactly that polygon.
use vstd::prelude::*;
use crate::canvas::{Color, Point, Frame, painted, edge_at, in_triangle, in_fan, min3, max3, lemma_paint_agree};

verus! {

/// Pixel `(x, y)` passes the three edge tests of the triangle `a`, `b`, `c`: the
/// triangle is not flat and the pixel lies on the inner side of every edge or on it.
pub open spec fn inside_edges(a: Point, b: Point, c: Point, x: int, y: int) -> bool {
    let area = edge_at(a, b, c.x as int, c.y as int);
    let w0 = edge_at(b, c, x, y);
    let w1 = edge_at(c, a, x, y);
    let w2 = edge_at(a, b, x, y);
    &&& area != 0
    &&& ((area > 0 && w0 >= 0 && w1 >= 0 && w2 >= 0) || (area < 0 && w0 <= 0 && w1 <= 0 && w2 <= 0))
}

/// A weighted mean of three values with weights of one sign lies between their least
/// and greatest.
proof fn lemma_weighted_between(w0: int, w1: int, w2: int, p: int, q: int, r: int, area: int, t: int)
    requires
        w0 + w1 + w2 == area,
        w0 * p + w1 * q + w2 * r == area * t,
        (area > 0 && w0 >= 0 && w1 >= 0 && w2 >= 0) || (area < 0 && w0 <= 0 && w1 <= 0 && w2 <= 0),
    ensures
        min3(p, q, r) <= t <= max3(p, q, r),
{
    let lo = min3(p, q, r);
    let hi = max3(p, q, r);
    if area > 0 {
        assert(area * lo <= w0 * p + w1 * q + w2 * r) by (nonlinear_arith)
            requires w0 + w1 + w2 == area, w0 >= 0, w1 >= 0, w2 >= 0, lo <= p, lo <= q, lo <= r;
        assert(w0 * p + w1 * q + w2 * r <= area * hi) by (nonlinear_arith)
            requires w0 + w1 + w2 == area, w0 >= 0, w1 >= 0, w2 >= 0, p <= hi, q <= hi, r <= hi;
        assert(lo <= t) by (nonlinear_arith)
            requires area * lo <= area * t, area > 0;
        assert(t <= hi) by (nonlinear_arith)
            requires area * t <= area * hi, area > 0;
    } else {
        assert(area * lo >= w0 * p + w1 * q + w2 * r) by (nonlinear_arith)
            requires w0 + w1 + w2 == area, w0 <= 0, w1 <= 0, w2 <= 0, lo <= p, lo <= q, lo <= r;
        assert(w0 * p + w1 * q + w2 * r >= area * hi) by (nonlinear_arith)
            requires w0 + w1 + w2 == area, w0 <= 0, w1 <= 0, w2 <= 0, p <= hi, q <= hi, r <= hi;
        assert(lo <= t) by (nonlinear_arith)
            requires area * lo >= area * t, area < 0;
        assert(t <= hi) by (nonlinear_arith)
            requires area * t >= area * hi, area < 0;
    }
}


/// The three edge values of a point sum to twice the triangle's area, and weight its
/// vertices to the point itself.
proof fn lemma_barycentric(ax: int, ay: int, bx: int, by: int, cx: int, cy: int, x: int, y: int)
    ensures
        ({
            let area = (cx - ax) * (by - ay) - (cy - ay) * (bx - ax);
            let w0 = (x - bx) * (cy - by) - (y - by) * (cx - bx);
            let w1 = (x - cx) * (ay - cy) - (y - cy) * (ax - cx);
            let w2 = (x - ax) * (by - ay) - (y - ay) * (bx - ax);
            &&& w0 + w1 + w2 == area
            &&& w0 * ax + w1 * bx + w2 * cx == area * x
            &&& w0 * ay + w1 * by + w2 * cy == area * y
        }),
{
    let (ux, uy, vx, vy, px, py) = (bx - ax, by - ay, cx - ax, cy - ay, x - ax, y - ay);
    let area = vx * uy - vy * ux;
    let w1 = py * vx - px * vy;
    let w2 = px * uy - py * ux;
    let w0 = area - w1 - w2;
    assert((x - cx) * (ay - cy) - (y - cy) * (ax - cx) == w1) by (nonlinear_arith)
        requires x - cx == px - vx, ay - cy == 0 - vy, y - cy == py - vy, ax - cx == 0 - vx, w1 == py * vx - px * vy;
    assert(x - bx == px - ux && cy - by == vy - uy && y - by == py - uy && cx - bx == vx - ux);
    assert((px - ux) * (vy - uy) == px * vy - px * uy - ux * vy + ux * uy) by (nonlinear_arith);
    assert((py - uy) * (vx - ux) == py * vx - py * ux - uy * vx + uy * ux) by (nonlinear_arith);
    assert(ux * uy == uy * ux && ux * vy == vy * ux && uy * vx == vx * uy) by (nonlinear_arith);
    assert((x - bx) * (cy - by) == (px - ux) * (vy - uy));
    assert((y - by) * (cx - bx) == (py - uy) * (vx - ux));
    assert(w1 * ux + w2 * vx == area * px) by (nonlinear_arith)
        requires w1 == py * vx - px * vy, w2 == px * uy - py * ux, area == vx * uy - vy * ux;
    assert(w1 * uy + w2 * vy == area * py) by (nonlinear_arith)
        requires w1 == py * vx - px * vy, w2 == px * uy - py * ux, area == vx * uy - vy * ux;
    assert(w0 * ax + w1 * bx + w2 * cx == (w0 + w1 + w2) * ax + w1 * ux + w2 * vx) by (nonlinear_arith)
        requires bx == ax + ux, cx == ax + vx;
    assert(w0 * ay + w1 * by + w2 * cy == (w0 + w1 + w2) * ay + w1 * uy + w2 * vy) by (nonlinear_arith)
        requires by == ay + uy, cy == ay + vy;
    assert(area * ax + area * px == area * x) by (nonlinear_arith)
        requires x == ax + px;
    assert(area * ay + area * py == area * y) by (nonlinear_arith)
        requires y == ay + py;
}

/// The bounding box that `fill_triangle` scans adds nothing to the edge tests: a pixel
/// is filled exactly when it passes them.
pub proof fn law_triangle_box_adds_nothing(a: Point, b: Point, c: Point, x: int, y: int)
    ensures
        in_triangle(a, b, c, x, y) <==> inside_edges(a, b, c, x, y),
{
    if inside_edges(a, b, c, x, y) {
        let (ax, ay, bx, by, cx, cy) = (a.x as int, a.y as int, b.x as int, b.y as int, c.x as int, c.y as int);
        let area = edge_at(a, b, cx, cy);
        let w0 = edge_at(b, c, x, y);
        let w1 = edge_at(c, a, x, y);
        let w2 = edge_at(a, b, x, y);
        lemma_barycentric(ax, ay, bx, by, cx, cy, x, y);
        lemma_weighted_between(w0, w1, w2, ax, bx, cx, area, x);
        lemma_weighted_between(w0, w1, w2, ay, by, cy, area, y);
    }
}


/// Swapping the ends of an edge flips the sign of its test.
proof fn lemma_edge_swap(a: Point, b: Point, x: int, y: int)
    ensures
        edge_at(b, a, x, y) == -edge_at(a, b, x, y),
{
    let (p, q, e, d) = (x - a.x, y - a.y, b.x - a.x, b.y - a.y);
    assert(x - b.x == p - e && a.y - b.y == 0 - d && y - b.y == q - d && a.x - b.x == 0 - e);
    assert((p - e) * (0 - d) - (q - d) * (0 - e) == -(p * d - q * e)) by (nonlinear_arith);
    assert((x - b.x) * (a.y - b.y) == (p - e) * (0 - d));
    assert((y - b.y) * (a.x - b.x) == (q - d) * (0 - e));
}

/// The edge tests do not depend on the order or winding of the vertices.
pub proof fn law_triangle_vertex_order(a: Point, b: Point, c: Point, x: int, y: int)
    ensures
        inside_edges(a, b, c, x, y) <==> inside_edges(a, c, b, x, y),
        inside_edges(a, b, c, x, y) <==> inside_edges(b, c, a, x, y),
        in_triangle(a, b, c, x, y) <==> in_triangle(a, c, b, x, y),
        in_triangle(a, b, c, x, y) <==> in_triangle(b, c, a, x, y),
{
    let (ax, ay, bx, by, cx, cy) = (a.x as int, a.y as int, b.x as int, b.y as int, c.x as int, c.y as int);
    assert(edge_at(a, c, bx, by) == -edge_at(a, b, cx, cy)) by (nonlinear_arith)
        requires
            edge_at(a, c, bx, by) == (bx - ax) * (cy - ay) - (by - ay) * (cx - ax),
            edge_at(a, b, cx, cy) == (cx - ax) * (by - ay) - (cy - ay) * (bx - ax);
    assert(edge_at(b, c, ax, ay) == edge_at(a, b, cx, cy)) by (nonlinear_arith)
        requires
            edge_at(b, c, ax, ay) == (ax - bx) * (cy - by) - (ay - by) * (cx - bx),
            edge_at(a, b, cx, cy) == (cx - ax) * (by - ay) - (cy - ay) * (bx - ax);
    lemma_edge_swap(b, c, x, y);
    lemma_edge_swap(a, b, x, y);
    lemma_edge_swap(c, a, x, y);
    law_triangle_box_adds_nothing(a, b, c, x, y);
    law_triangle_box_adds_nothing(a, c, b, x, y);
    law_triangle_box_adds_nothing(b, c, a, x, y);
}

/// Filling a triangle gives the same frame whatever the order of its vertices.
pub proof fn law_fill_triangle_any_order(frame: Frame, color: Color, a: Point, b: Point, c: Point)
    ensures
        painted(frame, color, |x: int, y: int| in_triangle(a, b, c, x, y))
            == painted(frame, color, |x: int, y: int| in_triangle(a, c, b, x, y)),
        painted(frame, color, |x: int, y: int| in_triangle(a, b, c, x, y))
            == painted(frame, color, |x: int, y: int| in_triangle(b, c, a, x, y)),
{
    assert forall|x: int, y: int| (in_triangle(a, b, c, x, y) <==> in_triangle(a, c, b, x, y)) by {
        law_triangle_vertex_order(a, b, c, x, y);
    }
    assert forall|x: int, y: int| (in_triangle(a, b, c, x, y) <==> in_triangle(b, c, a, x, y)) by {
        law_triangle_vertex_order(a, b, c, x, y);
    }
    lemma_paint_agree(frame.pixels, frame.width, frame.height, color,
        |x: int, y: int| in_triangle(a, b, c, x, y), |x: int, y: int| in_triangle(a, c, b, x, y));
    lemma_paint_agree(frame.pixels, frame.width, frame.height, color,
        |x: int, y: int| in_triangle(a, b, c, x, y), |x: int, y: int| in_triangle(b, c, a, x, y));
}

/// The test value of `(x, y)` against outline edge `j` of `points`, from `points[j]` to
/// the next point, the last one wrapping to the first.
pub open spec fn outline_side(points: Seq<Point>, j: int, x: int, y: int) -> int {
    edge_at(points[j], points[(j + 1) % (points.len() as int)], x, y)
}

/// The test value of vertex `k` against outline edge `j`.
pub open spec fn vertex_side(points: Seq<Point>, j: int, k: int) -> int {
    outline_side(points, j, points[k].x as int, points[k].y as int)
}

/// A value on the inner side of an edge: not negative for one winding, not positive
/// for the other.
pub open spec fn on_inner_side(v: int, clockwise: bool) -> bool {
    if clockwise { v <= 0 } else { v >= 0 }
}

/// Every vertex lies on the inner side of every outline edge, or on it: the outline
/// bounds a convex region, listed in one winding.
pub open spec fn convex_outline(points: Seq<Point>, clockwise: bool) -> bool {
    forall|j: int, k: int| 0 <= j < points.len() && 0 <= k < points.len()
        ==> on_inner_side(#[trigger] vertex_side(points, j, k), clockwise)
}

/// Pixel `(x, y)` lies on the inner side of every outline edge, or on it.
pub open spec fn inside_outline(points: Seq<Point>, clockwise: bool, x: int, y: int) -> bool {
    forall|j: int| 0 <= j < points.len() ==> on_inner_side(#[trigger] outline_side(points, j, x, y), clockwise)
}

/// A line's test value at a point inside a triangle is the triangle's weighted mean
/// of its values at the three vertices, so it keeps their common sign.
proof fn lemma_edge_keeps_sign(e: Point, f: Point, a: Point, b: Point, c: Point, x: int, y: int)
    requires
        in_triangle(a, b, c, x, y),
        edge_at(e, f, a.x as int, a.y as int) >= 0,
        edge_at(e, f, b.x as int, b.y as int) >= 0,
        edge_at(e, f, c.x as int, c.y as int) >= 0,
    ensures
        edge_at(e, f, x, y) >= 0,
{
    let (ax, ay, bx, by, cx, cy) = (a.x as int, a.y as int, b.x as int, b.y as int, c.x as int, c.y as int);
    let (ex, ey, dx, dy) = (e.x as int, e.y as int, f.x - e.x, f.y - e.y);
    let area = edge_at(a, b, cx, cy);
    let w0 = edge_at(b, c, x, y);
    let w1 = edge_at(c, a, x, y);
    let w2 = edge_at(a, b, x, y);
    let k = ex * dy - ey * dx;
    let ea = edge_at(e, f, ax, ay);
    let eb = edge_at(e, f, bx, by);
    let ec = edge_at(e, f, cx, cy);
    let ep = edge_at(e, f, x, y);
    lemma_barycentric(ax, ay, bx, by, cx, cy, x, y);
    let sx = w0 * ax + w1 * bx + w2 * cx;
    let sy = w0 * ay + w1 * by + w2 * cy;
    assert(ea == ax * dy - ay * dx - k) by (nonlinear_arith)
        requires ea == (ax - ex) * dy - (ay - ey) * dx, k == ex * dy - ey * dx;
    assert(eb == bx * dy - by * dx - k) by (nonlinear_arith)
        requires eb == (bx - ex) * dy - (by - ey) * dx, k == ex * dy - ey * dx;
    assert(ec == cx * dy - cy * dx - k) by (nonlinear_arith)
        requires ec == (cx - ex) * dy - (cy - ey) * dx, k == ex * dy - ey * dx;
    assert(ep == x * dy - y * dx - k) by (nonlinear_arith)
        requires ep == (x - ex) * dy - (y - ey) * dx, k == ex * dy - ey * dx;
    assert(w0 * ea == (w0 * ax) * dy - (w0 * ay) * dx - w0 * k) by (nonlinear_arith)
        requires ea == ax * dy - ay * dx - k;
    assert(w1 * eb == (w1 * bx) * dy - (w1 * by) * dx - w1 * k) by (nonlinear_arith)
        requires eb == bx * dy - by * dx - k;
    assert(w2 * ec == (w2 * cx) * dy - (w2 * cy) * dx - w2 * k) by (nonlinear_arith)
        requires ec == cx * dy - cy * dx - k;
    let (p0, p1, p2, q0, q1, q2) = (w0 * ax, w1 * bx, w2 * cx, w0 * ay, w1 * by, w2 * cy);
    assert(sx * dy == p0 * dy + p1 * dy + p2 * dy) by (nonlinear_arith)
        requires sx == p0 + p1 + p2;
    assert(sy * dx == q0 * dx + q1 * dx + q2 * dx) by (nonlinear_arith)
        requires sy == q0 + q1 + q2;
    assert((w0 + w1 + w2) * k == w0 * k + w1 * k + w2 * k) by (nonlinear_arith);
    assert(w0 * ea + w1 * eb + w2 * ec == sx * dy - sy * dx - (w0 + w1 + w2) * k);
    assert(sx * dy - sy * dx - (w0 + w1 + w2) * k == area * ep) by (nonlinear_arith)
        requires
            sx == area * x,
            sy == area * y,
            w0 + w1 + w2 == area,
            ep == x * dy - y * dx - k;
    if area > 0 {
        assert(w0 * ea + w1 * eb + w2 * ec >= 0) by (nonlinear_arith)
            requires w0 >= 0, w1 >= 0, w2 >= 0, ea >= 0, eb >= 0, ec >= 0;
        assert(ep >= 0) by (nonlinear_arith)
            requires area * ep >= 0, area > 0;
    } else {
        assert(w0 * ea + w1 * eb + w2 * ec <= 0) by (nonlinear_arith)
            requires w0 <= 0, w1 <= 0, w2 <= 0, ea >= 0, eb >= 0, ec >= 0;
        assert(ep >= 0) by (nonlinear_arith)
            requires area * ep <= 0, area < 0;
    }
}

/// `fill_polygon` paints no pixel outside a convex polygon: each pixel of the fan of
/// triangles around the first point lies on the inner side of every outline edge, in
/// either winding.
pub proof fn law_polygon_fan_stays_inside(points: Seq<Point>, clockwise: bool, x: int, y: int)
    requires
        convex_outline(points, clockwise),
        in_fan(points, x, y),
    ensures
        inside_outline(points, clockwise, x, y),
{
    let i = choose|i: int| 1 <= i < points.len() - 1 && #[trigger] in_triangle(points[0], points[i], points[i + 1], x, y);
    let (a, b, c) = (points[0], points[i], points[i + 1]);
    assert forall|j: int| 0 <= j < points.len() implies on_inner_side(#[trigger] outline_side(points, j, x, y), clockwise) by {
        let e = points[j];
        let f = points[(j + 1) % (points.len() as int)];
        assert(on_inner_side(vertex_side(points, j, 0), clockwise));
        assert(on_inner_side(vertex_side(points, j, i), clockwise));
        assert(on_inner_side(vertex_side(points, j, i + 1), clockwise));
        if clockwise {
            lemma_edge_swap(e, f, a.x as int, a.y as int);
            lemma_edge_swap(e, f, b.x as int, b.y as int);
            lemma_edge_swap(e, f, c.x as int, c.y as int);
            lemma_edge_swap(e, f, x, y);
            lemma_edge_keeps_sign(f, e, a, b, c, x, y);
        } else {
            lemma_edge_keeps_sign(e, f, a, b, c, x, y);
        }
    }
}

/// A value strictly on the inner side of an edge.
pub open spec fn strictly_inner(v: int, clockwise: bool) -> bool {
    if clockwise { v < 0 } else { v > 0 }
}

/// Every vertex off an outline edge lies strictly on its inner side: the outline bounds
/// a strictly convex region, listed in one winding.
pub open spec fn strictly_convex_outline(points: Seq<Point>, clockwise: bool) -> bool {
    forall|j: int, k: int|
        0 <= j < points.len() && 0 <= k < points.len() && k != j && k != (j + 1) % (points.len() as int)
            ==> strictly_inner(#[trigger] vertex_side(points, j, k), clockwise)
}

/// The test value of `(x, y)` against the diagonal from the first point to point `i`.
pub open spec fn fan_side(points: Seq<Point>, i: int, x: int, y: int) -> int {
    edge_at(points[0], points[i], x, y)
}

/// Turning the vertices of a triangle round keeps its area.
proof fn lemma_area_rotate(a: Point, b: Point, c: Point)
    ensures
        edge_at(b, c, a.x as int, a.y as int) == edge_at(a, b, c.x as int, c.y as int),
{
    let (ax, ay, bx, by, cx, cy) = (a.x as int, a.y as int, b.x as int, b.y as int, c.x as int, c.y as int);
    assert(edge_at(b, c, ax, ay) == edge_at(a, b, cx, cy)) by (nonlinear_arith)
        requires
            edge_at(b, c, ax, ay) == (ax - bx) * (cy - by) - (ay - by) * (cx - bx),
            edge_at(a, b, cx, cy) == (cx - ax) * (by - ay) - (cy - ay) * (bx - ax);
}

/// Going round the diagonals from the first point, the side of `(x, y)` changes from
/// inner to outer somewhere between `lo` and the last point.
proof fn lemma_fan_crossing(points: Seq<Point>, clockwise: bool, x: int, y: int, lo: int)
    requires
        1 <= lo < points.len() - 1,
        on_inner_side(fan_side(points, lo, x, y), clockwise),
        on_inner_side(-fan_side(points, points.len() - 1, x, y), clockwise),
    ensures
        exists|i: int| lo <= i < points.len() - 1
            && on_inner_side(#[trigger] fan_side(points, i, x, y), clockwise)
            && on_inner_side(-fan_side(points, i + 1, x, y), clockwise),
    decreases points.len() - lo,
{
    if on_inner_side(-fan_side(points, lo + 1, x, y), clockwise) {
        assert(on_inner_side(fan_side(points, lo, x, y), clockwise));
    } else {
        lemma_fan_crossing(points, clockwise, x, y, lo + 1);
        let i = choose|i: int| lo + 1 <= i < points.len() - 1
            && on_inner_side(#[trigger] fan_side(points, i, x, y), clockwise)
            && on_inner_side(-fan_side(points, i + 1, x, y), clockwise);
        assert(on_inner_side(fan_side(points, i, x, y), clockwise));
    }
}

/// `fill_polygon` leaves no pixel of a strictly convex polygon unpainted: each pixel on
/// the inner side of every outline edge, or on it, lies in one triangle of the fan, in
/// either winding.
pub proof fn law_polygon_fan_covers_inside(points: Seq<Point>, clockwise: bool, x: int, y: int)
    requires
        points.len() >= 3,
        strictly_convex_outline(points, clockwise),
        inside_outline(points, clockwise, x, y),
    ensures
        in_fan(points, x, y),
{
    let n = points.len() as int;
    let last = n - 1;
    assert(on_inner_side(outline_side(points, 0, x, y), clockwise));
    vstd::arithmetic::div_mod::lemma_small_mod(1, n as nat);
    assert(on_inner_side(outline_side(points, last, x, y), clockwise));
    vstd::arithmetic::div_mod::lemma_mod_self_0(n);
    assert((last + 1) % n == 0);
    lemma_edge_swap(points[last], points[0], x, y);
    lemma_fan_crossing(points, clockwise, x, y, 1);
    let i = choose|i: int| 1 <= i < n - 1
        && on_inner_side(#[trigger] fan_side(points, i, x, y), clockwise)
        && on_inner_side(-fan_side(points, i + 1, x, y), clockwise);
    let (a, b, c) = (points[0], points[i], points[i + 1]);
    assert(on_inner_side(outline_side(points, i, x, y), clockwise));
    vstd::arithmetic::div_mod::lemma_small_mod((i + 1) as nat, n as nat);
    lemma_edge_swap(a, c, x, y);
    assert(strictly_inner(vertex_side(points, i, 0), clockwise));
    lemma_area_rotate(a, b, c);
    assert(inside_edges(a, b, c, x, y));
    law_triangle_box_adds_nothing(a, b, c, x, y);
    assert(in_triangle(points[0], points[i], points[i + 1], x, y));
}

/// A strictly convex outline is a convex one: each edge passes through its own ends.
proof fn lemma_strictly_convex_is_convex(points: Seq<Point>, clockwise: bool)
    requires
        points.len() >= 3,
        strictly_convex_outline(points, clockwise),
    ensures
        convex_outline(points, clockwise),
{
    let n = points.len() as int;
    assert forall|j: int, k: int| 0 <= j < n && 0 <= k < n
        implies on_inner_side(#[trigger] vertex_side(points, j, k), clockwise) by {
        let e = points[j];
        let f = points[(j + 1) % n];
        let (ex, ey, fx, fy) = (e.x as int, e.y as int, f.x as int, f.y as int);
        if k == j {
            assert(edge_at(e, f, ex, ey) == 0) by (nonlinear_arith)
                requires edge_at(e, f, ex, ey) == (ex - ex) * (fy - ey) - (ey - ey) * (fx - ex);
        } else if k == (j + 1) % n {
            assert(edge_at(e, f, fx, fy) == 0) by (nonlinear_arith)
                requires edge_at(e, f, fx, fy) == (fx - ex) * (fy - ey) - (fy - ey) * (fx - ex);
        }
    }
}

/// `fill_polygon` on a strictly convex polygon paints exactly the pixels on the inner
/// side of every outline edge or on it, in either winding, and leaves the rest as it was.
pub proof fn law_fill_polygon_is_the_polygon(frame: Frame, color: Color, points: Seq<Point>, clockwise: bool)
    requires
        points.len() >= 3,
        strictly_convex_outline(points, clockwise),
    ensures
        painted(frame, color, |x: int, y: int| in_fan(points, x, y))
            == painted(frame, color, |x: int, y: int| inside_outline(points, clockwise, x, y)),
{
    lemma_strictly_convex_is_convex(points, clockwise);
    assert forall|x: int, y: int| (in_fan(points, x, y) <==> inside_outline(points, clockwise, x, y)) by {
        if in_fan(points, x, y) {
            law_polygon_fan_stays_inside(points, clockwise, x, y);
        }
        if inside_outline(points, clockwise, x, y) {
            law_polygon_fan_covers_inside(points, clockwise, x, y);
        }
    }
    lemma_paint_agree(frame.pixels, frame.width, frame.height, color,
        |x: int, y: int| in_fan(points, x, y), |x: int, y: int| inside_outline(points, clockwise, x, y));
}

} // verus!
