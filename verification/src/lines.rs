//! The shape of the lines the painter draws: from the start to the end, one pixel
//! per step along the longer axis, each pixel touching the one before it.
use vstd::prelude::*;
use crate::canvas::{Point, line_walk, line_points, abs};

verus! {

pub open spec fn max2(a: int, b: int) -> int {
    if a >= b { a } else { b }
}

/// The walk from `(x, y)`, `rx` steps short of `x1` and `ry` short of `y1` along the
/// step signs, on a line spanning `big_dx` by `big_dy`, is `rx + 1` (or `ry + 1`)
/// pixels long, starts at `(x, y)`, ends at `(x1, y1)` and moves at most one pixel
/// along each axis at a time.
proof fn lemma_walk(x: int, y: int, x1: int, y1: int, sx: int, sy: int, big_dx: int, big_dy: int,
    err: int, rx: int, ry: int, fuel: nat)
    requires
        sx == 1 || sx == -1,
        sy == 1 || sy == -1,
        x1 - x == sx * rx,
        y1 - y == sy * ry,
        0 <= rx <= big_dx,
        0 <= ry <= big_dy,
        err == big_dx * (1 + big_dy - ry) - big_dy * (1 + big_dx - rx),
        big_dx >= big_dy ==> 2 * err >= -big_dy,
        big_dx < big_dy ==> 2 * err <= big_dx,
        fuel >= rx + ry + 1,
    ensures
        ({
            let w = line_walk(x, y, x1, y1, sx, sy, big_dx, -big_dy, err, fuel);
            &&& w.len() == (if big_dx >= big_dy { rx } else { ry }) + 1
            &&& w[0] == (x, y)
            &&& w[w.len() - 1] == (x1, y1)
            &&& forall|i: int| 0 <= i < w.len() - 1 ==> abs(#[trigger] w[i + 1].0 - w[i].0) <= 1
                && abs(w[i + 1].1 - w[i].1) <= 1
        }),
    decreases fuel,
{
    let dy = -big_dy;
    let w = line_walk(x, y, x1, y1, sx, sy, big_dx, dy, err, fuel);
    assert(sx * 0 == 0 && sy * 0 == 0);
    if rx == 0 && ry == 0 {
        assert(x == x1 && y == y1) by (nonlinear_arith)
            requires x1 - x == sx * rx, y1 - y == sy * ry, rx == 0, ry == 0;
        assert(w == seq![(x, y)]);
        return;
    }
    // The longer axis still has steps to go.
    if big_dx >= big_dy && rx == 0 {
        assert(err <= -big_dy) by (nonlinear_arith)
            requires err == big_dx * (1 + big_dy - ry) - big_dy * (1 + big_dx - rx), rx == 0, ry >= 1, big_dx >= 0, big_dy >= 0;
        assert(false);
    }
    if big_dx < big_dy && ry == 0 {
        assert(err >= big_dx) by (nonlinear_arith)
            requires err == big_dx * (1 + big_dy - ry) - big_dy * (1 + big_dx - rx), ry == 0, rx >= 1, big_dx >= 0, big_dy >= 0;
        assert(false);
    }
    assert(x != x1 || y != y1) by (nonlinear_arith)
        requires x1 - x == sx * rx, y1 - y == sy * ry, rx > 0 || ry > 0, sx == 1 || sx == -1, sy == 1 || sy == -1;
    let e2 = 2 * err;
    let move_x = e2 >= dy;
    let move_y = e2 <= big_dx;
    // An axis moves only while it has steps left.
    if move_x && rx == 0 {
        assert(err <= -big_dy) by (nonlinear_arith)
            requires err == big_dx * (1 + big_dy - ry) - big_dy * (1 + big_dx - rx), rx == 0, ry >= 1, big_dx >= 0, big_dy >= 0;
    }
    if move_y && ry == 0 {
        assert(err >= big_dx) by (nonlinear_arith)
            requires err == big_dx * (1 + big_dy - ry) - big_dy * (1 + big_dx - rx), ry == 0, rx >= 1, big_dx >= 0, big_dy >= 0;
    }
    let nx = if move_x { x + sx } else { x };
    let err2 = if move_x { err + dy } else { err };
    let ny = if move_y { y + sy } else { y };
    let err3 = if move_y { err2 + big_dx } else { err2 };
    let nrx = if move_x { rx - 1 } else { rx };
    let nry = if move_y { ry - 1 } else { ry };
    assert(x1 - nx == sx * nrx) by (nonlinear_arith)
        requires x1 - x == sx * rx, nx == (if move_x { x + sx } else { x }), nrx == (if move_x { rx - 1 } else { rx }), sx == 1 || sx == -1;
    assert(y1 - ny == sy * nry) by (nonlinear_arith)
        requires y1 - y == sy * ry, ny == (if move_y { y + sy } else { y }), nry == (if move_y { ry - 1 } else { ry }), sy == 1 || sy == -1;
    assert(err3 == big_dx * (1 + big_dy - nry) - big_dy * (1 + big_dx - nrx)) by (nonlinear_arith)
        requires
            err == big_dx * (1 + big_dy - ry) - big_dy * (1 + big_dx - rx),
            err3 == err + (if move_x { -big_dy } else { 0 }) + (if move_y { big_dx } else { 0 }),
            nrx == (if move_x { rx - 1 } else { rx }),
            nry == (if move_y { ry - 1 } else { ry });
    assert(move_x || move_y);
    assert(big_dx >= big_dy ==> move_x);
    assert(big_dx < big_dy ==> move_y);
    let rest = line_walk(nx, ny, x1, y1, sx, sy, big_dx, dy, err3, (fuel - 1) as nat);
    lemma_walk(nx, ny, x1, y1, sx, sy, big_dx, big_dy, err3, nrx, nry, (fuel - 1) as nat);
    assert(w == seq![(x, y)].add(rest));
    assert forall|i: int| 0 <= i < w.len() - 1 implies abs(#[trigger] w[i + 1].0 - w[i].0) <= 1
        && abs(w[i + 1].1 - w[i].1) <= 1 by {
        if i > 0 {
            assert(w[i] == rest[i - 1]);
            assert(w[i + 1] == rest[(i - 1) + 1]);
        } else {
            assert(w[1] == rest[0]);
        }
    }
}

/// A line is drawn from its start to its end, one pixel for each step along the longer
/// axis plus one, each pixel touching the one before it.
pub proof fn law_line_shape(start: Point, end: Point)
    ensures
        ({
            let pts = line_points(start, end);
            &&& pts.len() == max2(abs(end.x - start.x), abs(end.y - start.y)) + 1
            &&& pts[0] == (start.x as int, start.y as int)
            &&& pts[pts.len() - 1] == (end.x as int, end.y as int)
            &&& forall|i: int| 0 <= i < pts.len() - 1 ==> abs(#[trigger] pts[i + 1].0 - pts[i].0) <= 1
                && abs(pts[i + 1].1 - pts[i].1) <= 1
        }),
{
    let big_dx = abs(end.x - start.x);
    let big_dy = abs(end.y - start.y);
    let sx = if start.x < end.x { 1int } else { -1int };
    let sy = if start.y < end.y { 1int } else { -1int };
    if start.x < end.x {
        assert(end.x - start.x == sx * big_dx);
    } else {
        assert(sx * big_dx == -big_dx) by (nonlinear_arith)
            requires sx == -1;
    }
    if start.y < end.y {
        assert(end.y - start.y == sy * big_dy);
    } else {
        assert(sy * big_dy == -big_dy) by (nonlinear_arith)
            requires sy == -1;
    }
    assert(big_dx - big_dy == big_dx * (1 + big_dy - big_dy) - big_dy * (1 + big_dx - big_dx)) by (nonlinear_arith);
    lemma_walk(start.x as int, start.y as int, end.x as int, end.y as int, sx, sy, big_dx, big_dy,
        big_dx + -big_dy, big_dx, big_dy, (big_dx - -big_dy + 1) as nat);
}

} // verus!
