//! A 32-bit BGRX framebuffer canvas: pixels, filled triangles and polygons,
//! and Bresenham lines.
use vstd::prelude::*;
use vstd::arithmetic::div_mod::lemma_fundamental_div_mod_converse;

verus! {

/// An RGB color; the framebuffer stores it as the bytes B, G, R, 0xff.
#[derive(Clone, Copy, PartialEq, Eq, Structural)]
pub struct Color {
    pub r: u8,
    pub g: u8,
    pub b: u8,
}

impl Color {
    pub fn rgb(r: u8, g: u8, b: u8) -> (c: Color)
        ensures
            c == (Color { r, g, b }),
    {
        Color { r, g, b }
    }
}

/// A pixel position; either coordinate may lie off screen.
#[derive(Clone, Copy, PartialEq, Eq, Structural)]
pub struct Point {
    pub x: i32,
    pub y: i32,
}

impl Point {
    pub fn new(x: i32, y: i32) -> (p: Point)
        ensures
            p == (Point { x, y }),
    {
        Point { x, y }
    }
}

/// The contents and the geometry of a canvas.
pub struct Frame {
    pub pixels: Seq<u8>,
    pub width: int,
    pub height: int,
}

/// The byte that channel `k` (0 = blue, 1 = green, 2 = red, 3 = padding) of a pixel of
/// color `c` holds.
pub open spec fn channel(c: Color, k: int) -> u8 {
    if k == 0 {
        c.b
    } else if k == 1 {
        c.g
    } else if k == 2 {
        c.r
    } else {
        0xffu8
    }
}

/// Pixel `(x, y)` is inside the screen and all four of its bytes inside the buffer.
pub open spec fn on_screen(len: int, width: int, height: int, x: int, y: int) -> bool {
    &&& 0 <= x < width
    &&& 0 <= y < height
    &&& (y * width + x) * 4 + 3 < len
}

/// Column of the pixel that byte `i` belongs to.
pub open spec fn col_of(width: int, i: int) -> int {
    (i / 4) % width
}

/// Row of the pixel that byte `i` belongs to.
pub open spec fn row_of(width: int, i: int) -> int {
    (i / 4) / width
}

/// `pixels` with every on-screen pixel that `covered` holds for set to `color`.
pub open spec fn paint(pixels: Seq<u8>, width: int, height: int, color: Color, covered: spec_fn(int, int) -> bool) -> Seq<u8> {
    Seq::new(
        pixels.len(),
        |i: int|
            if width > 0 && on_screen(pixels.len() as int, width, height, col_of(width, i), row_of(width, i))
                && covered(col_of(width, i), row_of(width, i)) {
                channel(color, i % 4)
            } else {
                pixels[i]
            },
    )
}

/// Both sides fit in an `i32`, the type of pixel coordinates.
pub open spec fn fits(frame: Frame) -> bool {
    0 <= frame.width <= i32::MAX && 0 <= frame.height <= i32::MAX
}

/// `frame` with the pixels that `covered` holds for set to `color`.
pub open spec fn painted(frame: Frame, color: Color, covered: spec_fn(int, int) -> bool) -> Frame {
    Frame { pixels: paint(frame.pixels, frame.width, frame.height, color, covered), ..frame }
}

/// Byte `i` belongs to pixel `(x, y)` exactly when it lies in that pixel's four bytes.
pub proof fn lemma_byte_pixel(width: int, x: int, y: int, i: int)
    requires
        0 <= x < width,
        0 <= y,
        0 <= i,
    ensures
        (col_of(width, i) == x && row_of(width, i) == y) <==> ((y * width + x) * 4 <= i < (y * width + x) * 4 + 4),
        (y * width + x) * 4 <= i < (y * width + x) * 4 + 4 ==> i % 4 == i - (y * width + x) * 4,
{
    let q = y * width + x;
    assert(q >= 0) by (nonlinear_arith)
        requires
            0 <= x < width,
            0 <= y,
            q == y * width + x,
    ;
    if q * 4 <= i < q * 4 + 4 {
        lemma_fundamental_div_mod_converse(i, 4, q, i - q * 4);
        lemma_fundamental_div_mod_converse(q, width, y, x);
    }
    if col_of(width, i) == x && row_of(width, i) == y {
        let p = i / 4;
        vstd::arithmetic::div_mod::lemma_fundamental_div_mod(p, width);
        vstd::arithmetic::div_mod::lemma_fundamental_div_mod(i, 4);
        assert(p == width * y + x);
        assert(p == q) by (nonlinear_arith)
            requires
                p == width * y + x,
                q == y * width + x,
        ;
    }
}

/// Painting twice in one color is painting once what either region covers.
pub proof fn lemma_paint_twice(pixels: Seq<u8>, width: int, height: int, color: Color, a: spec_fn(int, int) -> bool, b: spec_fn(int, int) -> bool)
    ensures
        paint(paint(pixels, width, height, color, a), width, height, color, b)
            == paint(pixels, width, height, color, |x: int, y: int| a(x, y) || b(x, y)),
{
    assert(paint(paint(pixels, width, height, color, a), width, height, color, b)
        =~= paint(pixels, width, height, color, |x: int, y: int| a(x, y) || b(x, y)));
}

/// Two regions that agree on every on-screen pixel paint the same.
pub proof fn lemma_paint_agree(pixels: Seq<u8>, width: int, height: int, color: Color, a: spec_fn(int, int) -> bool, b: spec_fn(int, int) -> bool)
    requires
        forall|x: int, y: int| #![trigger a(x, y)] #![trigger b(x, y)]
            on_screen(pixels.len() as int, width, height, x, y) ==> (a(x, y) <==> b(x, y)),
    ensures
        paint(pixels, width, height, color, a) == paint(pixels, width, height, color, b),
{
    assert(paint(pixels, width, height, color, a) =~= paint(pixels, width, height, color, b));
}

/// A region no on-screen pixel lies in paints nothing.
pub proof fn lemma_paint_nothing(pixels: Seq<u8>, width: int, height: int, color: Color, a: spec_fn(int, int) -> bool)
    requires
        forall|x: int, y: int| #![trigger a(x, y)] on_screen(pixels.len() as int, width, height, x, y) ==> !a(x, y),
    ensures
        paint(pixels, width, height, color, a) == pixels,
{
    assert(paint(pixels, width, height, color, a) =~= pixels);
}

pub open spec fn min3(a: int, b: int, c: int) -> int {
    if a <= b && a <= c { a } else if b <= c { b } else { c }
}

pub open spec fn max3(a: int, b: int, c: int) -> int {
    if a >= b && a >= c { a } else if b >= c { b } else { c }
}

/// Twice the signed area of the triangle `a`, `b`, `(x, y)`: positive on one side of
/// the line from `a` to `b`, negative on the other, zero on it.
pub open spec fn edge_at(a: Point, b: Point, x: int, y: int) -> int {
    (x - a.x) * (b.y - a.y) - (y - a.y) * (b.x - a.x)
}

/// Pixel `(x, y)` lies in the bounding box of the triangle `a`, `b`, `c` and on the
/// inner side of its three edges (edges included); a degenerate triangle covers nothing.
pub open spec fn in_triangle(a: Point, b: Point, c: Point, x: int, y: int) -> bool {
    let area = edge_at(a, b, c.x as int, c.y as int);
    let w0 = edge_at(b, c, x, y);
    let w1 = edge_at(c, a, x, y);
    let w2 = edge_at(a, b, x, y);
    &&& area != 0
    &&& min3(a.x as int, b.x as int, c.x as int) <= x <= max3(a.x as int, b.x as int, c.x as int)
    &&& min3(a.y as int, b.y as int, c.y as int) <= y <= max3(a.y as int, b.y as int, c.y as int)
    &&& ((area > 0 && w0 >= 0 && w1 >= 0 && w2 >= 0) || (area < 0 && w0 <= 0 && w1 <= 0 && w2 <= 0))
}

/// The triangle spans at most `i32::MAX` in each direction, so differences of points
/// inside its bounding box fit in an `i32`.
pub open spec fn spans_fit(a: Point, b: Point, c: Point) -> bool {
    &&& max3(a.x as int, b.x as int, c.x as int) - min3(a.x as int, b.x as int, c.x as int) <= i32::MAX
    &&& max3(a.y as int, b.y as int, c.y as int) - min3(a.y as int, b.y as int, c.y as int) <= i32::MAX
}

pub open spec fn fits_i32(v: int) -> bool {
    i32::MIN <= v <= i32::MAX
}

/// Twice the signed area of the triangle `a`, `b`, `p`.
pub fn edge(a: Point, b: Point, p: Point) -> (r: i64)
    requires
        fits_i32(p.x - a.x),
        fits_i32(b.y - a.y),
        fits_i32(p.y - a.y),
        fits_i32(b.x - a.x),
    ensures
        r == edge_at(a, b, p.x as int, p.y as int),
{
    let d0 = (p.x - a.x) as i64;
    let d1 = (b.y - a.y) as i64;
    let d2 = (p.y - a.y) as i64;
    let d3 = (b.x - a.x) as i64;
    proof {
        assert(-0x4000_0000_0000_0000 <= d0 * d1 <= 0x4000_0000_0000_0000) by (nonlinear_arith)
            requires
                -0x8000_0000 <= d0 <= 0x7fff_ffff,
                -0x8000_0000 <= d1 <= 0x7fff_ffff,
        ;
        assert(-0x4000_0000_0000_0000 + 0x8000_0000 <= d2 * d3 <= 0x4000_0000_0000_0000) by (nonlinear_arith)
            requires
                -0x8000_0000 <= d2 <= 0x7fff_ffff,
                -0x8000_0000 <= d3 <= 0x7fff_ffff,
        ;
        assert(-0x4000_0000_0000_0000 + 0x8000_0000 <= d0 * d1) by (nonlinear_arith)
            requires
                -0x8000_0000 <= d0 <= 0x7fff_ffff,
                -0x8000_0000 <= d1 <= 0x7fff_ffff,
        ;
    }
    d0 * d1 - d2 * d3
}

fn min_i32(a: i32, b: i32) -> (r: i32)
    ensures
        r == (if a <= b { a } else { b }),
{
    if a <= b { a } else { b }
}

fn max_i32(a: i32, b: i32) -> (r: i32)
    ensures
        r == (if a >= b { a } else { b }),
{
    if a >= b { a } else { b }
}

pub open spec fn abs(v: int) -> int {
    if v < 0 { -v } else { v }
}

/// The pixels Bresenham's walk visits from `(x, y)` to `(x1, y1)` with step signs
/// `sx`, `sy`, spans `dx` (>= 0) and `dy` (<= 0) and error term `err`, for at most `fuel` pixels.
pub open spec fn line_walk(x: int, y: int, x1: int, y1: int, sx: int, sy: int, dx: int, dy: int, err: int, fuel: nat) -> Seq<(int, int)>
    decreases fuel,
{
    if fuel == 0 {
        Seq::empty()
    } else if x == x1 && y == y1 {
        seq![(x, y)]
    } else {
        let e2 = 2 * err;
        let nx = if e2 >= dy { x + sx } else { x };
        let err2 = if e2 >= dy { err + dy } else { err };
        let ny = if e2 <= dx { y + sy } else { y };
        let err3 = if e2 <= dx { err2 + dx } else { err2 };
        seq![(x, y)].add(line_walk(nx, ny, x1, y1, sx, sy, dx, dy, err3, (fuel - 1) as nat))
    }
}

/// The pixels of the line from `start` to `end`, in drawing order.
pub open spec fn line_points(start: Point, end: Point) -> Seq<(int, int)> {
    let dx = abs(end.x - start.x);
    let sx = if start.x < end.x { 1int } else { -1int };
    let dy = -abs(end.y - start.y);
    let sy = if start.y < end.y { 1int } else { -1int };
    line_walk(start.x as int, start.y as int, end.x as int, end.y as int, sx, sy, dx, dy, dx + dy, (dx - dy + 1) as nat)
}

/// Pixel `(x, y)` is on the line from `start` to `end`.
pub open spec fn on_line(start: Point, end: Point, x: int, y: int) -> bool {
    line_points(start, end).contains((x, y))
}

/// Both coordinate differences of the segment fit in an `i32` and have an absolute
/// value that does too.
pub open spec fn segment_fits(start: Point, end: Point) -> bool {
    &&& i32::MIN < end.x - start.x <= i32::MAX
    &&& i32::MIN < end.y - start.y <= i32::MAX
}

/// Point `i` of `points` with the one after it, the last one wrapping to the first.
pub open spec fn on_outline(points: Seq<Point>, x: int, y: int) -> bool {
    exists|i: int| 0 <= i < points.len() && #[trigger] on_line(points[i], points[(i + 1) % (points.len() as int)], x, y)
}

/// Pixel `(x, y)` lies in one of the triangles `points[0], points[i], points[i + 1]`.
pub open spec fn in_fan(points: Seq<Point>, x: int, y: int) -> bool {
    exists|i: int| 1 <= i < points.len() - 1 && #[trigger] in_triangle(points[0], points[i], points[i + 1], x, y)
}

pub open spec fn fan_fits(points: Seq<Point>) -> bool {
    forall|i: int| 1 <= i < points.len() - 1 ==> #[trigger] spans_fit(points[0], points[i], points[i + 1])
}

pub open spec fn outline_fits(points: Seq<Point>) -> bool {
    forall|i: int| 0 <= i < points.len() ==> #[trigger] segment_fits(points[i], points[(i + 1) % (points.len() as int)])
}

/// A framebuffer of `width` by `height` pixels, four bytes each, row after row.
pub struct Canvas {
    framebuffer: Vec<u8>,
    width: usize,
    height: usize,
}

impl View for Canvas {
    type V = Frame;

    closed spec fn view(&self) -> Frame {
        Frame { pixels: self.framebuffer@, width: self.width as int, height: self.height as int }
    }
}

impl Canvas {
    pub fn new(framebuffer: Vec<u8>, width: usize, height: usize) -> (c: Canvas)
        requires
            width <= i32::MAX,
            height <= i32::MAX,
        ensures
            c@ == (Frame { pixels: framebuffer@, width: width as int, height: height as int }),
            fits(c@),
    {
        Canvas { framebuffer, width, height }
    }

    /// Gives the framebuffer back.
    pub fn into_framebuffer(self) -> (fb: Vec<u8>)
        ensures
            fb@ == self@.pixels,
    {
        self.framebuffer
    }

    pub fn width(&self) -> (w: usize)
        ensures
            w == self@.width,
    {
        self.width
    }

    pub fn height(&self) -> (h: usize)
        ensures
            h == self@.height,
    {
        self.height
    }

    /// Sets pixel `(x, y)` to `color`; does nothing off screen.
    pub fn put_pixel(&mut self, x: i32, y: i32, color: Color)
        requires
            fits(old(self)@),
        ensures
            final(self)@ == painted(old(self)@, color, |px: int, py: int| px == x && py == y),
    {
        let ghost old_frame = self@;
        let ghost covered = |px: int, py: int| px == x && py == y;
        if x < 0 || y < 0 || x >= self.width as i32 || y >= self.height as i32 {
            proof {
                lemma_paint_nothing(old_frame.pixels, old_frame.width, old_frame.height, color, covered);
            }
            return;
        }
        let ghost w = self.width as int;
        proof {
            assert((self.width as i32) as int == w);
            assert(0 <= x < w);
            assert(0 <= y < self.height);
            assert(0 <= (y as int) * w + (x as int) && ((y as int) * w + (x as int)) * 4 + 3 < 0x1_0000_0000_0000_0000) by (nonlinear_arith)
                requires
                    0 <= x < w,
                    0 <= y < i32::MAX,
                    w <= i32::MAX,
            ;
        }
        let index: u64 = (y as u64 * self.width as u64 + x as u64) * 4;
        if index + 3 >= self.framebuffer.len() as u64 {
            proof {
                lemma_paint_nothing(old_frame.pixels, old_frame.width, old_frame.height, color, covered);
            }
            return;
        }
        let i = index as usize;
        self.framebuffer.set(i, color.b);
        self.framebuffer.set(i + 1, color.g);
        self.framebuffer.set(i + 2, color.r);
        self.framebuffer.set(i + 3, 0xff);
        proof {
            let p = paint(old_frame.pixels, w, old_frame.height, color, covered);
            assert forall|j: int| 0 <= j < p.len() implies #[trigger] p[j] == self.framebuffer@[j] by {
                lemma_byte_pixel(w, x as int, y as int, j);
            }
            assert(self.framebuffer@ =~= p);
        }
    }

    /// Sets every pixel of the screen that the buffer holds to `color`.
    pub fn clear(&mut self, color: Color)
        requires
            fits(old(self)@),
        ensures
            final(self)@ == painted(old(self)@, color, |px: int, py: int| true),
    {
        let ghost old_frame = self@;
        let ghost w = self.width as int;
        let ghost h = self.height as int;
        let ghost len = self.framebuffer@.len() as int;
        let area = match self.width.checked_mul(self.height) {
            Some(a) => a,
            None => usize::MAX,
        };
        let total_len = self.framebuffer.len();
        let quarter = total_len / 4;
        let pixels = if area < quarter { area } else { quarter };
        let mut index: usize = 0;
        while index < pixels
            invariant
                self.width as int == w,
                self.height as int == h,
                self.framebuffer@.len() == len,
                old_frame.pixels.len() == len,
                old_frame.width == w,
                old_frame.height == h,
                pixels <= quarter,
                quarter == len / 4,
                len == total_len,
                pixels <= area,
                area == (if w * h <= usize::MAX { w * h } else { usize::MAX as int }),
                index <= pixels,
                self.framebuffer@ == paint(old_frame.pixels, w, h, color, |px: int, py: int| py * w + px < index),
            decreases pixels - index,
        {
            proof {
                assert(index * 4 + 3 < len) by (nonlinear_arith)
                    requires
                        index < pixels,
                        pixels <= quarter,
                        quarter == len / 4,
                        len >= 0,
                ;
            }
            let base = index * 4;
            let ghost before = self.framebuffer@;
            self.framebuffer.set(base, color.b);
            self.framebuffer.set(base + 1, color.g);
            self.framebuffer.set(base + 2, color.r);
            self.framebuffer.set(base + 3, 0xff);
            proof {
                assert(w > 0) by (nonlinear_arith)
                    requires
                        index < area,
                        area == (if w * h <= usize::MAX { w * h } else { usize::MAX as int }),
                        w >= 0,
                        h >= 0,
                ;
                let x = (index as int) % w;
                let y = (index as int) / w;
                vstd::arithmetic::div_mod::lemma_fundamental_div_mod(index as int, w);
                assert(y * w + x == index) by (nonlinear_arith)
                    requires
                        index as int == w * y + x,
                ;
                assert(y < h) by (nonlinear_arith)
                    requires
                        index < area,
                        area == (if w * h <= usize::MAX { w * h } else { usize::MAX as int }),
                        index as int == y * w + x,
                        0 <= x < w,
                        y >= 0,
                        index < usize::MAX,
                ;
                let next = paint(old_frame.pixels, w, h, color, |px: int, py: int| py * w + px < index + 1);
                assert forall|j: int| 0 <= j < len implies #[trigger] next[j] == self.framebuffer@[j] by {
                    lemma_byte_pixel(w, x, y, j);
                    lemma_pixel_number(w, j);
                }
                assert(self.framebuffer@ =~= next);
            }
            index = index + 1;
        }
        proof {
            let a = |px: int, py: int| py * w + px < index;
            let b = |px: int, py: int| true;
            assert forall|px: int, py: int| on_screen(len, w, h, px, py) implies (a(px, py) <==> b(px, py)) by {
                assert(py * w + px < w * h) by (nonlinear_arith)
                    requires
                        0 <= px < w,
                        0 <= py < h,
                ;
                assert(py * w + px < len / 4) by (nonlinear_arith)
                    requires
                        (py * w + px) * 4 + 3 < len,
                ;
            }
            lemma_paint_agree(old_frame.pixels, w, h, color, a, b);
        }
    }

    /// Fills the triangle `a`, `b`, `c` (edges included) with `color`, scanning its
    /// bounding box clipped to the screen.
    pub fn fill_triangle(&mut self, a: Point, b: Point, c: Point, color: Color)
        requires
            fits(old(self)@),
            spans_fit(a, b, c),
        ensures
            final(self)@ == painted(old(self)@, color, |px: int, py: int| in_triangle(a, b, c, px, py)),
    {
        let ghost old_frame = self@;
        let ghost w = old_frame.width;
        let ghost h = old_frame.height;
        let ghost len = old_frame.pixels.len() as int;
        let ghost tri = |px: int, py: int| in_triangle(a, b, c, px, py);
        let min_x = max_i32(0, min_i32(a.x, min_i32(b.x, c.x)));
        let max_x = min_i32(self.width as i32 - 1, max_i32(a.x, max_i32(b.x, c.x)));
        let min_y = max_i32(0, min_i32(a.y, min_i32(b.y, c.y)));
        let max_y = min_i32(self.height as i32 - 1, max_i32(a.y, max_i32(b.y, c.y)));
        let area = edge(a, b, c);
        if area == 0 {
            proof {
                lemma_paint_nothing(old_frame.pixels, w, h, color, tri);
            }
            return;
        }
        proof {
            let first = |px: int, py: int| in_triangle(a, b, c, px, py) && py < min_y;
            lemma_paint_nothing(old_frame.pixels, w, h, color, first);
            assert(self@.pixels == paint(old_frame.pixels, w, h, color, first));
        }
        let mut y = min_y;
        while y <= max_y
            invariant
                fits(old_frame),
                self@.width == w,
                self@.height == h,
                w == self.width,
                h == self.height,
                old_frame.width == w,
                old_frame.height == h,
                old_frame.pixels.len() == len,
                spans_fit(a, b, c),
                area == edge_at(a, b, c.x as int, c.y as int),
                area != 0,
                min_x == (if 0 >= min3(a.x as int, b.x as int, c.x as int) { 0 } else { min3(a.x as int, b.x as int, c.x as int) }),
                max_x == (if w - 1 <= max3(a.x as int, b.x as int, c.x as int) { w - 1 } else { max3(a.x as int, b.x as int, c.x as int) }),
                min_y == (if 0 >= min3(a.y as int, b.y as int, c.y as int) { 0 } else { min3(a.y as int, b.y as int, c.y as int) }),
                max_y == (if h - 1 <= max3(a.y as int, b.y as int, c.y as int) { h - 1 } else { max3(a.y as int, b.y as int, c.y as int) }),
                min_y <= y <= max_y + 1 || y == min_y,
                self@.pixels == paint(old_frame.pixels, w, h, color, |px: int, py: int| in_triangle(a, b, c, px, py) && py < y),
            decreases max_y + 1 - y,
        {
            let mut x = min_x;
            proof {
                let p1 = |px: int, py: int| in_triangle(a, b, c, px, py) && py < y;
                let p2 = |px: int, py: int| in_triangle(a, b, c, px, py) && (py < y || (py == y && px < x));
                assert forall|px: int, py: int| on_screen(len, w, h, px, py) implies (p1(px, py) <==> p2(px, py)) by {}
                lemma_paint_agree(old_frame.pixels, w, h, color, p1, p2);
            }
            while x <= max_x
                invariant
                    fits(old_frame),
                    self@.width == w,
                    self@.height == h,
                    w == self.width,
                    h == self.height,
                    old_frame.width == w,
                    old_frame.height == h,
                    old_frame.pixels.len() == len,
                    spans_fit(a, b, c),
                    area == edge_at(a, b, c.x as int, c.y as int),
                    area != 0,
                    min_x == (if 0 >= min3(a.x as int, b.x as int, c.x as int) { 0 } else { min3(a.x as int, b.x as int, c.x as int) }),
                    max_x == (if w - 1 <= max3(a.x as int, b.x as int, c.x as int) { w - 1 } else { max3(a.x as int, b.x as int, c.x as int) }),
                    min_y == (if 0 >= min3(a.y as int, b.y as int, c.y as int) { 0 } else { min3(a.y as int, b.y as int, c.y as int) }),
                    max_y == (if h - 1 <= max3(a.y as int, b.y as int, c.y as int) { h - 1 } else { max3(a.y as int, b.y as int, c.y as int) }),
                    min_y <= y <= max_y,
                    min_x <= x <= max_x + 1 || x == min_x,
                    self@.pixels == paint(old_frame.pixels, w, h, color,
                        |px: int, py: int| in_triangle(a, b, c, px, py) && (py < y || (py == y && px < x))),
                decreases max_x + 1 - x,
            {
                let p = Point::new(x, y);
                let w0 = edge(b, c, p);
                let w1 = edge(c, a, p);
                let w2 = edge(a, b, p);
                let ghost cur = |px: int, py: int| in_triangle(a, b, c, px, py) && (py < y || (py == y && px < x));
                let ghost nxt = |px: int, py: int| in_triangle(a, b, c, px, py) && (py < y || (py == y && px < x + 1));
                if (area > 0 && w0 >= 0 && w1 >= 0 && w2 >= 0) || (area < 0 && w0 <= 0 && w1 <= 0 && w2 <= 0) {
                    self.put_pixel(x, y, color);
                    proof {
                        let one = |px: int, py: int| px == x && py == y;
                        lemma_paint_twice(old_frame.pixels, w, h, color, cur, one);
                        let both = |px: int, py: int| cur(px, py) || one(px, py);
                        assert forall|px: int, py: int| on_screen(len, w, h, px, py) implies (both(px, py) <==> nxt(px, py)) by {}
                        lemma_paint_agree(old_frame.pixels, w, h, color, both, nxt);
                    }
                } else {
                    proof {
                        assert forall|px: int, py: int| on_screen(len, w, h, px, py) implies (cur(px, py) <==> nxt(px, py)) by {}
                        lemma_paint_agree(old_frame.pixels, w, h, color, cur, nxt);
                    }
                }
                x = x + 1;
            }
            proof {
                let p1 = |px: int, py: int| in_triangle(a, b, c, px, py) && (py < y || (py == y && px < x));
                let p2 = |px: int, py: int| in_triangle(a, b, c, px, py) && py < y + 1;
                assert forall|px: int, py: int| on_screen(len, w, h, px, py) implies (p1(px, py) <==> p2(px, py)) by {}
                lemma_paint_agree(old_frame.pixels, w, h, color, p1, p2);
            }
            y = y + 1;
        }
        proof {
            let p1 = |px: int, py: int| in_triangle(a, b, c, px, py) && py < y;
            assert forall|px: int, py: int| on_screen(len, w, h, px, py) implies (p1(px, py) <==> tri(px, py)) by {}
            lemma_paint_agree(old_frame.pixels, w, h, color, p1, tri);
        }
    }

    /// Fills the convex polygon `points` as a fan of triangles around `points[0]`;
    /// fewer than three points draw nothing.
    pub fn fill_polygon(&mut self, points: &[Point], color: Color)
        requires
            fits(old(self)@),
            fan_fits(points@),
        ensures
            final(self)@ == painted(old(self)@, color, |px: int, py: int| in_fan(points@, px, py)),
    {
        let ghost old_frame = self@;
        let ghost w = old_frame.width;
        let ghost h = old_frame.height;
        let ghost pts = points@;
        if points.len() < 3 {
            proof {
                lemma_paint_nothing(old_frame.pixels, w, h, color, |px: int, py: int| in_fan(pts, px, py));
            }
            return;
        }
        let last = points.len() - 1;
        let mut index: usize = 1;
        proof {
            lemma_paint_nothing(old_frame.pixels, w, h, color,
                |px: int, py: int| exists|i: int| 1 <= i < 1 && #[trigger] in_triangle(pts[0], pts[i], pts[i + 1], px, py));
        }
        while index < last
            invariant
                fits(old_frame),
                points@ == pts,
                fan_fits(pts),
                last == pts.len() - 1,
                1 <= index <= last,
                self@.width == w,
                self@.height == h,
                old_frame.width == w,
                old_frame.height == h,
                self@.pixels == paint(old_frame.pixels, w, h, color,
                    |px: int, py: int| exists|i: int| 1 <= i < index && #[trigger] in_triangle(pts[0], pts[i], pts[i + 1], px, py)),
            decreases last - index,
        {
            let ghost cur = |px: int, py: int| exists|i: int| 1 <= i < index && #[trigger] in_triangle(pts[0], pts[i], pts[i + 1], px, py);
            let ghost tri = |px: int, py: int| in_triangle(pts[0], pts[index as int], pts[index + 1], px, py);
            let ghost nxt = |px: int, py: int| exists|i: int| 1 <= i < index + 1 && #[trigger] in_triangle(pts[0], pts[i], pts[i + 1], px, py);
            assert(spans_fit(pts[0], pts[index as int], pts[index + 1]));
            self.fill_triangle(points[0], points[index], points[index + 1], color);
            proof {
                lemma_paint_twice(old_frame.pixels, w, h, color, cur, tri);
                let both = |px: int, py: int| cur(px, py) || tri(px, py);
                assert forall|px: int, py: int| #![trigger both(px, py)] #![trigger nxt(px, py)] true implies (both(px, py) <==> nxt(px, py)) by {
                    if nxt(px, py) {
                        let i = choose|i: int| 1 <= i < index + 1 && #[trigger] in_triangle(pts[0], pts[i], pts[i + 1], px, py);
                        if i < index {
                            assert(cur(px, py));
                        }
                    }
                }
                assert(both =~= nxt);
            }
            index = index + 1;
        }
        proof {
            let fin = |px: int, py: int| exists|i: int| 1 <= i < index && #[trigger] in_triangle(pts[0], pts[i], pts[i + 1], px, py);
            let fan = |px: int, py: int| in_fan(pts, px, py);
            assert(fin =~= fan);
        }
    }

    /// Draws the closed outline of `points`, each point joined to the next and the last
    /// to the first.
    pub fn draw_polygon_outline(&mut self, points: &[Point], color: Color)
        requires
            fits(old(self)@),
            outline_fits(points@),
        ensures
            final(self)@ == painted(old(self)@, color, |px: int, py: int| on_outline(points@, px, py)),
    {
        let ghost old_frame = self@;
        let ghost w = old_frame.width;
        let ghost h = old_frame.height;
        let ghost pts = points@;
        let ghost n = pts.len() as int;
        if points.len() == 0 {
            proof {
                lemma_paint_nothing(old_frame.pixels, w, h, color, |px: int, py: int| on_outline(pts, px, py));
            }
            return;
        }
        let mut index: usize = 0;
        proof {
            lemma_paint_nothing(old_frame.pixels, w, h, color,
                |px: int, py: int| exists|i: int| 0 <= i < 0 && #[trigger] on_line(pts[i], pts[(i + 1) % n], px, py));
        }
        while index < points.len()
            invariant
                fits(old_frame),
                points@ == pts,
                n == pts.len(),
                n > 0,
                outline_fits(pts),
                index <= n,
                self@.width == w,
                self@.height == h,
                old_frame.width == w,
                old_frame.height == h,
                self@.pixels == paint(old_frame.pixels, w, h, color,
                    |px: int, py: int| exists|i: int| 0 <= i < index && #[trigger] on_line(pts[i], pts[(i + 1) % n], px, py)),
            decreases n - index,
        {
            let next = (index + 1) % points.len();
            let ghost cur = |px: int, py: int| exists|i: int| 0 <= i < index && #[trigger] on_line(pts[i], pts[(i + 1) % n], px, py);
            let ghost seg = |px: int, py: int| on_line(pts[index as int], pts[next as int], px, py);
            let ghost nxt = |px: int, py: int| exists|i: int| 0 <= i < index + 1 && #[trigger] on_line(pts[i], pts[(i + 1) % n], px, py);
            assert(segment_fits(pts[index as int], pts[(index + 1) % n]));
            self.draw_line(points[index], points[next], color);
            proof {
                lemma_paint_twice(old_frame.pixels, w, h, color, cur, seg);
                let both = |px: int, py: int| cur(px, py) || seg(px, py);
                assert forall|px: int, py: int| #![trigger both(px, py)] #![trigger nxt(px, py)] true implies (both(px, py) <==> nxt(px, py)) by {
                    if nxt(px, py) {
                        let i = choose|i: int| 0 <= i < index + 1 && #[trigger] on_line(pts[i], pts[(i + 1) % n], px, py);
                        if i < index {
                            assert(cur(px, py));
                        }
                    }
                }
                assert(both =~= nxt);
            }
            index = index + 1;
        }
        proof {
            let fin = |px: int, py: int| exists|i: int| 0 <= i < index && #[trigger] on_line(pts[i], pts[(i + 1) % n], px, py);
            let outl = |px: int, py: int| on_outline(pts, px, py);
            assert(fin =~= outl);
        }
    }

    /// Draws the line from `start` to `end` with Bresenham's algorithm; both ends are
    /// drawn and pixels off screen are skipped.
    pub fn draw_line(&mut self, start: Point, end: Point, color: Color)
        requires
            fits(old(self)@),
            segment_fits(start, end),
        ensures
            final(self)@ == painted(old(self)@, color, |px: int, py: int| on_line(start, end, px, py)),
    {
        let ghost old_frame = self@;
        let ghost w = old_frame.width;
        let ghost h = old_frame.height;
        let mut x0 = start.x;
        let mut y0 = start.y;
        let x1 = end.x;
        let y1 = end.y;
        let dx: i32 = if x1 - x0 < 0 { -(x1 - x0) } else { x1 - x0 };
        let sx: i32 = if x0 < x1 { 1 } else { -1 };
        let dy: i32 = if y1 - y0 < 0 { y1 - y0 } else { -(y1 - y0) };
        let sy: i32 = if y0 < y1 { 1 } else { -1 };
        let mut err: i64 = dx as i64 + dy as i64;
        let ghost big_dx = dx as int;
        let ghost big_dy = -(dy as int);
        let ghost total = line_points(start, end);
        let ghost mut visited: Seq<(int, int)> = Seq::empty();
        let ghost mut i: int = 0;
        let ghost mut j: int = 0;
        let ghost mut fuel: nat = (big_dx + big_dy + 1) as nat;
        let mut done = false;
        proof {
            lemma_paint_nothing(old_frame.pixels, w, h, color, |px: int, py: int| visited.contains((px, py)));
            assert(total == visited.add(line_walk(x0 as int, y0 as int, x1 as int, y1 as int, sx as int, sy as int,
                dx as int, dy as int, err as int, fuel)));
        }
        while !done
            invariant
                fits(old_frame),
                self@.width == w,
                self@.height == h,
                old_frame.width == w,
                old_frame.height == h,
                big_dx == dx,
                big_dy == -dy,
                0 <= big_dx <= i32::MAX,
                0 <= big_dy <= i32::MAX,
                big_dx == abs(end.x - start.x),
                big_dy == abs(end.y - start.y),
                sx == (if start.x < end.x { 1int } else { -1int }),
                sy == (if start.y < end.y { 1int } else { -1int }),
                x1 == end.x,
                y1 == end.y,
                total == line_points(start, end),
                0 <= i <= big_dx,
                0 <= j <= big_dy,
                x0 == start.x + sx * i,
                y0 == start.y + sy * j,
                err == big_dx - big_dy - i * big_dy + j * big_dx,
                !done ==> fuel >= (big_dx - i) + (big_dy - j) + 1,
                !done ==> total == visited.add(line_walk(x0 as int, y0 as int, x1 as int, y1 as int, sx as int, sy as int,
                    dx as int, dy as int, err as int, fuel)),
                done ==> total == visited,
                self@.pixels == paint(old_frame.pixels, w, h, color, |px: int, py: int| visited.contains((px, py))),
            decreases (big_dx - i) + (big_dy - j) + (if done { 0int } else { 1int }),
        {
            let ghost prev = visited;
            self.put_pixel(x0, y0, color);
            proof {
                let one = |px: int, py: int| px == x0 && py == y0;
                let cur = |px: int, py: int| prev.contains((px, py));
                lemma_paint_twice(old_frame.pixels, w, h, color, cur, one);
                visited = prev.push((x0 as int, y0 as int));
                let nv = visited;
                let both = |px: int, py: int| cur(px, py) || one(px, py);
                let nxt = |px: int, py: int| nv.contains((px, py));
                assert forall|px: int, py: int| #![trigger both(px, py)] #![trigger nxt(px, py)] true implies (both(px, py) <==> nxt(px, py)) by {
                    if nxt(px, py) {
                        let k = choose|k: int| 0 <= k < nv.len() && nv[k] == (px, py);
                        if k < prev.len() {
                            assert(prev[k] == nv[k]);
                        }
                    }
                    if cur(px, py) {
                        let k = choose|k: int| 0 <= k < prev.len() && prev[k] == (px, py);
                        assert(nv[k] == prev[k]);
                    }
                    if one(px, py) {
                        assert(nv[prev.len() as int] == (px, py));
                    }
                }
                assert(both =~= nxt);
                assert(x0 == x1 <==> i == big_dx) by (nonlinear_arith)
                    requires
                        x0 == start.x + sx * i,
                        x1 == end.x,
                        big_dx == abs(end.x - start.x),
                        sx == (if start.x < end.x { 1int } else { -1int }),
                        0 <= i <= big_dx,
                ;
                assert(y0 == y1 <==> j == big_dy) by (nonlinear_arith)
                    requires
                        y0 == start.y + sy * j,
                        y1 == end.y,
                        big_dy == abs(end.y - start.y),
                        sy == (if start.y < end.y { 1int } else { -1int }),
                        0 <= j <= big_dy,
                ;
            }
            if x0 == x1 && y0 == y1 {
                proof {
                    assert(line_walk(x0 as int, y0 as int, x1 as int, y1 as int, sx as int, sy as int,
                        dx as int, dy as int, err as int, fuel) == seq![(x0 as int, y0 as int)]);
                    assert(total =~= visited);
                }
                done = true;
            } else {
                let ghost old_err = err as int;
                let ghost old_x = x0 as int;
                let ghost old_y = y0 as int;
                let ghost old_fuel = fuel;
                proof {
                    assert(-0x4000_0000_0000_0000 < err < 0x4000_0000_0000_0000) by (nonlinear_arith)
                        requires
                            err == big_dx - big_dy - i * big_dy + j * big_dx,
                            0 <= i <= big_dx <= 0x7fff_ffff,
                            0 <= j <= big_dy <= 0x7fff_ffff,
                    ;
                    if i == big_dx {
                        assert(2 * err < dy) by (nonlinear_arith)
                            requires
                                err == big_dx - big_dy - i * big_dy + j * big_dx,
                                i == big_dx,
                                0 <= j < big_dy,
                                big_dy == -dy,
                                big_dx >= 0,
                        ;
                    }
                    if j == big_dy {
                        assert(2 * err > dx) by (nonlinear_arith)
                            requires
                                err == big_dx - big_dy - i * big_dy + j * big_dx,
                                j == big_dy,
                                0 <= i < big_dx,
                                big_dx == dx,
                                big_dy >= 0,
                        ;
                    }
                }
                let err2 = err * 2;
                if err2 >= dy as i64 {
                    proof {
                        assert(i < big_dx);
                        assert(i32::MIN <= x0 + sx <= i32::MAX) by (nonlinear_arith)
                            requires
                                x0 == start.x + sx * i,
                                0 <= i < big_dx,
                                big_dx == abs(end.x - start.x),
                                sx == (if start.x < end.x { 1int } else { -1int }),
                                i32::MIN <= start.x <= i32::MAX,
                                i32::MIN <= end.x <= i32::MAX,
                        ;
                    }
                    err = err + dy as i64;
                    x0 = x0 + sx;
                    proof {
                        assert(err == big_dx - big_dy - (i + 1) * big_dy + j * big_dx) by (nonlinear_arith)
                            requires
                                err == old_err + dy,
                                old_err == big_dx - big_dy - i * big_dy + j * big_dx,
                                big_dy == -dy,
                        ;
                        i = i + 1;
                        assert(x0 == start.x + sx * i) by (nonlinear_arith)
                            requires
                                x0 == old_x + sx,
                                old_x == start.x + sx * (i - 1),
                        ;
                    }
                }
                if err2 <= dx as i64 {
                    let ghost mid_err = err as int;
                    proof {
                        assert(j < big_dy);
                        assert(i32::MIN <= y0 + sy <= i32::MAX) by (nonlinear_arith)
                            requires
                                y0 == start.y + sy * j,
                                0 <= j < big_dy,
                                big_dy == abs(end.y - start.y),
                                sy == (if start.y < end.y { 1int } else { -1int }),
                                i32::MIN <= start.y <= i32::MAX,
                                i32::MIN <= end.y <= i32::MAX,
                        ;
                    }
                    err = err + dx as i64;
                    y0 = y0 + sy;
                    proof {
                        assert(err == big_dx - big_dy - i * big_dy + (j + 1) * big_dx) by (nonlinear_arith)
                            requires
                                err == mid_err + dx,
                                mid_err == big_dx - big_dy - i * big_dy + j * big_dx,
                                big_dx == dx,
                        ;
                        j = j + 1;
                        assert(y0 == start.y + sy * j) by (nonlinear_arith)
                            requires
                                y0 == old_y + sy,
                                old_y == start.y + sy * (j - 1),
                        ;
                    }
                }
                proof {
                    fuel = (fuel - 1) as nat;
                    let rest = line_walk(old_x, old_y, x1 as int, y1 as int, sx as int, sy as int,
                        dx as int, dy as int, old_err, old_fuel);
                    assert(rest == seq![(old_x, old_y)].add(line_walk(x0 as int, y0 as int, x1 as int, y1 as int, sx as int, sy as int,
                        dx as int, dy as int, err as int, fuel)));
                    assert(total =~= visited.add(line_walk(x0 as int, y0 as int, x1 as int, y1 as int, sx as int, sy as int,
                        dx as int, dy as int, err as int, fuel)));
                }
            }
        }
        proof {
            let a = |px: int, py: int| visited.contains((px, py));
            let b = |px: int, py: int| on_line(start, end, px, py);
            assert(a =~= b);
        }
    }
}

/// The pixel that byte `j` belongs to has number `j / 4`, counted row by row.
pub proof fn lemma_pixel_number(width: int, j: int)
    requires
        width > 0,
        j >= 0,
    ensures
        row_of(width, j) * width + col_of(width, j) == j / 4,
        0 <= col_of(width, j) < width,
        row_of(width, j) >= 0,
{
    let p = j / 4;
    vstd::arithmetic::div_mod::lemma_fundamental_div_mod(p, width);
    assert(p == width * row_of(width, j) + col_of(width, j));
    assert(row_of(width, j) * width == width * row_of(width, j)) by (nonlinear_arith);
    vstd::arithmetic::div_mod::lemma_div_pos_is_pos(p, width);
}

} // verus!
