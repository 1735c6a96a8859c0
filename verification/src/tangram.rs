//! The tangram picture: seven colored pieces scaled from a 960 x 540 design onto
//! the screen, with cut-outs that carve the letters "OS" out of them.
use vstd::prelude::*;
use crate::canvas::{Canvas, Color, Point, Frame, painted, fits, in_fan, on_outline, fan_fits, outline_fits,
    spans_fit, segment_fits, min3, max3, col_of, row_of, on_screen, lemma_pixel_number};

verus! {

/// Width of the design, in design units.
pub const DESIGN_W: i32 = 960;
/// Height of the design, in design units.
pub const DESIGN_H: i32 = 540;
/// Fixed-point one: scales are in 1/1024ths.
pub const SCALE_ONE: i32 = 1024;
/// Largest screen side whose scaled size, `side * SCALE_ONE`, fits in an `i32`.
pub const MAX_SIDE: usize = 2097151;

/// Rounds the quotient toward zero, as integer division on `i32` does.
pub open spec fn div_trunc(a: int, b: int) -> int {
    if a >= 0 { a / b } else { -((-a) / b) }
}

/// A design point mapped to the screen.
pub open spec fn transform_spec(point: Point, scale: int, offset_x: int, offset_y: int) -> (int, int) {
    (offset_x + div_trunc(point.x * scale, SCALE_ONE as int), offset_y + div_trunc(point.y * scale, SCALE_ONE as int))
}

/// `transform_point` neither overflows nor leaves the `i32` range.
pub open spec fn transform_fits(point: Point, scale: int, offset_x: int, offset_y: int) -> bool {
    &&& i32::MIN <= point.x * scale <= i32::MAX
    &&& i32::MIN <= point.y * scale <= i32::MAX
    &&& i32::MIN <= transform_spec(point, scale, offset_x, offset_y).0 <= i32::MAX
    &&& i32::MIN <= transform_spec(point, scale, offset_x, offset_y).1 <= i32::MAX
}

/// Maps a design point to the screen: scaled by `scale / SCALE_ONE`, then shifted.
pub fn transform_point(point: Point, scale: i32, offset_x: i32, offset_y: i32) -> (r: Point)
    requires
        transform_fits(point, scale as int, offset_x as int, offset_y as int),
    ensures
        (r.x as int, r.y as int) == transform_spec(point, scale as int, offset_x as int, offset_y as int),
{
    Point::new(offset_x + point.x * scale / SCALE_ONE, offset_y + point.y * scale / SCALE_ONE)
}


/// A piece outline in design units.
#[derive(Clone, Copy)]
pub enum Shape {
    Triangle([Point; 3]),
    Quad([Point; 4]),
}

/// A colored tangram piece.
#[derive(Clone, Copy)]
pub struct Piece {
    pub color: Color,
    pub shape: Shape,
}

impl Piece {
    pub fn triangle(color: Color, points: [Point; 3]) -> (r: Piece)
        ensures
            r == (Piece { color, shape: Shape::Triangle(points) }),
    {
        Piece { color, shape: Shape::Triangle(points) }
    }

    pub fn quad(color: Color, points: [Point; 4]) -> (r: Piece)
        ensures
            r == (Piece { color, shape: Shape::Quad(points) }),
    {
        Piece { color, shape: Shape::Quad(points) }
    }
}

/// One step of the animation: a piece and the cut-outs drawn after it.
pub struct Step {
    pub piece: Piece,
    pub cutouts: Vec<Shape>,
}

impl Step {
    pub fn new(piece: Piece, cutouts: Vec<Shape>) -> (r: Step)
        ensures
            r.piece == piece,
            r.cutouts@ == cutouts@,
    {
        Step { piece, cutouts }
    }
}

/// A design point.
pub fn p(x: i32, y: i32) -> (r: Point)
    ensures
        r == (Point { x, y }),
{
    Point::new(x, y)
}

/// The vertices of a shape, in order.
pub open spec fn shape_points(shape: Shape) -> Seq<Point> {
    match shape {
        Shape::Triangle(points) => points@,
        Shape::Quad(points) => points@,
    }
}

/// A design point on the screen, as a pixel position.
pub open spec fn screen_point(point: Point, scale: int, offset_x: int, offset_y: int) -> Point {
    let t = transform_spec(point, scale, offset_x, offset_y);
    Point { x: t.0 as i32, y: t.1 as i32 }
}

/// The vertices of a shape on the screen.
pub open spec fn screen_points(shape: Shape, scale: int, offset_x: int, offset_y: int) -> Seq<Point> {
    shape_points(shape).map_values(|q: Point| screen_point(q, scale, offset_x, offset_y))
}

/// Every vertex lies in the design rectangle.
pub open spec fn design_ok(shape: Shape) -> bool {
    forall|i: int| 0 <= i < shape_points(shape).len() ==> {
        &&& 0 <= #[trigger] shape_points(shape)[i].x <= DESIGN_W
        &&& 0 <= shape_points(shape)[i].y <= DESIGN_H
    }
}

/// The scale and offsets map the design rectangle into a screen of at most
/// `MAX_SIDE` pixels a side.
pub open spec fn layout_ok(scale: int, offset_x: int, offset_y: int) -> bool {
    &&& 0 <= scale
    &&& DESIGN_W * scale <= MAX_SIDE * SCALE_ONE
    &&& DESIGN_H * scale <= MAX_SIDE * SCALE_ONE
    &&& 0 <= offset_x <= MAX_SIDE
    &&& 0 <= offset_y <= MAX_SIDE
}

/// Maps the vertices of `shape` to the screen into `out`; returns how many there are.
pub fn transform_shape(shape: Shape, scale: i32, offset_x: i32, offset_y: i32, out: &mut [Point; 4]) -> (r: usize)
    requires
        forall|i: int| 0 <= i < shape_points(shape).len()
            ==> transform_fits(#[trigger] shape_points(shape)[i], scale as int, offset_x as int, offset_y as int),
    ensures
        r == shape_points(shape).len(),
        forall|i: int| 0 <= i < r ==> #[trigger] final(out)@[i]
            == screen_point(shape_points(shape)[i], scale as int, offset_x as int, offset_y as int),
        forall|i: int| r <= i < 4 ==> #[trigger] final(out)@[i] == old(out)@[i],
{
    match shape {
        Shape::Triangle(points) => {
            let mut i: usize = 0;
            assert forall|k: int| 0 <= k < 3 implies transform_fits(#[trigger] points@[k], scale as int, offset_x as int, offset_y as int) by {
                assert(shape_points(shape)[k] == points@[k]);
            }
            while i < 3
                invariant
                    shape == Shape::Triangle(points),
                    forall|k: int| 0 <= k < 3 ==> transform_fits(#[trigger] points@[k], scale as int, offset_x as int, offset_y as int),
                    i <= 3,
                    forall|k: int| 0 <= k < i ==> #[trigger] out@[k]
                        == screen_point(points@[k], scale as int, offset_x as int, offset_y as int),
                    forall|k: int| i <= k < 4 ==> #[trigger] out@[k] == old(out)@[k],
                decreases 3 - i,
            {
                let q = transform_point(points[i], scale, offset_x, offset_y);
                out[i] = q;
                i = i + 1;
            }
            3
        },
        Shape::Quad(points) => {
            let mut i: usize = 0;
            assert forall|k: int| 0 <= k < 4 implies transform_fits(#[trigger] points@[k], scale as int, offset_x as int, offset_y as int) by {
                assert(shape_points(shape)[k] == points@[k]);
            }
            while i < 4
                invariant
                    shape == Shape::Quad(points),
                    forall|k: int| 0 <= k < 4 ==> transform_fits(#[trigger] points@[k], scale as int, offset_x as int, offset_y as int),
                    i <= 4,
                    forall|k: int| 0 <= k < i ==> #[trigger] out@[k]
                        == screen_point(points@[k], scale as int, offset_x as int, offset_y as int),
                    forall|k: int| i <= k < 4 ==> #[trigger] out@[k] == old(out)@[k],
                decreases 4 - i,
            {
                let q = transform_point(points[i], scale, offset_x, offset_y);
                out[i] = q;
                i = i + 1;
            }
            4
        },
    }
}


/// The color of the empty screen and of the cut-outs.
pub open spec fn background_spec() -> Color {
    Color { r: 15, g: 23, b: 42 }
}

/// The color of piece outlines.
pub open spec fn outline_spec() -> Color {
    Color { r: 2, g: 6, b: 23 }
}

pub fn background() -> (c: Color)
    ensures
        c == background_spec(),
{
    Color::rgb(15, 23, 42)
}

pub fn outline() -> (c: Color)
    ensures
        c == outline_spec(),
{
    Color::rgb(2, 6, 23)
}
/// The seven pieces, in drawing order.
pub open spec fn design_pieces() -> Seq<Piece> {
    seq![
        Piece { color: Color { r: 239, g: 83, b: 80 }, shape: Shape::Triangle([Point { x: 80, y: 270 }, Point { x: 220, y: 130 }, Point { x: 220, y: 410 }]) },
        Piece { color: Color { r: 255, g: 202, b: 40 }, shape: Shape::Quad([Point { x: 220, y: 130 }, Point { x: 300, y: 50 }, Point { x: 380, y: 130 }, Point { x: 300, y: 210 }]) },
        Piece { color: Color { r: 255, g: 167, b: 38 }, shape: Shape::Triangle([Point { x: 380, y: 130 }, Point { x: 520, y: 270 }, Point { x: 380, y: 410 }]) },
        Piece { color: Color { r: 102, g: 187, b: 106 }, shape: Shape::Quad([Point { x: 220, y: 410 }, Point { x: 300, y: 330 }, Point { x: 460, y: 410 }, Point { x: 380, y: 490 }]) },
        Piece { color: Color { r: 38, g: 198, b: 218 }, shape: Shape::Quad([Point { x: 650, y: 100 }, Point { x: 930, y: 100 }, Point { x: 810, y: 220 }, Point { x: 530, y: 220 }]) },
        Piece { color: Color { r: 66, g: 165, b: 245 }, shape: Shape::Triangle([Point { x: 540, y: 300 }, Point { x: 830, y: 180 }, Point { x: 830, y: 380 }]) },
        Piece { color: Color { r: 171, g: 71, b: 188 }, shape: Shape::Quad([Point { x: 630, y: 320 }, Point { x: 890, y: 320 }, Point { x: 790, y: 500 }, Point { x: 530, y: 500 }]) },
    ]
}
pub open spec fn cutout_o() -> Shape {
    Shape::Quad([Point { x: 300, y: 230 }, Point { x: 360, y: 290 }, Point { x: 300, y: 350 }, Point { x: 240, y: 290 }])
}
pub open spec fn cutout_s_top() -> Shape {
    Shape::Quad([Point { x: 530, y: 100 }, Point { x: 680, y: 100 }, Point { x: 620, y: 220 }, Point { x: 530, y: 250 }])
}
pub open spec fn cutout_s_mid() -> Shape {
    Shape::Quad([Point { x: 780, y: 240 }, Point { x: 930, y: 160 }, Point { x: 930, y: 340 }, Point { x: 820, y: 360 }])
}
pub open spec fn cutout_s_bottom() -> Shape {
    Shape::Quad([Point { x: 530, y: 500 }, Point { x: 690, y: 500 }, Point { x: 650, y: 350 }, Point { x: 530, y: 350 }])
}
/// The four cut-outs that carve "OS" out of the finished picture.
pub open spec fn design_cutouts() -> Seq<Shape> {
    seq![cutout_o(), cutout_s_top(), cutout_s_mid(), cutout_s_bottom()]
}

/// The cut-outs drawn right after piece `i` when the picture is built step by step.
pub open spec fn step_cutouts(i: int) -> Seq<Shape> {
    if i == 3 {
        seq![cutout_o()]
    } else if i == 4 {
        seq![cutout_s_top()]
    } else if i == 6 {
        seq![cutout_s_mid(), cutout_s_bottom()]
    } else {
        Seq::empty()
    }
}

/// The cut-outs of the first `n` steps, in the order the steps draw them.
pub open spec fn cutouts_through(n: int) -> Seq<Shape>
    decreases n,
{
    if n <= 0 {
        Seq::empty()
    } else {
        cutouts_through(n - 1) + step_cutouts(n - 1)
    }
}

/// Built step by step, the picture gets every cut-out of the finished picture, each
/// once and in the same order, and no other.
pub proof fn law_steps_carve_the_picture()
    ensures
        cutouts_through(STEP_COUNT as int) == design_cutouts(),
{
    reveal_with_fuel(cutouts_through, 8);
    assert(cutouts_through(STEP_COUNT as int) =~= design_cutouts());
}

/// Number of steps, one per piece.
pub const STEP_COUNT: usize = 7;
/// The seven pieces, in drawing order.
pub fn pieces() -> (r: Vec<Piece>)
    ensures
        r@ == design_pieces(),
{
    let mut v: Vec<Piece> = Vec::new();
    v.push(Piece::triangle(Color::rgb(239, 83, 80), [p(80, 270), p(220, 130), p(220, 410)]));
    v.push(Piece::quad(Color::rgb(255, 202, 40), [p(220, 130), p(300, 50), p(380, 130), p(300, 210)]));
    v.push(Piece::triangle(Color::rgb(255, 167, 38), [p(380, 130), p(520, 270), p(380, 410)]));
    v.push(Piece::quad(Color::rgb(102, 187, 106), [p(220, 410), p(300, 330), p(460, 410), p(380, 490)]));
    v.push(Piece::quad(Color::rgb(38, 198, 218), [p(650, 100), p(930, 100), p(810, 220), p(530, 220)]));
    v.push(Piece::triangle(Color::rgb(66, 165, 245), [p(540, 300), p(830, 180), p(830, 380)]));
    v.push(Piece::quad(Color::rgb(171, 71, 188), [p(630, 320), p(890, 320), p(790, 500), p(530, 500)]));
    assert(v@ =~= design_pieces());
    v
}
fn make_cutout_o() -> (r: Shape)
    ensures
        r == cutout_o(),
{
    Shape::Quad([p(300, 230), p(360, 290), p(300, 350), p(240, 290)])
}
fn make_cutout_s_top() -> (r: Shape)
    ensures
        r == cutout_s_top(),
{
    Shape::Quad([p(530, 100), p(680, 100), p(620, 220), p(530, 250)])
}
fn make_cutout_s_mid() -> (r: Shape)
    ensures
        r == cutout_s_mid(),
{
    Shape::Quad([p(780, 240), p(930, 160), p(930, 340), p(820, 360)])
}
fn make_cutout_s_bottom() -> (r: Shape)
    ensures
        r == cutout_s_bottom(),
{
    Shape::Quad([p(530, 500), p(690, 500), p(650, 350), p(530, 350)])
}
/// The four cut-outs of the finished picture.
pub fn cutouts() -> (r: Vec<Shape>)
    ensures
        r@ == design_cutouts(),
{
    let mut v: Vec<Shape> = Vec::new();
    v.push(make_cutout_o());
    v.push(make_cutout_s_top());
    v.push(make_cutout_s_mid());
    v.push(make_cutout_s_bottom());
    assert(v@ =~= design_cutouts());
    v
}

/// Step `i` of the picture built piece by piece.
pub fn step(i: usize) -> (r: Step)
    requires
        i < STEP_COUNT,
    ensures
        r.piece == design_pieces()[i as int],
        r.cutouts@ == step_cutouts(i as int),
{
    let all = pieces();
    let piece = all[i];
    let mut cuts: Vec<Shape> = Vec::new();
    if i == 3 {
        cuts.push(make_cutout_o());
    } else if i == 4 {
        cuts.push(make_cutout_s_top());
    } else if i == 6 {
        cuts.push(make_cutout_s_mid());
        cuts.push(make_cutout_s_bottom());
    }
    assert(cuts@ =~= step_cutouts(i as int));
    Step::new(piece, cuts)
}

/// Every piece and every cut-out lies in the design rectangle.
pub proof fn lemma_design_ok()
    ensures
        forall|i: int| 0 <= i < design_pieces().len() ==> design_ok(#[trigger] design_pieces()[i].shape),
        forall|i: int| 0 <= i < design_cutouts().len() ==> design_ok(#[trigger] design_cutouts()[i]),
{
    assert(design_ok(design_pieces()[0].shape));
    assert(design_ok(design_pieces()[1].shape));
    assert(design_ok(design_pieces()[2].shape));
    assert(design_ok(design_pieces()[3].shape));
    assert(design_ok(design_pieces()[4].shape));
    assert(design_ok(design_pieces()[5].shape));
    assert(design_ok(design_pieces()[6].shape));
    assert(design_ok(design_cutouts()[0]));
    assert(design_ok(design_cutouts()[1]));
    assert(design_ok(design_cutouts()[2]));
    assert(design_ok(design_cutouts()[3]));
}


/// The scale (in 1/1024ths) and the offsets that fit the design, centered, on a
/// `width` by `height` screen.
pub open spec fn layout(width: int, height: int) -> (int, int, int) {
    let sx = (width * SCALE_ONE) / (DESIGN_W as int);
    let sy = (height * SCALE_ONE) / (DESIGN_H as int);
    let scale = if sx <= sy { sx } else { sy };
    (
        scale,
        (width * SCALE_ONE - DESIGN_W * scale) / (2 * SCALE_ONE),
        (height * SCALE_ONE - DESIGN_H * scale) / (2 * SCALE_ONE),
    )
}

pub proof fn lemma_layout_ok(width: int, height: int)
    requires
        0 <= width <= MAX_SIDE,
        0 <= height <= MAX_SIDE,
    ensures
        layout_ok(layout(width, height).0, layout(width, height).1, layout(width, height).2),
        DESIGN_W * layout(width, height).0 <= width * SCALE_ONE,
        DESIGN_H * layout(width, height).0 <= height * SCALE_ONE,
{
    let sx = (width * 1024) / 960;
    let sy = (height * 1024) / 540;
    let scale = layout(width, height).0;
    assert(0 <= sx && 960 * sx <= width * 1024) by (nonlinear_arith)
        requires
            sx == (width * 1024) / 960,
            width >= 0,
    ;
    assert(0 <= sy && 540 * sy <= height * 1024) by (nonlinear_arith)
        requires
            sy == (height * 1024) / 540,
            height >= 0,
    ;
    assert(960 * scale <= width * 1024 && 540 * scale <= height * 1024) by (nonlinear_arith)
        requires
            scale == (if sx <= sy { sx } else { sy }),
            960 * sx <= width * 1024,
            540 * sy <= height * 1024,
            sx >= 0,
            sy >= 0,
    ;
    assert(0 <= (width * 1024 - 960 * scale) / 2048 <= MAX_SIDE) by (nonlinear_arith)
        requires
            0 <= width * 1024 - 960 * scale <= width * 1024,
            width <= MAX_SIDE,
    ;
    assert(0 <= (height * 1024 - 540 * scale) / 2048 <= MAX_SIDE) by (nonlinear_arith)
        requires
            0 <= height * 1024 - 540 * scale <= height * 1024,
            height <= MAX_SIDE,
    ;
}

/// A design point maps into `[0, 2 * MAX_SIDE]` on both axes without overflow.
pub proof fn lemma_point_bounds(q: Point, scale: int, offset_x: int, offset_y: int)
    requires
        0 <= q.x <= DESIGN_W,
        0 <= q.y <= DESIGN_H,
        layout_ok(scale, offset_x, offset_y),
    ensures
        transform_fits(q, scale, offset_x, offset_y),
        0 <= screen_point(q, scale, offset_x, offset_y).x <= 2 * MAX_SIDE,
        0 <= screen_point(q, scale, offset_x, offset_y).y <= 2 * MAX_SIDE,
{
    assert(0 <= q.x * scale <= DESIGN_W * scale) by (nonlinear_arith)
        requires
            0 <= q.x <= DESIGN_W,
            0 <= scale,
    ;
    assert(0 <= q.y * scale <= DESIGN_H * scale) by (nonlinear_arith)
        requires
            0 <= q.y <= DESIGN_H,
            0 <= scale,
    ;
    assert(0 <= (q.x * scale) / 1024 <= MAX_SIDE) by (nonlinear_arith)
        requires
            0 <= q.x * scale <= MAX_SIDE * 1024,
    ;
    assert(0 <= (q.y * scale) / 1024 <= MAX_SIDE) by (nonlinear_arith)
        requires
            0 <= q.y * scale <= MAX_SIDE * 1024,
    ;
}

/// The screen vertices of a design shape make a drawable polygon.
pub proof fn lemma_shape_fits(shape: Shape, scale: int, offset_x: int, offset_y: int)
    requires
        design_ok(shape),
        layout_ok(scale, offset_x, offset_y),
    ensures
        forall|i: int| 0 <= i < shape_points(shape).len()
            ==> transform_fits(#[trigger] shape_points(shape)[i], scale, offset_x, offset_y),
        fan_fits(screen_points(shape, scale, offset_x, offset_y)),
        outline_fits(screen_points(shape, scale, offset_x, offset_y)),
{
    let pts = screen_points(shape, scale, offset_x, offset_y);
    assert forall|i: int| 0 <= i < shape_points(shape).len() implies {
        &&& transform_fits(#[trigger] shape_points(shape)[i], scale, offset_x, offset_y)
        &&& 0 <= pts[i].x <= 2 * MAX_SIDE
        &&& 0 <= pts[i].y <= 2 * MAX_SIDE
    } by {
        lemma_point_bounds(shape_points(shape)[i], scale, offset_x, offset_y);
    }
    assert forall|i: int| 1 <= i < pts.len() - 1 implies #[trigger] spans_fit(pts[0], pts[i], pts[i + 1]) by {
        assert(0 <= pts[0].x <= 2 * MAX_SIDE && 0 <= pts[0].y <= 2 * MAX_SIDE);
        assert(0 <= pts[i].x <= 2 * MAX_SIDE && 0 <= pts[i].y <= 2 * MAX_SIDE);
        assert(0 <= pts[i + 1].x <= 2 * MAX_SIDE && 0 <= pts[i + 1].y <= 2 * MAX_SIDE);
    }
    assert forall|i: int| 0 <= i < pts.len() implies #[trigger] segment_fits(pts[i], pts[(i + 1) % (pts.len() as int)]) by {
        let j = (i + 1) % (pts.len() as int);
        assert(0 <= j < pts.len());
        assert(0 <= pts[i].x <= 2 * MAX_SIDE && 0 <= pts[i].y <= 2 * MAX_SIDE);
        assert(0 <= pts[j].x <= 2 * MAX_SIDE && 0 <= pts[j].y <= 2 * MAX_SIDE);
    }
}

/// `frame` with `piece` filled in its color and outlined.
pub open spec fn piece_on(frame: Frame, piece: Piece, scale: int, offset_x: int, offset_y: int) -> Frame {
    let pts = screen_points(piece.shape, scale, offset_x, offset_y);
    painted(
        painted(frame, piece.color, |x: int, y: int| in_fan(pts, x, y)),
        outline_spec(),
        |x: int, y: int| on_outline(pts, x, y),
    )
}

/// `frame` with `shape` filled in the background color.
pub open spec fn cutout_on(frame: Frame, shape: Shape, scale: int, offset_x: int, offset_y: int) -> Frame {
    let pts = screen_points(shape, scale, offset_x, offset_y);
    painted(frame, background_spec(), |x: int, y: int| in_fan(pts, x, y))
}

/// `frame` with `pieces` drawn one after another.
pub open spec fn pieces_on(frame: Frame, pieces: Seq<Piece>, scale: int, offset_x: int, offset_y: int) -> Frame
    decreases pieces.len(),
{
    if pieces.len() == 0 {
        frame
    } else {
        piece_on(pieces_on(frame, pieces.drop_last(), scale, offset_x, offset_y), pieces.last(), scale, offset_x, offset_y)
    }
}

/// `frame` with `shapes` cut out one after another.
pub open spec fn cutouts_on(frame: Frame, shapes: Seq<Shape>, scale: int, offset_x: int, offset_y: int) -> Frame
    decreases shapes.len(),
{
    if shapes.len() == 0 {
        frame
    } else {
        cutout_on(cutouts_on(frame, shapes.drop_last(), scale, offset_x, offset_y), shapes.last(), scale, offset_x, offset_y)
    }
}

/// The finished picture: background, the seven pieces, then the four cut-outs.
pub open spec fn scene(frame: Frame) -> Frame {
    let (scale, ox, oy) = layout(frame.width, frame.height);
    cutouts_on(
        pieces_on(painted(frame, background_spec(), |x: int, y: int| true), design_pieces(), scale, ox, oy),
        design_cutouts(),
        scale,
        ox,
        oy,
    )
}

/// `frame` after step `i`: piece `i`, then the cut-outs that belong to it.
pub open spec fn step_on(frame: Frame, i: int) -> Frame {
    let (scale, ox, oy) = layout(frame.width, frame.height);
    cutouts_on(piece_on(frame, design_pieces()[i], scale, ox, oy), step_cutouts(i), scale, ox, oy)
}

/// Whether step `i`, laid out with scale `s` and offsets `ox`, `oy`, paints pixel
/// `(x, y)`: its piece, the piece's outline, or one of its cut-outs covers it.
pub open spec fn step_touches(i: int, s: int, ox: int, oy: int, x: int, y: int) -> bool {
    let pts = screen_points(design_pieces()[i].shape, s, ox, oy);
    ||| in_fan(pts, x, y)
    ||| on_outline(pts, x, y)
    ||| exists|k: int| 0 <= k < step_cutouts(i).len()
        && #[trigger] in_fan(screen_points(step_cutouts(i)[k], s, ox, oy), x, y)
}

/// `painted` keeps the geometry, and every byte of a pixel it does not cover.
proof fn lemma_painted_keeps(frame: Frame, color: Color, covered: spec_fn(int, int) -> bool, j: int)
    requires
        0 <= j < frame.pixels.len(),
        !(frame.width > 0 && covered(col_of(frame.width, j), row_of(frame.width, j))),
    ensures
        painted(frame, color, covered).pixels.len() == frame.pixels.len(),
        painted(frame, color, covered).pixels[j] == frame.pixels[j],
        painted(frame, color, covered).width == frame.width,
        painted(frame, color, covered).height == frame.height,
{
}

/// Cutting out shapes keeps every byte of a pixel that none of them covers.
proof fn lemma_cutouts_keep(frame: Frame, shapes: Seq<Shape>, s: int, ox: int, oy: int, j: int)
    requires
        0 <= j < frame.pixels.len(),
        frame.width > 0 ==> forall|k: int| 0 <= k < shapes.len()
            ==> !#[trigger] in_fan(screen_points(shapes[k], s, ox, oy), col_of(frame.width, j), row_of(frame.width, j)),
    ensures
        cutouts_on(frame, shapes, s, ox, oy).pixels.len() == frame.pixels.len(),
        cutouts_on(frame, shapes, s, ox, oy).pixels[j] == frame.pixels[j],
        cutouts_on(frame, shapes, s, ox, oy).width == frame.width,
        cutouts_on(frame, shapes, s, ox, oy).height == frame.height,
    decreases shapes.len(),
{
    if shapes.len() > 0 {
        let rest = shapes.drop_last();
        assert forall|k: int| 0 <= k < rest.len() implies rest[k] == shapes[k] by {}
        lemma_cutouts_keep(frame, rest, s, ox, oy, j);
        let before = cutouts_on(frame, rest, s, ox, oy);
        let pts = screen_points(shapes.last(), s, ox, oy);
        if frame.width > 0 {
            assert(!in_fan(screen_points(shapes[shapes.len() - 1], s, ox, oy), col_of(frame.width, j), row_of(frame.width, j)));
        }
        lemma_painted_keeps(before, background_spec(), |x: int, y: int| in_fan(pts, x, y), j);
    }
}

/// The screen is not cleared between steps: drawing step `i` leaves the size of the
/// frame alone and every byte of a pixel that the step does not paint.
pub proof fn law_steps_keep_other_pixels(frame: Frame, i: int, j: int)
    requires
        0 <= i < STEP_COUNT,
        0 <= j < frame.pixels.len(),
        frame.width > 0 ==> !step_touches(i, layout(frame.width, frame.height).0, layout(frame.width, frame.height).1,
            layout(frame.width, frame.height).2, col_of(frame.width, j), row_of(frame.width, j)),
    ensures
        step_on(frame, i).pixels.len() == frame.pixels.len(),
        step_on(frame, i).pixels[j] == frame.pixels[j],
        step_on(frame, i).width == frame.width,
        step_on(frame, i).height == frame.height,
{
    let (s, ox, oy) = layout(frame.width, frame.height);
    let piece = design_pieces()[i];
    let pts = screen_points(piece.shape, s, ox, oy);
    let filled = painted(frame, piece.color, |x: int, y: int| in_fan(pts, x, y));
    lemma_painted_keeps(frame, piece.color, |x: int, y: int| in_fan(pts, x, y), j);
    lemma_painted_keeps(filled, outline_spec(), |x: int, y: int| on_outline(pts, x, y), j);
    let drawn = piece_on(frame, piece, s, ox, oy);
    assert(drawn.width == frame.width);
    if frame.width > 0 {
        let cs = step_cutouts(i);
        assert forall|k: int| 0 <= k < cs.len()
            implies !#[trigger] in_fan(screen_points(cs[k], s, ox, oy), col_of(drawn.width, j), row_of(drawn.width, j)) by {
            if in_fan(screen_points(cs[k], s, ox, oy), col_of(frame.width, j), row_of(frame.width, j)) {
                assert(step_touches(i, s, ox, oy, col_of(frame.width, j), row_of(frame.width, j)));
            }
        }
    }
    lemma_cutouts_keep(drawn, step_cutouts(i), s, ox, oy, j);
}

/// Byte `j` belongs to a pixel on the screen whose four bytes the buffer holds.
pub open spec fn visible_byte(frame: Frame, j: int) -> bool {
    frame.width > 0 && on_screen(frame.pixels.len() as int, frame.width, frame.height,
        col_of(frame.width, j), row_of(frame.width, j))
}

/// `f` has the geometry of `orig`, every visible pixel of `f` is opaque, and every byte
/// outside the visible pixels is as in `orig`.
pub open spec fn opaque_over(f: Frame, orig: Frame) -> bool {
    &&& f.pixels.len() == orig.pixels.len()
    &&& f.width == orig.width
    &&& f.height == orig.height
    &&& forall|j: int| 0 <= j < f.pixels.len() && visible_byte(f, j) && j % 4 == 3 ==> #[trigger] f.pixels[j] == 0xffu8
    &&& forall|j: int| 0 <= j < f.pixels.len() && !visible_byte(f, j) ==> #[trigger] f.pixels[j] == orig.pixels[j]
}

proof fn lemma_painted_opaque(f: Frame, orig: Frame, color: Color, covered: spec_fn(int, int) -> bool)
    requires
        opaque_over(f, orig),
    ensures
        opaque_over(painted(f, color, covered), orig),
{
    let g = painted(f, color, covered);
    assert forall|j: int| 0 <= j < g.pixels.len() && visible_byte(g, j) && j % 4 == 3 implies #[trigger] g.pixels[j] == 0xffu8 by {
        assert(visible_byte(f, j));
    }
    assert forall|j: int| 0 <= j < g.pixels.len() && !visible_byte(g, j) implies #[trigger] g.pixels[j] == orig.pixels[j] by {
        assert(!visible_byte(f, j));
    }
}

proof fn lemma_pieces_opaque(f: Frame, orig: Frame, pieces: Seq<Piece>, s: int, ox: int, oy: int)
    requires
        opaque_over(f, orig),
    ensures
        opaque_over(pieces_on(f, pieces, s, ox, oy), orig),
    decreases pieces.len(),
{
    if pieces.len() > 0 {
        lemma_pieces_opaque(f, orig, pieces.drop_last(), s, ox, oy);
        let before = pieces_on(f, pieces.drop_last(), s, ox, oy);
        let piece = pieces.last();
        let pts = screen_points(piece.shape, s, ox, oy);
        lemma_painted_opaque(before, orig, piece.color, |x: int, y: int| in_fan(pts, x, y));
        lemma_painted_opaque(painted(before, piece.color, |x: int, y: int| in_fan(pts, x, y)), orig,
            outline_spec(), |x: int, y: int| on_outline(pts, x, y));
    }
}

proof fn lemma_cutouts_opaque(f: Frame, orig: Frame, shapes: Seq<Shape>, s: int, ox: int, oy: int)
    requires
        opaque_over(f, orig),
    ensures
        opaque_over(cutouts_on(f, shapes, s, ox, oy), orig),
    decreases shapes.len(),
{
    if shapes.len() > 0 {
        lemma_cutouts_opaque(f, orig, shapes.drop_last(), s, ox, oy);
        let before = cutouts_on(f, shapes.drop_last(), s, ox, oy);
        let pts = screen_points(shapes.last(), s, ox, oy);
        lemma_painted_opaque(before, orig, background_spec(), |x: int, y: int| in_fan(pts, x, y));
    }
}

/// Byte `j` lies in one of the first `width * height` pixels, all of whose bytes the
/// buffer holds, exactly when it is a visible byte.
proof fn lemma_visible_byte(frame: Frame, j: int)
    requires
        frame.width >= 0,
        frame.height >= 0,
        0 <= j,
    ensures
        visible_byte(frame, j) <==> (j / 4 < frame.width * frame.height && (j / 4) * 4 + 3 < frame.pixels.len()),
{
    let w = frame.width;
    let h = frame.height;
    if w > 0 {
        lemma_pixel_number(w, j);
        let row = row_of(w, j);
        let col = col_of(w, j);
        assert(row < h <==> row * w + col < w * h) by (nonlinear_arith)
            requires 0 <= col < w, 0 <= row, h >= 0;
    } else {
        assert(w * h == 0) by (nonlinear_arith)
            requires w == 0;
    }
}

/// Every pixel of the finished picture that the screen shows and the buffer holds is
/// opaque, and no byte past them changes.
pub proof fn law_picture_is_opaque(frame: Frame)
    requires
        frame.width >= 0,
        frame.height >= 0,
    ensures
        scene(frame).pixels.len() == frame.pixels.len(),
        forall|i: int| 0 <= i < frame.width * frame.height && 4 * i + 3 < frame.pixels.len()
            ==> #[trigger] scene(frame).pixels[4 * i + 3] == 0xffu8,
        forall|j: int| 0 <= j < frame.pixels.len() && !(j / 4 < frame.width * frame.height && (j / 4) * 4 + 3 < frame.pixels.len())
            ==> #[trigger] scene(frame).pixels[j] == frame.pixels[j],
{
    let (s, ox, oy) = layout(frame.width, frame.height);
    let blank = painted(frame, background_spec(), |x: int, y: int| true);
    assert(opaque_over(blank, frame)) by {
        assert forall|j: int| 0 <= j < blank.pixels.len() && visible_byte(blank, j) && j % 4 == 3 implies #[trigger] blank.pixels[j] == 0xffu8 by {
            assert(visible_byte(frame, j));
        }
    }
    lemma_pieces_opaque(blank, frame, design_pieces(), s, ox, oy);
    lemma_cutouts_opaque(pieces_on(blank, design_pieces(), s, ox, oy), frame, design_cutouts(), s, ox, oy);
    let sc = scene(frame);
    assert forall|i: int| 0 <= i < frame.width * frame.height && 4 * i + 3 < frame.pixels.len()
        implies #[trigger] sc.pixels[4 * i + 3] == 0xffu8 by {
        let j = 4 * i + 3;
        assert(j / 4 == i && j % 4 == 3);
        lemma_visible_byte(frame, j);
        assert(visible_byte(sc, j));
    }
    assert forall|j: int| 0 <= j < frame.pixels.len() && !(j / 4 < frame.width * frame.height && (j / 4) * 4 + 3 < frame.pixels.len())
        implies #[trigger] sc.pixels[j] == frame.pixels[j] by {
        lemma_visible_byte(frame, j);
        assert(!visible_byte(sc, j));
    }
}

/// Fills `piece` in its color and outlines it.
fn draw_one_piece(canvas: &mut Canvas, piece: Piece, scale: i32, offset_x: i32, offset_y: i32)
    requires
        fits(old(canvas)@),
        design_ok(piece.shape),
        layout_ok(scale as int, offset_x as int, offset_y as int),
    ensures
        final(canvas)@ == piece_on(old(canvas)@, piece, scale as int, offset_x as int, offset_y as int),
{
    proof {
        lemma_shape_fits(piece.shape, scale as int, offset_x as int, offset_y as int);
    }
    let mut points = [Point::new(0, 0); 4];
    let count = transform_shape(piece.shape, scale, offset_x, offset_y, &mut points);
    let ghost pts = screen_points(piece.shape, scale as int, offset_x as int, offset_y as int);
    let outline_color = outline();
    let slice = &points[0..count];
    assert(slice@ =~= pts);
    canvas.fill_polygon(slice, piece.color);
    canvas.draw_polygon_outline(slice, outline_color);
}

/// Fills `shape` in the background color.
fn cut_one_shape(canvas: &mut Canvas, shape: Shape, scale: i32, offset_x: i32, offset_y: i32)
    requires
        fits(old(canvas)@),
        design_ok(shape),
        layout_ok(scale as int, offset_x as int, offset_y as int),
    ensures
        final(canvas)@ == cutout_on(old(canvas)@, shape, scale as int, offset_x as int, offset_y as int),
{
    proof {
        lemma_shape_fits(shape, scale as int, offset_x as int, offset_y as int);
    }
    let mut points = [Point::new(0, 0); 4];
    let count = transform_shape(shape, scale, offset_x, offset_y, &mut points);
    let ghost pts = screen_points(shape, scale as int, offset_x as int, offset_y as int);
    let slice = &points[0..count];
    assert(slice@ =~= pts);
    canvas.fill_polygon(slice, background());
}


/// Scale and offsets that fit the design on a `width` by `height` screen.
pub fn compute_layout(width: usize, height: usize) -> (r: (i32, i32, i32))
    requires
        width <= MAX_SIDE,
        height <= MAX_SIDE,
    ensures
        (r.0 as int, r.1 as int, r.2 as int) == layout(width as int, height as int),
        layout_ok(r.0 as int, r.1 as int, r.2 as int),
{
    proof {
        lemma_layout_ok(width as int, height as int);
    }
    let w = width as i32;
    let h = height as i32;
    let sx = (w * SCALE_ONE) / DESIGN_W;
    let sy = (h * SCALE_ONE) / DESIGN_H;
    let scale = if sx <= sy { sx } else { sy };
    let offset_x = ((w * SCALE_ONE) - DESIGN_W * scale) / (2 * SCALE_ONE);
    let offset_y = ((h * SCALE_ONE) - DESIGN_H * scale) / (2 * SCALE_ONE);
    (scale, offset_x, offset_y)
}

/// Draws the finished tangram picture into `framebuffer`, a `width` by `height`
/// screen, and gives the buffer back.
pub fn render(framebuffer: Vec<u8>, width: usize, height: usize) -> (r: Vec<u8>)
    requires
        width <= MAX_SIDE,
        height <= MAX_SIDE,
    ensures
        r@ == scene(Frame { pixels: framebuffer@, width: width as int, height: height as int }).pixels,
{
    let ghost f0 = Frame { pixels: framebuffer@, width: width as int, height: height as int };
    let mut canvas = Canvas::new(framebuffer, width, height);
    canvas.clear(background());
    let ghost f1 = canvas@;
    let (scale, offset_x, offset_y) = compute_layout(width, height);
    let ghost (s, ox, oy) = (scale as int, offset_x as int, offset_y as int);
    proof {
        lemma_design_ok();
    }
    let all = pieces();
    let mut i: usize = 0;
    assert(design_pieces().take(0) =~= Seq::<Piece>::empty());
    while i < all.len()
        invariant
            all@ == design_pieces(),
            i <= all@.len(),
            fits(canvas@),
            layout_ok(s, ox, oy),
            s == scale,
            ox == offset_x,
            oy == offset_y,
            forall|k: int| 0 <= k < design_pieces().len() ==> design_ok(#[trigger] design_pieces()[k].shape),
            canvas@ == pieces_on(f1, design_pieces().take(i as int), s, ox, oy),
        decreases all@.len() - i,
    {
        draw_one_piece(&mut canvas, all[i], scale, offset_x, offset_y);
        assert(design_pieces().take(i + 1).drop_last() =~= design_pieces().take(i as int));
        i = i + 1;
    }
    assert(design_pieces().take(i as int) =~= design_pieces());
    let ghost f2 = canvas@;
    let cuts = cutouts();
    let mut j: usize = 0;
    assert(design_cutouts().take(0) =~= Seq::<Shape>::empty());
    while j < cuts.len()
        invariant
            cuts@ == design_cutouts(),
            j <= cuts@.len(),
            fits(canvas@),
            layout_ok(s, ox, oy),
            s == scale,
            ox == offset_x,
            oy == offset_y,
            forall|k: int| 0 <= k < design_cutouts().len() ==> design_ok(#[trigger] design_cutouts()[k]),
            canvas@ == cutouts_on(f2, design_cutouts().take(j as int), s, ox, oy),
        decreases cuts@.len() - j,
    {
        cut_one_shape(&mut canvas, cuts[j], scale, offset_x, offset_y);
        assert(design_cutouts().take(j + 1).drop_last() =~= design_cutouts().take(j as int));
        j = j + 1;
    }
    assert(design_cutouts().take(j as int) =~= design_cutouts());
    canvas.into_framebuffer()
}

/// Draws step `piece_id` of the picture built piece by piece.
pub fn render_step(canvas: &mut Canvas, piece_id: usize)
    requires
        piece_id < STEP_COUNT,
        fits(old(canvas)@),
        old(canvas)@.width <= MAX_SIDE,
        old(canvas)@.height <= MAX_SIDE,
    ensures
        final(canvas)@ == step_on(old(canvas)@, piece_id as int),
{
    let ghost f0 = canvas@;
    let (scale, offset_x, offset_y) = compute_layout(canvas.width(), canvas.height());
    let ghost (s, ox, oy) = (scale as int, offset_x as int, offset_y as int);
    proof {
        lemma_design_ok();
    }
    let st = step(piece_id);
    draw_one_piece(canvas, st.piece, scale, offset_x, offset_y);
    let ghost f1 = canvas@;
    let ghost cs = step_cutouts(piece_id as int);
    proof {
        assert forall|k: int| 0 <= k < cs.len() implies design_ok(#[trigger] cs[k]) by {
            if piece_id == 6 {
                assert(cs[k] == design_cutouts()[k + 2]);
            } else if piece_id == 4 {
                assert(cs[k] == design_cutouts()[1]);
            } else {
                assert(cs[k] == design_cutouts()[0]);
            }
        }
    }
    let mut j: usize = 0;
    assert(cs.take(0) =~= Seq::<Shape>::empty());
    while j < st.cutouts.len()
        invariant
            st.cutouts@ == cs,
            j <= cs.len(),
            fits(canvas@),
            layout_ok(s, ox, oy),
            s == scale,
            ox == offset_x,
            oy == offset_y,
            forall|k: int| 0 <= k < cs.len() ==> design_ok(#[trigger] cs[k]),
            canvas@ == cutouts_on(f1, cs.take(j as int), s, ox, oy),
        decreases cs.len() - j,
    {
        cut_one_shape(canvas, st.cutouts[j], scale, offset_x, offset_y);
        assert(cs.take(j + 1).drop_last() =~= cs.take(j as int));
        j = j + 1;
    }
    assert(cs.take(j as int) =~= cs);
}

/// The drawn steps survive between calls in `screen`, the canvas that `init` made.
/// Draws step `piece_id` there; returns 0, or -1 when there is no canvas yet or no
/// such step (then nothing is drawn).
pub fn draw_piece(screen: &mut Option<Canvas>, piece_id: usize) -> (r: isize)
    requires
        *old(screen) matches Some(c) ==> fits(c@) && c@.width <= MAX_SIDE && c@.height <= MAX_SIDE,
    ensures
        r == (if *old(screen) is Some && piece_id < STEP_COUNT { 0isize } else { -1isize }),
        r == -1 ==> *final(screen) == *old(screen),
        r == 0 ==> (*final(screen) matches Some(c) && c@ == step_on(old(screen)->Some_0@, piece_id as int)),
{
    match screen {
        None => -1,
        Some(canvas) => {
            if piece_id >= STEP_COUNT {
                return -1;
            }
            render_step(canvas, piece_id);
            0
        },
    }
}

/// A blank screen: the buffer zeroed, then every pixel set to the background color.
pub open spec fn blank_frame(len: nat, width: int, height: int) -> Frame {
    painted(
        Frame { pixels: Seq::new(len, |i: int| 0u8), width, height },
        background_spec(),
        |x: int, y: int| true,
    )
}

/// Makes the canvas of a `width` by `height` screen from `framebuffer`, blank, unless
/// `screen` already holds one (then nothing changes).
pub fn init(screen: &mut Option<Canvas>, framebuffer: Vec<u8>, width: usize, height: usize)
    requires
        *old(screen) is None ==> width <= i32::MAX && height <= i32::MAX,
    ensures
        *old(screen) is Some ==> *final(screen) == *old(screen),
        *old(screen) is None ==> (*final(screen) matches Some(c)
            && c@ == blank_frame(framebuffer@.len(), width as int, height as int)),
{
    if screen.is_some() {
        return;
    }
    let mut fb = framebuffer;
    let mut i: usize = 0;
    while i < fb.len()
        invariant
            i <= fb@.len(),
            fb@.len() == framebuffer@.len(),
            forall|k: int| 0 <= k < i ==> #[trigger] fb@[k] == 0u8,
        decreases fb@.len() - i,
    {
        fb.set(i, 0);
        i = i + 1;
    }
    assert(fb@ =~= Seq::new(framebuffer@.len(), |k: int| 0u8));
    let mut canvas = Canvas::new(fb, width, height);
    canvas.clear(background());
    *screen = Some(canvas);
}

/// Busy-wait iterations that keep a step on screen.
pub const STEP_FRAME_SPIN: usize = 8_000_000;
/// Busy-wait iterations that keep the finished picture on screen.
pub const FINAL_FRAME_SPIN: usize = 20_000_000;

/// One spin of a busy-wait loop.
#[verifier::external_body]
fn spin_once() {
    core::hint::spin_loop();
}

/// Busy-waits for `iterations` spins.
pub fn hold_frame(iterations: usize) {
    let mut i: usize = 0;
    while i < iterations
        invariant
            i <= iterations,
        decreases iterations - i,
    {
        spin_once();
        i = i + 1;
    }
}

/// Keeps the finished picture on screen for a while.
pub fn hold_final_frame() {
    hold_frame(FINAL_FRAME_SPIN);
}

} // verus!
