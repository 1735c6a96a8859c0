use tg_rcore_tutorial::canvas::{edge, Canvas, Color, Point};
use tg_rcore_tutorial::tangram::{
    background, compute_layout, cutouts, draw_piece, hold_frame, init, outline, p, pieces, render, step,
    transform_point, transform_shape, Piece, Shape, Step, STEP_COUNT,
};

fn pixel(fb: &[u8], width: usize, x: usize, y: usize) -> [u8; 4] {
    let i = (y * width + x) * 4;
    [fb[i], fb[i + 1], fb[i + 2], fb[i + 3]]
}

fn bytes(c: Color) -> [u8; 4] {
    [c.b, c.g, c.r, 0xff]
}

#[test]
fn colors_and_points_keep_their_parts() {
    let c = Color::rgb(1, 2, 3);
    assert_eq!((c.r, c.g, c.b), (1, 2, 3));
    let q = Point::new(-5, 7);
    assert_eq!((q.x, q.y), (-5, 7));
    let d = p(9, 10);
    assert_eq!((d.x, d.y), (9, 10));
    let bg = background();
    assert_eq!((bg.r, bg.g, bg.b), (15, 23, 42));
    let ol = outline();
    assert_eq!((ol.r, ol.g, ol.b), (2, 6, 23));
}

#[test]
fn put_pixel_writes_bgr_and_opaque_alpha() {
    let mut canvas = Canvas::new(vec![0u8; 48], 4, 3);
    canvas.put_pixel(1, 2, Color::rgb(10, 20, 30));
    let fb = canvas.into_framebuffer();
    assert_eq!(pixel(&fb, 4, 1, 2), [30, 20, 10, 255]);
    assert_eq!(fb.iter().filter(|b| **b != 0).count(), 4);
}

#[test]
fn put_pixel_off_screen_or_past_the_buffer_does_nothing() {
    let mut canvas = Canvas::new(vec![0u8; 40], 4, 3);
    canvas.put_pixel(-1, 0, Color::rgb(1, 1, 1));
    canvas.put_pixel(4, 0, Color::rgb(1, 1, 1));
    canvas.put_pixel(0, 3, Color::rgb(1, 1, 1));
    canvas.put_pixel(2, 2, Color::rgb(1, 1, 1));
    assert_eq!(canvas.into_framebuffer(), vec![0u8; 40]);
}

#[test]
fn clear_paints_only_what_the_buffer_holds() {
    let mut canvas = Canvas::new(vec![7u8; 10], 2, 2);
    canvas.clear(Color::rgb(1, 2, 3));
    assert_eq!(canvas.into_framebuffer(), vec![3, 2, 1, 255, 3, 2, 1, 255, 7, 7]);
}

#[test]
fn fill_triangle_includes_its_edges() {
    let mut canvas = Canvas::new(vec![0u8; 64], 4, 4);
    canvas.fill_triangle(Point::new(0, 0), Point::new(3, 0), Point::new(0, 3), Color::rgb(9, 9, 9));
    let fb = canvas.into_framebuffer();
    for y in 0..4 {
        for x in 0..4 {
            let expected = if x + y <= 3 { [9, 9, 9, 255] } else { [0, 0, 0, 0] };
            assert_eq!(pixel(&fb, 4, x, y), expected, "pixel ({x}, {y})");
        }
    }
}

#[test]
fn flat_triangle_draws_nothing() {
    let mut canvas = Canvas::new(vec![0u8; 64], 4, 4);
    canvas.fill_triangle(Point::new(0, 0), Point::new(1, 1), Point::new(3, 3), Color::rgb(9, 9, 9));
    assert_eq!(canvas.into_framebuffer(), vec![0u8; 64]);
}

#[test]
fn draw_line_walks_the_diagonal() {
    let mut canvas = Canvas::new(vec![0u8; 64], 4, 4);
    canvas.draw_line(Point::new(0, 0), Point::new(3, 3), Color::rgb(5, 5, 5));
    let fb = canvas.into_framebuffer();
    for y in 0..4 {
        for x in 0..4 {
            let expected = if x == y { [5, 5, 5, 255] } else { [0, 0, 0, 0] };
            assert_eq!(pixel(&fb, 4, x, y), expected, "pixel ({x}, {y})");
        }
    }
}

#[test]
fn draw_line_clips_off_screen_parts() {
    let mut canvas = Canvas::new(vec![0u8; 16], 2, 2);
    canvas.draw_line(Point::new(-3, 1), Point::new(5, 1), Color::rgb(4, 4, 4));
    let fb = canvas.into_framebuffer();
    assert_eq!(pixel(&fb, 2, 0, 1), [4, 4, 4, 255]);
    assert_eq!(pixel(&fb, 2, 1, 1), [4, 4, 4, 255]);
    assert_eq!(pixel(&fb, 2, 0, 0), [0, 0, 0, 0]);
}

#[test]
fn polygons_need_three_points_and_outlines_close() {
    let mut canvas = Canvas::new(vec![0u8; 64], 4, 4);
    canvas.fill_polygon(&[Point::new(0, 0), Point::new(3, 3)], Color::rgb(1, 1, 1));
    assert_eq!(canvas.width(), 4);
    assert_eq!(canvas.height(), 4);
    let square = [Point::new(0, 0), Point::new(3, 0), Point::new(3, 3), Point::new(0, 3)];
    canvas.draw_polygon_outline(&square, Color::rgb(2, 2, 2));
    let fb = canvas.into_framebuffer();
    for y in 0..4 {
        for x in 0..4 {
            let border = x == 0 || y == 0 || x == 3 || y == 3;
            let expected = if border { [2, 2, 2, 255] } else { [0, 0, 0, 0] };
            assert_eq!(pixel(&fb, 4, x, y), expected, "pixel ({x}, {y})");
        }
    }
}

#[test]
fn fill_polygon_fans_from_the_first_point() {
    let mut canvas = Canvas::new(vec![0u8; 64], 4, 4);
    let square = [Point::new(0, 0), Point::new(3, 0), Point::new(3, 3), Point::new(0, 3)];
    canvas.fill_polygon(&square, Color::rgb(6, 6, 6));
    let fb = canvas.into_framebuffer();
    assert!(fb.chunks(4).all(|px| px == [6, 6, 6, 255]));
}

#[test]
fn edge_is_twice_the_signed_area() {
    assert_eq!(edge(Point::new(0, 0), Point::new(4, 0), Point::new(0, 4)), -16);
    assert_eq!(edge(Point::new(0, 0), Point::new(0, 4), Point::new(4, 0)), 16);
    assert_eq!(edge(Point::new(1, 1), Point::new(3, 3), Point::new(5, 5)), 0);
}

#[test]
fn layout_scales_and_centres_the_design() {
    assert_eq!(compute_layout(960, 540), (1024, 0, 0));
    assert_eq!(compute_layout(1280, 800), (1365, 0, 40));
    let q = transform_point(p(80, 270), 1365, 0, 40);
    assert_eq!((q.x, q.y), (106, 399));
}

#[test]
fn transform_shape_reports_the_corner_count() {
    let mut out = [Point::new(0, 0); 4];
    let n = transform_shape(Shape::Triangle([p(0, 0), p(1024, 0), p(0, 2048)]), 512, 10, 20, &mut out);
    assert_eq!(n, 3);
    assert_eq!((out[1].x, out[1].y), (522, 20));
    assert_eq!((out[2].x, out[2].y), (10, 1044));
    let n = transform_shape(Shape::Quad([p(0, 0), p(2, 0), p(2, 2), p(0, 2)]), 1024, 0, 0, &mut out);
    assert_eq!(n, 4);
    assert_eq!((out[3].x, out[3].y), (0, 2));
}

#[test]
fn the_design_has_seven_pieces_and_four_cutouts() {
    let all = pieces();
    assert_eq!(all.len(), 7);
    assert_eq!(STEP_COUNT, 7);
    assert_eq!(cutouts().len(), 4);
    let first: Piece = all[0];
    assert!(first.color == Color::rgb(239, 83, 80));
    let s: Step = step(6);
    assert_eq!(s.cutouts.len(), 2);
    assert_eq!(step(0).cutouts.len(), 0);
    assert_eq!(step(3).cutouts.len(), 1);
    let built = Piece::triangle(Color::rgb(1, 2, 3), [p(0, 0), p(1, 0), p(0, 1)]);
    assert!(matches!(built.shape, Shape::Triangle(_)));
    let quad = Piece::quad(Color::rgb(1, 2, 3), [p(0, 0), p(1, 0), p(1, 1), p(0, 1)]);
    assert!(matches!(quad.shape, Shape::Quad(_)));
    assert_eq!(Step::new(quad, vec![]).cutouts.len(), 0);
}

#[test]
fn render_draws_the_tangram_picture() {
    let (w, h) = (960usize, 540usize);
    let fb = render(vec![0u8; w * h * 4], w, h);
    assert_eq!(fb.len(), w * h * 4);
    assert_eq!(pixel(&fb, w, 0, 0), bytes(background()));
    assert_eq!(pixel(&fb, w, 150, 270), [80, 83, 239, 255]);
    assert_eq!(pixel(&fb, w, 220, 130), bytes(outline()));
    assert_eq!(pixel(&fb, w, 800, 150), [218, 198, 38, 255]);
    assert_eq!(pixel(&fb, w, 640, 150), bytes(background()));
}

#[test]
fn draw_piece_needs_a_canvas_and_a_known_step() {
    let mut screen: Option<Canvas> = None;
    assert_eq!(draw_piece(&mut screen, 0), -1);
    assert!(screen.is_none());
    let (w, h) = (96usize, 54usize);
    init(&mut screen, vec![9u8; w * h * 4], w, h);
    assert_eq!(draw_piece(&mut screen, 7), -1);
    assert_eq!(draw_piece(&mut screen, 0), 0);
    let fb = screen.take().unwrap().into_framebuffer();
    assert_eq!(pixel(&fb, w, 0, 0), bytes(background()));
    assert_eq!(pixel(&fb, w, 15, 26), [80, 83, 239, 255]);
}

#[test]
fn init_keeps_an_existing_canvas() {
    let mut screen = Some(Canvas::new(vec![1u8; 16], 2, 2));
    init(&mut screen, vec![0u8; 16], 2, 2);
    assert_eq!(screen.unwrap().into_framebuffer(), vec![1u8; 16]);
}

#[test]
fn init_blanks_the_screen_to_the_background() {
    let mut screen: Option<Canvas> = None;
    init(&mut screen, vec![5u8; 18], 2, 2);
    let fb = screen.unwrap().into_framebuffer();
    assert_eq!(&fb[0..4], &bytes(background()));
    assert_eq!(&fb[12..16], &bytes(background()));
    assert_eq!(&fb[16..18], &[0, 0]);
}

#[test]
fn hold_frame_returns() {
    hold_frame(100);
}

#[test]
fn later_steps_keep_earlier_pieces() {
    let (w, h) = (96usize, 54usize);
    let mut screen: Option<Canvas> = None;
    init(&mut screen, vec![0u8; w * h * 4], w, h);
    assert_eq!(draw_piece(&mut screen, 0), 0);
    let after_first = screen.as_ref().map(|c| c.width()).unwrap();
    assert_eq!(after_first, w);
    assert_eq!(draw_piece(&mut screen, 1), 0);
    assert_eq!(draw_piece(&mut screen, 6), 0);
    let fb = screen.take().unwrap().into_framebuffer();
    assert_eq!(pixel(&fb, w, 15, 26), [80, 83, 239, 255]);
    assert_eq!(pixel(&fb, w, 0, 0), bytes(background()));
}

#[test]
fn render_leaves_every_visible_pixel_opaque_and_the_rest_alone() {
    let fb = render(vec![7u8; 30], 3, 2);
    for i in 0..6 {
        assert_eq!(fb[4 * i + 3], 0xff);
    }
    assert_eq!(&fb[24..30], &[7u8; 6]);
    let short = render(vec![7u8; 10], 3, 2);
    assert_eq!(short[3], 0xff);
    assert_eq!(short[7], 0xff);
    assert_eq!(&short[8..10], &[7u8, 7]);
}

fn triangle_frame(a: Point, b: Point, c: Point) -> Vec<u8> {
    let mut canvas = Canvas::new(vec![0u8; 8 * 8 * 4], 8, 8);
    canvas.fill_triangle(a, b, c, Color::rgb(3, 4, 5));
    canvas.into_framebuffer()
}

#[test]
fn fill_triangle_ignores_vertex_order() {
    let (a, b, c) = (Point::new(1, 0), Point::new(7, 3), Point::new(2, 6));
    let first = triangle_frame(a, b, c);
    assert_eq!(first, triangle_frame(a, c, b));
    assert_eq!(first, triangle_frame(b, c, a));
    assert_eq!(pixel(&first, 8, 3, 3), [5, 4, 3, 255]);
    assert_eq!(pixel(&first, 8, 0, 7), [0, 0, 0, 0]);
}

#[test]
fn draw_line_steps_one_pixel_at_a_time() {
    let mut canvas = Canvas::new(vec![0u8; 8 * 8 * 4], 8, 8);
    canvas.draw_line(Point::new(0, 1), Point::new(6, 4), Color::rgb(1, 1, 1));
    let fb = canvas.into_framebuffer();
    let lit: Vec<(usize, usize)> = (0..8)
        .flat_map(|y| (0..8).map(move |x| (x, y)))
        .filter(|&(x, y)| pixel(&fb, 8, x, y)[3] == 255)
        .collect();
    // max(|dx|, |dy|) + 1 pixels, one per column, from one end to the other.
    assert_eq!(lit.len(), 7);
    assert!(lit.contains(&(0, 1)) && lit.contains(&(6, 4)));
    for x in 0..7 {
        assert_eq!(lit.iter().filter(|p| p.0 == x).count(), 1, "column {x}");
    }
}

#[test]
fn fill_polygon_paints_exactly_a_convex_polygon() {
    let mut canvas = Canvas::new(vec![0u8; 8 * 8 * 4], 8, 8);
    let hexagon = [
        Point::new(2, 0), Point::new(5, 0), Point::new(7, 3),
        Point::new(5, 6), Point::new(2, 6), Point::new(0, 3),
    ];
    canvas.fill_polygon(&hexagon, Color::rgb(8, 8, 8));
    let fb = canvas.into_framebuffer();
    for y in 0..8i64 {
        for x in 0..8i64 {
            let inside = (0..6).all(|j| {
                let (a, b) = (hexagon[j], hexagon[(j + 1) % 6]);
                (x - a.x as i64) * (b.y - a.y) as i64 - (y - a.y as i64) * (b.x - a.x) as i64 <= 0
            });
            let lit = pixel(&fb, 8, x as usize, y as usize) == [8, 8, 8, 255];
            assert_eq!(lit, inside, "pixel ({x}, {y})");
        }
    }
}
