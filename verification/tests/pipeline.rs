use softrender::geometry::{Point, Size};
use softrender::pipeline::{
    draw_axis, is_on_screen, render_frame, screen_size, AxisMarks, ScreenTriangle, ScreenVertex, CENTER_COLOR,
    X_AXIS_COLOR, Y_AXIS_COLOR, Z_AXIS_COLOR,
};

const FILL: [u8; 4] = [10, 20, 30, 255];
const BLACK: [u8; 4] = [0, 0, 0, 255];

fn at(x: i32, y: i32) -> ScreenVertex {
    ScreenVertex { truncated: Point { x, y }, rounded: Point { x, y } }
}

fn shape(a: (i32, i32), b: (i32, i32), c: (i32, i32)) -> ScreenTriangle {
    ScreenTriangle { a: at(a.0, a.1), b: at(b.0, b.1), c: at(c.0, c.1) }
}

fn away() -> AxisMarks {
    let off = Point { x: -1, y: -1 };
    AxisMarks { origin: off, x: off, y: off, z: off }
}

fn get(frame: &[u8], width: i32, x: i32, y: i32) -> [u8; 4] {
    let i = ((y * width + x) * 4) as usize;
    [frame[i], frame[i + 1], frame[i + 2], frame[i + 3]]
}

fn count(frame: &[u8], color: [u8; 4]) -> usize {
    frame.chunks(4).filter(|px| *px == color).count()
}

#[test]
fn on_screen_is_strict() {
    let size = Size { width: 10, height: 8 };
    assert!(is_on_screen(Point { x: 1, y: 1 }, size));
    assert!(is_on_screen(Point { x: 9, y: 7 }, size));
    assert!(!is_on_screen(Point { x: 0, y: 3 }, size));
    assert!(!is_on_screen(Point { x: 3, y: 0 }, size));
    assert!(!is_on_screen(Point { x: 10, y: 3 }, size));
    assert!(!is_on_screen(Point { x: 3, y: 8 }, size));
    assert!(!is_on_screen(Point { x: -4, y: -4 }, size));
}

#[test]
fn empty_scene_is_background_and_center() {
    let size = Size { width: 8, height: 6 };
    let mut frame = vec![77u8; 8 * 6 * 4];
    render_frame(&mut frame, size, &[], FILL, &away());
    assert_eq!(get(&frame, 8, 4, 3), CENTER_COLOR);
    assert_eq!(count(&frame, BLACK), 8 * 6 - 1);
}

#[test]
fn triangle_on_screen_is_filled() {
    let size = Size { width: 16, height: 16 };
    let mut frame = vec![0u8; 16 * 16 * 4];
    render_frame(&mut frame, size, &[shape((1, 1), (5, 1), (1, 5))], FILL, &away());
    assert_eq!(count(&frame, FILL), 10);
    assert_eq!(get(&frame, 16, 1, 1), FILL);
    assert_eq!(get(&frame, 16, 4, 1), FILL);
    assert_eq!(get(&frame, 16, 5, 1), BLACK);
}

#[test]
fn triangle_with_a_corner_off_screen_is_dropped() {
    let size = Size { width: 16, height: 16 };
    for t in [
        shape((0, 1), (5, 1), (1, 5)),
        shape((1, 1), (16, 1), (1, 5)),
        shape((1, 1), (5, 1), (1, 16)),
        shape((1, 0), (5, 1), (1, 5)),
        shape((-3, -3), (5, 1), (1, 5)),
    ] {
        let mut frame = vec![0u8; 16 * 16 * 4];
        render_frame(&mut frame, size, &[t], FILL, &away());
        assert_eq!(count(&frame, FILL), 0);
    }
}

#[test]
fn truncated_corner_decides_and_rounded_corner_is_drawn() {
    let size = Size { width: 16, height: 16 };
    // projected to x = 0.6: cut to 0, which is off screen, though it rounds to 1
    let grazing = ScreenVertex { truncated: Point { x: 0, y: 1 }, rounded: Point { x: 1, y: 1 } };
    let t = ScreenTriangle { a: grazing, b: at(5, 1), c: at(1, 5) };
    let mut frame = vec![0u8; 16 * 16 * 4];
    render_frame(&mut frame, size, &[t], FILL, &away());
    assert_eq!(count(&frame, FILL), 0);
    // projected to 1.6: cut to 1, drawn at 2
    let inside = ScreenVertex { truncated: Point { x: 1, y: 1 }, rounded: Point { x: 2, y: 2 } };
    let t = ScreenTriangle { a: inside, b: at(6, 2), c: at(2, 6) };
    let mut frame = vec![0u8; 16 * 16 * 4];
    render_frame(&mut frame, size, &[t], FILL, &away());
    assert_eq!(count(&frame, FILL), 10);
    assert_eq!(get(&frame, 16, 2, 2), FILL);
    assert_eq!(get(&frame, 16, 1, 1), BLACK);
}

#[test]
fn markers_are_drawn_over_triangles_in_order() {
    let size = Size { width: 16, height: 16 };
    let marks = AxisMarks {
        origin: Point { x: 3, y: 3 },
        x: Point { x: 6, y: 3 },
        y: Point { x: 3, y: 6 },
        z: Point { x: 1, y: 1 },
    };
    let mut frame = vec![0u8; 16 * 16 * 4];
    render_frame(&mut frame, size, &[shape((1, 1), (12, 1), (1, 12))], FILL, &marks);
    assert_eq!(get(&frame, 16, 4, 3), X_AXIS_COLOR);
    assert_eq!(get(&frame, 16, 6, 3), X_AXIS_COLOR);
    assert_eq!(get(&frame, 16, 3, 5), Y_AXIS_COLOR);
    assert_eq!(get(&frame, 16, 2, 2), Z_AXIS_COLOR);
    // the origin belongs to all three lines; the last one drawn shows
    assert_eq!(get(&frame, 16, 3, 3), Z_AXIS_COLOR);
    assert_eq!(get(&frame, 16, 8, 8), CENTER_COLOR);
    assert_eq!(get(&frame, 16, 2, 4), FILL);
}

#[test]
fn marker_with_an_end_off_screen_is_left_out() {
    let size = Size { width: 8, height: 8 };
    let mut frame = vec![0u8; 8 * 8 * 4];
    draw_axis(&mut frame, size, Point { x: 2, y: 2 }, Point { x: 8, y: 2 }, X_AXIS_COLOR);
    assert!(frame.iter().all(|b| *b == 0));
    draw_axis(&mut frame, size, Point { x: 0, y: 2 }, Point { x: 5, y: 2 }, X_AXIS_COLOR);
    assert!(frame.iter().all(|b| *b == 0));
    draw_axis(&mut frame, size, Point { x: 2, y: 2 }, Point { x: 5, y: 2 }, X_AXIS_COLOR);
    assert_eq!(count(&frame, X_AXIS_COLOR), 4);
}

#[test]
fn later_triangles_cover_earlier_ones() {
    let size = Size { width: 16, height: 16 };
    let shapes = [shape((1, 1), (9, 1), (1, 9)), shape((2, 2), (4, 2), (2, 4))];
    let mut frame = vec![0u8; 16 * 16 * 4];
    render_frame(&mut frame, size, &shapes, FILL, &away());
    assert_eq!(count(&frame, FILL), 36);
}

#[test]
fn center_pixel_of_odd_sizes() {
    let size = Size { width: 5, height: 3 };
    let mut frame = vec![0u8; 5 * 3 * 4];
    render_frame(&mut frame, size, &[], FILL, &away());
    assert_eq!(get(&frame, 5, 2, 1), CENTER_COLOR);
}

#[test]
fn render_on_an_empty_buffer() {
    let mut frame: Vec<u8> = Vec::new();
    render_frame(&mut frame, Size { width: 0, height: 0 }, &[shape((1, 1), (5, 1), (1, 5))], FILL, &away());
    assert!(frame.is_empty());
}

#[test]
fn screen_size_divides_the_window() {
    assert_eq!(screen_size(1920, 1080, 4), Size { width: 480, height: 270 });
    assert_eq!(screen_size(1921, 1083, 4), Size { width: 480, height: 270 });
    assert_eq!(screen_size(3, 2, 4), Size { width: 0, height: 0 });
    assert_eq!(screen_size(800, 600, 1), Size { width: 800, height: 600 });
    assert_eq!(screen_size(u32::MAX, 0, 1), Size { width: i32::MAX, height: 0 });
    assert_eq!(screen_size(u32::MAX, 8, u32::MAX), Size { width: 0, height: 0 });
}
