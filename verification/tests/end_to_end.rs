use glam::camera::rh::proj::directx::perspective;
use glam::{Mat4, Vec3};
use softrender::geometry::{Point, Size};
use softrender::mesh::{load_from_obj, Triangle, Vertex};
use softrender::pipeline::{render_frame, AxisMarks, ScreenTriangle, ScreenVertex};
use softrender::text::Span;

const FILL: [u8; 4] = [200, 100, 50, 255];
const SIZE: Size = Size { width: 64, height: 64 };

fn number(text: &[u8], span: Span) -> f32 {
    std::str::from_utf8(&text[span.start..span.end]).unwrap().parse().unwrap()
}

fn point(text: &[u8], v: &Vertex) -> Vec3 {
    Vec3::new(number(text, v.x), number(text, v.y), number(text, v.z))
}

fn project(matrix: Mat4, p: Vec3) -> Vec3 {
    let projected = matrix * p.extend(1.0);
    let divided = projected / projected.w;
    let flipped = divided.truncate() * Vec3::new(1.0, -1.0, 1.0);
    (flipped + 1.0) * (0.5 * Vec3::new(SIZE.width as f32, SIZE.height as f32, 0.0))
}

fn on_screen(p: Vec3) -> ScreenVertex {
    let cut = p.as_ivec3();
    let near = p.round().as_ivec3();
    ScreenVertex {
        truncated: Point { x: cut.x, y: cut.y },
        rounded: Point { x: near.x, y: near.y },
    }
}

fn faces_camera(corners: [Vec3; 3], eye: Vec3) -> bool {
    let normal = (corners[1] - corners[0]).cross(corners[2] - corners[0]).normalize();
    let centroid = (corners[0] + corners[1] + corners[2]) / 3.0;
    normal.dot(eye - centroid) >= 0.0
}

fn frame_from(eye: Vec3, text: &[u8], mesh: &[Triangle]) -> Vec<u8> {
    let projection = perspective(1.0, 1.0, 0.1, 100.0);
    let matrix = projection * Mat4::from_translation(-eye);
    let mut shapes = Vec::new();
    for t in mesh {
        let corners = [point(text, &t.a), point(text, &t.b), point(text, &t.c)];
        if faces_camera(corners, eye) {
            shapes.push(ScreenTriangle {
                a: on_screen(project(matrix, corners[0])),
                b: on_screen(project(matrix, corners[1])),
                c: on_screen(project(matrix, corners[2])),
            });
        }
    }
    let away = Point { x: -1, y: -1 };
    let marks = AxisMarks { origin: away, x: away, y: away, z: away };
    let mut frame = vec![0u8; (SIZE.width * SIZE.height * 4) as usize];
    render_frame(&mut frame, SIZE, &shapes, FILL, &marks);
    frame
}

fn filled(frame: &[u8]) -> usize {
    frame.chunks(4).filter(|px| *px == FILL).count()
}

#[test]
fn triangle_seen_from_its_front_is_drawn() {
    let text = b"v 0 0 0\nv 1 0 0\nv 0 1 0\nf 1 2 3";
    let mesh = load_from_obj(text).unwrap();
    let frame = frame_from(Vec3::new(0.3, 0.3, 2.0), text, &mesh);
    assert!(filled(&frame) > 100);
}

#[test]
fn triangle_seen_from_its_back_is_not_drawn() {
    let text = b"v 0 0 0\nv 1 0 0\nv 0 1 0\nf 1 2 3";
    let mesh = load_from_obj(text).unwrap();
    let frame = frame_from(Vec3::new(0.3, 0.3, -2.0), text, &mesh);
    assert_eq!(filled(&frame), 0);
    // nothing but the background and the marker at the centre
    let black = frame.chunks(4).filter(|px| *px == [0, 0, 0, 255]).count();
    assert_eq!(black, 64 * 64 - 1);
}

#[test]
fn triangle_wound_the_other_way_faces_the_other_way() {
    let text = b"v 0 0 0\nv 1 0 0\nv 0 1 0\nf 3 2 1";
    let mesh = load_from_obj(text).unwrap();
    assert_eq!(filled(&frame_from(Vec3::new(0.3, 0.3, 2.0), text, &mesh)), 0);
}
