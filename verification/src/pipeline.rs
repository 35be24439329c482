//! The screen-space half of a frame: which projected triangles are drawn,
//! in which order, and what is drawn on top of them.
//!
//! Projection itself is the caller's business. Each projected vertex arrives
//! in two integer forms: truncated towards zero, which decides whether it is
//! on screen, and rounded to nearest, which is where it is drawn.

use vstd::prelude::*;
use crate::coverage;
use crate::draw;
use crate::frame::{
    above, blank, holds, lemma_blank_pixel, lemma_painted_pixel, painted, pixel_at,
};
use crate::geometry::{Point, Size};
use crate::segment;

verus! {

/// Colour of the marker line along the world's x axis.
pub const X_AXIS_COLOR: [u8; 4] = [255, 0, 0, 255];

/// Colour of the marker line along the world's y axis.
pub const Y_AXIS_COLOR: [u8; 4] = [0, 255, 0, 255];

/// Colour of the marker line along the world's z axis.
pub const Z_AXIS_COLOR: [u8; 4] = [0, 0, 255, 255];

/// Colour of the marker pixel at the centre of the screen.
pub const CENTER_COLOR: [u8; 4] = [255, 255, 255, 255];

/// A vertex projected to screen space.
#[derive(Clone, Copy, Debug, PartialEq, Eq, Structural)]
pub struct ScreenVertex {
    /// The projected position with its fraction cut off.
    pub truncated: Point,
    /// The projected position rounded to the nearest pixel.
    pub rounded: Point,
}

/// A triangle projected to screen space.
#[derive(Clone, Copy, Debug, PartialEq, Eq, Structural)]
pub struct ScreenTriangle {
    pub a: ScreenVertex,
    pub b: ScreenVertex,
    pub c: ScreenVertex,
}

/// The projected, rounded positions of the world's origin and of the points
/// one unit along each of its axes.
#[derive(Clone, Copy, Debug, PartialEq, Eq, Structural)]
pub struct AxisMarks {
    pub origin: Point,
    pub x: Point,
    pub y: Point,
    pub z: Point,
}

/// Whether a point lies strictly inside the screen rectangle from `(0, 0)`
/// to `(width, height)`. Points in column 0 or row 0 are not on screen.
pub open spec fn on_screen(point: Point, size: Size) -> bool {
    0 < point.x < size.width && 0 < point.y < size.height
}

impl ScreenTriangle {
    /// Whether all three corners are on screen. A triangle with a corner off
    /// screen is dropped whole, not clipped.
    pub open spec fn on_screen(self, size: Size) -> bool {
        on_screen(self.a.truncated, size) && on_screen(self.b.truncated, size) && on_screen(
            self.c.truncated,
            size,
        )
    }

    /// The pixels that the triangle fills where it is drawn.
    pub open spec fn pixels(self) -> Set<(int, int)> {
        coverage::pixels(self.a.rounded.pos(), self.b.rounded.pos(), self.c.rounded.pos())
    }

    /// Whether all three corners are on screen.
    pub fn is_on_screen(&self, size: Size) -> (shown: bool)
        ensures
            shown == self.on_screen(size),
    {
        is_on_screen(self.a.truncated, size) && is_on_screen(self.b.truncated, size)
            && is_on_screen(self.c.truncated, size)
    }
}

/// Whether a point lies strictly inside the screen rectangle.
pub fn is_on_screen(point: Point, size: Size) -> (shown: bool)
    ensures
        shown == on_screen(point, size),
{
    point.x > 0 && point.y > 0 && point.x < size.width && point.y < size.height
}

/// The length of a screen side in pixels for a window side of `extent`,
/// drawn at one pixel for `scale` of the window's. Window sides beyond the
/// range of a pixel position count as the largest one.
pub open spec fn scaled(extent: u32, scale: u32) -> int {
    (if extent > i32::MAX {
        i32::MAX as int
    } else {
        extent as int
    }) / (scale as int)
}

/// The size of the screen for a window of the given size and an integer
/// downscale factor.
pub fn screen_size(width: u32, height: u32, scale: u32) -> (size: Size)
    requires
        scale > 0,
    ensures
        size.width == scaled(width, scale),
        size.height == scaled(height, scale),
{
    let wide: u32 = if width > 0x7fff_ffff { 0x7fff_ffff } else { width };
    let high: u32 = if height > 0x7fff_ffff { 0x7fff_ffff } else { height };
    Size { width: (wide / scale) as i32, height: (high / scale) as i32 }
}

/// Half of a length, rounded towards zero.
pub open spec fn half(v: int) -> int {
    if v >= 0 {
        v / 2
    } else {
        -((-v) / 2)
    }
}

/// The pixel at the centre of a screen.
pub open spec fn center(size: Size) -> (int, int) {
    (half(size.width as int), half(size.height as int))
}

/// The frame after one more triangle: filled with `fill` if the triangle is
/// on screen, untouched if not.
pub open spec fn with_triangle(
    frame: Seq<u8>,
    size: Size,
    shape: ScreenTriangle,
    fill: Seq<u8>,
) -> Seq<u8> {
    if shape.on_screen(size) {
        painted(frame, size.width as int, above(shape.pixels(), size.height as int), fill)
    } else {
        frame
    }
}

/// The frame after the first `n` triangles, drawn in their order.
pub open spec fn with_triangles(
    frame: Seq<u8>,
    size: Size,
    shapes: Seq<ScreenTriangle>,
    fill: Seq<u8>,
    n: nat,
) -> Seq<u8>
    decreases n,
{
    if n == 0 {
        frame
    } else {
        with_triangle(
            with_triangles(frame, size, shapes, fill, (n - 1) as nat),
            size,
            shapes[n - 1],
            fill,
        )
    }
}

/// The frame after one marker line: drawn if both of its ends are on screen,
/// left out if not.
pub open spec fn with_marker(
    frame: Seq<u8>,
    size: Size,
    from: Point,
    to: Point,
    color: Seq<u8>,
) -> Seq<u8> {
    if on_screen(from, size) && on_screen(to, size) {
        painted(
            frame,
            size.width as int,
            above(segment::pixels(from.pos(), to.pos()), size.height as int),
            color,
        )
    } else {
        frame
    }
}

/// A whole frame on a buffer of `len` bytes: a black opaque background, the
/// triangles that are on screen in their order, then the three axis markers
/// in the order x, y, z, then the centre pixel.
pub open spec fn rendered(
    len: nat,
    size: Size,
    shapes: Seq<ScreenTriangle>,
    fill: Seq<u8>,
    marks: AxisMarks,
) -> Seq<u8> {
    let filled = with_triangles(blank(len), size, shapes, fill, shapes.len());
    let with_x = with_marker(filled, size, marks.origin, marks.x, X_AXIS_COLOR@);
    let with_y = with_marker(with_x, size, marks.origin, marks.y, Y_AXIS_COLOR@);
    let with_z = with_marker(with_y, size, marks.origin, marks.z, Z_AXIS_COLOR@);
    painted(with_z, size.width as int, set![center(size)], CENTER_COLOR@)
}

/// Draws one axis marker from `from` to `to` if both ends are on screen.
pub fn draw_axis(frame: &mut [u8], size: Size, from: Point, to: Point, color: [u8; 4])
    ensures
        final(frame)@ == with_marker(old(frame)@, size, from, to, color@),
{
    if is_on_screen(from, size) && is_on_screen(to, size) {
        draw::line(frame, size, from, to, color);
    }
}

/// Renders one frame into the buffer: clears it, fills every triangle that
/// is on screen with `fill`, in the order given, then draws the axis markers
/// and the centre pixel. What the buffer held before does not matter.
pub fn render_frame(
    frame: &mut [u8],
    size: Size,
    shapes: &[ScreenTriangle],
    fill: [u8; 4],
    marks: &AxisMarks,
)
    ensures
        final(frame)@ == rendered(old(frame)@.len(), size, shapes@, fill@, *marks),
{
    draw::clear(frame);
    let n = shapes.len();
    let mut i: usize = 0;
    while i < n
        invariant
            i <= n,
            n == shapes@.len(),
            frame@ == with_triangles(blank(old(frame)@.len()), size, shapes@, fill@, i as nat),
        decreases n - i,
    {
        let shape = shapes[i];
        if shape.is_on_screen(size) {
            draw::triangle(frame, size, shape.a.rounded, shape.b.rounded, shape.c.rounded, fill);
        }
        i += 1;
    }
    draw_axis(frame, size, marks.origin, marks.x, X_AXIS_COLOR);
    draw_axis(frame, size, marks.origin, marks.y, Y_AXIS_COLOR);
    draw_axis(frame, size, marks.origin, marks.z, Z_AXIS_COLOR);
    let middle = Point { x: size.width / 2, y: size.height / 2 };
    draw::pixel(frame, size.width, middle, CENTER_COLOR);
}

/// Whether one of the first `n` triangles is on screen and fills the pixel `p`.
pub open spec fn filled_at(size: Size, shapes: Seq<ScreenTriangle>, n: nat, p: (int, int)) -> bool {
    exists|i: int|
        0 <= i < n && (#[trigger] shapes[i]).on_screen(size) && shapes[i].pixels().contains(p)
}

/// Whether the marker line from `from` to `to` is drawn and passes through `p`.
pub open spec fn marked_at(size: Size, from: Point, to: Point, p: (int, int)) -> bool {
    on_screen(from, size) && on_screen(to, size) && segment::pixels(from.pos(), to.pos()).contains(
        p,
    )
}

/// The colour of the pixel `p` in a rendered frame: what was drawn there
/// last. The centre pixel comes last, before it the z, y and x markers,
/// before them the triangles, and under everything the black background.
pub open spec fn colour_at(
    size: Size,
    shapes: Seq<ScreenTriangle>,
    fill: Seq<u8>,
    marks: AxisMarks,
    p: (int, int),
) -> Seq<u8> {
    if p == center(size) {
        CENTER_COLOR@
    } else if p.1 < size.height && marked_at(size, marks.origin, marks.z, p) {
        Z_AXIS_COLOR@
    } else if p.1 < size.height && marked_at(size, marks.origin, marks.y, p) {
        Y_AXIS_COLOR@
    } else if p.1 < size.height && marked_at(size, marks.origin, marks.x, p) {
        X_AXIS_COLOR@
    } else if p.1 < size.height && filled_at(size, shapes, shapes.len(), p) {
        fill
    } else {
        seq![0u8, 0u8, 0u8, 255u8]
    }
}

/// After the first `n` triangles a pixel has the fill colour if one of them
/// is on screen and fills it, and otherwise the colour it had.
pub proof fn lemma_filled_pixel(
    frame: Seq<u8>,
    size: Size,
    shapes: Seq<ScreenTriangle>,
    fill: Seq<u8>,
    n: nat,
    x: int,
    y: int,
)
    requires
        holds(frame.len() as int, size.width as int, x, y),
        fill.len() == 4,
        n <= shapes.len(),
    ensures
        with_triangles(frame, size, shapes, fill, n).len() == frame.len(),
        pixel_at(with_triangles(frame, size, shapes, fill, n), size.width as int, x, y) == (if y
            < size.height && filled_at(size, shapes, n, (x, y)) {
            fill
        } else {
            pixel_at(frame, size.width as int, x, y)
        }),
    decreases n,
{
    if n > 0 {
        let m = (n - 1) as nat;
        lemma_filled_pixel(frame, size, shapes, fill, m, x, y);
        let before = with_triangles(frame, size, shapes, fill, m);
        let shape = shapes[m as int];
        if shape.on_screen(size) {
            lemma_painted_pixel(
                before,
                size.width as int,
                above(shape.pixels(), size.height as int),
                fill,
                x,
                y,
            );
        }
        if filled_at(size, shapes, n, (x, y)) {
            let i = choose|i: int|
                0 <= i < n && (#[trigger] shapes[i]).on_screen(size) && shapes[i].pixels().contains(
                    (x, y),
                );
            if i < m {
                assert(filled_at(size, shapes, m, (x, y)));
            }
        }
        if filled_at(size, shapes, m, (x, y)) {
            let i = choose|i: int|
                0 <= i < m && (#[trigger] shapes[i]).on_screen(size) && shapes[i].pixels().contains(
                    (x, y),
                );
            assert(0 <= i < n);
        }
        if shape.on_screen(size) && shape.pixels().contains((x, y)) {
            assert(shapes[m as int].on_screen(size));
        }
    }
}

/// After a marker line a pixel has the marker's colour if the line is drawn
/// and passes through it, and otherwise the colour it had.
pub proof fn lemma_marked_pixel(
    frame: Seq<u8>,
    size: Size,
    from: Point,
    to: Point,
    color: Seq<u8>,
    x: int,
    y: int,
)
    requires
        holds(frame.len() as int, size.width as int, x, y),
        color.len() == 4,
    ensures
        with_marker(frame, size, from, to, color).len() == frame.len(),
        pixel_at(with_marker(frame, size, from, to, color), size.width as int, x, y) == (if y
            < size.height && marked_at(size, from, to, (x, y)) {
            color
        } else {
            pixel_at(frame, size.width as int, x, y)
        }),
{
    if on_screen(from, size) && on_screen(to, size) {
        lemma_painted_pixel(
            frame,
            size.width as int,
            above(segment::pixels(from.pos(), to.pos()), size.height as int),
            color,
            x,
            y,
        );
    }
}

/// Every pixel of a rendered frame shows what was drawn there last.
pub proof fn lemma_rendered_pixel(
    len: nat,
    size: Size,
    shapes: Seq<ScreenTriangle>,
    fill: Seq<u8>,
    marks: AxisMarks,
    x: int,
    y: int,
)
    requires
        holds(len as int, size.width as int, x, y),
        fill.len() == 4,
    ensures
        pixel_at(rendered(len, size, shapes, fill, marks), size.width as int, x, y) == colour_at(
            size,
            shapes,
            fill,
            marks,
            (x, y),
        ),
{
    let width = size.width as int;
    let filled = with_triangles(blank(len), size, shapes, fill, shapes.len());
    let with_x = with_marker(filled, size, marks.origin, marks.x, X_AXIS_COLOR@);
    let with_y = with_marker(with_x, size, marks.origin, marks.y, Y_AXIS_COLOR@);
    let with_z = with_marker(with_y, size, marks.origin, marks.z, Z_AXIS_COLOR@);
    lemma_blank_pixel(len, width, x, y);
    lemma_filled_pixel(blank(len), size, shapes, fill, shapes.len(), x, y);
    lemma_marked_pixel(filled, size, marks.origin, marks.x, X_AXIS_COLOR@, x, y);
    lemma_marked_pixel(with_x, size, marks.origin, marks.y, Y_AXIS_COLOR@, x, y);
    lemma_marked_pixel(with_y, size, marks.origin, marks.z, Z_AXIS_COLOR@, x, y);
    lemma_painted_pixel(with_z, width, set![center(size)], CENTER_COLOR@, x, y);
}

} // verus!
