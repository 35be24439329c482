//! Drawing primitives on a flat RGBA byte buffer.
//!
//! Every primitive is total: a pixel that the buffer does not hold is skipped,
//! never an error.

use vstd::prelude::*;
use crate::coverage;
use crate::frame::{
    above, blank, holds, lemma_byte_position, lemma_painted_agree, lemma_painted_nothing,
    lemma_painted_twice, lemma_pixel_fits, lemma_unheld_pixel, offset, painted, rows,
};
use crate::geometry::{Point, Size};
use crate::segment;

verus! {

/// Makes every pixel black and fully opaque: each byte becomes 0, except the
/// fourth byte of every group of four, which becomes 255.
pub fn clear(frame: &mut [u8])
    ensures
        final(frame)@ == blank(old(frame)@.len()),
{
    let n = frame.len();
    let mut i: usize = 0;
    while i < n
        invariant
            i <= n,
            n == frame@.len(),
            frame@.len() == old(frame)@.len(),
            forall|j: int| 0 <= j < i ==> frame@[j] == blank(n as nat)[j],
        decreases n - i,
    {
        if i % 4 == 3 {
            frame[i] = 255;
        } else {
            frame[i] = 0;
        }
        i += 1;
    }
    assert(frame@ =~= blank(n as nat));
}

/// Number of complete pixel rows in a buffer of `len` bytes at the given width.
fn row_count(len: usize, width: i32) -> (r: u64)
    ensures
        r == rows(len as int, width as int),
{
    if width <= 0 {
        0
    } else {
        (len as u64) / (4 * (width as u64))
    }
}

/// Writes one pixel that the buffer is known to hold.
fn put(frame: &mut [u8], width: i32, x: i32, y: i32, color: [u8; 4])
    requires
        old(frame)@.len() <= usize::MAX,
        holds(old(frame)@.len() as int, width as int, x as int, y as int),
    ensures
        final(frame)@ == painted(old(frame)@, width as int, set![(x as int, y as int)], color@),
{
    proof {
        lemma_pixel_fits(frame@.len() as int, width as int, x as int, y as int);
    }
    let row: u64 = y as u64;
    let stride: u64 = width as u64;
    let at: usize = ((row * stride + x as u64) * 4) as usize;
    assert(at == offset(width as int, x as int, y as int));
    frame[at] = color[0];
    frame[at + 1] = color[1];
    frame[at + 2] = color[2];
    frame[at + 3] = color[3];
    proof {
        let before = old(frame)@;
        let after = painted(before, width as int, set![(x as int, y as int)], color@);
        assert forall|i: int| 0 <= i < before.len() implies frame@[i] == after[i] by {
            lemma_byte_position(width as int, x as int, y as int, i);
        }
        assert(frame@ =~= after);
    }
}

/// Writes one RGBA pixel at `position` if the buffer holds that pixel: if
/// `0 <= x < width` and `y` is one of the complete rows of the buffer.
/// Otherwise the buffer is left as it is.
pub fn pixel(frame: &mut [u8], width: i32, position: Point, color: [u8; 4])
    ensures
        final(frame)@ == painted(old(frame)@, width as int, set![position.pos()], color@),
        !holds(old(frame)@.len() as int, width as int, position.x as int, position.y as int)
            ==> final(frame)@ == old(frame)@,
{
    let height = row_count(frame.len(), width);
    if 0 <= position.x && position.x < width && 0 <= position.y && (position.y as u64) < height {
        put(frame, width, position.x, position.y, color);
    } else {
        proof {
            lemma_unheld_pixel(frame@, width as int, position.pos(), color@);
        }
    }
}

/// Number of rows that drawing at `size` may touch: the rows of `size` that
/// the buffer holds completely.
fn row_limit(len: usize, size: Size) -> (limit: i64)
    ensures
        limit <= size.height,
        limit <= rows(len as int, size.width as int),
        limit == size.height || limit == rows(len as int, size.width as int),
{
    let held = row_count(len, size.width);
    if held >= size.height as u64 || size.height < 0 {
        size.height as i64
    } else {
        held as i64
    }
}

/// Draws the straight line from `from` to `to`, both endpoints included, one
/// pixel for each step along the longer axis and each as near to the exact
/// line as a pixel can be. Works in integers, without division, in every
/// direction. Pixels outside `size` or outside the buffer are skipped one by
/// one; the rest of the line is drawn.
pub fn line(frame: &mut [u8], size: Size, from: Point, to: Point, color: [u8; 4])
    ensures
        final(frame)@ == painted(
            old(frame)@,
            size.width as int,
            above(segment::pixels(from.pos(), to.pos()), size.height as int),
            color@,
        ),
{
    let len = frame.len();
    let limit = row_limit(len, size);
    let dx: i64 = to.x as i64 - from.x as i64;
    let dy: i64 = to.y as i64 - from.y as i64;
    let across: i64 = if dx < 0 { -dx } else { dx };
    let down: i64 = if dy < 0 { -dy } else { dy };
    let steep = down > across;
    let long: i64 = if steep { down } else { across };
    let short: i64 = if steep { across } else { down };
    let mut x: i64 = from.x as i64;
    let mut y: i64 = from.y as i64;
    let mut slack: i64 = long;
    let mut k: i64 = 0;
    proof {
        segment::lemma_endpoints(from.pos(), to.pos());
        if long > 0 {
            segment::lemma_drift_ends(long as int, short as int);
        }
        assert(segment::pixels_before(from.pos(), to.pos(), 0) =~= Set::empty());
        assert(above(Set::<(int, int)>::empty(), size.height as int) =~= Set::empty());
        lemma_painted_nothing(frame@, size.width as int, color@);
    }
    while k <= long
        invariant
            len == frame@.len(),
            dx == to.x - from.x,
            dy == to.y - from.y,
            across == segment::magnitude(dx as int),
            down == segment::magnitude(dy as int),
            steep == (down > across),
            long == segment::steps(from.pos(), to.pos()),
            long == (if steep { down } else { across }),
            short == (if steep { across } else { down }),
            0 <= k <= long + 1,
            limit <= size.height,
            limit <= rows(len as int, size.width as int),
            limit == size.height || limit == rows(len as int, size.width as int),
            k <= long ==> (x as int, y as int) == segment::point_at(from.pos(), to.pos(), k as int),
            k <= long && long > 0 ==> slack == segment::slack(long as int, short as int, k as int),
            frame@ == painted(
                old(frame)@,
                size.width as int,
                above(segment::pixels_before(from.pos(), to.pos(), k as int), size.height as int),
                color@,
            ),
        decreases long + 1 - k,
    {
        let ghost drawn = above(
            segment::pixels_before(from.pos(), to.pos(), k as int),
            size.height as int,
        );
        let ghost next = above(
            segment::pixels_before(from.pos(), to.pos(), k + 1),
            size.height as int,
        );
        let ghost here = (x as int, y as int);
        proof {
            segment::lemma_one_more(from.pos(), to.pos(), k as int);
        }
        if 0 <= x && x < size.width as i64 && 0 <= y && y < limit {
            put(frame, size.width, x as i32, y as i32, color);
            proof {
                lemma_painted_twice(old(frame)@, size.width as int, drawn, set![here], color@);
                assert(next =~= drawn.union(set![here]));
            }
        } else {
            proof {
                lemma_painted_agree(old(frame)@, size.width as int, drawn, next, color@);
            }
        }
        if k < long {
            proof {
                segment::lemma_drift_step(long as int, short as int, k as int);
                segment::lemma_drift_error(long as int, short as int, k as int);
                segment::lemma_inside_span(from.pos(), to.pos(), k + 1);
            }
            slack = slack + 2 * short;
            if slack >= 2 * long {
                slack = slack - 2 * long;
                if steep {
                    x = if dx > 0 { x + 1 } else if dx < 0 { x - 1 } else { x };
                } else {
                    y = if dy > 0 { y + 1 } else if dy < 0 { y - 1 } else { y };
                }
            }
            if steep {
                y = if dy > 0 { y + 1 } else { y - 1 };
            } else {
                x = if dx > 0 { x + 1 } else { x - 1 };
            }
        }
        k = k + 1;
    }
}

/// Twice the signed area of the triangle `(u, v, (x, y))`.
fn edge_value(u: Point, v: Point, x: i32, y: i32) -> (e: i128)
    ensures
        e == coverage::edge(u.pos(), v.pos(), (x as int, y as int)),
{
    let ux: i128 = v.x as i128 - u.x as i128;
    let uy: i128 = v.y as i128 - u.y as i128;
    let px: i128 = x as i128 - u.x as i128;
    let py: i128 = y as i128 - u.y as i128;
    assert(-0x1_0000_0000_0000_0000 <= ux * py <= 0x1_0000_0000_0000_0000) by (nonlinear_arith)
        requires
            -0x1_0000_0000 <= ux <= 0x1_0000_0000,
            -0x1_0000_0000 <= py <= 0x1_0000_0000,
    ;
    assert(-0x1_0000_0000_0000_0000 <= uy * px <= 0x1_0000_0000_0000_0000) by (nonlinear_arith)
        requires
            -0x1_0000_0000 <= uy <= 0x1_0000_0000,
            -0x1_0000_0000 <= px <= 0x1_0000_0000,
    ;
    ux * py - uy * px
}

/// Whether the edge from `u` to `v` owns the pixels that lie exactly on it.
fn edge_owns(u: Point, v: Point) -> (owned: bool)
    ensures
        owned == coverage::owns(u.pos(), v.pos()),
{
    v.y < u.y || (v.y == u.y && v.x > u.x)
}

/// Smallest of three.
fn least_of(u: i32, v: i32, w: i32) -> (m: i32)
    ensures
        m == coverage::least(u as int, v as int, w as int),
{
    if u <= v && u <= w {
        u
    } else if v <= w {
        v
    } else {
        w
    }
}

/// Largest of three.
fn most_of(u: i32, v: i32, w: i32) -> (m: i32)
    ensures
        m == coverage::most(u as int, v as int, w as int),
{
    if u >= v && u >= w {
        u
    } else if v >= w {
        v
    } else {
        w
    }
}

/// The pixels of `area` in the columns `left..=right` that a row-by-row sweep
/// from row `top` has passed when it stands at column `x` of row `y`.
spec fn swept(
    area: Set<(int, int)>,
    left: int,
    right: int,
    top: int,
    x: int,
    y: int,
) -> Set<(int, int)> {
    Set::new(
        |p: (int, int)|
            area.contains(p) && left <= p.0 <= right && (top <= p.1 < y || (p.1 == y && p.0 < x)),
    )
}

/// Fills the triangle with corners `a`, `b`, `c` with one colour. A pixel is
/// filled if it lies strictly inside the triangle, or on a left edge or a
/// flat top edge of it. The order of the corners does not matter, and a
/// triangle without area fills nothing. Pixels outside `size` or outside the
/// buffer are skipped.
pub fn triangle(frame: &mut [u8], size: Size, a: Point, b: Point, c: Point, color: [u8; 4])
    ensures
        final(frame)@ == painted(
            old(frame)@,
            size.width as int,
            above(coverage::pixels(a.pos(), b.pos(), c.pos()), size.height as int),
            color@,
        ),
{
    let ghost area = coverage::pixels(a.pos(), b.pos(), c.pos());
    let len = frame.len();
    let limit = row_limit(len, size);
    let turn = edge_value(a, b, c.x, c.y);
    if turn == 0 || size.width <= 0 || limit <= 0 {
        proof {
            if turn == 0 {
                coverage::lemma_flat_is_empty(a.pos(), b.pos(), c.pos());
            }
            lemma_painted_agree(
                frame@,
                size.width as int,
                above(area, size.height as int),
                Set::empty(),
                color@,
            );
            lemma_painted_nothing(frame@, size.width as int, color@);
        }
        return ;
    }
    let (b, c) = if turn < 0 {
        (c, b)
    } else {
        (b, c)
    };
    proof {
        coverage::lemma_any_order(a.pos(), b.pos(), c.pos());
        coverage::lemma_area_symmetry(a.pos(), b.pos(), c.pos());
    }
    let left = least_of(a.x, b.x, c.x);
    let right = most_of(a.x, b.x, c.x);
    let top = least_of(a.y, b.y, c.y);
    let bottom = most_of(a.y, b.y, c.y);
    let left: i32 = if left < 0 { 0 } else { left };
    let top: i32 = if top < 0 { 0 } else { top };
    let right: i32 = if right >= size.width { size.width - 1 } else { right };
    let bottom: i32 = if bottom as i64 >= limit { (limit - 1) as i32 } else { bottom };
    proof {
        assert(swept(area, left as int, right as int, top as int, left as int, top as int)
            =~= Set::empty());
        lemma_painted_nothing(frame@, size.width as int, color@);
    }
    let owned_ab = edge_owns(a, b);
    let owned_bc = edge_owns(b, c);
    let owned_ca = edge_owns(c, a);
    let fall_ab: i128 = b.y as i128 - a.y as i128;
    let fall_bc: i128 = c.y as i128 - b.y as i128;
    let fall_ca: i128 = a.y as i128 - c.y as i128;
    let mut y: i32 = top;
    while y <= bottom
        invariant
            len == frame@.len(),
            area == coverage::pixels(a.pos(), b.pos(), c.pos()),
            coverage::edge(a.pos(), b.pos(), c.pos()) > 0,
            owned_ab == coverage::owns(a.pos(), b.pos()),
            owned_bc == coverage::owns(b.pos(), c.pos()),
            owned_ca == coverage::owns(c.pos(), a.pos()),
            fall_ab == b.y - a.y,
            fall_bc == c.y - b.y,
            fall_ca == a.y - c.y,
            0 <= left,
            right < size.width,
            0 <= top <= y,
            bottom < limit,
            limit <= size.height,
            limit <= rows(len as int, size.width as int),
            y <= bottom + 1 || y == top,
            frame@ == painted(
                old(frame)@,
                size.width as int,
                swept(area, left as int, right as int, top as int, left as int, y as int),
                color@,
            ),
        decreases bottom + 1 - y,
    {
        let mut e_ab = edge_value(a, b, left, y);
        let mut e_bc = edge_value(b, c, left, y);
        let mut e_ca = edge_value(c, a, left, y);
        let mut x: i32 = left;
        while x <= right
            invariant
                len == frame@.len(),
                area == coverage::pixels(a.pos(), b.pos(), c.pos()),
                coverage::edge(a.pos(), b.pos(), c.pos()) > 0,
                owned_ab == coverage::owns(a.pos(), b.pos()),
                owned_bc == coverage::owns(b.pos(), c.pos()),
                owned_ca == coverage::owns(c.pos(), a.pos()),
                fall_ab == b.y - a.y,
                fall_bc == c.y - b.y,
                fall_ca == a.y - c.y,
                e_ab == coverage::edge(a.pos(), b.pos(), (x as int, y as int)),
                e_bc == coverage::edge(b.pos(), c.pos(), (x as int, y as int)),
                e_ca == coverage::edge(c.pos(), a.pos(), (x as int, y as int)),
                0 <= left <= x,
                right < size.width,
                x <= right + 1 || x == left,
                0 <= top <= y <= bottom,
                bottom < limit,
                limit <= size.height,
                limit <= rows(len as int, size.width as int),
                frame@ == painted(
                    old(frame)@,
                    size.width as int,
                    swept(area, left as int, right as int, top as int, x as int, y as int),
                    color@,
                ),
            decreases right + 1 - x,
        {
            let ghost here = (x as int, y as int);
            let ghost before = swept(
                area,
                left as int,
                right as int,
                top as int,
                x as int,
                y as int,
            );
            let ghost after = swept(
                area,
                left as int,
                right as int,
                top as int,
                x + 1,
                y as int,
            );
            if (e_ab > 0 || (e_ab == 0 && owned_ab)) && (e_bc > 0 || (e_bc == 0 && owned_bc)) && (
            e_ca > 0 || (e_ca == 0 && owned_ca)) {
                put(frame, size.width, x, y, color);
                proof {
                    lemma_painted_twice(old(frame)@, size.width as int, before, set![here], color@);
                    assert(after =~= before.union(set![here]));
                }
            } else {
                proof {
                    assert(after =~= before);
                }
            }
            proof {
                coverage::lemma_edge_step(a.pos(), b.pos(), here);
                coverage::lemma_edge_step(b.pos(), c.pos(), here);
                coverage::lemma_edge_step(c.pos(), a.pos(), here);
                coverage::lemma_edge_bound(a.pos(), b.pos(), (x + 1, y as int));
                coverage::lemma_edge_bound(b.pos(), c.pos(), (x + 1, y as int));
                coverage::lemma_edge_bound(c.pos(), a.pos(), (x + 1, y as int));
            }
            e_ab = e_ab - fall_ab;
            e_bc = e_bc - fall_bc;
            e_ca = e_ca - fall_ca;
            x = x + 1;
        }
        proof {
            assert(swept(area, left as int, right as int, top as int, x as int, y as int)
                =~= swept(area, left as int, right as int, top as int, left as int, y + 1));
        }
        y = y + 1;
    }
    proof {
        let done = swept(area, left as int, right as int, top as int, left as int, y as int);
        assert forall|px: int, py: int| #[trigger]
            holds(old(frame)@.len() as int, size.width as int, px, py) implies (done.contains(
            (px, py),
        ) <==> above(area, size.height as int).contains((px, py))) by {
            if area.contains((px, py)) {
                coverage::lemma_inside_span(a.pos(), b.pos(), c.pos(), (px, py));
            }
        }
        lemma_painted_agree(
            old(frame)@,
            size.width as int,
            done,
            above(area, size.height as int),
            color@,
        );
    }
}

} // verus!
