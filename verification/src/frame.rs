//! The model of a frame buffer: a flat byte sequence holding RGBA pixels row
//! by row, four bytes each, addressed as `(y * width + x) * 4`.

use vstd::prelude::*;
use vstd::arithmetic::div_mod::lemma_fundamental_div_mod_converse;

verus! {

/// Number of complete pixel rows that a buffer of `len` bytes holds at the
/// given width. A buffer has no rows at a width that is not positive.
pub open spec fn rows(len: int, width: int) -> int {
    if width > 0 {
        len / (4 * width)
    } else {
        0
    }
}

/// Whether the pixel `(x, y)` lies in a buffer of `len` bytes at the given width.
pub open spec fn holds(len: int, width: int, x: int, y: int) -> bool {
    0 <= x < width && 0 <= y < rows(len, width)
}

/// Index of the first byte of pixel `(x, y)`.
pub open spec fn offset(width: int, x: int, y: int) -> int {
    (y * width + x) * 4
}

/// Column of the pixel that byte `i` belongs to.
pub open spec fn column(width: int, i: int) -> int {
    (i / 4) % width
}

/// Row of the pixel that byte `i` belongs to.
pub open spec fn row(width: int, i: int) -> int {
    (i / 4) / width
}

/// Whether byte `i` of a buffer of `len` bytes belongs to a pixel of `area`
/// that the buffer holds.
pub open spec fn covered(len: int, width: int, area: Set<(int, int)>, i: int) -> bool {
    &&& width > 0
    &&& row(width, i) < rows(len, width)
    &&& area.contains((column(width, i), row(width, i)))
}

/// The buffer after every pixel of `area` that it holds has been set to
/// `color`. Pixels of `area` outside the buffer leave no trace.
pub open spec fn painted(frame: Seq<u8>, width: int, area: Set<(int, int)>, color: Seq<u8>) -> Seq<u8> {
    Seq::new(
        frame.len(),
        |i: int|
            if covered(frame.len() as int, width, area, i) {
                color[i % 4]
            } else {
                frame[i]
            },
    )
}

/// The part of `area` that lies above row `height`.
pub open spec fn above(area: Set<(int, int)>, height: int) -> Set<(int, int)> {
    Set::new(|p: (int, int)| area.contains(p) && p.1 < height)
}

/// A buffer of `len` bytes in which every pixel is black and opaque.
pub open spec fn blank(len: nat) -> Seq<u8> {
    Seq::new(
        len,
        |i: int|
            if i % 4 == 3 {
                255u8
            } else {
                0u8
            },
    )
}

/// The four bytes of a pixel that the buffer holds lie inside the buffer.
pub proof fn lemma_pixel_fits(len: int, width: int, x: int, y: int)
    requires
        0 <= len,
        holds(len, width, x, y),
    ensures
        0 <= offset(width, x, y),
        offset(width, x, y) + 4 <= len,
        0 <= y * width,
        (y * width + x) * 4 + 4 <= len,
{
    let r = rows(len, width);
    assert(r * (4 * width) <= len) by {
        vstd::arithmetic::div_mod::lemma_fundamental_div_mod(len, 4 * width);
        vstd::arithmetic::div_mod::lemma_mod_bound(len, 4 * width);
        vstd::arithmetic::mul::lemma_mul_is_commutative(r, 4 * width);
    }
    assert((y + 1) * (4 * width) <= r * (4 * width)) by (nonlinear_arith)
        requires
            y + 1 <= r,
            width > 0,
    ;
    assert((y + 1) * (4 * width) == (y * width + width) * 4) by (nonlinear_arith);
    assert(0 <= y * width) by (nonlinear_arith)
        requires
            0 <= y,
            0 < width,
    ;
}

/// Each byte of pixel `(x, y)` maps back to column `x` and row `y`; every
/// other byte belongs to another pixel.
pub proof fn lemma_byte_position(width: int, x: int, y: int, i: int)
    requires
        0 < width,
        0 <= x < width,
        0 <= y,
        0 <= i,
    ensures
        (offset(width, x, y) <= i < offset(width, x, y) + 4) <==> (column(width, i) == x && row(
            width,
            i,
        ) == y),
        0 <= column(width, i) < width,
        0 <= row(width, i),
{
    let pix = i / 4;
    let at = y * width + x;
    assert(0 <= y * width) by (nonlinear_arith)
        requires
            0 <= y,
            0 < width,
    ;
    assert(pix == (pix / width) * width + pix % width && 0 <= pix % width < width) by {
        vstd::arithmetic::div_mod::lemma_fundamental_div_mod(pix, width);
        vstd::arithmetic::div_mod::lemma_mod_bound(pix, width);
        vstd::arithmetic::mul::lemma_mul_is_commutative(pix / width, width);
    }
    assert(0 <= pix / width) by {
        vstd::arithmetic::div_mod::lemma_div_pos_is_pos(pix, width);
    }
    if at * 4 <= i < at * 4 + 4 {
        assert(pix == at);
        lemma_fundamental_div_mod_converse(at, width, y, x);
    }
    if column(width, i) == x && row(width, i) == y {
        assert(pix == at);
    }
}

/// Two areas that agree on the pixels that the buffer holds paint the same.
pub proof fn lemma_painted_agree(
    frame: Seq<u8>,
    width: int,
    a: Set<(int, int)>,
    b: Set<(int, int)>,
    color: Seq<u8>,
)
    requires
        forall|x: int, y: int| #[trigger]
            holds(frame.len() as int, width, x, y) ==> (a.contains((x, y)) <==> b.contains(
                (x, y),
            )),
    ensures
        painted(frame, width, a, color) == painted(frame, width, b, color),
{
    let len = frame.len() as int;
    assert forall|i: int| 0 <= i < len implies covered(len, width, a, i) == covered(
        len,
        width,
        b,
        i,
    ) by {
        if width > 0 && row(width, i) < rows(len, width) {
            vstd::arithmetic::div_mod::lemma_mod_bound(i / 4, width);
            vstd::arithmetic::div_mod::lemma_div_pos_is_pos(i / 4, width);
            assert(holds(len, width, column(width, i), row(width, i)));
        }
    }
    assert(painted(frame, width, a, color) =~= painted(frame, width, b, color));
}

/// Painting one area and then another with the same colour paints their union.
pub proof fn lemma_painted_twice(
    frame: Seq<u8>,
    width: int,
    a: Set<(int, int)>,
    b: Set<(int, int)>,
    color: Seq<u8>,
)
    ensures
        painted(painted(frame, width, a, color), width, b, color) == painted(
            frame,
            width,
            a.union(b),
            color,
        ),
{
    assert(painted(painted(frame, width, a, color), width, b, color) =~= painted(
        frame,
        width,
        a.union(b),
        color,
    ));
}

/// Painting a single pixel that the buffer does not hold changes nothing.
pub proof fn lemma_unheld_pixel(frame: Seq<u8>, width: int, p: (int, int), color: Seq<u8>)
    requires
        !holds(frame.len() as int, width, p.0, p.1),
    ensures
        painted(frame, width, set![p], color) == frame,
{
    assert forall|i: int| 0 <= i < frame.len() implies painted(frame, width, set![p], color)[i]
        == frame[i] by {
        if width > 0 {
            vstd::arithmetic::div_mod::lemma_mod_bound(i / 4, width);
            vstd::arithmetic::div_mod::lemma_div_pos_is_pos(i / 4, width);
        }
    }
    assert(painted(frame, width, set![p], color) =~= frame);
}

/// Painting nothing leaves the buffer as it is.
pub proof fn lemma_painted_nothing(frame: Seq<u8>, width: int, color: Seq<u8>)
    ensures
        painted(frame, width, Set::empty(), color) == frame,
{
    assert(painted(frame, width, Set::empty(), color) =~= frame);
}

/// The four bytes of pixel `(x, y)`.
pub open spec fn pixel_at(frame: Seq<u8>, width: int, x: int, y: int) -> Seq<u8> {
    frame.subrange(offset(width, x, y), offset(width, x, y) + 4)
}

/// What painting does, pixel by pixel: a pixel of the area takes the colour,
/// every other pixel keeps its own.
pub proof fn lemma_painted_pixel(
    frame: Seq<u8>,
    width: int,
    area: Set<(int, int)>,
    color: Seq<u8>,
    x: int,
    y: int,
)
    requires
        holds(frame.len() as int, width, x, y),
        color.len() == 4,
    ensures
        pixel_at(painted(frame, width, area, color), width, x, y) == (if area.contains((x, y)) {
            color
        } else {
            pixel_at(frame, width, x, y)
        }),
{
    let at = offset(width, x, y);
    let after = painted(frame, width, area, color);
    lemma_pixel_fits(frame.len() as int, width, x, y);
    let expected = if area.contains((x, y)) {
        color
    } else {
        pixel_at(frame, width, x, y)
    };
    assert forall|k: int| 0 <= k < 4 implies #[trigger] pixel_at(after, width, x, y)[k]
        == expected[k] by {
        lemma_byte_position(width, x, y, at + k);
    }
    assert(pixel_at(after, width, x, y) =~= expected);
}

/// In a blank buffer every pixel is black and opaque.
pub proof fn lemma_blank_pixel(len: nat, width: int, x: int, y: int)
    requires
        holds(len as int, width, x, y),
    ensures
        pixel_at(blank(len), width, x, y) == seq![0u8, 0u8, 0u8, 255u8],
{
    lemma_pixel_fits(len as int, width, x, y);
    assert(pixel_at(blank(len), width, x, y) =~= seq![0u8, 0u8, 0u8, 255u8]);
}

} // verus!
