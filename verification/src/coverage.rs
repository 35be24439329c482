//! The pixels of a filled triangle.
//!
//! A pixel belongs to a triangle if it lies strictly inside, or on an edge
//! that the triangle owns. A triangle owns its left edges and its flat top
//! edges, so that of two triangles that share an edge exactly one takes the
//! pixels on it. The order in which the corners are given does not matter.

use vstd::prelude::*;

verus! {

/// Twice the signed area of the triangle `(u, v, p)`: positive where `p` lies
/// on the inner side of the edge from `u` to `v` of a triangle wound like
/// `(0, 0), (1, 0), (0, 1)`, zero where `p` lies on the line through the edge.
pub open spec fn edge(u: (int, int), v: (int, int), p: (int, int)) -> int {
    (v.0 - u.0) * (p.1 - u.1) - (v.1 - u.1) * (p.0 - u.0)
}

/// Whether the edge from `u` to `v` owns the pixels that lie exactly on it:
/// it does if it runs upwards (a left edge), or level and to the right (a top edge).
pub open spec fn owns(u: (int, int), v: (int, int)) -> bool {
    v.1 < u.1 || (v.1 == u.1 && v.0 > u.0)
}

/// Whether `p` is on the inner side of the edge from `u` to `v`, or on the
/// edge and owned by it.
pub open spec fn keeps(u: (int, int), v: (int, int), p: (int, int)) -> bool {
    edge(u, v, p) > 0 || (edge(u, v, p) == 0 && owns(u, v))
}

/// Whether all three edges of the triangle keep `p`, for corners given in
/// the winding that makes `edge(a, b, c)` positive.
pub open spec fn within(a: (int, int), b: (int, int), c: (int, int), p: (int, int)) -> bool {
    keeps(a, b, p) && keeps(b, c, p) && keeps(c, a, p)
}

/// Whether the filled triangle with corners `a`, `b`, `c` contains the pixel `p`.
/// A triangle without area contains nothing.
pub open spec fn inside(a: (int, int), b: (int, int), c: (int, int), p: (int, int)) -> bool {
    let area = edge(a, b, c);
    if area > 0 {
        within(a, b, c, p)
    } else if area < 0 {
        within(a, c, b, p)
    } else {
        false
    }
}

/// All pixels of the filled triangle with corners `a`, `b`, `c`.
pub open spec fn pixels(a: (int, int), b: (int, int), c: (int, int)) -> Set<(int, int)> {
    Set::new(|p: (int, int)| inside(a, b, c, p))
}

/// Smallest of three.
pub open spec fn least(u: int, v: int, w: int) -> int {
    if u <= v && u <= w {
        u
    } else if v <= w {
        v
    } else {
        w
    }
}

/// Largest of three.
pub open spec fn most(u: int, v: int, w: int) -> int {
    if u >= v && u >= w {
        u
    } else if v >= w {
        v
    } else {
        w
    }
}

/// A product of two differences, multiplied out.
proof fn lemma_multiply_out(a: int, b: int, c: int, d: int)
    by (nonlinear_arith)
    ensures
        (a - b) * (c - d) == a * c - a * d - b * c + b * d,
{
}

/// A product does not depend on the order of its factors.
proof fn lemma_swap(a: int, b: int)
    by (nonlinear_arith)
    ensures
        a * b == b * a,
{
}

/// A product of three does not depend on the order of its factors.
proof fn lemma_swap_three(a: int, b: int, c: int)
    by (nonlinear_arith)
    ensures
        a * b * c == a * c * b,
        a * b * c == b * a * c,
        a * b * c == c * b * a,
        a * b * c == b * c * a,
        a * b * c == c * a * b,
{
}

/// A difference times a factor, multiplied out.
proof fn lemma_spread(a: int, b: int, c: int)
    by (nonlinear_arith)
    ensures
        (a - b) * c == a * c - b * c,
        c * (a - b) == c * a - c * b,
{
}

/// The edge value written as a sum of products of coordinates.
proof fn lemma_edge_multiplied_out(u: (int, int), v: (int, int), p: (int, int))
    ensures
        edge(u, v, p) == v.0 * p.1 - v.0 * u.1 - u.0 * p.1 - v.1 * p.0 + v.1 * u.0 + u.1 * p.0,
{
    lemma_multiply_out(v.0, u.0, p.1, u.1);
    lemma_multiply_out(v.1, u.1, p.0, u.0);
    lemma_swap(u.0, u.1);
}

/// The signed area does not change when the corners rotate, and changes sign
/// when two corners swap.
pub proof fn lemma_area_symmetry(a: (int, int), b: (int, int), c: (int, int))
    ensures
        edge(b, c, a) == edge(a, b, c),
        edge(c, a, b) == edge(a, b, c),
        edge(a, c, b) == -edge(a, b, c),
        edge(b, a, c) == -edge(a, b, c),
        edge(c, b, a) == -edge(a, b, c),
{
    lemma_edge_multiplied_out(a, b, c);
    lemma_edge_multiplied_out(b, c, a);
    lemma_edge_multiplied_out(c, a, b);
    lemma_edge_multiplied_out(a, c, b);
    lemma_edge_multiplied_out(b, a, c);
    lemma_edge_multiplied_out(c, b, a);
    lemma_swap(a.0, b.1);
    lemma_swap(a.0, c.1);
    lemma_swap(b.0, a.1);
    lemma_swap(b.0, c.1);
    lemma_swap(c.0, a.1);
    lemma_swap(c.0, b.1);
}

/// The same triangle is filled whatever the order of its corners: all six
/// orders give the same pixels.
pub proof fn lemma_any_order(a: (int, int), b: (int, int), c: (int, int))
    ensures
        pixels(b, c, a) == pixels(a, b, c),
        pixels(c, a, b) == pixels(a, b, c),
        pixels(a, c, b) == pixels(a, b, c),
        pixels(b, a, c) == pixels(a, b, c),
        pixels(c, b, a) == pixels(a, b, c),
{
    lemma_area_symmetry(a, b, c);
    assert(pixels(b, c, a) =~= pixels(a, b, c));
    assert(pixels(c, a, b) =~= pixels(a, b, c));
    assert(pixels(a, c, b) =~= pixels(a, b, c));
    assert(pixels(b, a, c) =~= pixels(a, b, c));
    assert(pixels(c, b, a) =~= pixels(a, b, c));
}

/// A triangle whose corners lie on one line has no pixels.
pub proof fn lemma_flat_is_empty(a: (int, int), b: (int, int), c: (int, int))
    requires
        edge(a, b, c) == 0,
    ensures
        pixels(a, b, c) == Set::<(int, int)>::empty(),
{
    assert(pixels(a, b, c) =~= Set::<(int, int)>::empty());
}

/// The weights of a point on the corners `b` and `c` carry it there from the
/// first corner, for a triangle with its first corner at the origin.
proof fn lemma_weights_at_origin(bx: int, by: int, cx: int, cy: int, px: int, py: int)
    ensures
        (cy * px - cx * py) * bx + (bx * py - by * px) * cx == (bx * cy - by * cx) * px,
        (cy * px - cx * py) * by + (bx * py - by * px) * cy == (bx * cy - by * cx) * py,
{
    lemma_spread(cy * px, cx * py, bx);
    lemma_spread(bx * py, by * px, cx);
    lemma_spread(bx * cy, by * cx, px);
    lemma_swap_three(cy, px, bx);
    lemma_swap_three(cx, py, bx);
    lemma_swap_three(by, px, cx);
    lemma_spread(cy * px, cx * py, by);
    lemma_spread(bx * py, by * px, cy);
    lemma_spread(bx * cy, by * cx, py);
    lemma_swap_three(cy, px, by);
    lemma_swap_three(cx, py, by);
    lemma_swap_three(bx, py, cy);
}

/// Weights on three values, written from the first of them.
proof fn lemma_weigh_from_first(
    wa: int,
    wb: int,
    wc: int,
    sum: int,
    ta: int,
    tb: int,
    tc: int,
    t: int,
)
    requires
        wa == sum - wb - wc,
        wb * (tb - ta) + wc * (tc - ta) == sum * (t - ta),
    ensures
        wa * ta + wb * tb + wc * tc == sum * t,
{
    lemma_spread(sum - wb, wc, ta);
    lemma_spread(sum, wb, ta);
    lemma_spread(tb, ta, wb);
    lemma_spread(tc, ta, wc);
    lemma_spread(t, ta, sum);
}

/// The three edge values of a point are its weights on the three corners:
/// they add up to the area, and weigh the corners to the point.
pub proof fn lemma_weights(a: (int, int), b: (int, int), c: (int, int), p: (int, int))
    ensures
        edge(a, b, p) + edge(b, c, p) + edge(c, a, p) == edge(a, b, c),
        edge(b, c, p) * a.0 + edge(c, a, p) * b.0 + edge(a, b, p) * c.0 == edge(a, b, c) * p.0,
        edge(b, c, p) * a.1 + edge(c, a, p) * b.1 + edge(a, b, p) * c.1 == edge(a, b, c) * p.1,
{
    let bx = b.0 - a.0;
    let by = b.1 - a.1;
    let cx = c.0 - a.0;
    let cy = c.1 - a.1;
    let px = p.0 - a.0;
    let py = p.1 - a.1;
    let o = (0int, 0int);
    let moved_b = (bx, by);
    let moved_c = (cx, cy);
    let moved_p = (px, py);
    // moving the first corner to the origin changes no edge value
    assert(edge(a, b, p) == edge(o, moved_b, moved_p));
    assert(edge(a, b, c) == edge(o, moved_b, moved_c));
    assert(edge(c, a, p) == edge(moved_c, o, moved_p));
    assert(edge(b, c, p) == edge(moved_b, moved_c, moved_p));
    lemma_edge_multiplied_out(o, moved_b, moved_p);
    lemma_edge_multiplied_out(o, moved_b, moved_c);
    lemma_edge_multiplied_out(moved_c, o, moved_p);
    lemma_edge_multiplied_out(moved_b, moved_c, moved_p);
    lemma_swap(cx, by);
    lemma_swap(cy, bx);
    lemma_swap(cy, px);
    lemma_swap(cx, py);
    assert(edge(a, b, p) == bx * py - by * px);
    assert(edge(a, b, c) == bx * cy - by * cx);
    assert(edge(c, a, p) == cy * px - cx * py);
    assert(edge(b, c, p) == edge(a, b, c) - edge(c, a, p) - edge(a, b, p));
    lemma_weights_at_origin(bx, by, cx, cy, px, py);
    lemma_weigh_from_first(
        edge(b, c, p),
        edge(c, a, p),
        edge(a, b, p),
        edge(a, b, c),
        a.0,
        b.0,
        c.0,
        p.0,
    );
    lemma_weigh_from_first(
        edge(b, c, p),
        edge(c, a, p),
        edge(a, b, p),
        edge(a, b, c),
        a.1,
        b.1,
        c.1,
        p.1,
    );
}

/// A weighted mean lies between the least and the largest of what it weighs.
proof fn lemma_mean_between(wa: int, wb: int, wc: int, ta: int, tb: int, tc: int, t: int)
    requires
        wa >= 0,
        wb >= 0,
        wc >= 0,
        wa + wb + wc > 0,
        wa * ta + wb * tb + wc * tc == (wa + wb + wc) * t,
    ensures
        least(ta, tb, tc) <= t <= most(ta, tb, tc),
{
    let lo = least(ta, tb, tc);
    let hi = most(ta, tb, tc);
    let sum = wa + wb + wc;
    assert(wa * ta >= wa * lo && wb * tb >= wb * lo && wc * tc >= wc * lo) by (nonlinear_arith)
        requires
            wa >= 0,
            wb >= 0,
            wc >= 0,
            ta >= lo,
            tb >= lo,
            tc >= lo,
    ;
    assert(wa * ta <= wa * hi && wb * tb <= wb * hi && wc * tc <= wc * hi) by (nonlinear_arith)
        requires
            wa >= 0,
            wb >= 0,
            wc >= 0,
            ta <= hi,
            tb <= hi,
            tc <= hi,
    ;
    assert(sum * lo == wa * lo + wb * lo + wc * lo) by (nonlinear_arith)
        requires
            sum == wa + wb + wc,
    ;
    assert(sum * hi == wa * hi + wb * hi + wc * hi) by (nonlinear_arith)
        requires
            sum == wa + wb + wc,
    ;
    assert(lo <= t) by (nonlinear_arith)
        requires
            sum * lo <= sum * t,
            sum > 0,
    ;
    assert(t <= hi) by (nonlinear_arith)
        requires
            sum * t <= sum * hi,
            sum > 0,
    ;
}

/// Every pixel of a triangle lies in the rectangle that its corners span.
pub proof fn lemma_inside_span(a: (int, int), b: (int, int), c: (int, int), p: (int, int))
    requires
        inside(a, b, c, p),
    ensures
        least(a.0, b.0, c.0) <= p.0 <= most(a.0, b.0, c.0),
        least(a.1, b.1, c.1) <= p.1 <= most(a.1, b.1, c.1),
{
    if edge(a, b, c) > 0 {
        lemma_weights(a, b, c, p);
        lemma_mean_between(edge(b, c, p), edge(c, a, p), edge(a, b, p), a.0, b.0, c.0, p.0);
        lemma_mean_between(edge(b, c, p), edge(c, a, p), edge(a, b, p), a.1, b.1, c.1, p.1);
    } else {
        lemma_area_symmetry(a, b, c);
        lemma_weights(a, c, b, p);
        lemma_mean_between(edge(c, b, p), edge(b, a, p), edge(a, c, p), a.0, c.0, b.0, p.0);
        lemma_mean_between(edge(c, b, p), edge(b, a, p), edge(a, c, p), a.1, c.1, b.1, p.1);
    }
}

/// A pixel strictly inside a triangle, on the inner side of all three edges,
/// belongs to it.
pub proof fn lemma_interior_is_inside(a: (int, int), b: (int, int), c: (int, int), p: (int, int))
    requires
        edge(a, b, p) > 0,
        edge(b, c, p) > 0,
        edge(c, a, p) > 0,
    ensures
        inside(a, b, c, p),
{
    lemma_weights(a, b, c, p);
}

/// A pixel strictly outside one edge of a triangle does not belong to it.
pub proof fn lemma_exterior_is_outside(
    a: (int, int),
    b: (int, int),
    c: (int, int),
    p: (int, int),
)
    requires
        edge(a, b, c) > 0,
        edge(a, b, p) < 0 || edge(b, c, p) < 0 || edge(c, a, p) < 0,
    ensures
        !inside(a, b, c, p),
{
}

/// Of an edge and its reverse, exactly one owns the pixels on the line.
pub proof fn lemma_one_owner(u: (int, int), v: (int, int))
    requires
        u != v,
    ensures
        owns(u, v) != owns(v, u),
{
}

/// Two triangles on opposite sides of a common edge share no pixel.
pub proof fn lemma_neighbours_disjoint(
    a: (int, int),
    b: (int, int),
    c: (int, int),
    d: (int, int),
    p: (int, int),
)
    requires
        edge(a, b, c) > 0,
        edge(a, b, d) < 0,
    ensures
        !(inside(a, b, c, p) && inside(a, b, d, p)),
{
    lemma_area_symmetry(a, b, p);
}

/// How far `p` lies along the edge from `u` to `v`, in units in which `v`
/// itself lies as far as the edge is long, squared.
pub open spec fn along(u: (int, int), v: (int, int), p: (int, int)) -> int {
    (v.0 - u.0) * (p.0 - u.0) + (v.1 - u.1) * (p.1 - u.1)
}

/// Whether `p` lies on the edge from `u` to `v`, strictly between its ends.
pub open spec fn between(u: (int, int), v: (int, int), p: (int, int)) -> bool {
    edge(u, v, p) == 0 && 0 < along(u, v, p) < along(u, v, v)
}

/// A product with three factors may be grouped either way.
proof fn lemma_group(a: int, b: int, c: int)
    by (nonlinear_arith)
    ensures
        a * (b * c) == a * b * c,
{
}

/// A sum times a factor, multiplied out.
proof fn lemma_spread_sum(a: int, b: int, c: int)
    by (nonlinear_arith)
    ensures
        c * (a + b) == c * a + c * b,
{
}

/// A share of a positive whole that is worth part of it is part of it.
proof fn lemma_share(share: int, whole: int, part: int, all: int)
    by (nonlinear_arith)
    requires
        share * all == whole * part,
        whole > 0,
        0 < part < all,
    ensures
        0 < share < whole,
{
}

/// A point that lies between two corners has no weight on the third, and
/// its weight on the second is to the area as its way along the edge is to
/// the length of the edge.
proof fn lemma_weight_along(a: (int, int), b: (int, int), c: (int, int), p: (int, int))
    requires
        edge(a, b, p) == 0,
    ensures
        edge(c, a, p) * along(a, b, b) == edge(a, b, c) * along(a, b, p),
{
    let area = edge(a, b, c);
    let wa = edge(b, c, p);
    let wb = edge(c, a, p);
    let ux = b.0 - a.0;
    let uy = b.1 - a.1;
    let vx = p.0 - a.0;
    let vy = p.1 - a.1;
    lemma_weights(a, b, c, p);
    assert(edge(a, b, p) * c.0 == 0 && edge(a, b, p) * c.1 == 0) by (nonlinear_arith)
        requires
            edge(a, b, p) == 0,
    ;
    // the point, seen from the first corner, is the edge scaled by the weight
    assert(wb * ux == area * vx) by {
        lemma_spread(area, wb, a.0);
        lemma_spread(b.0, a.0, wb);
        lemma_spread(p.0, a.0, area);
    }
    assert(wb * uy == area * vy) by {
        lemma_spread(area, wb, a.1);
        lemma_spread(b.1, a.1, wb);
        lemma_spread(p.1, a.1, area);
    }
    lemma_spread_sum(ux * vx, uy * vy, area);
    lemma_spread_sum(ux * ux, uy * uy, wb);
    lemma_group(area, ux, vx);
    lemma_group(area, uy, vy);
    lemma_group(wb, ux, ux);
    lemma_group(wb, uy, uy);
    lemma_swap_three(area, ux, vx);
    lemma_swap_three(area, uy, vy);
    assert(area * vx * ux == wb * ux * ux);
    assert(area * vy * uy == wb * uy * uy);
}

/// A point strictly between two corners of a triangle lies on the inner
/// side of the other two edges.
pub proof fn lemma_between_is_inward(a: (int, int), b: (int, int), c: (int, int), p: (int, int))
    requires
        edge(a, b, c) > 0,
        between(a, b, p),
    ensures
        edge(b, c, p) > 0,
        edge(c, a, p) > 0,
{
    lemma_weights(a, b, c, p);
    lemma_weight_along(a, b, c, p);
    lemma_share(edge(c, a, p), edge(a, b, c), along(a, b, p), along(a, b, b));
}

/// Seen from the other end of an edge, a point lies as far along as is left.
proof fn lemma_along_reversed(u: (int, int), v: (int, int), p: (int, int))
    ensures
        along(v, u, u) == along(u, v, v),
        along(v, u, p) == along(u, v, v) - along(u, v, p),
{
    let ux = v.0 - u.0;
    let uy = v.1 - u.1;
    let px = p.0 - u.0;
    let py = p.1 - u.1;
    assert((0 - ux) * (0 - ux) == ux * ux && (0 - uy) * (0 - uy) == uy * uy) by (nonlinear_arith);
    assert((0 - ux) * (px - ux) == ux * ux - ux * px) by (nonlinear_arith);
    assert((0 - uy) * (py - uy) == uy * uy - uy * py) by (nonlinear_arith);
    assert(u.0 - v.0 == 0 - ux && u.1 - v.1 == 0 - uy);
    assert(p.0 - v.0 == px - ux && p.1 - v.1 == py - uy);
}

/// A pixel on the edge that two triangles share, strictly between its ends,
/// is filled by exactly one of them: the edge leaves no gap and no pixel is
/// drawn twice.
pub proof fn lemma_shared_edge_filled_once(
    a: (int, int),
    b: (int, int),
    c: (int, int),
    d: (int, int),
    p: (int, int),
)
    requires
        edge(a, b, c) > 0,
        edge(a, b, d) < 0,
        between(a, b, p),
    ensures
        inside(a, b, c, p) != inside(a, b, d, p),
{
    lemma_between_is_inward(a, b, c, p);
    assert(inside(a, b, c, p) == owns(a, b));
    lemma_area_symmetry(a, b, d);
    lemma_area_symmetry(a, b, p);
    lemma_along_reversed(a, b, p);
    assert(between(b, a, p));
    lemma_between_is_inward(b, a, d, p);
    assert(inside(a, b, d, p) == owns(b, a));
    assert(a != b) by {
        if a == b {
            assert(along(a, b, b) == 0) by (nonlinear_arith)
                requires
                    a == b,
            ;
        }
    }
}

/// One pixel to the right, an edge value falls by the height of the edge.
pub proof fn lemma_edge_step(u: (int, int), v: (int, int), p: (int, int))
    ensures
        edge(u, v, (p.0 + 1, p.1)) == edge(u, v, p) - (v.1 - u.1),
{
    lemma_spread_sum(p.0 - u.0, 1, v.1 - u.1);
    assert(p.0 + 1 - u.0 == (p.0 - u.0) + 1);
}

/// An edge value of points whose coordinates fit in 32 bits fits in 66.
pub proof fn lemma_edge_bound(u: (int, int), v: (int, int), p: (int, int))
    requires
        i32::MIN <= u.0 <= i32::MAX,
        i32::MIN <= u.1 <= i32::MAX,
        i32::MIN <= v.0 <= i32::MAX,
        i32::MIN <= v.1 <= i32::MAX,
        i32::MIN <= p.0 <= i32::MAX + 1,
        i32::MIN <= p.1 <= i32::MAX,
    ensures
        -0x2_0000_0000_0000_0000 <= edge(u, v, p) <= 0x2_0000_0000_0000_0000,
{
    let ux = v.0 - u.0;
    let uy = v.1 - u.1;
    let px = p.0 - u.0;
    let py = p.1 - u.1;
    assert(-0x1_0000_0000_0000_0000 <= ux * py <= 0x1_0000_0000_0000_0000) by (nonlinear_arith)
        requires
            -0x1_0000_0000 <= ux <= 0x1_0000_0000,
            -0x1_0000_0000 <= py <= 0x1_0000_0000,
    ;
    assert(-0x1_0000_0000_0000_0000 <= uy * px <= 0x1_0000_0000_0000_0000) by (nonlinear_arith)
        requires
            -0x1_0000_0000 <= uy <= 0x1_0000_0000,
            -0x1_0000_0000 <= px <= 0x1_0000_0000,
    ;
}

} // verus!
