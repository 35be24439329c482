//! The pixels of a straight line between two integer points.
//!
//! A line takes `steps` unit steps along its major axis, the one on which its
//! endpoints lie further apart, and visits `steps + 1` pixels. After `k` steps
//! it has moved along the minor axis by `k * short / long` rounded to the
//! nearest integer, halves rounded away from the starting point.

use vstd::prelude::*;
use vstd::arithmetic::div_mod::lemma_fundamental_div_mod_converse;

verus! {

/// Absolute value.
pub open spec fn magnitude(v: int) -> int {
    if v < 0 {
        -v
    } else {
        v
    }
}

/// The coordinate reached from `from` after `k` unit steps in the direction
/// of `delta`.
pub open spec fn advance(from: int, delta: int, k: int) -> int {
    if delta > 0 {
        from + k
    } else if delta < 0 {
        from - k
    } else {
        from
    }
}

/// Number of unit steps from `a` to `b`: the larger of the two coordinate
/// distances.
pub open spec fn steps(a: (int, int), b: (int, int)) -> int {
    let across = magnitude(b.0 - a.0);
    let down = magnitude(b.1 - a.1);
    if across >= down {
        across
    } else {
        down
    }
}

/// Distance covered on the minor axis after `k` of `long` steps on the major
/// axis, for a line that covers `short` on the minor axis in all:
/// `k * short / long`, rounded to nearest.
pub open spec fn drift(long: int, short: int, k: int) -> int {
    if long > 0 {
        (2 * k * short + long) / (2 * long)
    } else {
        0
    }
}

/// The pixel that the line from `a` to `b` visits after `k` steps.
pub open spec fn point_at(a: (int, int), b: (int, int), k: int) -> (int, int) {
    let dx = b.0 - a.0;
    let dy = b.1 - a.1;
    let across = magnitude(dx);
    let down = magnitude(dy);
    if across >= down {
        (advance(a.0, dx, k), advance(a.1, dy, drift(across, down, k)))
    } else {
        (advance(a.0, dx, drift(down, across, k)), advance(a.1, dy, k))
    }
}

/// The pixels that the line visits in its first `n` positions.
pub open spec fn pixels_before(a: (int, int), b: (int, int), n: int) -> Set<(int, int)> {
    Set::new(|p: (int, int)| exists|k: int| 0 <= k < n && #[trigger] point_at(a, b, k) == p)
}

/// All pixels of the line from `a` to `b`, both endpoints included.
pub open spec fn pixels(a: (int, int), b: (int, int)) -> Set<(int, int)> {
    pixels_before(a, b, steps(a, b) + 1)
}

/// `drift` is the one quotient that leaves a remainder below `2 * long`.
pub proof fn lemma_drift_is(long: int, short: int, k: int, m: int, r: int)
    requires
        long > 0,
        0 <= r < 2 * long,
        2 * k * short + long == 2 * long * m + r,
    ensures
        drift(long, short, k) == m,
{
    assert(2 * long * m == m * (2 * long)) by (nonlinear_arith);
    lemma_fundamental_div_mod_converse(2 * k * short + long, 2 * long, m, r);
}

/// The remainder that goes with `drift`.
pub open spec fn slack(long: int, short: int, k: int) -> int {
    2 * k * short + long - 2 * long * drift(long, short, k)
}

/// `drift` never strays from the exact line by more than half a pixel:
/// `-long < 2 * long * drift - 2 * k * short <= long`.
pub proof fn lemma_drift_error(long: int, short: int, k: int)
    requires
        long > 0,
    ensures
        0 <= slack(long, short, k) < 2 * long,
        -long < 2 * long * drift(long, short, k) - 2 * k * short <= long,
{
    let a = 2 * k * short + long;
    let d = 2 * long;
    vstd::arithmetic::div_mod::lemma_fundamental_div_mod(a, d);
    vstd::arithmetic::div_mod::lemma_mod_bound(a, d);
    assert(d * (a / d) == 2 * long * drift(long, short, k)) by (nonlinear_arith)
        requires
            d == 2 * long,
            a / d == drift(long, short, k),
    ;
}

/// A line starts without drift and ends with all of it.
pub proof fn lemma_drift_ends(long: int, short: int)
    requires
        long > 0,
    ensures
        drift(long, short, 0) == 0,
        drift(long, short, long) == short,
{
    assert(2 * 0 * short + long == 2 * long * 0 + long) by (nonlinear_arith);
    lemma_drift_is(long, short, 0, 0, long);
    lemma_drift_is(long, short, long, short, long);
}

/// With each step the drift stays or grows by one.
pub proof fn lemma_drift_step(long: int, short: int, k: int)
    requires
        long > 0,
        0 <= short <= long,
    ensures
        drift(long, short, k + 1) == drift(long, short, k) + (if slack(long, short, k) + 2
            * short >= 2 * long {
            1int
        } else {
            0int
        }),
        slack(long, short, k + 1) == slack(long, short, k) + 2 * short - (if slack(
            long,
            short,
            k,
        ) + 2 * short >= 2 * long {
            2 * long
        } else {
            0int
        }),
{
    lemma_drift_error(long, short, k);
    let m = drift(long, short, k);
    let r = slack(long, short, k);
    assert(2 * (k + 1) * short + long == 2 * k * short + long + 2 * short) by (nonlinear_arith);
    if r + 2 * short >= 2 * long {
        assert(2 * long * (m + 1) == 2 * long * m + 2 * long) by (nonlinear_arith);
        lemma_drift_is(long, short, k + 1, m + 1, r + 2 * short - 2 * long);
    } else {
        lemma_drift_is(long, short, k + 1, m, r + 2 * short);
    }
}

/// The drift after `k` of `long` steps lies between nothing and all of it.
pub proof fn lemma_drift_bounds(long: int, short: int, k: int)
    requires
        long > 0,
        0 <= short <= long,
        0 <= k <= long,
    ensures
        0 <= drift(long, short, k) <= short,
        drift(long, short, k) <= k,
    decreases k,
{
    if k == 0 {
        lemma_drift_ends(long, short);
    } else {
        lemma_drift_bounds(long, short, k - 1);
        lemma_drift_step(long, short, k - 1);
        lemma_drift_error(long, short, k);
        let m = drift(long, short, k);
        if m > short {
            // 2 * long * m - 2 * k * short <= long with m >= short + 1 and k <= long
            assert(2 * long * m >= 2 * long * (short + 1)) by (nonlinear_arith)
                requires
                    m >= short + 1,
                    long > 0,
            ;
            assert(2 * k * short <= 2 * long * short) by (nonlinear_arith)
                requires
                    0 <= k <= long,
                    0 <= short,
            ;
            assert(2 * long * (short + 1) == 2 * long * short + 2 * long) by (nonlinear_arith);
        }
    }
}

/// A line begins at its first endpoint and ends at its second.
pub proof fn lemma_endpoints(a: (int, int), b: (int, int))
    ensures
        point_at(a, b, 0) == a,
        point_at(a, b, steps(a, b)) == b,
{
    let across = magnitude(b.0 - a.0);
    let down = magnitude(b.1 - a.1);
    if across >= down {
        if across > 0 {
            lemma_drift_ends(across, down);
        }
    } else {
        lemma_drift_ends(down, across);
    }
}

/// No pixel is visited twice: positions reached after different numbers of
/// steps differ.
pub proof fn lemma_points_distinct(a: (int, int), b: (int, int), j: int, k: int)
    requires
        0 <= j <= steps(a, b),
        0 <= k <= steps(a, b),
        j != k,
    ensures
        point_at(a, b, j) != point_at(a, b, k),
{
}

/// Consecutive pixels of a line touch: they differ by exactly one on the
/// major axis and by at most one on the minor axis.
pub proof fn lemma_connected(a: (int, int), b: (int, int), k: int)
    requires
        0 <= k < steps(a, b),
    ensures
        magnitude(point_at(a, b, k + 1).0 - point_at(a, b, k).0) <= 1,
        magnitude(point_at(a, b, k + 1).1 - point_at(a, b, k).1) <= 1,
        point_at(a, b, k + 1) != point_at(a, b, k),
{
    let across = magnitude(b.0 - a.0);
    let down = magnitude(b.1 - a.1);
    if across >= down {
        lemma_drift_step(across, down, k);
        lemma_drift_error(across, down, k);
    } else {
        lemma_drift_step(down, across, k);
        lemma_drift_error(down, across, k);
    }
}

/// Every pixel of a line lies in the rectangle that its endpoints span.
pub proof fn lemma_inside_span(a: (int, int), b: (int, int), k: int)
    requires
        0 <= k <= steps(a, b),
    ensures
        magnitude(point_at(a, b, k).0 - a.0) <= magnitude(b.0 - a.0),
        magnitude(point_at(a, b, k).1 - a.1) <= magnitude(b.1 - a.1),
{
    let across = magnitude(b.0 - a.0);
    let down = magnitude(b.1 - a.1);
    if across >= down {
        if across > 0 {
            lemma_drift_bounds(across, down, k);
        }
    } else {
        lemma_drift_bounds(down, across, k);
    }
}

/// The first `n` positions of a line are `n` different pixels.
pub proof fn lemma_count_before(a: (int, int), b: (int, int), n: int)
    requires
        0 <= n <= steps(a, b) + 1,
    ensures
        pixels_before(a, b, n).finite(),
        pixels_before(a, b, n).len() == n,
    decreases n,
{
    if n == 0 {
        assert(pixels_before(a, b, 0) =~= Set::empty());
    } else {
        lemma_count_before(a, b, n - 1);
        let less = pixels_before(a, b, n - 1);
        let p = point_at(a, b, n - 1);
        assert(!less.contains(p)) by {
            if less.contains(p) {
                let j = choose|j: int| 0 <= j < n - 1 && #[trigger] point_at(a, b, j) == p;
                lemma_points_distinct(a, b, j, n - 1);
            }
        }
        lemma_one_more(a, b, n - 1);
    }
}

/// The first `n + 1` positions are the first `n` and the one after `n` steps.
pub proof fn lemma_one_more(a: (int, int), b: (int, int), n: int)
    requires
        0 <= n,
    ensures
        pixels_before(a, b, n + 1) == pixels_before(a, b, n).insert(point_at(a, b, n)),
{
    let more = pixels_before(a, b, n + 1);
    let less = pixels_before(a, b, n);
    let p = point_at(a, b, n);
    assert forall|q: (int, int)| more.contains(q) <==> less.insert(p).contains(q) by {
        if more.contains(q) {
            let k = choose|k: int| 0 <= k < n + 1 && #[trigger] point_at(a, b, k) == q;
            if k < n {
                assert(less.contains(q));
            }
        }
        if less.contains(q) {
            let k = choose|k: int| 0 <= k < n && #[trigger] point_at(a, b, k) == q;
            assert(0 <= k < n + 1);
        }
        if q == p {
            assert(0 <= n < n + 1 && point_at(a, b, n) == q);
        }
    }
    assert(more =~= less.insert(p));
}

/// A line visits every pixel exactly once: it has one pixel more than it
/// takes steps.
pub proof fn lemma_pixel_count(a: (int, int), b: (int, int))
    ensures
        pixels(a, b).finite(),
        pixels(a, b).len() == steps(a, b) + 1,
{
    lemma_count_before(a, b, steps(a, b) + 1);
}

/// A line between two points of one row is the run of pixels between them.
pub proof fn lemma_horizontal(a: (int, int), b: (int, int))
    requires
        a.1 == b.1,
    ensures
        forall|x: int, y: int|
            pixels(a, b).contains((x, y)) <==> (y == a.1 && (a.0 <= x <= b.0 || b.0 <= x
                <= a.0)),
{
    let n = steps(a, b);
    assert forall|x: int, y: int|
        pixels(a, b).contains((x, y)) <==> (y == a.1 && (a.0 <= x <= b.0 || b.0 <= x
            <= a.0)) by {
        if pixels(a, b).contains((x, y)) {
            let k = choose|k: int| 0 <= k < n + 1 && #[trigger] point_at(a, b, k) == (x, y);
            lemma_inside_span(a, b, k);
        }
        if y == a.1 && (a.0 <= x <= b.0 || b.0 <= x <= a.0) {
            let k = magnitude(x - a.0);
            if n > 0 {
                lemma_drift_bounds(n, 0, k);
            }
            assert(point_at(a, b, k) == (x, y));
        }
    }
}

/// A line between two points of one column is the run of pixels between them.
pub proof fn lemma_vertical(a: (int, int), b: (int, int))
    requires
        a.0 == b.0,
    ensures
        forall|x: int, y: int|
            pixels(a, b).contains((x, y)) <==> (x == a.0 && (a.1 <= y <= b.1 || b.1 <= y
                <= a.1)),
{
    let n = steps(a, b);
    assert forall|x: int, y: int|
        pixels(a, b).contains((x, y)) <==> (x == a.0 && (a.1 <= y <= b.1 || b.1 <= y
            <= a.1)) by {
        if pixels(a, b).contains((x, y)) {
            let k = choose|k: int| 0 <= k < n + 1 && #[trigger] point_at(a, b, k) == (x, y);
            lemma_inside_span(a, b, k);
        }
        if x == a.0 && (a.1 <= y <= b.1 || b.1 <= y <= a.1) {
            let k = magnitude(y - a.1);
            if n > 0 {
                lemma_drift_bounds(n, 0, k);
            }
            assert(point_at(a, b, k) == (x, y));
        }
    }
}

} // verus!
