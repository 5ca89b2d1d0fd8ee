//! Ellipses and triangles.

use vstd::prelude::*;

use crate::canvas;
use crate::fb::{SCREEN_H, SCREEN_W};
use crate::raster::{self, Brush};

verus! {

/// The square of a radius, at least one.
pub open spec fn square(r: int) -> int {
    raster::max(r * r, 1)
}

/// The offset `(dx, dy)` lies in an ellipse of radii `rx` and `ry`.
pub open spec fn in_ellipse(dx: int, dy: int, rx: int, ry: int) -> bool {
    &&& -rx <= dx <= rx
    &&& -ry <= dy <= ry
    &&& dx * dx * square(ry) + dy * dy * square(rx) <= square(rx) * square(ry)
}

/// The ellipse around `(cx, cy)` of radii `rx` and `ry`.
pub open spec fn ellipse(cx: int, cy: int, rx: int, ry: int) -> spec_fn(int, int) -> bool {
    |x: int, y: int| in_ellipse(x - cx, y - cy, rx, ry)
}

/// No number in the test of the ellipse leaves the range of `i32`.
pub open spec fn ellipse_fits(cx: int, cy: int, rx: int, ry: int) -> bool {
    &&& raster::fits_i32(rx * rx) && raster::fits_i32(ry * ry)
    &&& raster::fits_i32(cy - ry) && raster::fits_i32(cy + ry)
    &&& ry >= 0 ==> raster::fits_i32(cx - rx) && raster::fits_i32(cx + rx)
    &&& rx >= 0 && ry >= 0 ==> {
        &&& square(rx) * square(ry) <= i32::MAX
        &&& rx * rx * square(ry) + ry * ry * square(rx) <= i32::MAX
    }
}

proof fn lemma_ellipse_bounds(dx: int, dy: int, rx: int, ry: int)
    requires
        -rx <= dx <= rx,
        -ry <= dy <= ry,
    ensures
        0 <= dx * dx <= rx * rx,
        0 <= dy * dy <= ry * ry,
        0 <= dx * dx * square(ry) <= rx * rx * square(ry),
        0 <= dy * dy * square(rx) <= ry * ry * square(rx),
{
    assert(0 <= dx * dx <= rx * rx && 0 <= dy * dy <= ry * ry) by (nonlinear_arith)
        requires
            -rx <= dx <= rx,
            -ry <= dy <= ry,
    ;
    let a = dx * dx;
    let b = rx * rx;
    let q = square(ry);
    assert(0 <= a * q <= b * q) by (nonlinear_arith)
        requires
            0 <= a <= b,
            q >= 1,
    ;
    let c = dy * dy;
    let d = ry * ry;
    let p = square(rx);
    assert(0 <= c * p <= d * p) by (nonlinear_arith)
        requires
            0 <= c <= d,
            p >= 1,
    ;
}

/// Fills an ellipse.
pub fn fill_ellipse(buf: &mut [u32], cx: i32, cy: i32, rx: i32, ry: i32, color: u32)
    requires
        canvas::screen(old(buf)@),
        ellipse_fits(cx as int, cy as int, rx as int, ry as int),
    ensures
        final(buf)@ == canvas::painted(
            old(buf)@,
            ellipse(cx as int, cy as int, rx as int, ry as int),
            color,
        ),
{
    let ghost before = buf@;
    let ghost shape = ellipse(cx as int, cy as int, rx as int, ry as int);
    let ghost w = SCREEN_W as int;
    let ghost h = SCREEN_H as int;
    let ghost brush = Brush::Flat(color);
    let rx2: i32 = if rx * rx > 1 { rx * rx } else { 1 };
    let ry2: i32 = if ry * ry > 1 { ry * ry } else { 1 };
    let x0: i64 = cx as i64 - rx as i64;
    let x1: i64 = cx as i64 + rx as i64;
    let y0: i64 = cy as i64 - ry as i64;
    let y1: i64 = cy as i64 + ry as i64;
    proof {
        assert(raster::boxed(shape, w, h, x0 as int, y0 as int, x1 as int, y1 as int));
        raster::lemma_scan_begin(
            before,
            w,
            h,
            shape,
            x0 as int,
            y0 as int,
            x1 as int,
            y1 as int,
            brush,
        );
    }
    let mut py: i64 = y0;
    while py <= y1
        invariant
            w == SCREEN_W,
            h == SCREEN_H,
            brush == Brush::Flat(color),
            canvas::screen(before),
            ellipse_fits(cx as int, cy as int, rx as int, ry as int),
            shape == ellipse(cx as int, cy as int, rx as int, ry as int),
            raster::boxed(shape, w, h, x0 as int, y0 as int, x1 as int, y1 as int),
            x0 == cx - rx,
            x1 == cx + rx,
            y0 == cy - ry,
            y1 == cy + ry,
            rx2 == square(rx as int),
            ry2 == square(ry as int),
            y0 <= py,
            buf@ == raster::paint(
                before,
                w,
                h,
                raster::scanned(shape, x0 as int, py as int),
                brush,
            ),
        decreases y1 - py + 1,
    {
        let mut px: i64 = x0;
        while px <= x1
            invariant
                w == SCREEN_W,
                h == SCREEN_H,
                brush == Brush::Flat(color),
                canvas::screen(before),
                ellipse_fits(cx as int, cy as int, rx as int, ry as int),
                shape == ellipse(cx as int, cy as int, rx as int, ry as int),
                x0 == cx - rx,
                x1 == cx + rx,
                y0 == cy - ry,
                y1 == cy + ry,
                rx2 == square(rx as int),
                ry2 == square(ry as int),
                y0 <= py <= y1,
                x0 <= px,
                buf@ == raster::paint(
                    before,
                    w,
                    h,
                    raster::scanned(shape, px as int, py as int),
                    brush,
                ),
            decreases x1 - px + 1,
        {
            proof {
                lemma_ellipse_bounds(px - cx, py - cy, rx as int, ry as int);
                raster::lemma_scan_step(before, w, h, shape, px as int, py as int, brush);
                assert(square(rx as int) * square(ry as int) >= 1) by (nonlinear_arith)
                    requires
                        square(rx as int) >= 1,
                        square(ry as int) >= 1,
                ;
            }
            let dx: i32 = (px - cx as i64) as i32;
            let dy: i32 = (py - cy as i64) as i32;
            if dx * dx * ry2 + dy * dy * rx2 <= rx2 * ry2 {
                canvas::put_px(buf, px as i32, py as i32, color);
            }
            px += 1;
        }
        proof {
            raster::lemma_scan_row(
                before,
                w,
                h,
                shape,
                x0 as int,
                y0 as int,
                x1 as int,
                y1 as int,
                px as int,
                py as int,
                brush,
            );
        }
        py += 1;
    }
    proof {
        raster::lemma_scan_end(
            before,
            w,
            h,
            shape,
            x0 as int,
            y0 as int,
            x1 as int,
            y1 as int,
            py as int,
            brush,
        );
    }
}

/// On which side of the line from `a` to `b` the point `p` lies, and how far:
/// zero on the line, and twice the area of the triangle of the three otherwise.
pub open spec fn side(a: (i32, i32), b: (i32, i32), p: (int, int)) -> int {
    (p.0 - a.0) * (b.1 - a.1) - (p.1 - a.1) * (b.0 - a.0)
}

/// No number in the test of a side leaves the range of `i32`.
pub open spec fn side_fits(a: (i32, i32), b: (i32, i32), p: (int, int)) -> bool {
    &&& raster::fits_i32(p.0 - a.0) && raster::fits_i32(b.1 - a.1)
    &&& raster::fits_i32(p.1 - a.1) && raster::fits_i32(b.0 - a.0)
    &&& raster::fits_i32((p.0 - a.0) * (b.1 - a.1))
    &&& raster::fits_i32((p.1 - a.1) * (b.0 - a.0))
    &&& raster::fits_i32(side(a, b, p))
}

/// On which side of the line from `a` to `b` the point `p` lies.
pub fn edge(a: (i32, i32), b: (i32, i32), p: (i32, i32)) -> (r: i32)
    requires
        side_fits(a, b, (p.0 as int, p.1 as int)),
    ensures
        r == side(a, b, (p.0 as int, p.1 as int)),
{
    (p.0 - a.0) * (b.1 - a.1) - (p.1 - a.1) * (b.0 - a.0)
}

/// A point, as numbers.
pub open spec fn at(p: (i32, i32)) -> (int, int) {
    (p.0 as int, p.1 as int)
}

/// The triangle of three corners, its edges included. Three corners on one line
/// make no triangle.
pub open spec fn triangle(a: (i32, i32), b: (i32, i32), c: (i32, i32)) -> spec_fn(
    int,
    int,
) -> bool {
    |x: int, y: int|
        {
            let area = side(a, b, at(c));
            let w0 = side(b, c, (x, y));
            let w1 = side(c, a, (x, y));
            let w2 = side(a, b, (x, y));
            ||| area > 0 && w0 >= 0 && w1 >= 0 && w2 >= 0
            ||| area < 0 && w0 <= 0 && w1 <= 0 && w2 <= 0
        }
}

/// The least of three numbers.
pub open spec fn least(a: int, b: int, c: int) -> int {
    raster::min(raster::min(a, b), c)
}

/// The greatest of three numbers.
pub open spec fn greatest(a: int, b: int, c: int) -> int {
    raster::max(raster::max(a, b), c)
}

/// `(x, y)` lies on the screen, between the sides of the triangle's box.
pub open spec fn in_box(a: (i32, i32), b: (i32, i32), c: (i32, i32), x: int, y: int) -> bool {
    &&& 0 <= x < SCREEN_W && least(a.0 as int, b.0 as int, c.0 as int) <= x <= greatest(
        a.0 as int,
        b.0 as int,
        c.0 as int,
    )
    &&& 0 <= y < SCREEN_H && least(a.1 as int, b.1 as int, c.1 as int) <= y <= greatest(
        a.1 as int,
        b.1 as int,
        c.1 as int,
    )
}

/// No number in the test of the triangle leaves the range of `i32`.
pub open spec fn triangle_fits(a: (i32, i32), b: (i32, i32), c: (i32, i32)) -> bool {
    &&& side_fits(a, b, at(c))
    &&& side(a, b, at(c)) != 0 ==> forall|x: int, y: int| #[trigger]
        in_box(a, b, c, x, y) ==> side_fits(b, c, (x, y)) && side_fits(c, a, (x, y)) && side_fits(
            a,
            b,
            (x, y),
        )
}

/// A point inside a triangle lies between its corners.
pub proof fn lemma_triangle_box(a: (i32, i32), b: (i32, i32), c: (i32, i32), x: int, y: int)
    requires
        triangle(a, b, c)(x, y),
    ensures
        least(a.0 as int, b.0 as int, c.0 as int) <= x <= greatest(
            a.0 as int,
            b.0 as int,
            c.0 as int,
        ),
        least(a.1 as int, b.1 as int, c.1 as int) <= y <= greatest(
            a.1 as int,
            b.1 as int,
            c.1 as int,
        ),
{
    let area = side(a, b, at(c));
    let w0 = side(b, c, (x, y));
    let w1 = side(c, a, (x, y));
    let w2 = side(a, b, (x, y));
    lemma_weights(
        a.0 as int,
        a.1 as int,
        b.0 as int,
        b.1 as int,
        c.0 as int,
        c.1 as int,
        x,
        y,
    );
    if area > 0 {
        lemma_mean(w0, w1, w2, a.0 as int, b.0 as int, c.0 as int, x);
        lemma_mean(w0, w1, w2, a.1 as int, b.1 as int, c.1 as int, y);
    } else {
        assert(-(w0 * a.0) == (-w0) * a.0 && -(w1 * b.0) == (-w1) * b.0 && -(w2 * c.0) == (-w2)
            * c.0 && -(area * x) == (-area) * x) by (nonlinear_arith);
        assert(-(w0 * a.1) == (-w0) * a.1 && -(w1 * b.1) == (-w1) * b.1 && -(w2 * c.1) == (-w2)
            * c.1 && -(area * y) == (-area) * y) by (nonlinear_arith);
        lemma_mean(-w0, -w1, -w2, a.0 as int, b.0 as int, c.0 as int, x);
        lemma_mean(-w0, -w1, -w2, a.1 as int, b.1 as int, c.1 as int, y);
    }
}

/// A point inside a triangle reaches no further than its corners, in any of the
/// four diagonal directions.
pub proof fn lemma_triangle_reach(
    a: (i32, i32),
    b: (i32, i32),
    c: (i32, i32),
    x: int,
    y: int,
    sx: int,
    sy: int,
)
    requires
        triangle(a, b, c)(x, y),
        sx == 1 || sx == -1,
        sy == 1 || sy == -1,
    ensures
        sx * x + sy * y <= greatest(
            sx * a.0 + sy * a.1,
            sx * b.0 + sy * b.1,
            sx * c.0 + sy * c.1,
        ),
{
    let area = side(a, b, at(c));
    let w0 = side(b, c, (x, y));
    let w1 = side(c, a, (x, y));
    let w2 = side(a, b, (x, y));
    lemma_weights(
        a.0 as int,
        a.1 as int,
        b.0 as int,
        b.1 as int,
        c.0 as int,
        c.1 as int,
        x,
        y,
    );
    let (da, db, dc, d) = (
        sx * a.0 + sy * a.1,
        sx * b.0 + sy * b.1,
        sx * c.0 + sy * c.1,
        sx * x + sy * y,
    );
    lemma_direct(w0, a.0 as int, a.1 as int, sx, sy);
    lemma_direct(w1, b.0 as int, b.1 as int, sx, sy);
    lemma_direct(w2, c.0 as int, c.1 as int, sx, sy);
    lemma_direct(area, x, y, sx, sy);
    let (ux, uy) = (w0 * a.0 + w1 * b.0 + w2 * c.0, w0 * a.1 + w1 * b.1 + w2 * c.1);
    assert(w0 * da + w1 * db + w2 * dc == area * d) by {
        assert(sx * (w0 * a.0) + sx * (w1 * b.0) + sx * (w2 * c.0) == sx * ux) by (nonlinear_arith)
            requires
                ux == w0 * a.0 + w1 * b.0 + w2 * c.0,
        ;
        assert(sy * (w0 * a.1) + sy * (w1 * b.1) + sy * (w2 * c.1) == sy * uy) by (nonlinear_arith)
            requires
                uy == w0 * a.1 + w1 * b.1 + w2 * c.1,
        ;
    }
    if area > 0 {
        lemma_mean(w0, w1, w2, da, db, dc, d);
    } else {
        assert(-(w0 * da) == (-w0) * da && -(w1 * db) == (-w1) * db && -(w2 * dc) == (-w2) * dc
            && -(area * d) == (-area) * d) by (nonlinear_arith);
        lemma_mean(-w0, -w1, -w2, da, db, dc, d);
    }
}

/// A weight on a distance along a diagonal is the weight on each part of it.
proof fn lemma_direct(w: int, x: int, y: int, sx: int, sy: int)
    ensures
        w * (sx * x + sy * y) == sx * (w * x) + sy * (w * y),
{
    assert(w * (sx * x + sy * y) == w * (sx * x) + w * (sy * y)) by (nonlinear_arith);
    assert(w * (sx * x) == sx * (w * x)) by (nonlinear_arith);
    assert(w * (sy * y) == sy * (w * y)) by (nonlinear_arith);
}

/// The product of two differences.
proof fn lemma_differences(a: int, b: int, c: int, d: int)
    ensures
        (a - b) * (c - d) == a * c - a * d - b * c + b * d,
{
    assert((a - b) * (c - d) == a * c - a * d - b * c + b * d) by (nonlinear_arith);
}

/// Weights that add up to `n`, and two of which weigh the distances from the
/// first corner so that they make up `n * p`, have their mean at `p` from it.
proof fn lemma_weigh(w0: int, w1: int, w2: int, n: int, a: int, u: int, s: int, p: int)
    requires
        w0 + w1 + w2 == n,
        w1 * u + w2 * s == n * p,
    ensures
        w0 * a + w1 * (a + u) + w2 * (a + s) == n * (a + p),
{
    assert(w1 * (a + u) == w1 * a + w1 * u) by (nonlinear_arith);
    assert(w2 * (a + s) == w2 * a + w2 * s) by (nonlinear_arith);
    assert(n * (a + p) == n * a + n * p) by (nonlinear_arith);
    assert((w0 + w1 + w2) * a == w0 * a + w1 * a + w2 * a) by (nonlinear_arith);
}

/// The sides at which a point lies weigh the corners so that it is their mean.
proof fn lemma_weights(ax: int, ay: int, bx: int, by: int, cx: int, cy: int, x: int, y: int)
    ensures
        ({
            let area = (cx - ax) * (by - ay) - (cy - ay) * (bx - ax);
            let w0 = (x - bx) * (cy - by) - (y - by) * (cx - bx);
            let w1 = (x - cx) * (ay - cy) - (y - cy) * (ax - cx);
            let w2 = (x - ax) * (by - ay) - (y - ay) * (bx - ax);
            &&& w0 + w1 + w2 == area
            &&& w0 * ax + w1 * bx + w2 * cx == area * x
            &&& w0 * ay + w1 * by + w2 * cy == area * y
        }),
{
    // Everything as seen from the first corner.
    let (u, v) = (bx - ax, by - ay);
    let (s, t) = (cx - ax, cy - ay);
    let (p, q) = (x - ax, y - ay);
    let area = s * v - t * u;
    let w0 = (p - u) * (t - v) - (q - v) * (s - u);
    let w1 = (p - s) * (0 - t) - (q - t) * (0 - s);
    let w2 = p * v - q * u;
    lemma_differences(p, u, t, v);
    lemma_differences(q, v, s, u);
    lemma_differences(p, s, 0, t);
    lemma_differences(q, t, 0, s);
    assert(u * v == v * u && s * t == t * s && v * s == s * v && u * t == t * u)
        by (nonlinear_arith);
    assert(p * 0 == 0 && s * 0 == 0 && q * 0 == 0 && t * 0 == 0);
    assert(w1 == q * s - p * t);
    assert(w0 + w1 + w2 == area);
    assert((q * s - p * t) * u == q * s * u - p * t * u) by (nonlinear_arith);
    assert((p * v - q * u) * s == p * v * s - q * u * s) by (nonlinear_arith);
    assert(q * s * u == q * u * s) by (nonlinear_arith);
    assert((s * v - t * u) * p == s * v * p - t * u * p) by (nonlinear_arith);
    assert(p * v * s == s * v * p) by (nonlinear_arith);
    assert(p * t * u == t * u * p) by (nonlinear_arith);
    lemma_weigh(w0, w1, w2, area, ax, u, s, p);
    assert((q * s - p * t) * v == q * s * v - p * t * v) by (nonlinear_arith);
    assert((p * v - q * u) * t == p * v * t - q * u * t) by (nonlinear_arith);
    assert(p * t * v == p * v * t) by (nonlinear_arith);
    assert((s * v - t * u) * q == s * v * q - t * u * q) by (nonlinear_arith);
    assert(q * s * v == s * v * q) by (nonlinear_arith);
    assert(q * u * t == t * u * q) by (nonlinear_arith);
    lemma_weigh(w0, w1, w2, area, ay, v, t, q);
    assert((x - bx) * (cy - by) == (p - u) * (t - v));
    assert((y - by) * (cx - bx) == (q - v) * (s - u));
    assert((x - cx) * (ay - cy) == (p - s) * (0 - t));
    assert((y - cy) * (ax - cx) == (q - t) * (0 - s));
}

/// A mean lies between the least and the greatest.
proof fn lemma_mean(w0: int, w1: int, w2: int, a: int, b: int, c: int, x: int)
    requires
        w0 >= 0,
        w1 >= 0,
        w2 >= 0,
        w0 + w1 + w2 > 0,
        w0 * a + w1 * b + w2 * c == (w0 + w1 + w2) * x,
    ensures
        least(a, b, c) <= x <= greatest(a, b, c),
{
    let lo = least(a, b, c);
    let hi = greatest(a, b, c);
    let n = w0 + w1 + w2;
    assert(w0 * lo <= w0 * a && w1 * lo <= w1 * b && w2 * lo <= w2 * c) by (nonlinear_arith)
        requires
            w0 >= 0,
            w1 >= 0,
            w2 >= 0,
            lo <= a,
            lo <= b,
            lo <= c,
    ;
    assert(w0 * a <= w0 * hi && w1 * b <= w1 * hi && w2 * c <= w2 * hi) by (nonlinear_arith)
        requires
            w0 >= 0,
            w1 >= 0,
            w2 >= 0,
            a <= hi,
            b <= hi,
            c <= hi,
    ;
    assert(n * lo == w0 * lo + w1 * lo + w2 * lo && n * hi == w0 * hi + w1 * hi + w2 * hi)
        by (nonlinear_arith)
        requires
            n == w0 + w1 + w2,
    ;
    assert(lo <= x) by (nonlinear_arith)
        requires
            n > 0,
            n * lo <= n * x,
    ;
    assert(x <= hi) by (nonlinear_arith)
        requires
            n > 0,
            n * x <= n * hi,
    ;
}

/// Fills a triangle.
pub fn fill_triangle(buf: &mut [u32], a: (i32, i32), b: (i32, i32), c: (i32, i32), color: u32)
    requires
        canvas::screen(old(buf)@),
        triangle_fits(a, b, c),
    ensures
        final(buf)@ == canvas::painted(old(buf)@, triangle(a, b, c), color),
{
    let ghost before = buf@;
    let ghost shape = triangle(a, b, c);
    let ghost w = SCREEN_W as int;
    let ghost h = SCREEN_H as int;
    let ghost brush = Brush::Flat(color);
    let min_x: i32 = above(smaller(smaller(a.0, b.0), c.0), 0);
    let max_x: i32 = smaller(above(above(a.0, b.0), c.0), SCREEN_W as i32 - 1);
    let min_y: i32 = above(smaller(smaller(a.1, b.1), c.1), 0);
    let max_y: i32 = smaller(above(above(a.1, b.1), c.1), SCREEN_H as i32 - 1);
    let area: i32 = edge(a, b, c);
    if area == 0 {
        proof {
            raster::lemma_paint_nothing(before, w, h, shape, brush);
        }
        return;
    }
    proof {
        assert forall|x: int, y: int|
            0 <= x < w && 0 <= y < h && #[trigger] shape(x, y) implies min_x <= x <= max_x
            && min_y <= y <= max_y by {
            lemma_triangle_box(a, b, c, x, y);
        }
        raster::lemma_scan_begin(
            before,
            w,
            h,
            shape,
            min_x as int,
            min_y as int,
            max_x as int,
            max_y as int,
            brush,
        );
    }
    let mut py: i32 = min_y;
    while py <= max_y
        invariant
            w == SCREEN_W,
            h == SCREEN_H,
            brush == Brush::Flat(color),
            canvas::screen(before),
            triangle_fits(a, b, c),
            shape == triangle(a, b, c),
            area == side(a, b, at(c)),
            area != 0,
            raster::boxed(shape, w, h, min_x as int, min_y as int, max_x as int, max_y as int),
            forall|x: int, y: int|
                min_x <= x <= max_x && min_y <= y <= max_y ==> #[trigger] in_box(a, b, c, x, y),
            max_x < SCREEN_W,
            max_y < SCREEN_H,
            min_y <= py,
            buf@ == raster::paint(
                before,
                w,
                h,
                raster::scanned(shape, min_x as int, py as int),
                brush,
            ),
        decreases max_y - py + 1,
    {
        let mut px: i32 = min_x;
        while px <= max_x
            invariant
                w == SCREEN_W,
                h == SCREEN_H,
                brush == Brush::Flat(color),
                canvas::screen(before),
                triangle_fits(a, b, c),
                shape == triangle(a, b, c),
                area == side(a, b, at(c)),
                area != 0,
                forall|x: int, y: int|
                    min_x <= x <= max_x && min_y <= y <= max_y ==> #[trigger] in_box(
                        a,
                        b,
                        c,
                        x,
                        y,
                    ),
                max_x < SCREEN_W,
                max_y < SCREEN_H,
                min_y <= py <= max_y,
                min_x <= px,
                buf@ == raster::paint(
                    before,
                    w,
                    h,
                    raster::scanned(shape, px as int, py as int),
                    brush,
                ),
            decreases max_x - px + 1,
        {
            proof {
                assert(in_box(a, b, c, px as int, py as int));
                raster::lemma_scan_step(before, w, h, shape, px as int, py as int, brush);
            }
            let p = (px, py);
            let w0: i32 = edge(b, c, p);
            let w1: i32 = edge(c, a, p);
            let w2: i32 = edge(a, b, p);
            if (area > 0 && w0 >= 0 && w1 >= 0 && w2 >= 0) || (area < 0 && w0 <= 0 && w1 <= 0 && w2
                <= 0) {
                canvas::put_px(buf, px, py, color);
            }
            px += 1;
        }
        proof {
            raster::lemma_scan_row(
                before,
                w,
                h,
                shape,
                min_x as int,
                min_y as int,
                max_x as int,
                max_y as int,
                px as int,
                py as int,
                brush,
            );
        }
        py += 1;
    }
    proof {
        raster::lemma_scan_end(
            before,
            w,
            h,
            shape,
            min_x as int,
            min_y as int,
            max_x as int,
            max_y as int,
            py as int,
            brush,
        );
    }
}

/// The smaller of two numbers.
pub fn smaller(a: i32, b: i32) -> (r: i32)
    ensures
        r == raster::min(a as int, b as int),
{
    if a <= b {
        a
    } else {
        b
    }
}

/// The larger of two numbers.
pub fn above(a: i32, b: i32) -> (r: i32)
    ensures
        r == raster::max(a as int, b as int),
{
    if a >= b {
        a
    } else {
        b
    }
}

/// Two points so close that the products of their distances are `i32`s.
pub open spec fn close(a: (i32, i32), b: (i32, i32)) -> bool {
    -30000 <= a.0 - b.0 <= 30000 && -30000 <= a.1 - b.1 <= 30000
}

/// A triangle with close corners can be filled.
pub proof fn lemma_close_triangle(a: (i32, i32), b: (i32, i32), c: (i32, i32))
    requires
        close(a, b),
        close(b, c),
        close(c, a),
    ensures
        triangle_fits(a, b, c),
{
    lemma_close_side(a, b, at(c));
    assert forall|x: int, y: int| #[trigger] in_box(a, b, c, x, y) implies side_fits(b, c, (x, y))
        && side_fits(c, a, (x, y)) && side_fits(a, b, (x, y)) by {
        lemma_close_side(b, c, (x, y));
        lemma_close_side(c, a, (x, y));
        lemma_close_side(a, b, (x, y));
    }
}

proof fn lemma_close_side(a: (i32, i32), b: (i32, i32), p: (int, int))
    requires
        close(a, b),
        -30000 <= p.0 - a.0 <= 30000,
        -30000 <= p.1 - a.1 <= 30000,
    ensures
        side_fits(a, b, p),
{
    lemma_close_product(p.0 - a.0, b.1 - a.1);
    lemma_close_product(p.1 - a.1, b.0 - a.0);
}

proof fn lemma_close_product(u: int, v: int)
    requires
        -30000 <= u <= 30000,
        -30000 <= v <= 30000,
    ensures
        -900000000 <= u * v <= 900000000,
{
    assert(-900000000 <= u * v <= 900000000) by (nonlinear_arith)
        requires
            -30000 <= u <= 30000,
            -30000 <= v <= 30000,
    ;
}

/// A line between close points with a small radius can be drawn.
pub proof fn lemma_close_line(a: (i32, i32), b: (i32, i32), r: int)
    requires
        close(a, b),
        0 <= r <= 100,
        raster::fits_i32(a.0 - r) && raster::fits_i32(a.0 + r),
        raster::fits_i32(a.1 - r) && raster::fits_i32(a.1 + r),
        raster::fits_i32(b.0 - r) && raster::fits_i32(b.0 + r),
        raster::fits_i32(b.1 - r) && raster::fits_i32(b.1 + r),
    ensures
        raster::line_fits(a, b, r),
{
    let steps = raster::line_steps(a, b);
    lemma_close_product(steps, steps);
    lemma_close_product(r, r);
}

} // verus!
