//! What holds of the shapes that are drawn.

use vstd::prelude::*;

use crate::canvas;
use crate::cursor;
use crate::cursor::Rect;
use crate::ink;
use crate::lettering;
use crate::polygon;
use crate::quill;
use crate::raster;
use crate::shapes;
use crate::surface::Surface;

verus! {

/// `q` is where `p` is, or next to it.
pub open spec fn near(p: (int, int), q: (int, int)) -> bool {
    -1 <= q.0 - p.0 <= 1 && -1 <= q.1 - p.1 <= 1
}

/// The longer side of the box that two points span.
pub open spec fn longer(a: (i32, i32), b: (i32, i32)) -> int {
    let w = if a.0 <= b.0 {
        b.0 - a.0
    } else {
        a.0 - b.0
    };
    let h = if a.1 <= b.1 {
        b.1 - a.1
    } else {
        a.1 - b.1
    };
    if w >= h {
        w
    } else {
        h
    }
}

/// A path goes from `a` to `b`, from each pixel to one next to it, and is never
/// as much as a pixel away from the straight way.
pub open spec fn straight_path(path: Seq<(int, int)>, a: (i32, i32), b: (i32, i32)) -> bool {
    let n = path.len() - 1;
    &&& n >= 1
    &&& n == longer(a, b) || n == 1
    &&& path[0] == (a.0 as int, a.1 as int)
    &&& path[n] == (b.0 as int, b.1 as int)
    &&& forall|i: int| 0 <= i < n ==> near(#[trigger] path[i], path[i + 1])
    &&& forall|i: int|
        0 <= i <= n ==> -n < n * ((#[trigger] path[i]).0 - a.0) - i * (b.0 - a.0) < n && -n < n * (
        path[i].1 - a.1) - i * (b.1 - a.1) < n
}

/// The pixel is no further than `r` from some point of the path.
pub open spec fn swept(path: Seq<(int, int)>, r: int, x: int, y: int) -> bool {
    r >= 0 && exists|i: int|
        0 <= i < path.len() && (x - (#[trigger] path[i]).0) * (x - path[i].0) + (y - path[i].1) * (y
            - path[i].1) <= r * r
}

/// The points at which a line is stamped.
spec fn stamps(a: (i32, i32), b: (i32, i32)) -> Seq<(int, int)> {
    let steps = raster::line_steps(a, b);
    Seq::new(
        (steps + 1) as nat,
        |i: int|
            (
                raster::lerp(a.0 as int, b.0 as int, i, steps),
                raster::lerp(a.1 as int, b.1 as int, i, steps),
            ),
    )
}

/// One coordinate along the way.
proof fn lemma_step(p: int, q: int, i: int, steps: int)
    requires
        -steps <= q - p <= steps,
        0 < steps,
        0 <= i,
    ensures
        -1 <= raster::lerp(p, q, i + 1, steps) - raster::lerp(p, q, i, steps) <= 1,
        -steps < steps * (raster::lerp(p, q, i, steps) - p) - i * (q - p) < steps,
        raster::lerp(p, q, 0, steps) == p,
        raster::lerp(p, q, steps, steps) == q,
{
    let d = q - p;
    assert(d * 0 == 0) by (nonlinear_arith);
    assert(0int / steps == 0) by (nonlinear_arith)
        requires
            0 < steps,
    ;
    if d >= 0 {
        assert(d * i >= 0 && d * (i + 1) == d * i + d && d * steps >= 0 && (d * steps) / steps == d)
            by (nonlinear_arith)
            requires
                0 <= d,
                0 <= i,
                0 < steps,
        ;
        let x = d * i;
        assert(0 <= (x + d) / steps - x / steps <= 1 && 0 <= x - steps * (x / steps) < steps)
            by (nonlinear_arith)
            requires
                0 <= d <= steps,
                0 < steps,
                0 <= x,
        ;
        assert(i * d == x) by (nonlinear_arith)
            requires
                x == d * i,
        ;
    } else {
        let e = -d;
        assert(d * i == -(e * i) && d * (i + 1) == -(e * i + e) && d * steps == -(e * steps) && e
            * i >= 0 && e * steps > 0 && (e * steps) / steps == e) by (nonlinear_arith)
            requires
                e == -d,
                0 < e,
                0 <= i,
                0 < steps,
        ;
        let x = e * i;
        assert(0 <= (x + e) / steps - x / steps <= 1 && 0 <= x - steps * (x / steps) < steps)
            by (nonlinear_arith)
            requires
                0 <= e <= steps,
                0 < steps,
                0 <= x,
        ;
        assert(i * d == -x && steps * -(x / steps) == -(steps * (x / steps))) by (nonlinear_arith)
            requires
                x == e * i,
                d == -e,
        ;
    }
}

/// A line is a disk swept along a straight path from one end to the other,
/// without a gap.
pub proof fn law_a_line_is_a_swept_disk(a: (i32, i32), b: (i32, i32), r: int)
    ensures
        exists|path: Seq<(int, int)>| #[trigger]
            straight_path(path, a, b) && forall|x: int, y: int| #[trigger]
                raster::line(a, b, r)(x, y) <==> swept(path, r, x, y),
{
    let path = stamps(a, b);
    let steps = raster::line_steps(a, b);
    lemma_step(a.0 as int, b.0 as int, 0, steps);
    lemma_step(a.1 as int, b.1 as int, 0, steps);
    assert forall|i: int| 0 <= i < steps implies near(#[trigger] path[i], path[i + 1]) by {
        lemma_step(a.0 as int, b.0 as int, i, steps);
        lemma_step(a.1 as int, b.1 as int, i, steps);
    }
    assert forall|i: int| 0 <= i <= steps implies -steps < steps * ((#[trigger] path[i]).0 - a.0)
        - i * (b.0 - a.0) < steps && -steps < steps * (path[i].1 - a.1) - i * (b.1 - a.1)
        < steps by {
        lemma_step(a.0 as int, b.0 as int, i, steps);
        lemma_step(a.1 as int, b.1 as int, i, steps);
    }
    assert(straight_path(path, a, b));
    assert forall|x: int, y: int| #[trigger] raster::line(a, b, r)(x, y) <==> swept(
        path,
        r,
        x,
        y,
    ) by {
        if raster::line(a, b, r)(x, y) {
            let i = choose|i: int|
                0 <= i < steps + 1 && #[trigger] raster::line_stamp(a, b, r, i, x, y);
            assert(path[i].0 == raster::lerp(a.0 as int, b.0 as int, i, steps));
        }
        if swept(path, r, x, y) {
            let i = choose|i: int|
                0 <= i < path.len() && (x - (#[trigger] path[i]).0) * (x - path[i].0) + (y
                    - path[i].1) * (y - path[i].1) <= r * r;
            assert(raster::line_stamp(a, b, r, i, x, y));
        }
    }
}

/// A disk of radius `r`.
pub open spec fn round(cx: int, cy: int, r: int, x: int, y: int) -> bool {
    r >= 0 && (x - cx) * (x - cx) + (y - cy) * (y - cy) <= r * r
}

/// The pen covers where it is, and the whole way from where it last was, with a
/// nib that grows by no more than a pixel at a time.
pub proof fn law_the_pen_draws_to_where_it_is(
    stroke: Seq<(i32, i32, i32)>,
    x: i32,
    y: i32,
    r: i32,
    px: int,
    py: int,
)
    ensures
        ({
            let mark = ink::pen_mark(stroke, x, y, r);
            if stroke.len() == 0 {
                mark(px, py) <==> round(x as int, y as int, r as int, px, py)
            } else {
                let p = stroke.last();
                let nib = if r <= p.2 + 1 {
                    r as int
                } else {
                    p.2 + 1
                };
                &&& round(x as int, y as int, nib, px, py) ==> mark(px, py)
                &&& round(p.0 as int, p.1 as int, nib, px, py) ==> mark(px, py)
                &&& mark(px, py) <==> raster::line((p.0, p.1), (x, y), nib)(px, py)
            }
        }),
{
    if stroke.len() > 0 {
        let p = stroke.last();
        lemma_line_ends((p.0, p.1), (x, y), raster::min(r as int, p.2 + 1), px, py);
    }
}

/// The eraser wipes where it is, and the whole way from where it last was.
pub proof fn law_the_eraser_wipes_to_where_it_is(
    from: Option<(i32, i32)>,
    x: i32,
    y: i32,
    r: i32,
    px: int,
    py: int,
)
    ensures
        round(x as int, y as int, r as int, px, py) ==> ink::eraser_mark(from, x, y, r)(px, py),
        (match from {
            None => ink::eraser_mark(from, x, y, r)(px, py) ==> round(
                x as int,
                y as int,
                r as int,
                px,
                py,
            ),
            Some(p) => {
                &&& round(p.0 as int, p.1 as int, r as int, px, py) ==> ink::eraser_mark(
                    from,
                    x,
                    y,
                    r,
                )(px, py)
                &&& ink::eraser_mark(from, x, y, r)(px, py) <==> raster::line(p, (x, y), r as int)(
                    px,
                    py,
                )
            },
        }),
{
    if let Some(p) = from {
        lemma_line_ends(p, (x, y), r as int, px, py);
    }
}

proof fn lemma_line_ends(a: (i32, i32), b: (i32, i32), r: int, x: int, y: int)
    ensures
        round(a.0 as int, a.1 as int, r, x, y) ==> raster::line(a, b, r)(x, y),
        round(b.0 as int, b.1 as int, r, x, y) ==> raster::line(a, b, r)(x, y),
{
    let steps = raster::line_steps(a, b);
    lemma_step(a.0 as int, b.0 as int, 0, steps);
    lemma_step(a.1 as int, b.1 as int, 0, steps);
    if round(a.0 as int, a.1 as int, r, x, y) {
        assert(raster::line_stamp(a, b, r, 0, x, y));
    }
    if round(b.0 as int, b.1 as int, r, x, y) {
        assert(raster::line_stamp(a, b, r, steps, x, y));
    }
}

/// Painting a shape sets the pixels of the shape, and leaves all others as they
/// were.
pub proof fn law_painting_sets_the_shape(
    buf: Seq<u32>,
    region: spec_fn(int, int) -> bool,
    color: u32,
    x: int,
    y: int,
)
    requires
        0 <= x < 1620,
        0 <= y < 2160,
        1620 * 2160 <= buf.len(),
    ensures
        canvas::painted(buf, region, color).len() == buf.len(),
        canvas::painted(buf, region, color)[y * 1620 + x] == if region(x, y) {
            color
        } else {
            buf[y * 1620 + x]
        },
{
    raster::lemma_pixel_index(x, y, 1620);
    raster::lemma_pixel_bound(x, y, 1620, 2160);
}

/// A pen on the page colours its mark and nothing else, and an eraser lets the
/// paper show in its mark and nowhere else.
pub proof fn law_marks_stay_in_their_place(
    page: &Surface,
    mark: spec_fn(int, int) -> bool,
    color: u32,
    x: int,
    y: int,
)
    requires
        page.wf(),
        0 <= x < page.w,
        0 <= y < page.h,
    ensures
        ({
            let i = y * page.w + x;
            &&& page.inked(mark, color)[i] == if mark(x, y) {
                color
            } else {
                page.pixels@[i]
            }
            &&& page.wiped(mark)[i] == if mark(x, y) {
                page.paper@[i]
            } else {
                page.pixels@[i]
            }
        }),
{
    raster::lemma_pixel_index(x, y, page.w as int);
    raster::lemma_pixel_bound(x, y, page.w as int, page.h as int);
}

/// The frame of a rectangle is what lies in it but not inside of its sides.
pub proof fn law_an_outline_is_a_frame(x: int, y: int, w: int, h: int, t: int, px: int, py: int)
    requires
        0 <= t,
        2 * t <= w,
        2 * t <= h,
    ensures
        canvas::outline(x, y, w, h, t)(px, py) <==> (x <= px < x + w && y <= py < y + h) && !(x + t
            <= px < x + w - t && y + t <= py < y + h - t),
{
}

/// Twice the area of a triangle, with a sign.
spec fn cross(a: (int, int), b: (int, int), p: (int, int)) -> int {
    (p.0 - a.0) * (b.1 - a.1) - (p.1 - a.1) * (b.0 - a.0)
}

proof fn lemma_cross_turns(a: (int, int), b: (int, int), p: (int, int))
    ensures
        cross(b, a, p) == -cross(a, b, p),
        cross(b, p, a) == cross(a, b, p),
        cross(a, b, a) == 0,
        cross(a, b, b) == 0,
{
    let (dx, dy) = (b.0 - a.0, b.1 - a.1);
    let (px, py) = (p.0 - a.0, p.1 - a.1);
    assert((px - dx) * -dy - (py - dy) * -dx == -(px * dy - py * dx)) by (nonlinear_arith);
    assert(-dx * (py - dy) - -dy * (px - dx) == px * dy - py * dx) by (nonlinear_arith);
    assert(0 * dy - 0 * dx == 0 && dx * dy - dy * dx == 0) by (nonlinear_arith);
}

/// A triangle does not depend on the order of its corners, and it has them.
pub proof fn law_corners_come_in_any_order(
    a: (i32, i32),
    b: (i32, i32),
    c: (i32, i32),
    x: int,
    y: int,
)
    ensures
        shapes::triangle(a, b, c)(x, y) == shapes::triangle(b, c, a)(x, y),
        shapes::triangle(a, b, c)(x, y) == shapes::triangle(b, a, c)(x, y),
        (exists|qx: int, qy: int| #[trigger] shapes::triangle(a, b, c)(qx, qy))
            ==> shapes::triangle(a, b, c)(a.0 as int, a.1 as int) && shapes::triangle(a, b, c)(
            b.0 as int,
            b.1 as int,
        ) && shapes::triangle(a, b, c)(c.0 as int, c.1 as int),
{
    let (u, v, w) = (shapes::at(a), shapes::at(b), shapes::at(c));
    let p = (x, y);
    lemma_cross_turns(u, v, w);
    lemma_cross_turns(v, w, u);
    lemma_cross_turns(w, u, v);
    lemma_cross_turns(u, v, p);
    lemma_cross_turns(v, w, p);
    lemma_cross_turns(w, u, p);
    assert(shapes::side(a, b, w) == cross(u, v, w));
    assert(shapes::side(b, c, u) == cross(v, w, u));
    assert(shapes::side(c, a, v) == cross(w, u, v));
    assert(shapes::side(b, a, w) == cross(v, u, w));
    assert(shapes::side(a, b, p) == cross(u, v, p) && shapes::side(b, a, p) == cross(v, u, p));
    assert(shapes::side(b, c, p) == cross(v, w, p) && shapes::side(c, b, p) == cross(w, v, p));
    assert(shapes::side(c, a, p) == cross(w, u, p) && shapes::side(a, c, p) == cross(u, w, p));
    assert(shapes::side(a, b, u) == cross(u, v, u) && shapes::side(a, b, v) == cross(u, v, v));
    assert(shapes::side(b, c, v) == cross(v, w, v) && shapes::side(b, c, w) == cross(v, w, w));
    assert(shapes::side(c, a, w) == cross(w, u, w) && shapes::side(c, a, u) == cross(w, u, u));
}

/// An ellipse as wide as it is high is a disk; any ellipse is the same on both
/// sides of its axes, reaches its radii and no further, and has no hole.
pub proof fn law_an_ellipse_is_a_stretched_disk(
    cx: int,
    cy: int,
    rx: int,
    ry: int,
    dx: int,
    dy: int,
)
    requires
        1 <= rx,
        1 <= ry,
    ensures
        ({
            let e = shapes::ellipse(cx, cy, rx, ry);
            &&& e(cx + dx, cy + dy) == e(cx - dx, cy + dy)
            &&& e(cx + dx, cy + dy) == e(cx + dx, cy - dy)
            &&& e(cx + dx, cy) <==> -rx <= dx <= rx
            &&& e(cx, cy + dy) <==> -ry <= dy <= ry
            &&& rx == ry ==> (e(cx + dx, cy + dy) <==> dx * dx + dy * dy <= rx * rx)
        }),
{
    let (p, q) = (rx * rx, ry * ry);
    assert(p >= 1 && q >= 1 && -dx * -dx == dx * dx && -dy * -dy == dy * dy && 0int * 0 == 0)
        by (nonlinear_arith)
        requires
            1 <= rx,
            1 <= ry,
            p == rx * rx,
            q == ry * ry,
    ;
    let e = shapes::ellipse(cx, cy, rx, ry);
    let (a, b) = (dx * dx, dy * dy);
    assert(0 <= a && 0 <= b) by (nonlinear_arith)
        requires
            a == dx * dx,
            b == dy * dy,
    ;
    assert(0 * q == 0 && 0 * p == 0);
    if -rx <= dx <= rx {
        assert(a <= p && a * q <= p * q) by (nonlinear_arith)
            requires
                -rx <= dx <= rx,
                a == dx * dx,
                p == rx * rx,
                q >= 1,
        ;
    }
    if -ry <= dy <= ry {
        assert(b <= q && b * p <= p * q) by (nonlinear_arith)
            requires
                -ry <= dy <= ry,
                b == dy * dy,
                q == ry * ry,
                p >= 1,
        ;
    }
    if rx == ry {
        assert((a * p + b * p <= p * p) <==> (a + b <= p)) by (nonlinear_arith)
            requires
                p >= 1,
        ;
        if a + b <= p {
            assert(-rx <= dx <= rx) by (nonlinear_arith)
                requires
                    dx * dx <= rx * rx,
                    1 <= rx,
            ;
            assert(-rx <= dy <= rx) by (nonlinear_arith)
                requires
                    dy * dy <= rx * rx,
                    1 <= rx,
            ;
        }
    }
}

/// Copying a rectangle takes its pixels from one buffer and leaves the others of
/// the other as they were.
pub proof fn law_a_copied_rectangle(src: Seq<u32>, dst: Seq<u32>, rect: Rect, x: int, y: int)
    requires
        0 <= x < 1620,
        0 <= y < 2160,
        1620 * 2160 <= dst.len(),
    ensures
        cursor::patched(src, dst, rect).len() == dst.len(),
        cursor::patched(src, dst, rect)[y * 1620 + x] == if rect.x <= x < rect.x + rect.w && rect.y
            <= y < rect.y + rect.h {
            src[y * 1620 + x]
        } else {
            dst[y * 1620 + x]
        },
{
    raster::lemma_pixel_index(x, y, 1620);
    raster::lemma_pixel_bound(x, y, 1620, 2160);
}

/// The rectangle of the quill is what of its bounds lies on the screen.
pub proof fn law_the_rectangle_of_the_quill(x: int, y: int, px: int, py: int)
    ensures
        (0 <= px < 1620 && 0 <= py < 2160 && x - 28 <= px < x + 206 && y - 446 <= py < y + 24)
            <==> (match cursor::quill_rect(x, y) {
            Some(r) => r.x <= px < r.x + r.w && r.y <= py < r.y + r.h,
            None => false,
        }),
{
}

/// A ray to the right is answered as it should be for upright and level edges:
/// it crosses an upright one that is ahead and spans its row, and no level one.
pub open spec fn upright_answers(cross: polygon::Cross) -> bool {
    forall|x: int, y: int, a: (i32, i32), b: (i32, i32)|
        #![trigger cross(x, y, a, b)]
        (a.0 == b.0 ==> cross(x, y, a, b) == (x < a.0 && (a.1 <= y < b.1 || b.1 <= y < a.1))) && (
        a.1 == b.1 && a.0 != b.0 ==> !cross(x, y, a, b))
}

/// A polygon is closed: one with the corners of a box is the box, whatever
/// corner comes first.
pub proof fn law_a_box_is_filled(
    x0: i32,
    y0: i32,
    x1: i32,
    y1: i32,
    cross: polygon::Cross,
    x: int,
    y: int,
)
    requires
        x0 < x1,
        y0 < y1,
        upright_answers(cross),
    ensures
        ({
            let boxed = x0 <= x < x1 && y0 <= y < y1;
            let (a, b, c, d) = ((x0, y0), (x1, y0), (x1, y1), (x0, y1));
            &&& polygon::polygon(seq![a, b, c, d], cross)(x, y) == boxed
            &&& polygon::polygon(seq![b, c, d, a], cross)(x, y) == boxed
            &&& polygon::polygon(seq![c, d, a, b], cross)(x, y) == boxed
            &&& polygon::polygon(seq![d, a, b, c], cross)(x, y) == boxed
        }),
{
    let (a, b, c, d) = ((x0, y0), (x1, y0), (x1, y1), (x0, y1));
    lemma_box(seq![a, b, c, d], x0, y0, x1, y1, cross, x, y);
    lemma_box(seq![b, c, d, a], x0, y0, x1, y1, cross, x, y);
    lemma_box(seq![c, d, a, b], x0, y0, x1, y1, cross, x, y);
    lemma_box(seq![d, a, b, c], x0, y0, x1, y1, cross, x, y);
}

proof fn lemma_box(
    points: Seq<(i32, i32)>,
    x0: i32,
    y0: i32,
    x1: i32,
    y1: i32,
    cross: polygon::Cross,
    x: int,
    y: int,
)
    requires
        x0 < x1,
        y0 < y1,
        upright_answers(cross),
        points.len() == 4,
        forall|i: int|
            0 <= i < 4 ==> ((#[trigger] points[i]).0 == x0 || points[i].0 == x1) && (points[i].1
                == y0 || points[i].1 == y1),
        points == seq![(x0, y0), (x1, y0), (x1, y1), (x0, y1)] || points == seq![
            (x1, y0),
            (x1, y1),
            (x0, y1),
            (x0, y0),
        ] || points == seq![(x1, y1), (x0, y1), (x0, y0), (x1, y0)] || points == seq![
            (x0, y1),
            (x0, y0),
            (x1, y0),
            (x1, y1),
        ],
    ensures
        polygon::polygon(points, cross)(x, y) == (x0 <= x < x1 && y0 <= y < y1),
{
    reveal_with_fuel(polygon::crossings, 5);
    let (p0, p1, p2, p3) = (points[0], points[1], points[2], points[3]);
    let c0 = cross(x, y, p0, p3);
    let c1 = cross(x, y, p1, p0);
    let c2 = cross(x, y, p2, p1);
    let c3 = cross(x, y, p3, p2);
    assert(polygon::crossings(points, x, y, cross, 4) == c0 as int + c1 as int + c2 as int
        + c3 as int);
    if x0 <= x < x1 && y0 <= y < y1 {
        assert(polygon::between_corners(points, x, y)) by {
            if p0.0 == x0 {
                assert(points[0].0 <= x);
            } else {
                assert(points[2].0 <= x);
            }
            if p0.0 == x1 {
                assert(x <= points[0].0);
            } else {
                assert(x <= points[2].0);
            }
            if p0.1 == y0 {
                assert(points[0].1 <= y && y <= points[2].1);
            } else {
                assert(points[2].1 <= y && y <= points[0].1);
            }
        }
    }
}

/// How wide a text is set: four dots for a space, six for any other character.
pub open spec fn set_width(s: Seq<char>, scale: int) -> int
    decreases s.len(),
{
    if s.len() == 0 {
        0
    } else {
        set_width(s.drop_last(), scale) + scale * (if s.last() == ' ' {
            4int
        } else {
            6
        })
    }
}

proof fn lemma_pen_width(s: Seq<char>, x: int, scale: int, k: int)
    requires
        0 <= k <= s.len(),
    ensures
        lettering::pen(s, x, scale, k) == x + set_width(s.take(k), scale),
    decreases k,
{
    if k > 0 {
        lemma_pen_width(s, x, scale, k - 1);
        assert(s.take(k).drop_last() =~= s.take(k - 1));
    }
}

proof fn lemma_set_width_concat(a: Seq<char>, b: Seq<char>, scale: int)
    ensures
        set_width(a + b, scale) == set_width(a, scale) + set_width(b, scale),
    decreases b.len(),
{
    if b.len() == 0 {
        assert(a + b =~= a);
    } else {
        assert((a + b).drop_last() =~= a + b.drop_last());
        lemma_set_width_concat(a, b.drop_last(), scale);
    }
}

/// Text is set from left to right: a text and one behind it stand side by side,
/// the second where the first ends.
pub proof fn law_text_is_set_side_by_side(
    a: Seq<char>,
    b: Seq<char>,
    x: int,
    y: int,
    scale: int,
    px: int,
    py: int,
)
    ensures
        lettering::letters(a + b, x, y, scale)(px, py) <==> lettering::letters(a, x, y, scale)(
            px,
            py,
        ) || lettering::letters(b, x + set_width(a, scale), y, scale)(px, py),
        !lettering::letters(seq![' '], x, y, scale)(px, py),
{
    let s = a + b;
    let z = x + set_width(a, scale);
    if lettering::letters(s, x, y, scale)(px, py) {
        let (k, row, col) = choose|k: int, row: int, col: int| #[trigger]
            lettering::in_dot(s, x, y, scale, k, row, col, px, py);
        assert(lettering::in_dot(s, x, y, scale, k, row, col, px, py));
        lemma_pen_width(s, x, scale, k);
        if k < a.len() {
            lemma_pen_width(a, x, scale, k);
            assert(s.take(k) =~= a.take(k));
            assert(lettering::in_dot(a, x, y, scale, k, row, col, px, py));
        } else {
            let j = k - a.len();
            lemma_pen_width(b, z, scale, j);
            assert(s.take(k) =~= a + b.take(j));
            lemma_set_width_concat(a, b.take(j), scale);
            assert(lettering::in_dot(b, z, y, scale, j, row, col, px, py));
        }
    }
    if lettering::letters(a, x, y, scale)(px, py) {
        let (k, row, col) = choose|k: int, row: int, col: int| #[trigger]
            lettering::in_dot(a, x, y, scale, k, row, col, px, py);
        assert(lettering::in_dot(a, x, y, scale, k, row, col, px, py));
        lemma_pen_width(s, x, scale, k);
        lemma_pen_width(a, x, scale, k);
        assert(s.take(k) =~= a.take(k));
        assert(lettering::in_dot(s, x, y, scale, k, row, col, px, py));
    }
    if lettering::letters(b, z, y, scale)(px, py) {
        let (j, row, col) = choose|k: int, row: int, col: int| #[trigger]
            lettering::in_dot(b, z, y, scale, k, row, col, px, py);
        assert(lettering::in_dot(b, z, y, scale, j, row, col, px, py));
        let k = a.len() + j;
        lemma_pen_width(s, x, scale, k);
        lemma_pen_width(b, z, scale, j);
        assert(s.take(k) =~= a + b.take(j));
        lemma_set_width_concat(a, b.take(j), scale);
        assert(lettering::in_dot(s, x, y, scale, k, row, col, px, py));
    }
}

/// A wave rises evenly from its lowest point to its highest in half a period,
/// and falls as it rose.
pub proof fn law_a_wave_rises_and_falls(frame: int, period: int, amp: int)
    requires
        2 <= period,
        period % 2 == 0,
        0 <= amp,
        0 <= frame <= period / 2,
    ensures
        ({
            let half = period / 2;
            let height = quill::wave(frame, period, amp) + amp;
            &&& half * height <= 2 * amp * frame < half * (height + 1)
            &&& 0 < frame ==> quill::wave(period - frame, period, amp) == quill::wave(frame, period, amp)
        }),
        quill::wave(period / 2, period, amp) == amp,
{
    let half = period / 2;
    assert(quill::half_period(period) == half);
    assert(frame % period == frame) by {
        vstd::arithmetic::div_mod::lemma_small_mod(frame as nat, period as nat);
    }
    let v = quill::wave_phase(frame, period);
    assert(v == frame);
    if 0 < frame {
        assert((period - frame) % period == period - frame) by {
            vstd::arithmetic::div_mod::lemma_small_mod((period - frame) as nat, period as nat);
        }
        assert(quill::wave_phase(period - frame, period) == frame);
    }
    let n = frame * amp * 2;
    assert(n == 2 * amp * frame && n >= 0) by (nonlinear_arith)
        requires
            n == frame * amp * 2,
            0 <= frame,
            0 <= amp,
    ;
    assert(half * (n / half) <= n < half * (n / half + 1)) by (nonlinear_arith)
        requires
            0 < half,
            0 <= n,
    ;
    assert(half % period == half) by {
        vstd::arithmetic::div_mod::lemma_small_mod(half as nat, period as nat);
    }
    assert(quill::wave_phase(half, period) == half);
    let top = half * amp * 2;
    assert(top / half == amp * 2 && top >= 0) by (nonlinear_arith)
        requires
            top == half * amp * 2,
            0 < half,
            0 <= amp,
    ;
}

/// The quill follows the mouse: its nib is where the mouse is, bobbing by a
/// pixel at most, and pressed down by one where a button is.
pub proof fn law_the_nib_follows_the_mouse(
    x: int,
    y: int,
    dx: int,
    dy: int,
    frame: int,
    down: bool,
)
    requires
        0 <= frame,
    ensures
        quill::pose(x, y, frame, down).x == x,
        y - 1 <= quill::pose(x, y, frame, down).y <= y + 1,
        quill::pose(x, y, frame, true).y == y + 1,
        quill::pose(x, y, frame, true).sway == quill::pose(x, y, frame, false).sway,
        quill::pose(x + dx, y + dy, frame, down) == (quill::Pose {
            x: x + dx,
            y: quill::pose(x, y, frame, down).y + dy,
            ..quill::pose(x, y, frame, down)
        }),
{
    quill::lemma_waves(frame);
}

} // verus!
