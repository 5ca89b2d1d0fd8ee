//! The part of the screen that the quill takes up.

use vstd::prelude::*;

use crate::canvas;
use crate::fb::{SCREEN_H, SCREEN_W};
use crate::polygon;
use crate::quill;
use crate::raster::{self, Brush};
use crate::shapes;

verus! {

/// A rectangle on the screen.
#[derive(Clone, Copy, PartialEq, Eq, Structural, Debug)]
pub struct Rect {
    pub x: usize,
    pub y: usize,
    pub w: usize,
    pub h: usize,
}

impl Rect {
    /// The rectangle lies on the screen.
    pub open spec fn on_screen(&self) -> bool {
        self.x + self.w <= SCREEN_W && self.y + self.h <= SCREEN_H
    }

    /// The pixels of the rectangle.
    pub open spec fn region(&self) -> spec_fn(int, int) -> bool {
        raster::rect(self.x as int, self.y as int, self.w as int, self.h as int)
    }
}

/// The part on the screen of the rectangle from `(x0, y0)` up to `(x1, y1)`;
/// `None` if there is none.
pub open spec fn rect_on_screen(x0: int, y0: int, x1: int, y1: int) -> Option<Rect> {
    let left = canvas::clipped(x0, SCREEN_W as int);
    let top = canvas::clipped(y0, SCREEN_H as int);
    let right = canvas::clipped(x1, SCREEN_W as int);
    let bottom = canvas::clipped(y1, SCREEN_H as int);
    if right <= left || bottom <= top {
        None
    } else {
        Some(
            Rect {
                x: left as usize,
                y: top as usize,
                w: (right - left) as usize,
                h: (bottom - top) as usize,
            },
        )
    }
}

/// The part on the screen of the rectangle from one corner up to another.
pub fn rect_from_i32(x0: i32, y0: i32, x1: i32, y1: i32) -> (r: Option<Rect>)
    ensures
        r == rect_on_screen(x0 as int, y0 as int, x1 as int, y1 as int),
        r matches Some(rect) ==> rect.on_screen(),
{
    let x0: i32 = shapes::smaller(shapes::above(x0, 0), SCREEN_W as i32);
    let y0: i32 = shapes::smaller(shapes::above(y0, 0), SCREEN_H as i32);
    let x1: i32 = shapes::smaller(shapes::above(x1, 0), SCREEN_W as i32);
    let y1: i32 = shapes::smaller(shapes::above(y1, 0), SCREEN_H as i32);
    if x1 <= x0 || y1 <= y0 {
        return None;
    }
    Some(
        Rect {
            x: x0 as usize,
            y: y0 as usize,
            w: (x1 - x0) as usize,
            h: (y1 - y0) as usize,
        },
    )
}

/// The part of the screen that the quill at `(x, y)` may take up.
pub open spec fn quill_rect(x: int, y: int) -> Option<Rect> {
    rect_on_screen(x - 28, y - 446, x + 206, y + 24)
}

/// The part of the screen that the quill at a point may take up.
pub fn cursor_bounds(x: i32, y: i32) -> (r: Option<Rect>)
    requires
        raster::fits_i32(x - 28),
        raster::fits_i32(y - 446),
        raster::fits_i32(x + 206),
        raster::fits_i32(y + 24),
    ensures
        r == quill_rect(x as int, y as int),
        r matches Some(rect) ==> rect.on_screen(),
{
    rect_from_i32(x - 28, y - 446, x + 206, y + 24)
}

/// `dst` with the pixels of a rectangle taken from `src`.
pub open spec fn patched(src: Seq<u32>, dst: Seq<u32>, rect: Rect) -> Seq<u32> {
    Seq::new(
        dst.len(),
        |i: int|
            if i < SCREEN_W * SCREEN_H && rect.region()(i % (SCREEN_W as int), i / (
            SCREEN_W as int)) {
                src[i]
            } else {
                dst[i]
            },
    )
}

/// Copies a rectangle from one buffer to another.
pub fn copy_rect_u32(src: &[u32], dst: &mut [u32], rect: Rect)
    requires
        canvas::screen(src@),
        canvas::screen(old(dst)@),
        rect.on_screen(),
    ensures
        final(dst)@ == patched(src@, old(dst)@, rect),
{
    let ghost before = dst@;
    let brush = Brush::Texture(src);
    raster::fill_rect(
        dst,
        SCREEN_W,
        SCREEN_H,
        rect.x as i32,
        rect.y as i32,
        rect.w as i32,
        rect.h as i32,
        &brush,
    );
    assert(dst@ =~= patched(src@, before, rect));
}

/// Every pixel of `region` lies from `(x0, y0)` up to `(x1, y1)`.
pub open spec fn confined(
    region: spec_fn(int, int) -> bool,
    x0: int,
    y0: int,
    x1: int,
    y1: int,
) -> bool {
    forall|x: int, y: int| #[trigger] region(x, y) ==> x0 <= x < x1 && y0 <= y < y1
}

/// A point lies from `(x0 + m, y0 + m)` up to `(x1 - m, y1 - m)`.
spec fn held_in(p: (i32, i32), m: int, x0: int, y0: int, x1: int, y1: int) -> bool {
    x0 + m <= p.0 < x1 - m && y0 + m <= p.1 < y1 - m
}

/// A line stays as far away from its ends as its radius.
pub proof fn lemma_line_confined(
    a: (i32, i32),
    b: (i32, i32),
    r: int,
    x0: int,
    y0: int,
    x1: int,
    y1: int,
)
    requires
        x0 + r <= a.0 < x1 - r && y0 + r <= a.1 < y1 - r,
        x0 + r <= b.0 < x1 - r && y0 + r <= b.1 < y1 - r,
    ensures
        confined(raster::line(a, b, r), x0, y0, x1, y1),
{
    let region = raster::line(a, b, r);
    let steps = raster::line_steps(a, b);
    assert forall|x: int, y: int| #[trigger] region(x, y) implies x0 <= x < x1 && y0 <= y < y1 by {
        let i = choose|i: int|
            0 <= i < steps + 1 && #[trigger] raster::line_stamp(a, b, r, i, x, y);
        let lx = raster::lerp(a.0 as int, b.0 as int, i, steps);
        let ly = raster::lerp(a.1 as int, b.1 as int, i, steps);
        raster::lemma_lerp_between(a.0 as int, b.0 as int, i, steps);
        raster::lemma_lerp_between(a.1 as int, b.1 as int, i, steps);
        raster::lemma_within_square(x - lx, y - ly, r);
    }
}

proof fn lemma_polyline_confined(
    points: Seq<(i32, i32)>,
    r: int,
    x0: int,
    y0: int,
    x1: int,
    y1: int,
)
    requires
        forall|i: int|
            0 <= i < points.len() ==> held_in(#[trigger] points[i], r, x0, y0, x1, y1),
    ensures
        confined(canvas::polyline(points, r), x0, y0, x1, y1),
{
    let region = canvas::polyline(points, r);
    assert forall|x: int, y: int| #[trigger] region(x, y) implies x0 <= x < x1 && y0 <= y < y1 by {
        let k = choose|k: int|
            0 <= k < points.len() - 1 && #[trigger] canvas::polyline_piece(points, r, k, x, y);
        assert(held_in(points[k], r, x0, y0, x1, y1));
        assert(held_in(points[k + 1], r, x0, y0, x1, y1));
        lemma_line_confined(points[k], points[k + 1], r, x0, y0, x1, y1);
        assert(raster::line(points[k], points[k + 1], r)(x, y));
    }
}

proof fn lemma_triangle_confined(
    a: (i32, i32),
    b: (i32, i32),
    c: (i32, i32),
    x0: int,
    y0: int,
    x1: int,
    y1: int,
)
    requires
        held_in(a, 0, x0, y0, x1, y1),
        held_in(b, 0, x0, y0, x1, y1),
        held_in(c, 0, x0, y0, x1, y1),
    ensures
        confined(shapes::triangle(a, b, c), x0, y0, x1, y1),
{
    let region = shapes::triangle(a, b, c);
    assert forall|x: int, y: int| #[trigger] region(x, y) implies x0 <= x < x1 && y0 <= y < y1 by {
        shapes::lemma_triangle_box(a, b, c, x, y);
    }
}

proof fn lemma_polygon_confined(
    points: Seq<(i32, i32)>,
    cross: polygon::Cross,
    x0: int,
    y0: int,
    x1: int,
    y1: int,
)
    requires
        forall|i: int|
            0 <= i < points.len() ==> held_in(#[trigger] points[i], 0, x0, y0, x1, y1),
    ensures
        confined(polygon::polygon(points, cross), x0, y0, x1, y1),
{
}

proof fn lemma_disk_confined(cx: int, cy: int, r: int, x0: int, y0: int, x1: int, y1: int)
    requires
        x0 <= cx - r,
        cx + r < x1,
        y0 <= cy - r,
        cy + r < y1,
    ensures
        confined(raster::disk(cx, cy, r), x0, y0, x1, y1),
{
    let region = raster::disk(cx, cy, r);
    assert forall|x: int, y: int| #[trigger] region(x, y) implies x0 <= x < x1 && y0 <= y < y1 by {
        raster::lemma_within_square(x - cx, y - cy, r);
    }
}

/// Where the corners of the vanes can be, with the nib at `(x, y)`.
pub open spec fn around(x: int, y: int, p: (i32, i32)) -> bool {
    x + 6 <= p.0 <= x + 160 && y - 403 <= p.1 <= y + 1
}

/// The corners of a vane that is drawn with the nib at `(x, y)` go no further
/// than the five pixels by which they are moved inwards, give or take one for
/// rounding.
pub open spec fn gentle(inward: polygon::Inward, x: int, y: int) -> bool {
    forall|sx: int, sy: int, p: (i32, i32)|
        #![trigger inward(sx, sy, 10, p, 5)]
        around(x, y, p) && 10 * (x + 6) <= sx <= 10 * (x + 160) && 10 * (y - 403) <= sy <= 10 * (y
            + 1) ==> -6 <= inward(sx, sy, 10, p, 5).0 - p.0 <= 6 && -6 <= inward(
            sx,
            sy,
            10,
            p,
            5,
        ).1 - p.1 <= 6
}

/// The sums of coordinates lie where the coordinates do, times their number.
proof fn lemma_sums_around(points: Seq<(i32, i32)>, n: int, x: int, y: int)
    requires
        0 <= n <= points.len(),
        forall|i: int| 0 <= i < points.len() ==> around(x, y, #[trigger] points[i]),
    ensures
        n * (x + 6) <= polygon::sum_x(points, n) <= n * (x + 160),
        n * (y - 403) <= polygon::sum_y(points, n) <= n * (y + 1),
    decreases n,
{
    if n > 0 {
        lemma_sums_around(points, n - 1, x, y);
        assert(around(x, y, points[n - 1]));
        assert(n * (x + 6) == (n - 1) * (x + 6) + (x + 6)) by (nonlinear_arith);
        assert(n * (x + 160) == (n - 1) * (x + 160) + (x + 160)) by (nonlinear_arith);
        assert(n * (y - 403) == (n - 1) * (y - 403) + (y - 403)) by (nonlinear_arith);
        assert(n * (y + 1) == (n - 1) * (y + 1) + (y + 1)) by (nonlinear_arith);
    }
}

/// A point of the quill, with room around it.
spec fn quill_point(q: quill::Pose, p: (i32, i32)) -> bool {
    q.x + 6 <= p.0 <= q.x + 160 && q.y - 402 <= p.1 <= q.y
}

proof fn lemma_quill_points(q: quill::Pose)
    requires
        quill::holdable(q),
    ensures
        forall|i: int| 0 <= i < 8 ==> quill_point(q, #[trigger] quill::shaft_points(q)[i]),
        forall|i: int| 0 <= i < 10 ==> quill_point(q, #[trigger] quill::left_vane(q)[i]),
        forall|i: int| 0 <= i < 10 ==> quill_point(q, #[trigger] quill::right_vane(q)[i]),
        quill_point(q, quill::off(q, 31 + quill::part(q, 4), -236)),
        quill_point(q, quill::off(q, 125 + quill::part(q, 4), -238)),
        quill_point(q, quill::off(q, 25 + quill::part(q, 5), -120)),
        quill_point(q, quill::off(q, 39 + quill::part(q, 4), -252)),
        quill_point(q, quill::off(q, 83 + quill::part(q, 5), -123)),
        quill_point(q, quill::off(q, 116 + quill::part(q, 4), -255)),
{
    quill::lemma_parts(q);
    let s = quill::shaft_points(q);
    assert(quill_point(q, s[0]) && quill_point(q, s[1]) && quill_point(q, s[2]) && quill_point(
        q,
        s[3],
    ) && quill_point(q, s[4]) && quill_point(q, s[5]) && quill_point(q, s[6]) && quill_point(
        q,
        s[7],
    ));
    let l = quill::left_vane(q);
    assert(quill_point(q, l[0]) && quill_point(q, l[1]) && quill_point(q, l[2]) && quill_point(
        q,
        l[3],
    ) && quill_point(q, l[4]) && quill_point(q, l[5]) && quill_point(q, l[6]) && quill_point(
        q,
        l[7],
    ) && quill_point(q, l[8]) && quill_point(q, l[9]));
    let r = quill::right_vane(q);
    assert(quill_point(q, r[0]) && quill_point(q, r[1]) && quill_point(q, r[2]) && quill_point(
        q,
        r[3],
    ) && quill_point(q, r[4]) && quill_point(q, r[5]) && quill_point(q, r[6]) && quill_point(
        q,
        r[7],
    ) && quill_point(q, r[8]) && quill_point(q, r[9]));
}

/// All layers lie from `(x0, y0)` up to `(x1, y1)`.
pub open spec fn all_confined(
    layers: Seq<canvas::Layer>,
    x0: int,
    y0: int,
    x1: int,
    y1: int,
) -> bool {
    forall|k: int|
        0 <= k < layers.len() ==> confined((#[trigger] layers[k]).region, x0, y0, x1, y1)
}

proof fn lemma_confined_concat(
    a: Seq<canvas::Layer>,
    b: Seq<canvas::Layer>,
    x0: int,
    y0: int,
    x1: int,
    y1: int,
)
    requires
        all_confined(a, x0, y0, x1, y1),
        all_confined(b, x0, y0, x1, y1),
    ensures
        all_confined(a + b, x0, y0, x1, y1),
{
    assert forall|k: int| 0 <= k < (a + b).len() implies confined(
        (#[trigger] (a + b)[k]).region,
        x0,
        y0,
        x1,
        y1,
    ) by {
        if k < a.len() {
            assert((a + b)[k] == a[k]);
        } else {
            assert((a + b)[k] == b[k - a.len()]);
        }
    }
}

proof fn lemma_vanes_confined(
    q: quill::Pose,
    x: int,
    y: int,
    cross: polygon::Cross,
    inward: polygon::Inward,
    x0: int,
    y0: int,
    x1: int,
    y1: int,
)
    requires
        quill::holdable(q),
        q.x == x,
        y - 1 <= q.y <= y + 1,
        gentle(inward, x, y),
        x0 <= q.x - 20,
        q.x + 190 <= x1,
        y0 <= q.y - 420,
        q.y + 20 <= y1,
    ensures
        all_confined(quill::vane_layers(q, cross, inward), x0, y0, x1, y1),
{
    lemma_quill_points(q);
    let l = quill::left_vane(q);
    let r = quill::right_vane(q);
    let li = polygon::moved_in(l, 5, inward);
    let ri = polygon::moved_in(r, 5, inward);
    assert forall|i: int| 0 <= i < l.len() implies held_in(#[trigger] l[i], 0, x0, y0, x1, y1) by {
        assert(quill_point(q, l[i]));
    }
    assert forall|i: int| 0 <= i < r.len() implies held_in(#[trigger] r[i], 0, x0, y0, x1, y1) by {
        assert(quill_point(q, r[i]));
    }
    assert forall|i: int| 0 <= i < 10 implies around(x, y, #[trigger] l[i]) by {
        assert(quill_point(q, l[i]));
    }
    assert forall|i: int| 0 <= i < 10 implies around(x, y, #[trigger] r[i]) by {
        assert(quill_point(q, r[i]));
    }
    lemma_sums_around(l, 10, x, y);
    lemma_sums_around(r, 10, x, y);
    assert forall|i: int| 0 <= i < li.len() implies held_in(
        #[trigger] li[i],
        0,
        x0,
        y0,
        x1,
        y1,
    ) by {
        assert(quill_point(q, l[i]));
    }
    assert forall|i: int| 0 <= i < ri.len() implies held_in(
        #[trigger] ri[i],
        0,
        x0,
        y0,
        x1,
        y1,
    ) by {
        assert(quill_point(q, r[i]));
    }
    lemma_polygon_confined(l, cross, x0, y0, x1, y1);
    lemma_polygon_confined(r, cross, x0, y0, x1, y1);
    lemma_polygon_confined(li, cross, x0, y0, x1, y1);
    lemma_polygon_confined(ri, cross, x0, y0, x1, y1);
}

proof fn lemma_feather_confined(q: quill::Pose, x0: int, y0: int, x1: int, y1: int)
    requires
        quill::holdable(q),
        x0 <= q.x - 20,
        q.x + 190 <= x1,
        y0 <= q.y - 420,
        q.y + 20 <= y1,
    ensures
        all_confined(quill::feather_layers(q), x0, y0, x1, y1),
{
    lemma_quill_points(q);
    let s = quill::shaft_points(q);
    assert(quill_point(q, s[4]) && quill_point(q, s[5]) && quill_point(q, s[7]));
    let p4 = quill::part(q, 4);
    let p5 = quill::part(q, 5);
    lemma_triangle_confined(s[4], quill::off(q, 31 + p4, -236), s[7], x0, y0, x1, y1);
    lemma_triangle_confined(s[4], quill::off(q, 125 + p4, -238), s[7], x0, y0, x1, y1);
    lemma_line_confined(quill::off(q, 25 + p5, -120), s[4], 1, x0, y0, x1, y1);
    lemma_line_confined(quill::off(q, 39 + p4, -252), s[5], 1, x0, y0, x1, y1);
    lemma_line_confined(quill::off(q, 83 + p5, -123), s[4], 1, x0, y0, x1, y1);
    lemma_line_confined(quill::off(q, 116 + p4, -255), s[5], 1, x0, y0, x1, y1);
}

proof fn lemma_shaft_confined(q: quill::Pose, x0: int, y0: int, x1: int, y1: int)
    requires
        quill::holdable(q),
        x0 <= q.x - 20,
        q.x + 190 <= x1,
        y0 <= q.y - 420,
        q.y + 20 <= y1,
    ensures
        all_confined(quill::shaft_layers(q), x0, y0, x1, y1),
{
    lemma_quill_points(q);
    let s = quill::shaft_points(q);
    assert forall|i: int| 0 <= i < s.len() implies held_in(#[trigger] s[i], 5, x0, y0, x1, y1)
        && held_in(s[i], 3, x0, y0, x1, y1) && held_in(s[i], 1, x0, y0, x1, y1) by {
        assert(quill_point(q, s[i]));
    }
    let light = s.subrange(1, 7);
    assert forall|i: int| 0 <= i < light.len() implies held_in(
        #[trigger] light[i],
        1,
        x0,
        y0,
        x1,
        y1,
    ) by {
        assert(light[i] == s[i + 1]);
    }
    lemma_polyline_confined(s, 5, x0, y0, x1, y1);
    lemma_polyline_confined(s, 3, x0, y0, x1, y1);
    lemma_polyline_confined(light, 1, x0, y0, x1, y1);
}

proof fn lemma_nib_confined(q: quill::Pose, x0: int, y0: int, x1: int, y1: int)
    requires
        quill::holdable(q),
        x0 <= q.x - 20,
        q.x + 190 <= x1,
        y0 <= q.y - 420,
        q.y + 20 <= y1,
    ensures
        all_confined(quill::nib_layers(q), x0, y0, x1, y1),
{
    lemma_triangle_confined(
        quill::off(q, 0, 0),
        quill::off(q, 7, -17),
        quill::off(q, 20, -9),
        x0,
        y0,
        x1,
        y1,
    );
    lemma_triangle_confined(
        quill::off(q, 2, -1),
        quill::off(q, 8, -14),
        quill::off(q, 17, -8),
        x0,
        y0,
        x1,
        y1,
    );
    lemma_line_confined(quill::off(q, 4, -3), quill::off(q, 12, -11), 1, x0, y0, x1, y1);
    lemma_disk_confined(q.x, q.y, 1, x0, y0, x1, y1);
}

/// The quill stays in its bounds, whatever the frame of its movement.
pub proof fn law_quill_stays_in_its_bounds(
    x: int,
    y: int,
    frame: int,
    down: bool,
    cross: polygon::Cross,
    inward: polygon::Inward,
)
    requires
        quill::in_reach(x, y),
        0 <= frame,
        gentle(inward, x, y),
    ensures
        all_confined(
            quill::quill_layers(quill::pose(x, y, frame, down), cross, inward),
            x - 28,
            y - 446,
            x + 206,
            y + 24,
        ),
{
    let q = quill::pose(x, y, frame, down);
    quill::lemma_waves(frame);
    let (x0, y0, x1, y1) = (x - 28, y - 446, x + 206, y + 24);
    lemma_vanes_confined(q, x, y, cross, inward, x0, y0, x1, y1);
    lemma_feather_confined(q, x0, y0, x1, y1);
    lemma_shaft_confined(q, x0, y0, x1, y1);
    lemma_nib_confined(q, x0, y0, x1, y1);
    let f = quill::feather_layers(q);
    let s = quill::shaft_layers(q);
    let e = quill::eye_layers(q);
    let n = quill::nib_layers(q);
    assert(all_confined(e, x0, y0, x1, y1));
    lemma_confined_concat(f, s, x0, y0, x1, y1);
    lemma_confined_concat(f + s, e, x0, y0, x1, y1);
    lemma_confined_concat(f + s + e, n, x0, y0, x1, y1);
    lemma_confined_concat(
        quill::vane_layers(q, cross, inward),
        quill::upper_layers(q),
        x0,
        y0,
        x1,
        y1,
    );
}

/// Layers change nothing outside of where they lie.
pub proof fn law_layers_change_only_their_place(
    buf: Seq<u32>,
    layers: Seq<canvas::Layer>,
    x0: int,
    y0: int,
    x1: int,
    y1: int,
    i: int,
)
    requires
        all_confined(layers, x0, y0, x1, y1),
        0 <= i < buf.len(),
        i < SCREEN_W * SCREEN_H ==> !(x0 <= i % (SCREEN_W as int) < x1 && y0 <= i / (
        SCREEN_W as int) < y1),
    ensures
        canvas::layered(buf, layers)[i] == buf[i],
        canvas::layered(buf, layers).len() == buf.len(),
    decreases layers.len(),
{
    canvas::lemma_layered_len(buf, layers);
    if layers.len() > 0 {
        let before = layers.drop_last();
        assert forall|k: int| 0 <= k < before.len() implies confined(
            (#[trigger] before[k]).region,
            x0,
            y0,
            x1,
            y1,
        ) by {
            assert(before[k] == layers[k]);
        }
        law_layers_change_only_their_place(buf, before, x0, y0, x1, y1, i);
        assert(confined(layers[layers.len() - 1].region, x0, y0, x1, y1));
    }
}

} // verus!
