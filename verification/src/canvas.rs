//! Shapes on the buffer of the screen.

use vstd::prelude::*;

use crate::fb::{SCREEN_H, SCREEN_W};
use crate::raster::{self, Brush};

verus! {

/// A buffer that holds the screen.
pub open spec fn screen(buf: Seq<u32>) -> bool {
    raster::holds(buf, SCREEN_W as int, SCREEN_H as int)
}

/// The screen with `region` in one colour.
pub open spec fn painted(buf: Seq<u32>, region: spec_fn(int, int) -> bool, color: u32) -> Seq<u32> {
    raster::paint(buf, SCREEN_W as int, SCREEN_H as int, region, Brush::Flat(color))
}

/// A shape and its colour.
pub struct Layer {
    pub region: spec_fn(int, int) -> bool,
    pub color: u32,
}

/// A shape in a colour.
pub open spec fn layer(region: spec_fn(int, int) -> bool, color: u32) -> Layer {
    Layer { region, color }
}

/// The screen with some layers painted over it, in their order.
pub open spec fn layered(buf: Seq<u32>, layers: Seq<Layer>) -> Seq<u32>
    decreases layers.len(),
{
    if layers.len() == 0 {
        buf
    } else {
        painted(layered(buf, layers.drop_last()), layers.last().region, layers.last().color)
    }
}

/// One more layer is painted over the others.
pub proof fn lemma_layered_push(buf: Seq<u32>, layers: Seq<Layer>, l: Layer)
    ensures
        layered(buf, layers.push(l)) == painted(layered(buf, layers), l.region, l.color),
        layered(buf, layers).len() == buf.len(),
        layered(buf, layers.push(l)).len() == buf.len(),
    decreases layers.len(),
{
    assert(layers.push(l).drop_last() =~= layers);
    lemma_layered_len(buf, layers);
    lemma_layered_len(buf, layers.push(l));
}

/// The next of some layers.
pub proof fn lemma_next_layer(buf: Seq<u32>, l: Seq<Layer>, k: int)
    requires
        0 <= k < l.len(),
    ensures
        layered(buf, l.take(k + 1)) == painted(
            layered(buf, l.take(k)),
            l[k].region,
            l[k].color,
        ),
{
    assert(l.take(k + 1) =~= l.take(k).push(l[k]));
    lemma_layered_push(buf, l.take(k), l[k]);
}

/// Painting keeps the size of the buffer.
pub proof fn lemma_layered_len(buf: Seq<u32>, layers: Seq<Layer>)
    ensures
        layered(buf, layers).len() == buf.len(),
    decreases layers.len(),
{
    if layers.len() > 0 {
        lemma_layered_len(buf, layers.drop_last());
    }
}

/// Layers can be painted in two goes.
pub proof fn lemma_layered_concat(buf: Seq<u32>, a: Seq<Layer>, b: Seq<Layer>)
    ensures
        layered(buf, a + b) == layered(layered(buf, a), b),
    decreases b.len(),
{
    if b.len() == 0 {
        assert(a + b =~= a);
    } else {
        assert((a + b).drop_last() =~= a + b.drop_last());
        lemma_layered_concat(buf, a, b.drop_last());
    }
}

/// A pixel that some layers cover is the same whatever was under them, and any
/// other is left as it was.
pub proof fn lemma_covered_or_left(a: Seq<u32>, b: Seq<u32>, layers: Seq<Layer>, i: int)
    requires
        a.len() == b.len(),
        0 <= i < a.len(),
    ensures
        layered(a, layers)[i] == layered(b, layers)[i] || (layered(a, layers)[i] == a[i]
            && layered(b, layers)[i] == b[i]),
    decreases layers.len(),
{
    if layers.len() > 0 {
        lemma_covered_or_left(a, b, layers.drop_last(), i);
        lemma_layered_len(a, layers.drop_last());
        lemma_layered_len(b, layers.drop_last());
    }
}

/// A pixel of a layer is the same whatever was under the layers.
pub proof fn lemma_covered(a: Seq<u32>, b: Seq<u32>, layers: Seq<Layer>, k: int, i: int)
    requires
        a.len() == b.len(),
        0 <= i < a.len(),
        i < SCREEN_W * SCREEN_H,
        0 <= k < layers.len(),
        (layers[k].region)(i % (SCREEN_W as int), i / (SCREEN_W as int)),
    ensures
        layered(a, layers)[i] == layered(b, layers)[i],
    decreases layers.len(),
{
    let before = layers.drop_last();
    lemma_layered_len(a, before);
    lemma_layered_len(b, before);
    if k < before.len() {
        assert(before[k] == layers[k]);
        lemma_covered(a, b, before, k, i);
    }
}

/// Sets one pixel; a point outside the screen changes nothing.
pub fn put_px(buf: &mut [u32], x: i32, y: i32, color: u32)
    requires
        screen(old(buf)@),
    ensures
        final(buf)@ == painted(old(buf)@, raster::dot(x as int, y as int), color),
{
    let brush = Brush::Flat(color);
    raster::put(buf, SCREEN_W, SCREEN_H, x, y, &brush);
}

/// Stamps a disk.
pub fn put_disk(buf: &mut [u32], cx: i32, cy: i32, r: i32, color: u32)
    requires
        screen(old(buf)@),
        raster::disk_fits(cx as int, cy as int, r as int),
    ensures
        final(buf)@ == painted(old(buf)@, raster::disk(cx as int, cy as int, r as int), color),
{
    let brush = Brush::Flat(color);
    raster::put_disk(buf, SCREEN_W, SCREEN_H, cx, cy, r, &brush);
}

/// Draws a line with a round brush.
pub fn draw_line(buf: &mut [u32], a: (i32, i32), b: (i32, i32), r: i32, color: u32)
    requires
        screen(old(buf)@),
        raster::line_fits(a, b, r as int),
    ensures
        final(buf)@ == painted(old(buf)@, raster::line(a, b, r as int), color),
{
    let brush = Brush::Flat(color);
    raster::put_line(buf, SCREEN_W, SCREEN_H, a, b, r, &brush);
}

/// The first `n` lines from point to point.
pub open spec fn polyline_part(points: Seq<(i32, i32)>, r: int, n: int) -> spec_fn(
    int,
    int,
) -> bool {
    |x: int, y: int|
        exists|k: int|
            0 <= k < n && #[trigger] polyline_piece(points, r, k, x, y)
}

/// The line from point `k` to the next.
pub open spec fn polyline_piece(points: Seq<(i32, i32)>, r: int, k: int, x: int, y: int) -> bool {
    raster::line(points[k], points[k + 1], r)(x, y)
}

/// The lines from point to point.
pub open spec fn polyline(points: Seq<(i32, i32)>, r: int) -> spec_fn(int, int) -> bool {
    polyline_part(points, r, points.len() - 1)
}

/// Draws lines from point to point.
pub fn draw_polyline(buf: &mut [u32], points: &[(i32, i32)], r: i32, color: u32)
    requires
        screen(old(buf)@),
        forall|k: int|
            0 <= k < points@.len() - 1 ==> raster::line_fits(
                #[trigger] points@[k],
                points@[k + 1],
                r as int,
            ),
    ensures
        final(buf)@ == painted(old(buf)@, polyline(points@, r as int), color),
{
    let ghost before = buf@;
    let ghost w = SCREEN_W as int;
    let ghost h = SCREEN_H as int;
    let mut k: usize = 0;
    proof {
        raster::lemma_paint_nothing(
            before,
            w,
            h,
            polyline_part(points@, r as int, 0),
            Brush::Flat(color),
        );
        if points@.len() == 0 {
            raster::lemma_paint_nothing(
                before,
                w,
                h,
                polyline(points@, r as int),
                Brush::Flat(color),
            );
        }
    }
    while points.len() > 1 && k < points.len() - 1
        invariant
            w == SCREEN_W,
            h == SCREEN_H,
            screen(before),
            forall|k: int|
                0 <= k < points@.len() - 1 ==> raster::line_fits(
                    #[trigger] points@[k],
                    points@[k + 1],
                    r as int,
                ),
            k <= points@.len() - 1 || k == 0,
            buf@ == painted(before, polyline_part(points@, r as int, k as int), color),
        decreases points@.len() - k,
    {
        assert(raster::line_fits(points@[k as int], points@[k + 1], r as int));
        draw_line(buf, points[k], points[k + 1], r, color);
        proof {
            let r1 = polyline_part(points@, r as int, k as int);
            let r2 = polyline_part(points@, r as int, k + 1);
            let piece = raster::line(points@[k as int], points@[k + 1], r as int);
            assert forall|x: int, y: int| #[trigger] r2(x, y) <==> (r1(x, y) || piece(x, y)) by {
                assert(piece(x, y) <==> polyline_piece(points@, r as int, k as int, x, y));
            }
            raster::lemma_paint_union(before, w, h, r1, piece, r2, Brush::Flat(color));
        }
        k += 1;
    }
}

/// The row in which a span begins or ends, kept on the screen.
pub open spec fn clipped(a: int, limit: int) -> int {
    raster::max(raster::min(a, limit), 0)
}

/// A rectangle that can be filled: its far corner is an `i32`, and where it has
/// rows on the screen, it does not begin to the right of where it ends there.
pub open spec fn rect_fits(x: int, y: int, w: int, h: int) -> bool {
    &&& raster::fits_i32(x + w)
    &&& raster::fits_i32(y + h)
    &&& raster::max(y, 0) < clipped(y + h, SCREEN_H as int) ==> raster::max(x, 0) <= clipped(
        x + w,
        SCREEN_W as int,
    )
}

/// Fills a rectangle.
pub fn fill_rect_u32(buf: &mut [u32], x: i32, y: i32, w: i32, h: i32, color: u32)
    requires
        screen(old(buf)@),
        rect_fits(x as int, y as int, w as int, h as int),
    ensures
        final(buf)@ == painted(
            old(buf)@,
            raster::rect(x as int, y as int, w as int, h as int),
            color,
        ),
{
    let brush = Brush::Flat(color);
    raster::fill_rect(buf, SCREEN_W, SCREEN_H, x, y, w, h, &brush);
}

/// The four sides of a rectangle, `t` pixels thick.
pub open spec fn outline(x: int, y: int, w: int, h: int, t: int) -> spec_fn(int, int) -> bool {
    |px: int, py: int|
        {
            ||| raster::rect(x, y, w, t)(px, py)
            ||| raster::rect(x, y + h - t, w, t)(px, py)
            ||| raster::rect(x, y, t, h)(px, py)
            ||| raster::rect(x + w - t, y, t, h)(px, py)
        }
}

/// A rectangle whose sides can be drawn.
pub open spec fn outline_fits(x: int, y: int, w: int, h: int, t: int) -> bool {
    &&& rect_fits(x, y, w, t)
    &&& raster::fits_i32(y + h) && raster::fits_i32(y + h - t)
    &&& rect_fits(x, y + h - t, w, t)
    &&& rect_fits(x, y, t, h)
    &&& raster::fits_i32(x + w) && raster::fits_i32(x + w - t)
    &&& rect_fits(x + w - t, y, t, h)
}

/// Draws the four sides of a rectangle.
pub fn draw_rect_u32(buf: &mut [u32], x: i32, y: i32, w: i32, h: i32, t: i32, color: u32)
    requires
        screen(old(buf)@),
        outline_fits(x as int, y as int, w as int, h as int, t as int),
    ensures
        final(buf)@ == painted(
            old(buf)@,
            outline(x as int, y as int, w as int, h as int, t as int),
            color,
        ),
{
    let ghost before = buf@;
    let ghost top = raster::rect(x as int, y as int, w as int, t as int);
    let ghost bottom = raster::rect(x as int, y + h - t, w as int, t as int);
    let ghost left = raster::rect(x as int, y as int, t as int, h as int);
    let ghost right = raster::rect(x + w - t, y as int, t as int, h as int);
    let ghost two = |px: int, py: int| top(px, py) || bottom(px, py);
    let ghost three = |px: int, py: int| two(px, py) || left(px, py);
    let ghost four = outline(x as int, y as int, w as int, h as int, t as int);
    fill_rect_u32(buf, x, y, w, t, color);
    fill_rect_u32(buf, x, y + h - t, w, t, color);
    fill_rect_u32(buf, x, y, t, h, color);
    fill_rect_u32(buf, x + w - t, y, t, h, color);
    proof {
        let brush = Brush::Flat(color);
        let sw = SCREEN_W as int;
        let sh = SCREEN_H as int;
        raster::lemma_paint_union(before, sw, sh, top, bottom, two, brush);
        raster::lemma_paint_union(before, sw, sh, two, left, three, brush);
        raster::lemma_paint_union(before, sw, sh, three, right, four, brush);
    }
}

} // verus!
