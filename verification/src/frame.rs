//! The cover of the diary around the page.

use vstd::prelude::*;

use crate::canvas;
use crate::fb::{SCREEN_H, SCREEN_W};
use crate::lettering;
use crate::raster;
use crate::shapes;

verus! {

pub const PLATE_GOLD: u32 = 0xFFC1_9540;

pub const PLATE_GOLD_DARK: u32 = 0xFF6B_5121;

pub const PLATE_CUT: u32 = 0xFF13_1110;

pub const LEATHER: u32 = 0xFF13_1110;

pub const LEATHER_DARK: u32 = 0xFF08_0707;

pub const LEATHER_HI: u32 = 0xFF24_211E;

pub const GOLD: u32 = 0xFFB4_8D3A;

pub const GOLD_DARK: u32 = 0xFF6F_5522;

pub const PAGE_SHADOW: u32 = 0xFF7A_7770;

pub const LABEL: u32 = 0xFF10_0F0E;

/// How wide the cover is on each side of the page.
pub const LEFT: i32 = 84;

pub const RIGHT: i32 = 62;

pub const TOP: i32 = 72;

pub const BOTTOM: i32 = 96;

/// What the label says.
pub const NAME: &'static str = "TOM MARVOLO RIDDLE";

/// A point of a corner plate that grows from `(x, y)` towards `(sx, sy)`.
pub open spec fn plate_point(x: int, y: int, sx: int, sy: int, i: int, j: int) -> (i32, i32) {
    ((x + sx * i) as i32, (y + sy * j) as i32)
}

/// The coordinates of such a point are `i32`s.
pub open spec fn plate_point_fits(x: int, y: int, sx: int, sy: int, i: int, j: int) -> bool {
    raster::fits_i32(sx * i) && raster::fits_i32(sy * j) && raster::fits_i32(x + sx * i)
        && raster::fits_i32(y + sy * j)
}

/// A corner plate that can be drawn.
pub open spec fn plate_fits(x: int, y: int, sx: int, sy: int) -> bool {
    let p = |i: int, j: int| plate_point(x, y, sx, sy, i, j);
    &&& plate_point_fits(x, y, sx, sy, 96, 0) && plate_point_fits(x, y, sx, sy, 0, 96)
    &&& plate_point_fits(x, y, sx, sy, 10, 10) && plate_point_fits(x, y, sx, sy, 84, 10)
    &&& plate_point_fits(x, y, sx, sy, 10, 84) && plate_point_fits(x, y, sx, sy, 36, 36)
    &&& plate_point_fits(x, y, sx, sy, 92, 18) && plate_point_fits(x, y, sx, sy, 18, 92)
    &&& plate_point_fits(x, y, sx, sy, 18, 74) && plate_point_fits(x, y, sx, sy, 74, 18)
    &&& plate_point_fits(x, y, sx, sy, 13, 48) && plate_point_fits(x, y, sx, sy, 48, 13)
    &&& shapes::triangle_fits(p(0, 0), p(96, 0), p(0, 96))
    &&& shapes::triangle_fits(p(10, 10), p(84, 10), p(10, 84))
    &&& shapes::triangle_fits(p(36, 36), p(92, 18), p(18, 92))
    &&& raster::line_fits(p(18, 74), p(74, 18), 2)
    &&& raster::line_fits(p(13, 48), p(48, 13), 1)
}

/// A corner plate: gold with a dark rim, cut out, and two engraved lines.
pub open spec fn plate_layers(x: int, y: int, sx: int, sy: int) -> Seq<canvas::Layer> {
    let p = |i: int, j: int| plate_point(x, y, sx, sy, i, j);
    seq![
        canvas::layer(shapes::triangle(p(0, 0), p(96, 0), p(0, 96)), PLATE_GOLD_DARK),
        canvas::layer(shapes::triangle(p(10, 10), p(84, 10), p(10, 84)), PLATE_GOLD),
        canvas::layer(shapes::triangle(p(36, 36), p(92, 18), p(18, 92)), PLATE_CUT),
        canvas::layer(raster::line(p(18, 74), p(74, 18), 2), PLATE_GOLD_DARK),
        canvas::layer(raster::line(p(13, 48), p(48, 13), 1), PLATE_GOLD_DARK),
    ]
}

/// Draws a corner plate.
pub fn draw_corner_plate(buf: &mut [u32], x: i32, y: i32, sx: i32, sy: i32)
    requires
        canvas::screen(old(buf)@),
        plate_fits(x as int, y as int, sx as int, sy as int),
    ensures
        final(buf)@ == canvas::layered(
            old(buf)@,
            plate_layers(x as int, y as int, sx as int, sy as int),
        ),
{
    let ghost before = buf@;
    let ghost all = plate_layers(x as int, y as int, sx as int, sy as int);
    proof {
        assert(sx * 0 == 0 && sy * 0 == 0);
        lemma_five(before, all);
    }
    shapes::fill_triangle(buf, (x, y), (x + sx * 96, y), (x, y + sy * 96), PLATE_GOLD_DARK);
    shapes::fill_triangle(
        buf,
        (x + sx * 10, y + sy * 10),
        (x + sx * 84, y + sy * 10),
        (x + sx * 10, y + sy * 84),
        PLATE_GOLD,
    );
    shapes::fill_triangle(
        buf,
        (x + sx * 36, y + sy * 36),
        (x + sx * 92, y + sy * 18),
        (x + sx * 18, y + sy * 92),
        PLATE_CUT,
    );
    canvas::draw_line(
        buf,
        (x + sx * 18, y + sy * 74),
        (x + sx * 74, y + sy * 18),
        2,
        PLATE_GOLD_DARK,
    );
    canvas::draw_line(
        buf,
        (x + sx * 13, y + sy * 48),
        (x + sx * 48, y + sy * 13),
        1,
        PLATE_GOLD_DARK,
    );
}

/// Five layers, one after another.
proof fn lemma_five(buf: Seq<u32>, l: Seq<canvas::Layer>)
    requires
        l.len() == 5,
    ensures
        canvas::layered(buf, l) == canvas::painted(
            canvas::painted(
                canvas::painted(
                    canvas::painted(
                        canvas::painted(buf, l[0].region, l[0].color),
                        l[1].region,
                        l[1].color,
                    ),
                    l[2].region,
                    l[2].color,
                ),
                l[3].region,
                l[3].color,
            ),
            l[4].region,
            l[4].color,
        ),
{
    assert(l.take(0) =~= seq![]);
    canvas::lemma_next_layer(buf, l, 0);
    canvas::lemma_next_layer(buf, l, 1);
    canvas::lemma_next_layer(buf, l, 2);
    canvas::lemma_next_layer(buf, l, 3);
    canvas::lemma_next_layer(buf, l, 4);
    assert(l.take(5) =~= l);
}

/// The leather of the cover, its edge, and the shadow of the cover on the page.
pub open spec fn cover_layers() -> Seq<canvas::Layer> {
    let w = SCREEN_W as int;
    let h = SCREEN_H as int;
    seq![
        canvas::layer(raster::rect(0, 0, w, TOP as int), LEATHER),
        canvas::layer(raster::rect(0, h - BOTTOM, w, BOTTOM as int), LEATHER),
        canvas::layer(raster::rect(0, 0, LEFT as int, h), LEATHER_DARK),
        canvas::layer(raster::rect(w - RIGHT, 0, RIGHT as int, h), LEATHER),
        canvas::layer(raster::line((76, 0), (76, 2160), 2), LEATHER_HI),
        canvas::layer(raster::line((86, 72), (86, 2064), 2), PAGE_SHADOW),
        canvas::layer(raster::line((84, 74), (1558, 74), 2), PAGE_SHADOW),
        canvas::layer(raster::line((1556, 72), (1556, 2064), 2), PAGE_SHADOW),
        canvas::layer(raster::line((84, 2062), (1558, 2062), 2), PAGE_SHADOW),
    ]
}

/// The label with the name.
pub open spec fn label_layers() -> Seq<canvas::Layer> {
    seq![
        canvas::layer(raster::rect(560, 2087, 500, 48), LABEL),
        canvas::layer(canvas::outline(560, 2087, 500, 48, 2), GOLD_DARK),
        canvas::layer(canvas::outline(567, 2094, 486, 34, 1), GOLD),
        canvas::layer(lettering::letters(NAME@, 616, 2102, 4), GOLD),
    ]
}

/// The cover of the diary.
pub open spec fn frame_layers() -> Seq<canvas::Layer> {
    cover_layers() + plate_layers(18, 18, 1, 1) + plate_layers(1602, 18, -1, 1) + plate_layers(
        18,
        2142,
        1,
        -1,
    ) + plate_layers(1602, 2142, -1, -1) + label_layers()
}

/// A plate in a corner of the screen can be drawn.
proof fn lemma_plate_fits(x: int, y: int, sx: int, sy: int)
    requires
        0 <= x <= SCREEN_W,
        0 <= y <= SCREEN_H,
        sx == 1 || sx == -1,
        sy == 1 || sy == -1,
    ensures
        plate_fits(x, y, sx, sy),
{
    let p = |i: int, j: int| plate_point(x, y, sx, sy, i, j);
    lemma_plate_point(x, y, sx, sy, 0, 0);
    lemma_plate_point(x, y, sx, sy, 96, 0);
    lemma_plate_point(x, y, sx, sy, 0, 96);
    lemma_plate_point(x, y, sx, sy, 10, 10);
    lemma_plate_point(x, y, sx, sy, 84, 10);
    lemma_plate_point(x, y, sx, sy, 10, 84);
    lemma_plate_point(x, y, sx, sy, 36, 36);
    lemma_plate_point(x, y, sx, sy, 92, 18);
    lemma_plate_point(x, y, sx, sy, 18, 92);
    lemma_plate_point(x, y, sx, sy, 18, 74);
    lemma_plate_point(x, y, sx, sy, 74, 18);
    lemma_plate_point(x, y, sx, sy, 13, 48);
    lemma_plate_point(x, y, sx, sy, 48, 13);
    shapes::lemma_close_triangle(p(0, 0), p(96, 0), p(0, 96));
    shapes::lemma_close_triangle(p(10, 10), p(84, 10), p(10, 84));
    shapes::lemma_close_triangle(p(36, 36), p(92, 18), p(18, 92));
    shapes::lemma_close_line(p(18, 74), p(74, 18), 2);
    shapes::lemma_close_line(p(13, 48), p(48, 13), 1);
}

proof fn lemma_plate_point(x: int, y: int, sx: int, sy: int, i: int, j: int)
    requires
        0 <= x <= SCREEN_W,
        0 <= y <= SCREEN_H,
        sx == 1 || sx == -1,
        sy == 1 || sy == -1,
        0 <= i <= 96,
        0 <= j <= 96,
    ensures
        plate_point_fits(x, y, sx, sy, i, j),
        -96 <= plate_point(x, y, sx, sy, i, j).0 <= SCREEN_W + 96,
        -96 <= plate_point(x, y, sx, sy, i, j).1 <= SCREEN_H + 96,
{
    assert(-96 <= sx * i <= 96 && -96 <= sy * j <= 96) by (nonlinear_arith)
        requires
            sx == 1 || sx == -1,
            sy == 1 || sy == -1,
            0 <= i <= 96,
            0 <= j <= 96,
    ;
}

/// Draws the leather of the cover, its edge, and its shadow on the page.
fn draw_cover(buf: &mut [u32])
    requires
        canvas::screen(old(buf)@),
    ensures
        final(buf)@ == canvas::layered(old(buf)@, cover_layers()),
{
    let ghost before = buf@;
    let ghost all = cover_layers();
    proof {
        assert(all.take(0) =~= seq![]);
        canvas::lemma_next_layer(before, all, 0);
        canvas::lemma_next_layer(before, all, 1);
        canvas::lemma_next_layer(before, all, 2);
        canvas::lemma_next_layer(before, all, 3);
        canvas::lemma_next_layer(before, all, 4);
        canvas::lemma_next_layer(before, all, 5);
        canvas::lemma_next_layer(before, all, 6);
        canvas::lemma_next_layer(before, all, 7);
        canvas::lemma_next_layer(before, all, 8);
        assert(all.take(9) =~= all);
        shapes::lemma_close_line((76, 0), (76, 2160), 2);
        shapes::lemma_close_line((86, 72), (86, 2064), 2);
        shapes::lemma_close_line((84, 74), (1558, 74), 2);
        shapes::lemma_close_line((1556, 72), (1556, 2064), 2);
        shapes::lemma_close_line((84, 2062), (1558, 2062), 2);
    }
    let w: i32 = SCREEN_W as i32;
    let h: i32 = SCREEN_H as i32;
    canvas::fill_rect_u32(buf, 0, 0, w, TOP, LEATHER);
    canvas::fill_rect_u32(buf, 0, h - BOTTOM, w, BOTTOM, LEATHER);
    canvas::fill_rect_u32(buf, 0, 0, LEFT, h, LEATHER_DARK);
    canvas::fill_rect_u32(buf, w - RIGHT, 0, RIGHT, h, LEATHER);
    canvas::draw_line(buf, (LEFT - 8, 0), (LEFT - 8, h), 2, LEATHER_HI);
    canvas::draw_line(buf, (LEFT + 2, TOP), (LEFT + 2, h - BOTTOM), 2, PAGE_SHADOW);
    canvas::draw_line(buf, (LEFT, TOP + 2), (w - RIGHT, TOP + 2), 2, PAGE_SHADOW);
    canvas::draw_line(buf, (w - RIGHT - 2, TOP), (w - RIGHT - 2, h - BOTTOM), 2, PAGE_SHADOW);
    canvas::draw_line(buf, (LEFT, h - BOTTOM - 2), (w - RIGHT, h - BOTTOM - 2), 2, PAGE_SHADOW);
}

/// Draws the label with the name.
fn draw_label(buf: &mut [u32])
    requires
        canvas::screen(old(buf)@),
    ensures
        final(buf)@ == canvas::layered(old(buf)@, label_layers()),
{
    let ghost before = buf@;
    let ghost all = label_layers();
    proof {
        assert(all.take(0) =~= seq![]);
        canvas::lemma_next_layer(before, all, 0);
        canvas::lemma_next_layer(before, all, 1);
        canvas::lemma_next_layer(before, all, 2);
        canvas::lemma_next_layer(before, all, 3);
        assert(all.take(4) =~= all);
        reveal_strlit("TOM MARVOLO RIDDLE");
        lettering::lemma_letters_fit(NAME@, 616, 2102, 4);
    }
    let label_w: i32 = 500;
    let label_h: i32 = 48;
    let label_x: i32 = (SCREEN_W as i32 - label_w) / 2;
    let label_y: i32 = SCREEN_H as i32 - 73;
    canvas::fill_rect_u32(buf, label_x, label_y, label_w, label_h, LABEL);
    canvas::draw_rect_u32(buf, label_x, label_y, label_w, label_h, 2, GOLD_DARK);
    canvas::draw_rect_u32(buf, label_x + 7, label_y + 7, label_w - 14, label_h - 14, 1, GOLD);
    lettering::draw_text(buf, label_x + 56, label_y + 15, NAME, 4, GOLD);
}

/// Draws the cover of the diary around the page.
pub fn draw_diary_frame(buf: &mut [u32])
    requires
        canvas::screen(old(buf)@),
    ensures
        final(buf)@ == canvas::layered(old(buf)@, frame_layers()),
{
    let ghost before = buf@;
    let w: i32 = SCREEN_W as i32;
    let h: i32 = SCREEN_H as i32;
    proof {
        lemma_plate_fits(18, 18, 1, 1);
        lemma_plate_fits(1602, 18, -1, 1);
        lemma_plate_fits(18, 2142, 1, -1);
        lemma_plate_fits(1602, 2142, -1, -1);
        let a = cover_layers();
        let b = plate_layers(18, 18, 1, 1);
        let c = plate_layers(1602, 18, -1, 1);
        let d = plate_layers(18, 2142, 1, -1);
        let e = plate_layers(1602, 2142, -1, -1);
        canvas::lemma_layered_concat(before, a, b);
        canvas::lemma_layered_concat(before, a + b, c);
        canvas::lemma_layered_concat(before, a + b + c, d);
        canvas::lemma_layered_concat(before, a + b + c + d, e);
        canvas::lemma_layered_concat(before, a + b + c + d + e, label_layers());
        canvas::lemma_layered_len(before, a);
        canvas::lemma_layered_len(before, a + b);
        canvas::lemma_layered_len(before, a + b + c);
        canvas::lemma_layered_len(before, a + b + c + d);
        canvas::lemma_layered_len(before, a + b + c + d + e);
    }
    draw_cover(buf);
    draw_corner_plate(buf, 18, 18, 1, 1);
    draw_corner_plate(buf, w - 18, 18, -1, 1);
    draw_corner_plate(buf, 18, h - 18, 1, -1);
    draw_corner_plate(buf, w - 18, h - 18, -1, -1);
    draw_label(buf);
}

} // verus!
