//! What holds of the cover: it leaves the page free, and hides the rest.

use vstd::prelude::*;

use crate::canvas;
use crate::cursor;
use crate::fb::{SCREEN_H, SCREEN_W};
use crate::frame;
use crate::lettering;
use crate::raster;
use crate::shapes;

verus! {

/// The part of the page that the cover never touches: what the shadow leaves
/// free, but for some pixels under the upper right plate.
pub open spec fn open_page(x: int, y: int) -> bool {
    89 <= x < 1554 && 77 <= y < 2060 && x - y < 1474
}

/// A shape touches nothing of the open page.
pub open spec fn keeps_off(region: spec_fn(int, int) -> bool) -> bool {
    forall|x: int, y: int| open_page(x, y) ==> !#[trigger] region(x, y)
}

/// None of the shapes touches the open page.
pub open spec fn all_keep_off(layers: Seq<canvas::Layer>) -> bool {
    forall|k: int| 0 <= k < layers.len() ==> keeps_off((#[trigger] layers[k]).region)
}

proof fn lemma_keep_off_concat(a: Seq<canvas::Layer>, b: Seq<canvas::Layer>)
    requires
        all_keep_off(a),
        all_keep_off(b),
    ensures
        all_keep_off(a + b),
{
    assert forall|k: int| 0 <= k < (a + b).len() implies keeps_off(
        (#[trigger] (a + b)[k]).region,
    ) by {
        if k < a.len() {
            assert((a + b)[k] == a[k]);
        } else {
            assert((a + b)[k] == b[k - a.len()]);
        }
    }
}

/// A line keeps off the page if the box around it does.
proof fn lemma_line_keeps_off(a: (i32, i32), b: (i32, i32), r: int)
    requires
        0 <= r <= 2,
        ({
            ||| raster::max(a.0 as int, b.0 as int) + r < 89
            ||| raster::min(a.0 as int, b.0 as int) - r >= 1554
            ||| raster::max(a.1 as int, b.1 as int) + r < 77
            ||| raster::min(a.1 as int, b.1 as int) - r >= 2060
        }),
    ensures
        keeps_off(raster::line(a, b, r)),
{
    let x0 = raster::min(a.0 as int, b.0 as int) - r;
    let x1 = raster::max(a.0 as int, b.0 as int) + r + 1;
    let y0 = raster::min(a.1 as int, b.1 as int) - r;
    let y1 = raster::max(a.1 as int, b.1 as int) + r + 1;
    cursor::lemma_line_confined(a, b, r, x0, y0, x1, y1);
}

proof fn lemma_cover_keeps_off()
    ensures
        all_keep_off(frame::cover_layers()),
{
    lemma_line_keeps_off((76, 0), (76, 2160), 2);
    lemma_line_keeps_off((86, 72), (86, 2064), 2);
    lemma_line_keeps_off((84, 74), (1558, 74), 2);
    lemma_line_keeps_off((1556, 72), (1556, 2064), 2);
    lemma_line_keeps_off((84, 2062), (1558, 2062), 2);
    let l = frame::cover_layers();
    assert(keeps_off(l[0].region));
    assert(keeps_off(l[1].region));
    assert(keeps_off(l[2].region));
    assert(keeps_off(l[3].region));
}

/// A triangle keeps off the page if each of its points is nearer to the corner
/// of the cover than the page is.
proof fn lemma_triangle_keeps_off(
    a: (i32, i32),
    b: (i32, i32),
    c: (i32, i32),
    sx: int,
    sy: int,
    limit: int,
)
    requires
        sx == 1 || sx == -1,
        sy == 1 || sy == -1,
        reach(sx, sy, a.0 as int, a.1 as int) <= limit,
        reach(sx, sy, b.0 as int, b.1 as int) <= limit,
        reach(sx, sy, c.0 as int, c.1 as int) <= limit,
        forall|x: int, y: int| #[trigger] open_page(x, y) ==> limit < reach(sx, sy, x, y),
    ensures
        keeps_off(shapes::triangle(a, b, c)),
{
    let region = shapes::triangle(a, b, c);
    assert forall|x: int, y: int| open_page(x, y) implies !#[trigger] region(x, y) by {
        if region(x, y) {
            shapes::lemma_triangle_reach(a, b, c, x, y, sx, sy);
            lemma_reach(sx, sy, a.0 as int, a.1 as int);
            lemma_reach(sx, sy, b.0 as int, b.1 as int);
            lemma_reach(sx, sy, c.0 as int, c.1 as int);
            lemma_reach(sx, sy, x, y);
        }
    }
}

/// How far a point lies in a diagonal direction.
spec fn reach(sx: int, sy: int, x: int, y: int) -> int {
    (if sx == 1 {
        x
    } else {
        -x
    }) + (if sy == 1 {
        y
    } else {
        -y
    })
}

proof fn lemma_reach(sx: int, sy: int, x: int, y: int)
    requires
        sx == 1 || sx == -1,
        sy == 1 || sy == -1,
    ensures
        sx * x + sy * y == reach(sx, sy, x, y),
{
    assert(1 * x == x && -1 * x == -x && 1 * y == y && -1 * y == -y);
}

/// A line across a corner keeps off the page if it is nearer to the corner than
/// the page is.
proof fn lemma_diagonal_keeps_off(
    a: (i32, i32),
    b: (i32, i32),
    r: int,
    sx: int,
    sy: int,
    limit: int,
)
    requires
        0 <= r,
        sx == 1 || sx == -1,
        sy == 1 || sy == -1,
        raster::abs(b.0 - a.0) == raster::abs(b.1 - a.1),
        reach(sx, sy, a.0 as int, a.1 as int) == reach(sx, sy, b.0 as int, b.1 as int),
        reach(sx, sy, a.0 as int, a.1 as int) + 2 * r <= limit,
        forall|x: int, y: int| #[trigger] open_page(x, y) ==> limit < reach(sx, sy, x, y),
    ensures
        keeps_off(raster::line(a, b, r)),
{
    let region = raster::line(a, b, r);
    let steps = raster::line_steps(a, b);
    assert forall|x: int, y: int| open_page(x, y) implies !#[trigger] region(x, y) by {
        if region(x, y) {
            let i = choose|i: int|
                0 <= i < steps + 1 && #[trigger] raster::line_stamp(a, b, r, i, x, y);
            let lx = raster::lerp(a.0 as int, b.0 as int, i, steps);
            let ly = raster::lerp(a.1 as int, b.1 as int, i, steps);
            lemma_lerp_unit(a.0 as int, b.0 as int, i, steps);
            lemma_lerp_unit(a.1 as int, b.1 as int, i, steps);
            raster::lemma_within_square(x - lx, y - ly, r);
        }
    }
}

/// A coordinate that changes with every step, or with none.
proof fn lemma_lerp_unit(p: int, q: int, i: int, steps: int)
    requires
        q - p == steps || q - p == -steps || q == p,
        0 <= i,
        0 < steps,
    ensures
        q - p == steps ==> raster::lerp(p, q, i, steps) == p + i,
        q - p == -steps ==> raster::lerp(p, q, i, steps) == p - i,
        q == p ==> raster::lerp(p, q, i, steps) == p,
{
    assert(steps * i >= 0 && -steps * i == -(steps * i) && 0 * i == 0) by (nonlinear_arith)
        requires
            0 <= i,
            0 < steps,
    ;
    vstd::arithmetic::div_mod::lemma_div_multiples_vanish(i, steps);
    assert(0int / steps == 0) by (nonlinear_arith)
        requires
            0 < steps,
    ;
    if steps * i == 0 {
        assert(i == 0) by (nonlinear_arith)
            requires
                steps * i == 0,
                0 < steps,
                0 <= i,
        ;
    }
}

proof fn lemma_plate_reach(x: int, y: int, sx: int, sy: int, i: int, j: int)
    requires
        0 <= x <= SCREEN_W,
        0 <= y <= SCREEN_H,
        sx == 1 || sx == -1,
        sy == 1 || sy == -1,
        0 <= i <= 96,
        0 <= j <= 96,
    ensures
        frame::plate_point(x, y, sx, sy, i, j).0 == x + (if sx == 1 {
            i
        } else {
            -i
        }),
        frame::plate_point(x, y, sx, sy, i, j).1 == y + (if sy == 1 {
            j
        } else {
            -j
        }),
{
    assert(1 * i == i && -1 * i == -i && 1 * j == j && -1 * j == -j);
}

proof fn lemma_plate_keeps_off(x: int, y: int, sx: int, sy: int)
    requires
        (x, y, sx, sy) == (18int, 18int, 1int, 1int) || (x, y, sx, sy) == (
            1602int,
            18int,
            -1int,
            1int,
        ) || (x, y, sx, sy) == (18int, 2142int, 1int, -1int) || (x, y, sx, sy) == (
            1602int,
            2142int,
            -1int,
            -1int,
        ),
    ensures
        all_keep_off(frame::plate_layers(x, y, sx, sy)),
{
    let p = |i: int, j: int| frame::plate_point(x, y, sx, sy, i, j);
    let limit = reach(sx, sy, x, y) + 110;
    lemma_plate_reach(x, y, sx, sy, 0, 0);
    lemma_plate_reach(x, y, sx, sy, 96, 0);
    lemma_plate_reach(x, y, sx, sy, 0, 96);
    lemma_plate_reach(x, y, sx, sy, 10, 10);
    lemma_plate_reach(x, y, sx, sy, 84, 10);
    lemma_plate_reach(x, y, sx, sy, 10, 84);
    lemma_plate_reach(x, y, sx, sy, 36, 36);
    lemma_plate_reach(x, y, sx, sy, 92, 18);
    lemma_plate_reach(x, y, sx, sy, 18, 92);
    lemma_plate_reach(x, y, sx, sy, 18, 74);
    lemma_plate_reach(x, y, sx, sy, 74, 18);
    lemma_plate_reach(x, y, sx, sy, 13, 48);
    lemma_plate_reach(x, y, sx, sy, 48, 13);
    lemma_triangle_keeps_off(p(0, 0), p(96, 0), p(0, 96), sx, sy, limit);
    lemma_triangle_keeps_off(p(10, 10), p(84, 10), p(10, 84), sx, sy, limit);
    lemma_triangle_keeps_off(p(36, 36), p(92, 18), p(18, 92), sx, sy, limit);
    lemma_diagonal_keeps_off(p(18, 74), p(74, 18), 2, sx, sy, limit);
    lemma_diagonal_keeps_off(p(13, 48), p(48, 13), 1, sx, sy, limit);
}

proof fn lemma_label_keeps_off()
    ensures
        all_keep_off(frame::label_layers()),
{
    let l = frame::label_layers();
    assert(keeps_off(l[0].region));
    assert(keeps_off(l[1].region));
    assert(keeps_off(l[2].region));
    let region = l[3].region;
    assert forall|x: int, y: int| open_page(x, y) implies !#[trigger] region(x, y) by {
        if region(x, y) {
            let (k, row, col) = choose|k: int, row: int, col: int| #[trigger]
                lettering::in_dot(frame::NAME@, 616, 2102, 4, k, row, col, x, y);
            assert(lettering::in_dot(frame::NAME@, 616, 2102, 4, k, row, col, x, y));
        }
    }
}

/// The cover leaves the page free: what is drawn on it is never covered.
pub proof fn law_cover_leaves_the_page_free(page: Seq<u32>, x: int, y: int)
    requires
        page.len() == SCREEN_W * SCREEN_H,
        open_page(x, y),
    ensures
        canvas::layered(page, frame::frame_layers())[y * SCREEN_W + x] == page[y * SCREEN_W + x],
{
    let a = frame::cover_layers();
    let b = frame::plate_layers(18, 18, 1, 1);
    let c = frame::plate_layers(1602, 18, -1, 1);
    let d = frame::plate_layers(18, 2142, 1, -1);
    let e = frame::plate_layers(1602, 2142, -1, -1);
    let f = frame::label_layers();
    lemma_cover_keeps_off();
    lemma_plate_keeps_off(18, 18, 1, 1);
    lemma_plate_keeps_off(1602, 18, -1, 1);
    lemma_plate_keeps_off(18, 2142, 1, -1);
    lemma_plate_keeps_off(1602, 2142, -1, -1);
    lemma_label_keeps_off();
    lemma_keep_off_concat(a, b);
    lemma_keep_off_concat(a + b, c);
    lemma_keep_off_concat(a + b + c, d);
    lemma_keep_off_concat(a + b + c + d, e);
    lemma_keep_off_concat(a + b + c + d + e, f);
    lemma_untouched(page, frame::frame_layers(), x, y);
}

/// Drawing the cover again changes nothing.
pub proof fn law_cover_is_drawn_once_for_all(page: Seq<u32>)
    ensures
        canvas::layered(canvas::layered(page, frame::frame_layers()), frame::frame_layers())
            == canvas::layered(page, frame::frame_layers()),
{
    let once = canvas::layered(page, frame::frame_layers());
    let twice = canvas::layered(once, frame::frame_layers());
    canvas::lemma_layered_len(page, frame::frame_layers());
    canvas::lemma_layered_len(once, frame::frame_layers());
    assert forall|i: int| 0 <= i < page.len() implies twice[i] == once[i] by {
        canvas::lemma_covered_or_left(page, once, frame::frame_layers(), i);
    }
    assert(twice =~= once);
}

/// An upright line of radius two covers five columns.
proof fn lemma_upright(x: i32, y0: i32, y1: i32, px: int, py: int)
    requires
        y0 < y1,
        x - 2 <= px <= x + 2,
        y0 <= py <= y1,
    ensures
        raster::line((x, y0), (x, y1), 2)(px, py),
{
    let a = (x, y0);
    let b = (x, y1);
    let steps = raster::line_steps(a, b);
    let i = py - y0;
    lemma_lerp_unit(x as int, x as int, i, steps);
    lemma_lerp_unit(y0 as int, y1 as int, i, steps);
    let d = px - x;
    assert(d * d <= 4) by (nonlinear_arith)
        requires
            -2 <= d <= 2,
    ;
    assert(raster::within(d, 0, 2));
    assert(raster::line_stamp(a, b, 2, i, px, py));
}

/// A level line of radius two covers five rows.
proof fn lemma_level(x0: i32, x1: i32, y: i32, px: int, py: int)
    requires
        x0 < x1,
        x0 <= px <= x1,
        y - 2 <= py <= y + 2,
    ensures
        raster::line((x0, y), (x1, y), 2)(px, py),
{
    let a = (x0, y);
    let b = (x1, y);
    let steps = raster::line_steps(a, b);
    let i = px - x0;
    lemma_lerp_unit(x0 as int, x1 as int, i, steps);
    lemma_lerp_unit(y as int, y as int, i, steps);
    let d = py - y;
    assert(d * d <= 4) by (nonlinear_arith)
        requires
            -2 <= d <= 2,
    ;
    assert(raster::within(0, d, 2));
    assert(raster::line_stamp(a, b, 2, i, px, py));
}

/// The upper right plate covers the corner between the shadows.
proof fn lemma_under_the_plate(x: int, y: int)
    requires
        x < 1554,
        77 <= y,
        x - y >= 1474,
    ensures
        (frame::plate_layers(1602, 18, -1, 1)[2].region)(x, y),
{
    lemma_plate_reach(1602, 18, -1, 1, 36, 36);
    lemma_plate_reach(1602, 18, -1, 1, 92, 18);
    lemma_plate_reach(1602, 18, -1, 1, 18, 92);
    let a = (1566i32, 54i32);
    let b = (1510i32, 36i32);
    let c = (1584i32, 110i32);
    assert(frame::plate_point(1602, 18, -1, 1, 36, 36) == a);
    assert(frame::plate_point(1602, 18, -1, 1, 92, 18) == b);
    assert(frame::plate_point(1602, 18, -1, 1, 18, 92) == c);
    assert(shapes::triangle(a, b, c)(x, y));
}

/// The cover hides the rest: beyond the open page the screen is the same
/// whatever the page is.
pub proof fn law_cover_hides_the_rest(page: Seq<u32>, other: Seq<u32>, x: int, y: int)
    requires
        page.len() == SCREEN_W * SCREEN_H,
        other.len() == SCREEN_W * SCREEN_H,
        0 <= x < SCREEN_W,
        0 <= y < SCREEN_H,
        !open_page(x, y),
    ensures
        canvas::layered(page, frame::frame_layers())[y * SCREEN_W + x] == canvas::layered(
            other,
            frame::frame_layers(),
        )[y * SCREEN_W + x],
{
    let l = frame::frame_layers();
    let i = y * SCREEN_W + x;
    raster::lemma_pixel_index(x, y, SCREEN_W as int);
    raster::lemma_pixel_bound(x, y, SCREEN_W as int, SCREEN_H as int);
    let cover = frame::cover_layers();
    assert forall|k: int| 0 <= k < 9 implies l[k] == cover[k] by {}
    let k: int = if y < 72 {
        0
    } else if y >= 2064 {
        1
    } else if x < 84 {
        2
    } else if x >= 1558 {
        3
    } else if x < 89 {
        lemma_upright(86, 72, 2064, x, y);
        5
    } else if y < 77 {
        lemma_level(84, 1558, 74, x, y);
        6
    } else if x >= 1554 {
        lemma_upright(1556, 72, 2064, x, y);
        7
    } else if y >= 2060 {
        lemma_level(84, 1558, 2062, x, y);
        8
    } else {
        lemma_under_the_plate(x, y);
        assert(l[16] == frame::plate_layers(1602, 18, -1, 1)[2]);
        16
    };
    assert((l[k].region)(x, y));
    canvas::lemma_covered(page, other, l, k, i);
}

proof fn lemma_untouched(buf: Seq<u32>, layers: Seq<canvas::Layer>, x: int, y: int)
    requires
        buf.len() == SCREEN_W * SCREEN_H,
        all_keep_off(layers),
        open_page(x, y),
    ensures
        canvas::layered(buf, layers)[y * SCREEN_W + x] == buf[y * SCREEN_W + x],
        canvas::layered(buf, layers).len() == buf.len(),
    decreases layers.len(),
{
    raster::lemma_pixel_index(x, y, SCREEN_W as int);
    raster::lemma_pixel_bound(x, y, SCREEN_W as int, SCREEN_H as int);
    if layers.len() > 0 {
        let before = layers.drop_last();
        assert forall|k: int| 0 <= k < before.len() implies keeps_off(
            (#[trigger] before[k]).region,
        ) by {
            assert(before[k] == layers[k]);
        }
        lemma_untouched(buf, before, x, y);
        assert(keeps_off(layers[layers.len() - 1].region));
    }
}

} // verus!
