//! What the picture of the ink shows, said of the pixels of the page.

use vstd::prelude::*;

use crate::fb::BBox;
use crate::ink;
use crate::surface::{self, Surface};

verus! {

/// Where the cut begins: twenty pixels before the ink, or at the edge.
pub open spec fn first(start: int) -> int {
    if start <= 20 {
        0
    } else {
        start - 20
    }
}

/// Where the cut ends: twenty pixels past the last one with ink, or at the edge.
pub open spec fn past(last: int, limit: int) -> int {
    if last + 21 <= limit {
        last + 21
    } else {
        limit
    }
}

/// `f` pixels of the page, to each side, make one of the picture: as few as
/// keep its sides within 800 pixels, but two at least.
pub open spec fn shrinks_by(b: BBox, surf: &Surface, f: int) -> bool {
    let w = past(b.x1 as int, surf.w as int) - first(b.x0 as int);
    let h = past(b.y1 as int, surf.h as int) - first(b.y0 as int);
    &&& 2 <= f
    &&& w <= 800 * f && h <= 800 * f
    &&& f > 2 ==> w > 800 * (f - 1) || h > 800 * (f - 1)
}

/// The brightness of each pixel of the page that stands for column `ox` of row
/// `oy` of the picture lies between `lo` and `hi`.
pub open spec fn block_between(
    b: BBox,
    surf: &Surface,
    f: int,
    ox: int,
    oy: int,
    lo: int,
    hi: int,
) -> bool {
    let x0 = first(b.x0 as int);
    let y0 = first(b.y0 as int);
    forall|x: int, y: int|
        x0 + ox * f <= x < x0 + (ox + 1) * f && y0 + oy * f <= y < y0 + (oy + 1) * f ==> lo
            <= surface::luma_of(#[trigger] surf.pixels@[y * surf.w + x]) <= hi
}

/// A picture of `w` by `h` pixels shows the ink in `b` as it lies on the page,
/// the right way round. Each of its pixels is no darker and no brighter than
/// the pixels of the page that it stands for, but what is brighter than ink is
/// white.
pub open spec fn shows(b: BBox, surf: &Surface, w: int, h: int, gray: Seq<u8>) -> bool {
    forall|f: int|
        #![trigger shrinks_by(b, surf, f)]
        shrinks_by(b, surf, f) ==> {
            &&& w == (past(b.x1 as int, surf.w as int) - first(b.x0 as int)) / f
            &&& h == (past(b.y1 as int, surf.h as int) - first(b.y0 as int)) / f
            &&& gray.len() == w * h
            &&& forall|ox: int, oy: int, lo: int, hi: int|
                #![trigger block_between(b, surf, f, ox, oy, lo, hi)]
                0 <= ox < w && 0 <= oy < h && block_between(b, surf, f, ox, oy, lo, hi) ==> {
                    &&& hi <= 190 ==> lo <= gray[oy * w + ox] <= hi
                    &&& lo > 190 ==> gray[oy * w + ox] == 255
                    &&& gray[oy * w + ox] <= 190 || gray[oy * w + ox] == 255
                }
        }
}

proof fn lemma_row_between(surf: &Surface, x: int, y: int, n: nat, lo: int, hi: int)
    requires
        forall|i: int| 0 <= i < n ==> lo <= #[trigger] surf.luma_at(x + i, y) <= hi,
    ensures
        n * lo <= ink::row_sum(surf, x, y, n) <= n * hi,
    decreases n,
{
    if n > 0 {
        lemma_row_between(surf, x, y, (n - 1) as nat, lo, hi);
        let last = n - 1;
        assert(lo <= surf.luma_at(x + last, y) <= hi);
        assert(n * lo == last * lo + lo && n * hi == last * hi + hi) by (nonlinear_arith)
            requires
                last == n - 1,
        ;
    }
}

proof fn lemma_block_between(
    surf: &Surface,
    x: int,
    y: int,
    f: nat,
    n: nat,
    lo: int,
    hi: int,
)
    requires
        forall|i: int, j: int|
            0 <= i < f && 0 <= j < n ==> lo <= #[trigger] surf.luma_at(x + i, y + j) <= hi,
    ensures
        (f * n) * lo <= ink::block_sum(surf, x, y, f, n) <= (f * n) * hi,
    decreases n,
{
    if n > 0 {
        let last = n - 1;
        lemma_block_between(surf, x, y, f, (n - 1) as nat, lo, hi);
        assert forall|i: int| 0 <= i < f implies lo <= #[trigger] surf.luma_at(x + i, y + n - 1)
            <= hi by {
            assert(lo <= surf.luma_at(x + i, y + last) <= hi);
        }
        lemma_row_between(surf, x, y + n - 1, f, lo, hi);
        assert((f * n) * lo == (f * last) * lo + f * lo && (f * n) * hi == (f * last) * hi + f * hi)
            by (nonlinear_arith)
            requires
                last == n - 1,
        ;
    } else {
        assert((f * n) * lo == 0 && (f * n) * hi == 0) by (nonlinear_arith)
            requires
                n == 0,
        ;
    }
}

/// The sides of the cut, and what it is shrunk by, are as they are stated here.
proof fn lemma_cut(b: BBox, surf: &Surface, f: int)
    requires
        surf.wf(),
        ink::crop_fits(b, surf.w as int, surf.h as int),
        -21 <= b.x1,
        -21 <= b.y1,
        shrinks_by(b, surf, f),
    ensures
        ink::crop_of(b, surf.w as int, surf.h as int) == (
            first(b.x0 as int),
            first(b.y0 as int),
            past(b.x1 as int, surf.w as int),
            past(b.y1 as int, surf.h as int),
            f,
        ),
{
    let w = past(b.x1 as int, surf.w as int) - first(b.x0 as int);
    let h = past(b.y1 as int, surf.h as int) - first(b.y0 as int);
    let m = if w >= h {
        w
    } else {
        h
    };
    assert((m + 799) / 800 <= f);
    if f > 2 {
        assert((m + 799) / 800 > f - 1);
    }
}

/// The picture shows the page the right way round: each of its pixels stands
/// for the block of the page at its own place.
pub proof fn law_the_picture_shows_the_page(b: BBox, surf: &Surface)
    requires
        surf.wf(),
        ink::crop_fits(b, surf.w as int, surf.h as int),
        -21 <= b.x1,
        -21 <= b.y1,
    ensures
        shows(
            b,
            surf,
            ink::picture_of(b, surf).0,
            ink::picture_of(b, surf).1,
            ink::picture_of(b, surf).2,
        ),
{
    let (w, h, gray) = ink::picture_of(b, surf);
    ink::law_picture_is_small(b, surf);
    assert(0 <= w * h) by (nonlinear_arith)
        requires
            0 <= w,
            0 <= h,
    ;
    let x0 = first(b.x0 as int);
    let y0 = first(b.y0 as int);
    assert forall|f: int| #![trigger shrinks_by(b, surf, f)] shrinks_by(b, surf, f) implies {
        &&& w == (past(b.x1 as int, surf.w as int) - x0) / f
        &&& h == (past(b.y1 as int, surf.h as int) - y0) / f
        &&& gray.len() == w * h
        &&& forall|ox: int, oy: int, lo: int, hi: int|
            #![trigger block_between(b, surf, f, ox, oy, lo, hi)]
            0 <= ox < w && 0 <= oy < h && block_between(b, surf, f, ox, oy, lo, hi) ==> {
                &&& hi <= 190 ==> lo <= gray[oy * w + ox] <= hi
                &&& lo > 190 ==> gray[oy * w + ox] == 255
                &&& gray[oy * w + ox] <= 190 || gray[oy * w + ox] == 255
            }
    } by {
        lemma_cut(b, surf, f);
        assert forall|ox: int, oy: int, lo: int, hi: int|
            #![trigger block_between(b, surf, f, ox, oy, lo, hi)]
            0 <= ox < w && 0 <= oy < h && block_between(b, surf, f, ox, oy, lo, hi) implies {
            &&& hi <= 190 ==> lo <= gray[oy * w + ox] <= hi
            &&& lo > 190 ==> gray[oy * w + ox] == 255
            &&& gray[oy * w + ox] <= 190 || gray[oy * w + ox] == 255
        } by {
            lemma_pixel(b, surf, f, w, h, ox, oy, lo, hi);
            crate::raster::lemma_pixel_index(ox, oy, w);
            crate::raster::lemma_pixel_bound(ox, oy, w, h);
        }
    }
}

/// The brightness of one block.
proof fn lemma_pixel(
    b: BBox,
    surf: &Surface,
    f: int,
    w: int,
    h: int,
    ox: int,
    oy: int,
    lo: int,
    hi: int,
)
    requires
        surf.wf(),
        2 <= f,
        w == (past(b.x1 as int, surf.w as int) - first(b.x0 as int)) / f,
        h == (past(b.y1 as int, surf.h as int) - first(b.y0 as int)) / f,
        0 <= ox < w,
        0 <= oy < h,
        block_between(b, surf, f, ox, oy, lo, hi),
    ensures
        ({
            let g = ink::block_gray(
                surf,
                first(b.x0 as int) + ox * f,
                first(b.y0 as int) + oy * f,
                f as nat,
            );
            &&& 0 <= g <= 255
            &&& hi <= 190 ==> lo <= g <= hi
            &&& lo > 190 ==> g == 255
            &&& g <= 190 || g == 255
        }),
{
    let x0 = first(b.x0 as int);
    let y0 = first(b.y0 as int);
    let x1 = past(b.x1 as int, surf.w as int);
    let y1 = past(b.y1 as int, surf.h as int);
    let (dw, dh) = (x1 - x0, y1 - y0);
    let x = x0 + ox * f;
    let y = y0 + oy * f;
    assert((ox + 1) * f == ox * f + f && (oy + 1) * f == oy * f + f && 0 <= ox * f && 0 <= oy * f
        && ox * f + f <= dw && oy * f + f <= dh) by (nonlinear_arith)
        requires
            2 <= f,
            0 <= ox < dw / f,
            0 <= oy < dh / f,
    ;
    assert forall|i: int, j: int| 0 <= i < f && 0 <= j < f implies lo <= #[trigger] surf.luma_at(
        x + i,
        y + j,
    ) <= hi && 0 <= surf.luma_at(x + i, y + j) <= 255 by {
        let (px, py) = (x + i, y + j);
        assert(lo <= surface::luma_of(surf.pixels@[py * surf.w + px]) <= hi);
        surface::lemma_luma_range(surf.pixel(px, py));
    }
    let n = f as nat;
    lemma_block_between(surf, x, y, n, n, lo, hi);
    lemma_block_between(surf, x, y, n, n, 0, 255);
    let sum = ink::block_sum(surf, x, y, n, n);
    let area = (n * n) as int;
    assert(0 < n * n) by (nonlinear_arith)
        requires
            2 <= n,
    ;
    assert(lo <= sum / area <= hi && 0 <= sum / area <= 255) by (nonlinear_arith)
        requires
            area * lo <= sum <= area * hi,
            area * 0 <= sum <= area * 255,
            0 < area,
    ;
}

} // verus!
