//! The diary drinks the ink: dissolving a page, pass by pass, into clean paper.

use vstd::prelude::*;

use crate::fb::BBox;
use crate::ink::INK_LUMA_CUTOFF;
use crate::raster;
use crate::surface::{self, Surface};

verus! {

/// The place of a pixel in the dissolve pattern.
pub open spec fn pattern(x: i32, y: i32) -> u32 {
    let h1 = (x as u32).wrapping_mul(0x9E3779B1) ^ (y as u32).wrapping_mul(0x85EBCA6B);
    let h2 = (h1 ^ (h1 >> 13)).wrapping_mul(0xC2B2AE35);
    h2 ^ (h2 >> 16)
}

/// Deterministic per-pixel hash for the dissolve pattern.
pub fn px_hash(x: i32, y: i32) -> (h: u32)
    ensures
        h == pattern(x, y),
{
    let mut h: u32 = (x as u32).wrapping_mul(0x9E3779B1) ^ (y as u32).wrapping_mul(0x85EBCA6B);
    h = h ^ (h >> 13);
    h = h.wrapping_mul(0xC2B2AE35);
    h ^ (h >> 16)
}

/// Whether a pixel is ink.
pub open spec fn is_ink(pixel: u32) -> bool {
    surface::luma_of(pixel) < INK_LUMA_CUTOFF
}

/// The pixels that a pass at `stage` of `stages` drinks from `pixels`.
pub open spec fn drunk(
    pixels: Seq<u32>,
    w: int,
    region: BBox,
    stage: u32,
    stages: u32,
) -> spec_fn(int, int) -> bool {
    |x: int, y: int|
        region.contains(x, y) && is_ink(pixels[y * w + x]) && pattern(x as i32, y as i32) % stages
            <= stage
}

/// The page after one pass.
pub open spec fn pass(
    pixels: Seq<u32>,
    paper: Seq<u32>,
    w: int,
    h: int,
    region: BBox,
    stage: u32,
    stages: u32,
) -> Seq<u32> {
    surface::wipe(pixels, paper, w, h, drunk(pixels, w, region, stage, stages))
}

/// The page after the first `n` of `stages` passes.
pub open spec fn passes(
    pixels: Seq<u32>,
    paper: Seq<u32>,
    w: int,
    h: int,
    region: BBox,
    n: nat,
    stages: u32,
) -> Seq<u32>
    decreases n,
{
    if n == 0 {
        pixels
    } else {
        pass(
            passes(pixels, paper, w, h, region, (n - 1) as nat, stages),
            paper,
            w,
            h,
            region,
            (n - 1) as u32,
            stages,
        )
    }
}

/// One pass of the "diary drinks the ink" effect: erase the ink pixels whose
/// hash falls in this stage. After `stages` passes the region is clean paper.
pub fn dissolve_pass(surf: &mut Surface, region: BBox, stage: u32, stages: u32)
    requires
        old(surf).wf(),
        stages > 0 || forall|x: int, y: int|
            region.contains(x, y) && old(surf).on_page(x, y) ==> !is_ink(
                #[trigger] old(surf).pixel(x, y),
            ),
    ensures
        final(surf).redrawn(
            old(surf),
            pass(
                old(surf).pixels@,
                old(surf).paper@,
                old(surf).w as int,
                old(surf).h as int,
                region,
                stage,
                stages,
            ),
        ),
{
    let ghost page = *surf;
    let ghost (w, h) = (page.w as int, page.h as int);
    let ghost shape = drunk(page.pixels@, w, region, stage, stages);
    if region.is_empty() {
        assert(surf.pixels@ =~= surface::wipe(page.pixels@, page.paper@, w, h, shape));
        return;
    }
    assert(surf.pixels@ =~= surface::wipe(page.pixels@, page.paper@, w, h, raster::scanned(
        shape,
        region.x0 as int,
        region.y0 as int,
    )));
    let mut y: i64 = region.y0 as i64;
    while y <= region.y1 as i64
        invariant
            page.wf(),
            w == page.w,
            h == page.h,
            shape == drunk(page.pixels@, w, region, stage, stages),
            stages > 0 || forall|x: int, y: int|
                region.contains(x, y) && page.on_page(x, y) ==> !is_ink(
                    #[trigger] page.pixel(x, y),
                ),
            region.x0 <= region.x1,
            region.y0 <= y <= region.y1 + 1,
            surf.redrawn(
                &page,
                surface::wipe(
                    page.pixels@,
                    page.paper@,
                    w,
                    h,
                    raster::scanned(shape, region.x0 as int, y as int),
                ),
            ),
        decreases region.y1 - y + 1,
    {
        let mut x: i64 = region.x0 as i64;
        while x <= region.x1 as i64
            invariant
                page.wf(),
                w == page.w,
                h == page.h,
                shape == drunk(page.pixels@, w, region, stage, stages),
                stages > 0 || forall|x: int, y: int|
                    region.contains(x, y) && page.on_page(x, y) ==> !is_ink(
                        #[trigger] page.pixel(x, y),
                    ),
                region.x0 <= x <= region.x1 + 1,
                region.y0 <= y <= region.y1,
                surf.redrawn(
                    &page,
                    surface::wipe(
                        page.pixels@,
                        page.paper@,
                        w,
                        h,
                        raster::scanned(shape, x as int, y as int),
                    ),
                ),
            decreases region.x1 - x + 1,
        {
            let dark: bool = surf.luma(x as i32, y as i32) < INK_LUMA_CUTOFF;
            proof {
                if page.on_page(x as int, y as int) {
                    raster::lemma_pixel_index(x as int, y as int, w);
                    raster::lemma_pixel_bound(x as int, y as int, w, h);
                    assert(surf.pixel(x as int, y as int) == page.pixel(x as int, y as int));
                }
                lemma_wipe_step(page.pixels@, page.paper@, w, h, shape, x as int, y as int);
            }
            if dark && px_hash(x as i32, y as i32) % stages <= stage {
                surf.put_paper_px(x as i32, y as i32);
            }
            x += 1;
        }
        proof {
            let r1 = raster::scanned(shape, region.x1 + 1, y as int);
            let r2 = raster::scanned(shape, region.x0 as int, y + 1);
            assert forall|px: int, py: int| #[trigger] r1(px, py) == r2(px, py) by {}
            assert(surface::wipe(page.pixels@, page.paper@, w, h, r1) =~= surface::wipe(
                page.pixels@,
                page.paper@,
                w,
                h,
                r2,
            ));
        }
        y += 1;
    }
    proof {
        let r1 = raster::scanned(shape, region.x0 as int, region.y1 + 1);
        assert forall|px: int, py: int| #[trigger] r1(px, py) == shape(px, py) by {}
        assert(surf.pixels@ =~= surface::wipe(page.pixels@, page.paper@, w, h, shape));
    }
}

/// One step of a scan that wipes the pixels of `shape`.
proof fn lemma_wipe_step(
    pixels: Seq<u32>,
    paper: Seq<u32>,
    w: int,
    h: int,
    shape: spec_fn(int, int) -> bool,
    x: int,
    y: int,
)
    requires
        0 <= w,
        0 <= h,
        w * h == pixels.len(),
    ensures
        surface::wipe(pixels, paper, w, h, raster::scanned(shape, x + 1, y)) == (if 0 <= x < w && 0
            <= y < h && shape(x, y) {
            surface::wipe(
                surface::wipe(pixels, paper, w, h, raster::scanned(shape, x, y)),
                paper,
                w,
                h,
                raster::dot(x, y),
            )
        } else {
            surface::wipe(pixels, paper, w, h, raster::scanned(shape, x, y))
        }),
{
    let r1 = raster::scanned(shape, x, y);
    let r2 = raster::scanned(shape, x + 1, y);
    let a = surface::wipe(pixels, paper, w, h, r1);
    let b = surface::wipe(pixels, paper, w, h, r2);
    let c = surface::wipe(a, paper, w, h, raster::dot(x, y));
    if 0 <= x < w && 0 <= y < h && shape(x, y) {
        assert(b =~= c);
    } else {
        assert forall|i: int| 0 <= i < pixels.len() implies a[i] == b[i] by {
            raster::lemma_index_pixel(i, w, h);
        }
        assert(a =~= b);
    }
}

/// A pass leaves each pixel as it was or lets the paper show, and never
/// touches a pixel outside the region.
pub proof fn law_pass_changes_only_ink(
    pixels: Seq<u32>,
    paper: Seq<u32>,
    w: int,
    h: int,
    region: BBox,
    stage: u32,
    stages: u32,
    x: int,
    y: int,
)
    requires
        0 <= x < w,
        0 <= y < h,
        w * h <= pixels.len(),
    ensures
        ({
            let i = y * w + x;
            let after = pass(pixels, paper, w, h, region, stage, stages)[i];
            after == pixels[i] || (after == paper[i] && is_ink(pixels[i]) && region.contains(x, y))
        }),
{
    raster::lemma_pixel_index(x, y, w);
    raster::lemma_pixel_bound(x, y, w, h);
}

/// A later stage drinks at least what an earlier stage would.
pub proof fn law_later_stages_drink_more(
    pixels: Seq<u32>,
    w: int,
    region: BBox,
    early: u32,
    late: u32,
    stages: u32,
    x: int,
    y: int,
)
    requires
        early <= late,
        drunk(pixels, w, region, early, stages)(x, y),
    ensures
        drunk(pixels, w, region, late, stages)(x, y),
{
}

/// The passes never change the size of the page, and leave each of its pixels
/// as it was or let the paper show.
proof fn lemma_passes_keep_or_clear(
    pixels: Seq<u32>,
    paper: Seq<u32>,
    w: int,
    h: int,
    region: BBox,
    n: nat,
    stages: u32,
    x: int,
    y: int,
)
    requires
        0 <= x < w,
        0 <= y < h,
        w * h <= pixels.len(),
    ensures
        passes(pixels, paper, w, h, region, n, stages).len() == pixels.len(),
        ({
            let i = y * w + x;
            let after = passes(pixels, paper, w, h, region, n, stages)[i];
            after == pixels[i] || (after == paper[i] && region.contains(x, y))
        }),
    decreases n,
{
    if n > 0 {
        let m = (n - 1) as nat;
        lemma_passes_keep_or_clear(pixels, paper, w, h, region, m, stages, x, y);
        law_pass_changes_only_ink(
            passes(pixels, paper, w, h, region, m, stages),
            paper,
            w,
            h,
            region,
            m as u32,
            stages,
            x,
            y,
        );
    }
}

/// After `stages` passes the region is clean paper: no pixel of it is ink any
/// more, except where the paper itself is that dark; each of its pixels shows
/// the paper or was never ink; and the rest of the page is as it was.
pub proof fn law_dissolved_page_is_clean(
    pixels: Seq<u32>,
    paper: Seq<u32>,
    w: int,
    h: int,
    region: BBox,
    stages: u32,
    x: int,
    y: int,
)
    requires
        0 <= x < w <= i32::MAX,
        0 <= y < h <= i32::MAX,
        w * h <= pixels.len(),
        stages > 0,
    ensures
        ({
            let i = y * w + x;
            let after = passes(pixels, paper, w, h, region, stages as nat, stages)[i];
            if region.contains(x, y) {
                after == paper[i] || (after == pixels[i] && !is_ink(after))
            } else {
                after == pixels[i]
            }
        }),
{
    let m = (stages - 1) as nat;
    let last = passes(pixels, paper, w, h, region, m, stages);
    lemma_passes_keep_or_clear(pixels, paper, w, h, region, m, stages, x, y);
    raster::lemma_pixel_index(x, y, w);
    raster::lemma_pixel_bound(x, y, w, h);
    law_pass_changes_only_ink(last, paper, w, h, region, m as u32, stages, x, y);
    assert(pattern(x as i32, y as i32) % stages <= stages - 1);
}

/// In passes of `stages` stages, the ink at `(x, y)` is drunk from stage `t`
/// on, and not before, whatever the page and the rest of the ink.
pub open spec fn goes_at(x: int, y: int, stages: u32, t: int) -> bool {
    forall|pixels: Seq<u32>, paper: Seq<u32>, w: int, h: int, region: BBox, stage: u32|
        0 <= x < w && 0 <= y < h && w * h <= pixels.len() ==> (#[trigger] pass(
            pixels,
            paper,
            w,
            h,
            region,
            stage,
            stages,
        ))[y * w + x] == if t <= stage && region.x0 <= x <= region.x1 && region.y0 <= y <= region.y1
            && surface::luma_of(pixels[y * w + x]) < 190 {
            paper[y * w + x]
        } else {
            pixels[y * w + x]
        }
}

/// Every pixel has its own stage: ink goes exactly from that stage on, and it
/// goes before the last one is over.
pub proof fn law_every_pixel_has_its_stage(x: int, y: int, stages: u32)
    requires
        0 < stages,
    ensures
        exists|t: int| 0 <= t < stages && #[trigger] goes_at(x, y, stages, t),
{
    let t = (pattern(x as i32, y as i32) % stages) as int;
    assert(goes_at(x, y, stages, t)) by {
        assert forall|pixels: Seq<u32>, paper: Seq<u32>, w: int, h: int, region: BBox, stage: u32|
            0 <= x < w && 0 <= y < h && w * h <= pixels.len() implies (#[trigger] pass(
            pixels,
            paper,
            w,
            h,
            region,
            stage,
            stages,
        ))[y * w + x] == if t <= stage && region.x0 <= x <= region.x1 && region.y0 <= y <= region.y1
            && surface::luma_of(pixels[y * w + x]) < 190 {
            paper[y * w + x]
        } else {
            pixels[y * w + x]
        } by {
            crate::raster::lemma_pixel_index(x, y, w);
            crate::raster::lemma_pixel_bound(x, y, w, h);
        }
    }
}

} // verus!
