//! User ink: capture pen strokes, render them, dissolve them, rasterize them
//! for the oracle.

use vstd::prelude::*;

pub use crate::dissolve::{dissolve_pass, px_hash};
use crate::fb::{self, BBox};
use crate::picture;
use crate::raster;
use crate::surface::{self, Surface, BLACK};

verus! {

/// Pixels darker than this are ink.
pub const INK_LUMA_CUTOFF: u8 = 190;

/// Paper kept around the ink when it is cut out for the oracle.
pub const CROP_MARGIN: i32 = 20;

/// Longest side, in pixels, of the picture that the oracle is shown.
pub const MAX_SIDE: usize = 800;

/// The ink of one turn: finished strokes and the one in flight, as lists of
/// points `(x, y, radius)`, the last place the eraser touched, and the box
/// that holds every point drawn.
pub struct Ink {
    strokes: Vec<Vec<(i32, i32, i32)>>,
    current: Vec<(i32, i32, i32)>,
    last_erase: Option<(i32, i32)>,
    pub bbox: BBox,
}

/// The ink cut out of the page and scaled down, one byte of brightness per pixel.
pub struct GrayImage {
    pub w: usize,
    pub h: usize,
    pub gray: Vec<u8>,
}

/// Why no picture of the ink could be made.
#[derive(Debug, PartialEq, Eq, Structural)]
pub enum InkError {
    NoInk,
    Encoding,
}

/// The mark of a pen that comes down at `(x, y)`, or moves there from the last
/// point of `stroke`.
pub open spec fn pen_mark(stroke: Seq<(i32, i32, i32)>, x: i32, y: i32, r: i32) -> spec_fn(
    int,
    int,
) -> bool {
    if stroke.len() == 0 {
        raster::disk(x as int, y as int, r as int)
    } else {
        let p = stroke.last();
        raster::line((p.0, p.1), (x, y), raster::min(r as int, p.2 + 1))
    }
}

/// The box that a pen reports as drawn over.
pub open spec fn pen_dirty(stroke: Seq<(i32, i32, i32)>, x: i32, y: i32, r: i32) -> BBox {
    if stroke.len() == 0 {
        BBox::spec_empty().grown(x as int, y as int, r + 2)
    } else {
        let p = stroke.last();
        BBox::spec_empty().grown(p.0 as int, p.1 as int, p.2 + 2).grown(x as int, y as int, r + 2)
    }
}

/// The coordinates of the pen's mark stay within `i32`.
pub open spec fn pen_fits(stroke: Seq<(i32, i32, i32)>, x: i32, y: i32, r: i32) -> bool {
    &&& fb::square_fits(x as int, y as int, r + 2)
    &&& if stroke.len() == 0 {
        raster::disk_fits(x as int, y as int, r as int)
    } else {
        let p = stroke.last();
        raster::line_fits((p.0, p.1), (x, y), raster::min(r as int, p.2 + 1))
    }
}

/// What an eraser that comes down at `(x, y)`, or moves there from `from`, wipes.
pub open spec fn eraser_mark(from: Option<(i32, i32)>, x: i32, y: i32, r: i32) -> spec_fn(
    int,
    int,
) -> bool {
    match from {
        None => raster::disk(x as int, y as int, r as int),
        Some(p) => raster::line(p, (x, y), r as int),
    }
}

/// The box that an eraser reports as wiped.
pub open spec fn eraser_dirty(from: Option<(i32, i32)>, x: i32, y: i32, r: i32) -> BBox {
    match from {
        None => BBox::spec_empty().grown(x as int, y as int, r + 2),
        Some(p) => BBox::spec_empty().grown(p.0 as int, p.1 as int, r + 2).grown(
            x as int,
            y as int,
            r + 2,
        ),
    }
}

/// The coordinates of the eraser's mark stay within `i32`.
pub open spec fn eraser_fits(from: Option<(i32, i32)>, x: i32, y: i32, r: i32) -> bool {
    &&& fb::square_fits(x as int, y as int, r + 2)
    &&& match from {
        None => raster::disk_fits(x as int, y as int, r as int),
        Some(p) => fb::square_fits(p.0 as int, p.1 as int, r + 2) && raster::line_fits(
            p,
            (x, y),
            r as int,
        ),
    }
}

/// A line drawn with radius `r` stays within `r` of the box that spans its ends.
proof fn lemma_line_box(a: (i32, i32), b: (i32, i32), r: int, x: int, y: int)
    requires
        raster::line(a, b, r)(x, y),
    ensures
        r >= 0,
        raster::min(a.0 as int, b.0 as int) - r <= x <= raster::max(a.0 as int, b.0 as int) + r,
        raster::min(a.1 as int, b.1 as int) - r <= y <= raster::max(a.1 as int, b.1 as int) + r,
{
    let steps = raster::line_steps(a, b);
    let i = choose|i: int| 0 <= i < steps + 1 && #[trigger] raster::line_stamp(a, b, r, i, x, y);
    raster::lemma_lerp_between(a.0 as int, b.0 as int, i, steps);
    raster::lemma_lerp_between(a.1 as int, b.1 as int, i, steps);
    raster::lemma_within_square(
        x - raster::lerp(a.0 as int, b.0 as int, i, steps),
        y - raster::lerp(a.1 as int, b.1 as int, i, steps),
        r,
    );
}

/// The pen draws only inside the box that it reports.
pub proof fn lemma_pen_dirty_covers(
    stroke: Seq<(i32, i32, i32)>,
    x: i32,
    y: i32,
    r: i32,
    px: int,
    py: int,
)
    requires
        pen_fits(stroke, x, y, r),
        stroke.len() > 0 ==> fb::square_fits(
            stroke.last().0 as int,
            stroke.last().1 as int,
            stroke.last().2 + 2,
        ),
        pen_mark(stroke, x, y, r)(px, py),
    ensures
        pen_dirty(stroke, x, y, r).contains(px, py),
{
    if stroke.len() == 0 {
        raster::lemma_within_square(px - x, py - y, r as int);
    } else {
        let p = stroke.last();
        lemma_line_box((p.0, p.1), (x, y), raster::min(r as int, p.2 + 1), px, py);
    }
}

/// The eraser wipes only inside the box that it reports.
pub proof fn lemma_eraser_dirty_covers(
    from: Option<(i32, i32)>,
    x: i32,
    y: i32,
    r: i32,
    px: int,
    py: int,
)
    requires
        eraser_fits(from, x, y, r),
        eraser_mark(from, x, y, r)(px, py),
    ensures
        eraser_dirty(from, x, y, r).contains(px, py),
{
    match from {
        None => {
            raster::lemma_within_square(px - x, py - y, r as int);
        },
        Some(p) => {
            lemma_line_box(p, (x, y), r as int, px, py);
        },
    }
}

/// A point of the ink.
pub open spec fn has_point(ink: &Ink, p: (i32, i32, i32)) -> bool {
    ||| exists|i: int| 0 <= i < ink.current_seq().len() && #[trigger] ink.current_seq()[i] == p
    ||| exists|s: int, i: int|
        0 <= s < ink.stroke_seq().len() && 0 <= i < ink.stroke_seq()[s].len()
            && #[trigger] ink.stroke_seq()[s][i] == p
}

/// What has been written can be shown: once there is a point, the box of the
/// ink holds it.
pub proof fn law_written_ink_has_a_box(ink: &Ink, p: (i32, i32, i32))
    requires
        ink.wf(),
        has_point(ink, p),
        p.2 >= -2,
    ensures
        !ink.bounds().vacant(),
        ink.bounds().contains(p.0 as int, p.1 as int),
{
    assert(stroke_point_in(ink.bounds(), p));
}

impl Ink {
    /// The finished strokes.
    pub closed spec fn stroke_seq(&self) -> Seq<Seq<(i32, i32, i32)>> {
        self.strokes@.map_values(|s: Vec<(i32, i32, i32)>| s@)
    }

    /// The stroke in flight.
    pub closed spec fn current_seq(&self) -> Seq<(i32, i32, i32)> {
        self.current@
    }

    /// Where the eraser last touched since it came down.
    pub closed spec fn eraser(&self) -> Option<(i32, i32)> {
        self.last_erase
    }

    /// The box around everything drawn.
    pub closed spec fn bounds(&self) -> BBox {
        self.bbox
    }

    /// Every point of every stroke, with its radius and two pixels more, lies
    /// in the box; finished strokes are not empty; and the box of no ink at
    /// all is the empty box.
    pub open spec fn wf(&self) -> bool {
        &&& forall|s: int, i: int|
            0 <= s < self.stroke_seq().len() && 0 <= i < self.stroke_seq()[s].len()
                ==> stroke_point_in(self.bounds(), #[trigger] self.stroke_seq()[s][i])
        &&& forall|i: int|
            0 <= i < self.current_seq().len() ==> stroke_point_in(
                self.bounds(),
                #[trigger] self.current_seq()[i],
            )
        &&& forall|s: int|
            0 <= s < self.stroke_seq().len() ==> (#[trigger] self.stroke_seq()[s]).len() > 0
        &&& self.stroke_seq().len() == 0 && self.current_seq().len() == 0 ==> self.bounds()
            == BBox::spec_empty()
    }

    pub fn new() -> (ink: Ink)
        ensures
            ink.wf(),
            ink.stroke_seq().len() == 0,
            ink.current_seq().len() == 0,
            ink.eraser() is None,
            ink.bounds() == BBox::spec_empty(),
    {
        Ink { strokes: Vec::new(), current: Vec::new(), last_erase: None, bbox: BBox::empty() }
    }

    /// No stroke has been finished and none is in flight.
    pub fn is_empty(&self) -> (r: bool)
        ensures
            r <==> self.stroke_seq().len() == 0 && self.current_seq().len() == 0,
    {
        self.strokes.len() == 0 && self.current.len() == 0
    }

    /// Finished strokes (the current in-flight stroke is not included).
    pub fn stroke_list(&self) -> (list: &[Vec<(i32, i32, i32)>])
        ensures
            list@.map_values(|s: Vec<(i32, i32, i32)>| s@) == self.stroke_seq(),
    {
        self.strokes.as_slice()
    }

    pub fn clear(&mut self)
        ensures
            final(self).wf(),
            final(self).stroke_seq().len() == 0,
            final(self).current_seq().len() == 0,
            final(self).eraser() is None,
            final(self).bounds() == BBox::spec_empty(),
    {
        self.strokes.clear();
        self.current.clear();
        self.last_erase = None;
        self.bbox = BBox::empty();
    }

    /// Pen touched down or moved while down, with brush radius already
    /// resolved by the caller. Returns the dirty rect of what was drawn.
    pub fn pen_point(&mut self, surf: &mut Surface, x: i32, y: i32, r: i32) -> (dirty: BBox)
        requires
            old(self).wf(),
            old(surf).wf(),
            pen_fits(old(self).current_seq(), x, y, r),
        ensures
            final(self).wf(),
            final(self).stroke_seq() == old(self).stroke_seq(),
            final(self).current_seq() == old(self).current_seq().push((x, y, r)),
            final(self).eraser() == old(self).eraser(),
            final(self).bounds() == old(self).bounds().grown(x as int, y as int, r + 2),
            final(surf).redrawn(
                old(surf),
                old(surf).inked(pen_mark(old(self).current_seq(), x, y, r), BLACK),
            ),
            dirty == pen_dirty(old(self).current_seq(), x, y, r),
            forall|px: int, py: int|
                old(surf).on_page(px, py) && final(surf).pixel(px, py) != old(surf).pixel(px, py)
                    ==> #[trigger] dirty.contains(px, py),
    {
        let ghost stroke = self.current@;
        let ghost before = *self;
        let ghost page = *surf;
        let mut dirty = BBox::empty();
        let n: usize = self.current.len();
        if n > 0 {
            let (px, py, pr) = self.current[n - 1];
            proof {
                assert(stroke_point_in(before.bounds(), before.current_seq()[n - 1]));
            }
            let nib: i32 = if r < pr + 1 { r } else { pr + 1 };
            surf.brush_line(px, py, x, y, nib, BLACK);
            dirty.add(px, py, pr + 2);
        } else {
            surf.stamp(x, y, r, BLACK);
        }
        dirty.add(x, y, r + 2);
        self.current.push((x, y, r));
        self.bbox.add(x, y, r + 2);
        proof {
            assert(self.stroke_seq() == before.stroke_seq());
            assert(self.current_seq() == stroke.push((x, y, r)));
            assert forall|s: int, i: int|
                0 <= s < self.stroke_seq().len() && 0 <= i
                    < self.stroke_seq()[s].len() implies stroke_point_in(
                self.bounds(),
                #[trigger] self.stroke_seq()[s][i],
            ) by {
                assert(stroke_point_in(before.bounds(), before.stroke_seq()[s][i]));
            }
            assert forall|i: int| 0 <= i < self.current_seq().len() implies stroke_point_in(
                self.bounds(),
                #[trigger] self.current_seq()[i],
            ) by {
                if i < stroke.len() {
                    assert(stroke_point_in(before.bounds(), before.current_seq()[i]));
                }
            }
            assert forall|px: int, py: int|
                page.on_page(px, py) && surf.pixel(px, py) != page.pixel(
                    px,
                    py,
                ) implies #[trigger] dirty.contains(px, py) by {
                raster::lemma_pixel_index(px, py, page.w as int);
                raster::lemma_pixel_bound(px, py, page.w as int, page.h as int);
                assert(pen_mark(stroke, x, y, r)(px, py));
                lemma_pen_dirty_covers(stroke, x, y, r, px, py);
            }
        }
        dirty
    }

    /// Eraser tip: restore the underlying paper texture.
    pub fn erase_point(&mut self, surf: &mut Surface, x: i32, y: i32, r: i32) -> (dirty: BBox)
        requires
            old(self).wf(),
            old(surf).wf(),
            eraser_fits(old(self).eraser(), x, y, r),
        ensures
            final(self).wf(),
            final(self).stroke_seq() == old(self).stroke_seq(),
            final(self).current_seq() == old(self).current_seq(),
            final(self).eraser() == Some((x, y)),
            final(self).bounds() == old(self).bounds(),
            final(surf).redrawn(
                old(surf),
                old(surf).wiped(eraser_mark(old(self).eraser(), x, y, r)),
            ),
            dirty == eraser_dirty(old(self).eraser(), x, y, r),
            forall|px: int, py: int|
                old(surf).on_page(px, py) && final(surf).pixel(px, py) != old(surf).pixel(px, py)
                    ==> #[trigger] dirty.contains(px, py),
    {
        let ghost from = self.last_erase;
        let ghost before = *self;
        let ghost page = *surf;
        let mut dirty = BBox::empty();
        if let Some((px, py)) = self.last_erase {
            surf.brush_paper_line(px, py, x, y, r);
            dirty.add(px, py, r + 2);
        } else {
            surf.stamp_paper(x, y, r);
        }
        dirty.add(x, y, r + 2);
        self.last_erase = Some((x, y));
        proof {
            assert(self.stroke_seq() == before.stroke_seq());
            assert(self.current_seq() == before.current_seq());
            assert forall|px: int, py: int|
                page.on_page(px, py) && surf.pixel(px, py) != page.pixel(
                    px,
                    py,
                ) implies #[trigger] dirty.contains(px, py) by {
                raster::lemma_pixel_index(px, py, page.w as int);
                raster::lemma_pixel_bound(px, py, page.w as int, page.h as int);
                assert(eraser_mark(from, x, y, r)(px, py));
                lemma_eraser_dirty_covers(from, x, y, r, px, py);
            }
        }
        dirty
    }

    /// Pen or eraser lifted: the stroke in flight, if any, is finished.
    pub fn pen_up(&mut self)
        requires
            old(self).wf(),
        ensures
            final(self).wf(),
            final(self).stroke_seq() == (if old(self).current_seq().len() > 0 {
                old(self).stroke_seq().push(old(self).current_seq())
            } else {
                old(self).stroke_seq()
            }),
            final(self).current_seq().len() == 0,
            final(self).eraser() is None,
            final(self).bounds() == old(self).bounds(),
    {
        let ghost before = *self;
        if self.current.len() > 0 {
            let mut stroke: Vec<(i32, i32, i32)> = Vec::new();
            std::mem::swap(&mut stroke, &mut self.current);
            self.strokes.push(stroke);
        }
        self.last_erase = None;
        proof {
            if before.current@.len() > 0 {
                assert(self.stroke_seq() =~= before.stroke_seq().push(before.current_seq()));
                assert forall|s: int, i: int|
                    0 <= s < self.stroke_seq().len() && 0 <= i
                        < self.stroke_seq()[s].len() implies stroke_point_in(
                    self.bounds(),
                    #[trigger] self.stroke_seq()[s][i],
                ) by {
                    if s < before.stroke_seq().len() {
                        assert(stroke_point_in(before.bounds(), before.stroke_seq()[s][i]));
                    } else {
                        assert(stroke_point_in(before.bounds(), before.current_seq()[i]));
                    }
                }
            }
        }
    }
}

/// First row or column of the cut: the margin before `start`, or the edge of the page.
pub open spec fn crop_start(start: int) -> int {
    raster::max(start - CROP_MARGIN, 0)
}

/// End of the cut: the margin past `end`, or the edge of the page. A margin
/// that ends before the page begins cuts nothing off.
pub open spec fn crop_end(end: int, limit: int) -> int {
    if end + CROP_MARGIN < 0 {
        limit
    } else {
        raster::min(end + CROP_MARGIN, limit)
    }
}

/// How many pixels of the page, to each side, make one pixel of the picture:
/// enough for its longer side to stay within `MAX_SIDE`, and at least two.
pub open spec fn shrink_factor(w: int, h: int) -> int {
    raster::max((raster::max(w, h) + MAX_SIDE - 1) / MAX_SIDE as int, 2)
}

/// The cut that shows the ink in `b` on a page of `w` by `h`: its first corner,
/// the corner past its end, and the shrink factor.
pub open spec fn crop_of(b: BBox, w: int, h: int) -> (int, int, int, int, int) {
    let x0 = crop_start(b.x0 as int);
    let y0 = crop_start(b.y0 as int);
    let x1 = crop_end(b.x1 + 1, w);
    let y1 = crop_end(b.y1 + 1, h);
    (x0, y0, x1, y1, shrink_factor(x1 - x0, y1 - y0))
}

/// The numbers that describe the cut stay within their types, and the ink is
/// not so far past the edge of the page that the cut would end before it begins.
pub open spec fn crop_fits(b: BBox, w: int, h: int) -> bool {
    let (x0, y0, x1, y1, f) = crop_of(b, w, h);
    &&& raster::fits_i32(b.x0 - CROP_MARGIN)
    &&& raster::fits_i32(b.y0 - CROP_MARGIN)
    &&& raster::fits_i32(b.x1 - b.x0 + 1)
    &&& raster::fits_i32(b.y1 - b.y0 + 1)
    &&& raster::fits_i32(b.x1 + 1 + CROP_MARGIN)
    &&& raster::fits_i32(b.y1 + 1 + CROP_MARGIN)
    &&& x0 <= x1
    &&& y0 <= y1
    &&& f * f * 255 <= u32::MAX
}

/// Sum of the brightness of `n` pixels of row `y`, from column `x` on.
pub open spec fn row_sum(surf: &Surface, x: int, y: int, n: nat) -> int
    decreases n,
{
    if n == 0 {
        0
    } else {
        row_sum(surf, x, y, (n - 1) as nat) + surf.luma_at(x + n - 1, y)
    }
}

/// Sum of the brightness of `n` rows of `f` pixels, from `(x, y)` on.
pub open spec fn block_sum(surf: &Surface, x: int, y: int, f: nat, n: nat) -> int
    decreases n,
{
    if n == 0 {
        0
    } else {
        block_sum(surf, x, y, f, (n - 1) as nat) + row_sum(surf, x, y + n - 1, f)
    }
}

/// The brightness of the picture's pixel that stands for the `f` by `f` block
/// at `(x, y)`: the mean of the block, with paper made white.
pub open spec fn block_gray(surf: &Surface, x: int, y: int, f: nat) -> int {
    let mean = block_sum(surf, x, y, f, f) / (f * f) as int;
    if mean > INK_LUMA_CUTOFF {
        255
    } else {
        mean
    }
}

/// The picture of the ink in `b`: its width, its height and its pixels.
pub open spec fn picture_of(b: BBox, surf: &Surface) -> (int, int, Seq<u8>) {
    let (x0, y0, x1, y1, f) = crop_of(b, surf.w as int, surf.h as int);
    let w = (x1 - x0) / f;
    let h = (y1 - y0) / f;
    (
        w,
        h,
        Seq::new(
            (w * h) as nat,
            |i: int| block_gray(surf, x0 + (i % w) * f, y0 + (i / w) * f, f as nat) as u8,
        ),
    )
}

proof fn lemma_row_sum_bound(surf: &Surface, x: int, y: int, n: nat)
    requires
        surf.wf(),
    ensures
        0 <= row_sum(surf, x, y, n) <= 255 * n,
    decreases n,
{
    if n > 0 {
        lemma_row_sum_bound(surf, x, y, (n - 1) as nat);
        surface::lemma_luma_range(surf.pixel(x + n - 1, y));
    }
}

proof fn lemma_block_sum_bound(surf: &Surface, x: int, y: int, f: nat, n: nat)
    requires
        surf.wf(),
    ensures
        0 <= block_sum(surf, x, y, f, n) <= 255 * (f * n),
    decreases n,
{
    if n > 0 {
        lemma_block_sum_bound(surf, x, y, f, (n - 1) as nat);
        lemma_row_sum_bound(surf, x, y + n - 1, f);
        assert(f * n == f * (n - 1) + f) by (nonlinear_arith)
            requires
                n > 0,
        ;
    }
}

/// The longer side of the picture is at most `MAX_SIDE`, and the page is
/// shrunk to half its size or less.
pub proof fn law_picture_is_small(b: BBox, surf: &Surface)
    requires
        surf.wf(),
        crop_fits(b, surf.w as int, surf.h as int),
    ensures
        0 <= picture_of(b, surf).0 <= MAX_SIDE,
        0 <= picture_of(b, surf).1 <= MAX_SIDE,
        crop_of(b, surf.w as int, surf.h as int).4 >= 2,
{
    let (x0, y0, x1, y1, f) = crop_of(b, surf.w as int, surf.h as int);
    let m = raster::max(x1 - x0, y1 - y0);
    assert(m <= MAX_SIDE * f) by {
        let k = (m + MAX_SIDE - 1) / MAX_SIDE as int;
        assert(m <= MAX_SIDE * k);
        assert(MAX_SIDE * k <= MAX_SIDE * f);
    }
    let (dw, dh) = (x1 - x0, y1 - y0);
    assert(0 <= dw / f <= MAX_SIDE && 0 <= dh / f <= MAX_SIDE) by (nonlinear_arith)
        requires
            0 <= dw <= MAX_SIDE * f,
            0 <= dh <= MAX_SIDE * f,
            f >= 2,
    ;
}

/// Every point of the page that the ink covers lies in the cut.
pub proof fn law_crop_keeps_the_ink(b: BBox, surf: &Surface, x: int, y: int)
    requires
        surf.wf(),
        crop_fits(b, surf.w as int, surf.h as int),
        b.contains(x, y),
        surf.on_page(x, y),
    ensures
        ({
            let (x0, y0, x1, y1, f) = crop_of(b, surf.w as int, surf.h as int);
            x0 <= x < x1 && y0 <= y < y1
        }),
{
}

impl Ink {
    /// Cuts the ink out of the page with a margin and scales it down: the model
    /// reads handwriting fine at that scale, and image pixels are the dominant
    /// vision-token and latency cost. `None` when nothing has been drawn.
    pub fn to_gray(&self, surf: &Surface) -> (image: Option<GrayImage>)
        requires
            surf.wf(),
            self.bounds().vacant() || crop_fits(self.bounds(), surf.w as int, surf.h as int),
        ensures
            image is None <==> self.bounds().vacant(),
            image matches Some(g) ==> (g.w as int, g.h as int, g.gray@) == picture_of(
                self.bounds(),
                surf,
            ) && g.w <= MAX_SIDE && g.h <= MAX_SIDE,
            image matches Some(g) ==> -21 <= self.bounds().x1 && -21 <= self.bounds().y1
                ==> picture::shows(self.bounds(), surf, g.w as int, g.h as int, g.gray@),
    {
        if self.bbox.is_empty() {
            return None;
        }
        let (bx, by, bw, bh) = self.bbox.rect();
        let ghost (gx0, gy0, gx1, gy1, gf) = crop_of(self.bbox, surf.w as int, surf.h as int);
        proof {
            law_picture_is_small(self.bbox, surf);
        }
        let x0: usize = if bx - CROP_MARGIN > 0 { (bx - CROP_MARGIN) as usize } else { 0 };
        let y0: usize = if by - CROP_MARGIN > 0 { (by - CROP_MARGIN) as usize } else { 0 };
        let x1: usize = crop_stop(bx + bw + CROP_MARGIN, surf.w);
        let y1: usize = crop_stop(by + bh + CROP_MARGIN, surf.h);
        let (dw, dh) = (x1 - x0, y1 - y0);
        let long: usize = if dw > dh { dw } else { dh };
        let mut f: usize = (long + (MAX_SIDE - 1)) / MAX_SIDE;
        if f < 2 {
            f = 2;
        }
        let (w, h) = (dw / f, dh / f);
        let ghost (pw, ph, pixels) = picture_of(self.bbox, surf);
        assert(x0 == gx0 && y0 == gy0 && x1 == gx1 && y1 == gy1 && f == gf && w == pw && h == ph);
        proof {
            assert(w * h <= 800 * 800) by (nonlinear_arith)
                requires
                    0 <= w <= 800,
                    0 <= h <= 800,
            ;
            assert(w * f <= dw && h * f <= dh) by (nonlinear_arith)
                requires
                    f >= 2,
                    w == dw as int / f as int,
                    h == dh as int / f as int,
            ;
        }
        let mut gray: Vec<u8> = Vec::new();
        let mut oy: usize = 0;
        while oy < h
            invariant
                surf.wf(),
                f >= 2,
                f * f * 255 <= u32::MAX,
                0 <= oy <= h,
                w <= MAX_SIDE,
                h <= MAX_SIDE,
                x0 + w * f <= x1 <= surf.w,
                y0 + h * f <= y1 <= surf.h,
                gray@.len() == oy * w,
                pixels == Seq::new(
                    (w * h) as nat,
                    |i: int|
                        block_gray(
                            surf,
                            x0 + (i % w as int) * f,
                            y0 + (i / w as int) * f,
                            f as nat,
                        ) as u8,
                ),
                forall|i: int| 0 <= i < gray@.len() ==> gray@[i] == pixels[i],
            decreases h - oy,
        {
            let mut ox: usize = 0;
            while ox < w
                invariant
                    surf.wf(),
                    f >= 2,
                    f * f * 255 <= u32::MAX,
                    0 <= oy < h,
                    0 <= ox <= w,
                    w <= MAX_SIDE,
                    h <= MAX_SIDE,
                    x0 + w * f <= x1 <= surf.w,
                    y0 + h * f <= y1 <= surf.h,
                    gray@.len() == oy * w + ox,
                    pixels == Seq::new(
                        (w * h) as nat,
                        |i: int|
                            block_gray(
                                surf,
                                x0 + (i % w as int) * f,
                                y0 + (i / w as int) * f,
                                f as nat,
                            ) as u8,
                    ),
                    forall|i: int| 0 <= i < gray@.len() ==> gray@[i] == pixels[i],
                decreases w - ox,
            {
                proof {
                    assert((ox + 1) * f <= w * f && (oy + 1) * f <= h * f && ox * f <= (ox + 1) * f
                        && oy * f <= (oy + 1) * f && (ox + 1) * f == ox * f + f && (oy + 1) * f
                        == oy * f + f) by (nonlinear_arith)
                        requires
                            ox < w,
                            oy < h,
                            f >= 0,
                    ;
                }
                let mean: u8 = block_mean(surf, x0 + ox * f, y0 + oy * f, f);
                let value: u8 = if mean > INK_LUMA_CUTOFF { 255 } else { mean };
                proof {
                    raster::lemma_pixel_index(ox as int, oy as int, w as int);
                    raster::lemma_pixel_bound(ox as int, oy as int, w as int, h as int);
                }
                gray.push(value);
                ox += 1;
            }
            proof {
                assert((oy + 1) * w == oy * w + w) by (nonlinear_arith);
            }
            oy += 1;
        }
        proof {
            assert(h * w == w * h) by (nonlinear_arith);
            assert(gray@ =~= pixels);
            if -21 <= self.bounds().x1 && -21 <= self.bounds().y1 {
                picture::law_the_picture_shows_the_page(self.bounds(), surf);
            }
        }
        Some(GrayImage { w, h, gray })
    }

    /// Rasterize the ink region to a grayscale PNG for the oracle.
    pub fn to_png(&self, surf: &Surface) -> (file: Result<Vec<u8>, InkError>)
        requires
            surf.wf(),
            self.bounds().vacant() || crop_fits(self.bounds(), surf.w as int, surf.h as int),
        ensures
            (match file {
                Err(InkError::NoInk) => self.bounds().vacant(),
                Err(InkError::Encoding) => !self.bounds().vacant() && (picture_of(
                    self.bounds(),
                    surf,
                ).0 == 0 || picture_of(self.bounds(), surf).1 == 0),
                Ok(bytes) => {
                    let (w, h, gray) = picture_of(self.bounds(), surf);
                    &&& !self.bounds().vacant()
                    &&& w > 0
                    &&& h > 0
                    &&& bytes@ == png_of_gray(w as u32, h as u32, gray)
                },
            }),
    {
        match self.to_gray(surf) {
            None => Err(InkError::NoInk),
            Some(image) => {
                proof {
                    let (w, h, gray) = picture_of(self.bounds(), surf);
                    assert(0 <= w * h) by (nonlinear_arith)
                        requires
                            0 <= w,
                            0 <= h,
                    ;
                    law_picture_is_small(self.bounds(), surf);
                }
                match encode_gray_png(image.w as u32, image.h as u32, image.gray.as_slice()) {
                    Ok(bytes) => Ok(bytes),
                    Err(_) => Err(InkError::Encoding),
                }
            },
        }
    }
}

/// Where the cut ends, for a margin that ends at `end`.
fn crop_stop(end: i32, limit: usize) -> (stop: usize)
    requires
        limit <= i32::MAX,
    ensures
        stop == crop_end(end - CROP_MARGIN, limit as int),
{
    if end < 0 || end as usize > limit {
        limit
    } else {
        end as usize
    }
}

/// The mean brightness of the `f` by `f` block at `(x, y)`, which lies on the page.
fn block_mean(surf: &Surface, x: usize, y: usize, f: usize) -> (mean: u8)
    requires
        surf.wf(),
        f >= 1,
        f * f * 255 <= u32::MAX,
        x + f <= surf.w,
        y + f <= surf.h,
    ensures
        mean as int == block_sum(surf, x as int, y as int, f as nat, f as nat) / (f * f) as int,
{
    let ghost (gx, gy, gf) = (x as int, y as int, f as nat);
    let mut acc: u32 = 0;
    let mut sy: usize = 0;
    while sy < f
        invariant
            surf.wf(),
            f * f * 255 <= u32::MAX,
            x + f <= surf.w,
            y + f <= surf.h,
            0 <= sy <= f,
            gx == x,
            gy == y,
            gf == f,
            acc == block_sum(surf, gx, gy, gf, sy as nat),
        decreases f - sy,
    {
        let mut sx: usize = 0;
        while sx < f
            invariant
                surf.wf(),
                f * f * 255 <= u32::MAX,
                x + f <= surf.w,
                y + f <= surf.h,
                0 <= sy < f,
                0 <= sx <= f,
                gx == x,
                gy == y,
                gf == f,
                acc == block_sum(surf, gx, gy, gf, sy as nat) + row_sum(surf, gx, gy + sy, sx as nat),
            decreases f - sx,
        {
            proof {
                lemma_block_sum_bound(surf, gx, gy, gf, sy as nat);
                lemma_row_sum_bound(surf, gx, gy + sy, sx as nat);
                assert(f * sy + sx + 1 <= f * f) by (nonlinear_arith)
                    requires
                        sy < f,
                        sx < f,
                ;
            }
            let l: u8 = surf.luma((x + sx) as i32, (y + sy) as i32);
            acc = acc + l as u32;
            sx += 1;
        }
        sy += 1;
    }
    proof {
        lemma_block_sum_bound(surf, gx, gy, gf, gf);
        let n = f * f;
        assert(0 < n <= 255 * n) by (nonlinear_arith)
            requires
                f >= 1,
                n == f * f,
        ;
        assert(0 <= acc as int / n <= 255) by (nonlinear_arith)
            requires
                0 <= acc <= 255 * n,
                0 < n,
        ;
    }
    (acc / (f * f) as u32) as u8
}

/// The bytes of a PNG file that shows a picture of `w` by `h` pixels of eight
/// bit brightness, as `png::Encoder` writes them with its fast compression.
pub uninterp spec fn png_of_gray(w: u32, h: u32, gray: Seq<u8>) -> Seq<u8>;

#[verifier::external_type_specification]
#[verifier::external_body]
pub struct ExEncodingError(png::EncodingError);

/// `png::Encoder`, set to eight bit grayscale and fast compression, writing
/// into memory. It refuses a picture without a row or a column; any other whose
/// pixels match its size it writes, and the bytes depend on nothing else.
#[verifier::external_body]
fn encode_gray_png(w: u32, h: u32, gray: &[u8]) -> (file: Result<Vec<u8>, png::EncodingError>)
    requires
        gray@.len() == w * h,
        w <= MAX_SIDE,
        h <= MAX_SIDE,
    ensures
        file is Ok == (0 < w && 0 < h),
        file matches Ok(bytes) ==> bytes@ == png_of_gray(w, h, gray@),
{
    let mut bytes: Vec<u8> = Vec::new();
    let mut encoder = png::Encoder::new(&mut bytes, w, h);
    encoder.set_color(png::ColorType::Grayscale);
    encoder.set_depth(png::BitDepth::Eight);
    encoder.set_compression(png::Compression::Fast);
    let mut writer = encoder.write_header()?;
    writer.write_image_data(gray)?;
    drop(writer);
    Ok(bytes)
}

/// The point `(x, y, radius)` lies in the box with two pixels to spare.
pub open spec fn stroke_point_in(bbox: BBox, p: (i32, i32, i32)) -> bool {
    fb::square_fits(p.0 as int, p.1 as int, p.2 + 2) && bbox.reaches(
        p.0 as int,
        p.1 as int,
        p.2 + 2,
    )
}

} // verus!
