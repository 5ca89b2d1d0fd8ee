//! The drawing surface: the pixels of the page over the texture of its paper.

use vstd::prelude::*;

use crate::raster::{self, Brush};

verus! {

/// The ink of the quill.
pub const BLACK: u32 = 0xFF00_0000;

/// What a reader sees beyond the edge of the page.
pub const OFF_PAGE_LUMA: u8 = 255;

/// A page of `h` rows of `w` pixels, each `0xAARRGGBB`, and the paper that
/// shows through where there is no ink.
pub struct Surface {
    pub w: usize,
    pub h: usize,
    pub pixels: Vec<u32>,
    pub paper: Vec<u32>,
}

/// The brightness of a colour: its red, green and blue parts weighed as the
/// eye weighs them, from 0 for black to 255 for white.
pub open spec fn luma_of(color: u32) -> int {
    ((77 * ((color >> 16) & 0xff) + 150 * ((color >> 8) & 0xff) + 29 * (color & 0xff)) as int) / 256
}

/// Brightness lies between 0 and 255.
pub proof fn lemma_luma_range(color: u32)
    ensures
        0 <= luma_of(color) <= 255,
{
    assert((color >> 16) & 0xff <= 255 && (color >> 8) & 0xff <= 255 && color & 0xff <= 255)
        by (bit_vector);
}

/// The brightness of a colour.
pub fn color_luma(color: u32) -> (l: u8)
    ensures
        l == luma_of(color),
{
    let r: u32 = (color >> 16) & 0xff;
    let g: u32 = (color >> 8) & 0xff;
    let b: u32 = color & 0xff;
    assert((color >> 16) & 0xff <= 255 && (color >> 8) & 0xff <= 255 && color & 0xff <= 255)
        by (bit_vector);
    ((77 * r + 150 * g + 29 * b) / 256) as u8
}

impl Surface {
    /// The page and its paper both have a pixel for every place.
    pub open spec fn wf(&self) -> bool {
        &&& self.w * self.h == self.pixels@.len()
        &&& self.w * self.h == self.paper@.len()
        &&& self.w <= i32::MAX
        &&& self.h <= i32::MAX
    }

    /// The point `(x, y)` lies on the page.
    pub open spec fn on_page(&self, x: int, y: int) -> bool {
        0 <= x < self.w && 0 <= y < self.h
    }

    /// The pixel at `(x, y)`.
    pub open spec fn pixel(&self, x: int, y: int) -> u32 {
        self.pixels@[y * self.w + x]
    }

    /// The brightness at `(x, y)`.
    pub open spec fn luma_at(&self, x: int, y: int) -> int {
        if self.on_page(x, y) {
            luma_of(self.pixel(x, y))
        } else {
            OFF_PAGE_LUMA as int
        }
    }

    /// This surface with `region` painted in one colour.
    pub open spec fn inked(&self, region: spec_fn(int, int) -> bool, color: u32) -> Seq<u32> {
        raster::paint(self.pixels@, self.w as int, self.h as int, region, Brush::Flat(color))
    }

    /// This surface with the paper showing in `region`.
    pub open spec fn wiped(&self, region: spec_fn(int, int) -> bool) -> Seq<u32> {
        wipe(self.pixels@, self.paper@, self.w as int, self.h as int, region)
    }

    /// Only the pixels of the page have changed, to `pixels`.
    pub open spec fn redrawn(&self, before: &Surface, pixels: Seq<u32>) -> bool {
        &&& self.wf()
        &&& self.w == before.w
        &&& self.h == before.h
        &&& self.paper@ == before.paper@
        &&& self.pixels@ == pixels
    }

    /// A clean page: nothing but its paper.
    pub fn new(w: usize, h: usize, paper: Vec<u32>) -> (s: Surface)
        requires
            w * h == paper@.len(),
            w <= i32::MAX,
            h <= i32::MAX,
        ensures
            s.wf(),
            s.w == w,
            s.h == h,
            s.paper@ == paper@,
            s.pixels@ == paper@,
    {
        let pixels = paper.clone();
        assert(pixels@ =~= paper@);
        Surface { w, h, pixels, paper }
    }

    /// The brightness at `(x, y)`; white beyond the edge.
    pub fn luma(&self, x: i32, y: i32) -> (l: u8)
        requires
            self.wf(),
        ensures
            l == self.luma_at(x as int, y as int),
    {
        if x >= 0 && y >= 0 && (x as usize) < self.w && (y as usize) < self.h {
            proof {
                raster::lemma_pixel_index(x as int, y as int, self.w as int);
                raster::lemma_pixel_bound(x as int, y as int, self.w as int, self.h as int);
            }
            let len: usize = self.pixels.len();
            assert(y * self.w <= len);
            color_luma(self.pixels[y as usize * self.w + x as usize])
        } else {
            OFF_PAGE_LUMA
        }
    }

    /// Stamps a round nib.
    pub fn stamp(&mut self, x: i32, y: i32, r: i32, color: u32)
        requires
            old(self).wf(),
            raster::disk_fits(x as int, y as int, r as int),
        ensures
            final(self).redrawn(
                old(self),
                old(self).inked(raster::disk(x as int, y as int, r as int), color),
            ),
    {
        let brush = Brush::Flat(color);
        raster::put_disk(self.pixels.as_mut_slice(), self.w, self.h, x, y, r, &brush);
    }

    /// Draws a line with a round nib.
    pub fn brush_line(&mut self, x0: i32, y0: i32, x1: i32, y1: i32, r: i32, color: u32)
        requires
            old(self).wf(),
            raster::line_fits((x0, y0), (x1, y1), r as int),
        ensures
            final(self).redrawn(
                old(self),
                old(self).inked(raster::line((x0, y0), (x1, y1), r as int), color),
            ),
    {
        let brush = Brush::Flat(color);
        raster::put_line(
            self.pixels.as_mut_slice(),
            self.w,
            self.h,
            (x0, y0),
            (x1, y1),
            r,
            &brush,
        );
    }

    /// Lets the paper show at one pixel.
    pub fn put_paper_px(&mut self, x: i32, y: i32)
        requires
            old(self).wf(),
        ensures
            final(self).redrawn(old(self), old(self).wiped(raster::dot(x as int, y as int))),
    {
        let brush = Brush::Texture(self.paper.as_slice());
        raster::put(self.pixels.as_mut_slice(), self.w, self.h, x, y, &brush);
        assert(self.pixels@ =~= old(self).wiped(raster::dot(x as int, y as int)));
    }

    /// Lets the paper show in a disk.
    pub fn stamp_paper(&mut self, x: i32, y: i32, r: i32)
        requires
            old(self).wf(),
            raster::disk_fits(x as int, y as int, r as int),
        ensures
            final(self).redrawn(old(self), old(self).wiped(raster::disk(x as int, y as int, r as int))),
    {
        let brush = Brush::Texture(self.paper.as_slice());
        raster::put_disk(self.pixels.as_mut_slice(), self.w, self.h, x, y, r, &brush);
        assert(self.pixels@ =~= old(self).wiped(raster::disk(x as int, y as int, r as int)));
    }

    /// Lets the paper show along a line.
    pub fn brush_paper_line(&mut self, x0: i32, y0: i32, x1: i32, y1: i32, r: i32)
        requires
            old(self).wf(),
            raster::line_fits((x0, y0), (x1, y1), r as int),
        ensures
            final(self).redrawn(old(self), old(self).wiped(raster::line((x0, y0), (x1, y1), r as int))),
    {
        let brush = Brush::Texture(self.paper.as_slice());
        raster::put_line(
            self.pixels.as_mut_slice(),
            self.w,
            self.h,
            (x0, y0),
            (x1, y1),
            r,
            &brush,
        );
        assert(self.pixels@ =~= old(self).wiped(raster::line((x0, y0), (x1, y1), r as int)));
    }
}

/// `pixels` with the pixels of `region` replaced by the paper below them.
pub open spec fn wipe(
    pixels: Seq<u32>,
    paper: Seq<u32>,
    w: int,
    h: int,
    region: spec_fn(int, int) -> bool,
) -> Seq<u32> {
    Seq::new(
        pixels.len(),
        |i: int|
            if i < w * h && region(i % w, i / w) {
                paper[i]
            } else {
                pixels[i]
            },
    )
}

} // verus!
