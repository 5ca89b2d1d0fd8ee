//! The diary page: its size, and boxes of pixels on it.

use vstd::prelude::*;

use crate::raster;

verus! {

/// Width of the page in pixels.
pub const SCREEN_W: usize = 1620;

/// Height of the page in pixels.
pub const SCREEN_H: usize = 2160;

/// A box of pixels that grows to take in what is added to it. Both corners
/// belong to the box; a box whose corners have crossed is empty.
#[derive(Clone, Copy, Debug)]
pub struct BBox {
    pub x0: i32,
    pub y0: i32,
    pub x1: i32,
    pub y1: i32,
}

impl BBox {
    /// No pixel lies in the box.
    pub open spec fn vacant(self) -> bool {
        self.x0 > self.x1 || self.y0 > self.y1
    }

    /// The pixel `(x, y)` lies in the box.
    pub open spec fn contains(self, x: int, y: int) -> bool {
        self.x0 <= x <= self.x1 && self.y0 <= y <= self.y1
    }

    /// The square that reaches `r` pixels from `(x, y)` to each side lies in the box.
    pub open spec fn reaches(self, x: int, y: int, r: int) -> bool {
        self.x0 <= x - r && x + r <= self.x1 && self.y0 <= y - r && y + r <= self.y1
    }

    /// The box before anything has been added to it.
    pub open spec fn spec_empty() -> BBox {
        BBox { x0: i32::MAX, y0: i32::MAX, x1: i32::MIN, y1: i32::MIN }
    }

    /// The smallest box that holds this one and the square that reaches `r`
    /// pixels from `(x, y)` to each side.
    pub open spec fn grown(self, x: int, y: int, r: int) -> BBox {
        BBox {
            x0: raster::min(self.x0 as int, x - r) as i32,
            y0: raster::min(self.y0 as int, y - r) as i32,
            x1: raster::max(self.x1 as int, x + r) as i32,
            y1: raster::max(self.y1 as int, y + r) as i32,
        }
    }

    pub fn empty() -> (b: BBox)
        ensures
            b == BBox::spec_empty(),
            b.vacant(),
    {
        BBox { x0: i32::MAX, y0: i32::MAX, x1: i32::MIN, y1: i32::MIN }
    }

    pub fn is_empty(&self) -> (r: bool)
        ensures
            r == self.vacant(),
    {
        self.x0 > self.x1 || self.y0 > self.y1
    }

    /// Takes in the square that reaches `r` pixels from `(x, y)` to each side.
    pub fn add(&mut self, x: i32, y: i32, r: i32)
        requires
            square_fits(x as int, y as int, r as int),
        ensures
            *final(self) == old(self).grown(x as int, y as int, r as int),
            final(self).reaches(x as int, y as int, r as int),
            forall|px: int, py: int|
                old(self).contains(px, py) ==> #[trigger] final(self).contains(px, py),
    {
        let left: i32 = x - r;
        let right: i32 = x + r;
        let top: i32 = y - r;
        let bottom: i32 = y + r;
        if left < self.x0 {
            self.x0 = left;
        }
        if top < self.y0 {
            self.y0 = top;
        }
        if right > self.x1 {
            self.x1 = right;
        }
        if bottom > self.y1 {
            self.y1 = bottom;
        }
    }

    /// The first corner, the width and the height.
    pub fn rect(&self) -> (r: (i32, i32, i32, i32))
        requires
            raster::fits_i32(self.x1 - self.x0 + 1),
            raster::fits_i32(self.x1 - self.x0),
            raster::fits_i32(self.y1 - self.y0 + 1),
            raster::fits_i32(self.y1 - self.y0),
        ensures
            r.0 == self.x0,
            r.1 == self.y0,
            r.2 == self.x1 - self.x0 + 1,
            r.3 == self.y1 - self.y0 + 1,
    {
        (self.x0, self.y0, self.x1 - self.x0 + 1, self.y1 - self.y0 + 1)
    }
}

/// The sides of the square that reaches `r` pixels from `(x, y)` are `i32`s.
pub open spec fn square_fits(x: int, y: int, r: int) -> bool {
    raster::fits_i32(x - r) && raster::fits_i32(x + r) && raster::fits_i32(y - r) && raster::fits_i32(y + r)
}

} // verus!
