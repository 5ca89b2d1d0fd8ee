//! Painting on a row-major buffer of 32-bit pixels.
//!
//! A shape is a predicate on pixel coordinates, and painting it sets exactly
//! the pixels of the buffer that satisfy the predicate. Everything a shape has
//! outside the buffer is clipped.

use vstd::prelude::*;

verus! {

/// What a painted pixel receives: one colour everywhere, or the pixel of a
/// texture that lies at the same place.
pub enum Brush<'a> {
    Flat(u32),
    Texture(&'a [u32]),
}

impl<'a> Brush<'a> {
    /// The value that the brush leaves at index `i` of the buffer.
    pub open spec fn at(self, i: int) -> u32 {
        match self {
            Brush::Flat(color) => color,
            Brush::Texture(pixels) => pixels@[i],
        }
    }

    /// Whether the brush has a value for each of the first `n` pixels.
    pub open spec fn covers(self, n: int) -> bool {
        match self {
            Brush::Flat(_) => true,
            Brush::Texture(pixels) => n <= pixels@.len(),
        }
    }

    /// The value that the brush leaves at index `i`.
    pub fn sample(&self, i: usize) -> (value: u32)
        requires
            self.covers(i + 1),
        ensures
            value == self.at(i as int),
    {
        match self {
            Brush::Flat(color) => *color,
            Brush::Texture(pixels) => pixels[i],
        }
    }
}

/// The buffer `buf`, read as `h` rows of `w` pixels, after the pixels of
/// `region` have been painted with `brush`.
pub open spec fn paint(
    buf: Seq<u32>,
    w: int,
    h: int,
    region: spec_fn(int, int) -> bool,
    brush: Brush,
) -> Seq<u32> {
    Seq::new(
        buf.len(),
        |i: int|
            if i < w * h && region(i % w, i / w) {
                brush.at(i)
            } else {
                buf[i]
            },
    )
}

/// A buffer that holds `h` rows of `w` pixels.
pub open spec fn holds(buf: Seq<u32>, w: int, h: int) -> bool {
    w * h <= buf.len()
}

/// Whether the offset `(dx, dy)` is at most `r` long.
pub open spec fn within(dx: int, dy: int, r: int) -> bool {
    r >= 0 && dx * dx + dy * dy <= r * r
}

/// The disk of radius `r` around `(cx, cy)`; empty when `r` is negative.
pub open spec fn disk(cx: int, cy: int, r: int) -> spec_fn(int, int) -> bool {
    |x: int, y: int| within(x - cx, y - cy, r)
}

/// The rectangle of `w` by `h` pixels whose first pixel is `(x, y)`.
pub open spec fn rect(x: int, y: int, w: int, h: int) -> spec_fn(int, int) -> bool {
    |px: int, py: int| x <= px < x + w && y <= py < y + h
}

/// One pixel.
pub open spec fn dot(x: int, y: int) -> spec_fn(int, int) -> bool {
    |px: int, py: int| px == x && py == y
}

/// Integer division that drops the fraction, for a positive divisor.
pub open spec fn trunc_div(a: int, b: int) -> int {
    if a >= 0 {
        a / b
    } else {
        -((-a) / b)
    }
}

pub open spec fn abs(a: int) -> int {
    if a >= 0 {
        a
    } else {
        -a
    }
}

pub open spec fn max(a: int, b: int) -> int {
    if a >= b {
        a
    } else {
        b
    }
}

pub open spec fn min(a: int, b: int) -> int {
    if a <= b {
        a
    } else {
        b
    }
}

/// The number of steps in which a line from `a` to `b` is walked: one per
/// pixel along its longer side, and at least one.
pub open spec fn line_steps(a: (i32, i32), b: (i32, i32)) -> int {
    max(max(abs(b.0 - a.0), abs(b.1 - a.1)), 1)
}

/// One coordinate of the point reached after `i` of `steps` steps from `p` to `q`.
pub open spec fn lerp(p: int, q: int, i: int, steps: int) -> int {
    p + trunc_div((q - p) * i, steps)
}

/// Whether `(x, y)` lies in the disk of radius `r` that is stamped at step `i`
/// of the line from `a` to `b`.
pub open spec fn line_stamp(a: (i32, i32), b: (i32, i32), r: int, i: int, x: int, y: int) -> bool {
    let steps = line_steps(a, b);
    within(
        x - lerp(a.0 as int, b.0 as int, i, steps),
        y - lerp(a.1 as int, b.1 as int, i, steps),
        r,
    )
}

/// The pixels that the first `n` stamps of a line cover.
pub open spec fn line_prefix(a: (i32, i32), b: (i32, i32), r: int, n: int) -> spec_fn(
    int,
    int,
) -> bool {
    |x: int, y: int| exists|i: int| 0 <= i < n && #[trigger] line_stamp(a, b, r, i, x, y)
}

/// The line from `a` to `b` drawn with a round brush of radius `r`.
pub open spec fn line(a: (i32, i32), b: (i32, i32), r: int) -> spec_fn(int, int) -> bool {
    line_prefix(a, b, r, line_steps(a, b) + 1)
}

pub open spec fn fits_i32(a: int) -> bool {
    i32::MIN <= a <= i32::MAX
}

/// No coordinate of the disk's square and no squared distance in it leaves
/// the range of `i32`.
pub open spec fn disk_fits(cx: int, cy: int, r: int) -> bool {
    &&& r > i32::MIN
    &&& r >= 0 ==> {
        &&& 2 * (r * r) <= i32::MAX
        &&& fits_i32(cx - r) && fits_i32(cx + r)
        &&& fits_i32(cy - r) && fits_i32(cy + r)
    }
}

/// No product that walks the line and no disk stamped along it leaves the
/// range of `i32`.
pub open spec fn line_fits(a: (i32, i32), b: (i32, i32), r: int) -> bool {
    let steps = line_steps(a, b);
    &&& steps * steps <= i32::MAX
    &&& disk_fits(a.0 as int, a.1 as int, r)
    &&& disk_fits(b.0 as int, b.1 as int, r)
}

/// Row and column of the pixel at index `y * w + x`.
pub proof fn lemma_pixel_index(x: int, y: int, w: int)
    requires
        0 <= x < w,
        0 <= y,
    ensures
        (y * w + x) / w == y,
        (y * w + x) % w == x,
        0 <= y * w + x,
{
    vstd::arithmetic::div_mod::lemma_fundamental_div_mod_converse(y * w + x, w, y, x);
    assert(0 <= y * w) by (nonlinear_arith)
        requires
            0 <= y,
            0 < w,
    ;
}

/// The pixel `(x, y)` of a buffer of `h` rows lies in its first `w * h` pixels.
pub proof fn lemma_pixel_bound(x: int, y: int, w: int, h: int)
    requires
        0 <= x < w,
        0 <= y < h,
    ensures
        y * w + x < w * h,
{
    assert(y * w + x < w * h) by (nonlinear_arith)
        requires
            0 <= x < w,
            0 <= y < h,
    ;
}

/// Each index below `w * h` is the pixel of its row and column.
pub proof fn lemma_index_pixel(i: int, w: int, h: int)
    requires
        0 <= i < w * h,
        0 <= w,
    ensures
        0 < w,
        0 <= i % w < w,
        0 <= i / w < h,
        i == (i / w) * w + i % w,
{
    assert(0 < w) by (nonlinear_arith)
        requires
            0 <= i < w * h,
            0 <= w,
    ;
    vstd::arithmetic::div_mod::lemma_fundamental_div_mod(i, w);
    vstd::arithmetic::div_mod::lemma_mod_bound(i, w);
    assert((i / w) * w == w * (i / w)) by (nonlinear_arith);
    assert(i / w < h) by (nonlinear_arith)
        requires
            0 <= i < w * h,
            i == w * (i / w) + i % w,
            0 <= i % w < w,
    ;
    assert(0 <= i / w) by (nonlinear_arith)
        requires
            0 <= i,
            0 < w,
    ;
}

/// Two regions that agree on the pixels of the buffer paint the same picture.
pub proof fn lemma_paint_same(
    buf: Seq<u32>,
    w: int,
    h: int,
    r1: spec_fn(int, int) -> bool,
    r2: spec_fn(int, int) -> bool,
    brush: Brush,
)
    requires
        0 <= w,
        forall|x: int, y: int| 0 <= x < w && 0 <= y < h ==> (#[trigger] r1(x, y) <==> r2(x, y)),
    ensures
        paint(buf, w, h, r1, brush) == paint(buf, w, h, r2, brush),
{
    let p1 = paint(buf, w, h, r1, brush);
    let p2 = paint(buf, w, h, r2, brush);
    assert forall|i: int| 0 <= i < buf.len() implies p1[i] == p2[i] by {
        if i < w * h {
            lemma_index_pixel(i, w, h);
            assert(r1(i % w, i / w) <==> r2(i % w, i / w));
        }
    }
    assert(p1 =~= p2);
}

/// Painting one region after another with the same brush paints their union.
pub proof fn lemma_paint_union(
    buf: Seq<u32>,
    w: int,
    h: int,
    r1: spec_fn(int, int) -> bool,
    r2: spec_fn(int, int) -> bool,
    both: spec_fn(int, int) -> bool,
    brush: Brush,
)
    requires
        0 <= w,
        forall|x: int, y: int|
            0 <= x < w && 0 <= y < h ==> (#[trigger] both(x, y) <==> (r1(x, y) || r2(x, y))),
    ensures
        paint(paint(buf, w, h, r1, brush), w, h, r2, brush) == paint(buf, w, h, both, brush),
{
    let p1 = paint(paint(buf, w, h, r1, brush), w, h, r2, brush);
    let p2 = paint(buf, w, h, both, brush);
    assert forall|i: int| 0 <= i < buf.len() implies p1[i] == p2[i] by {
        if i < w * h {
            lemma_index_pixel(i, w, h);
            assert(both(i % w, i / w) <==> (r1(i % w, i / w) || r2(i % w, i / w)));
        }
    }
    assert(p1 =~= p2);
}

/// A region without a pixel in the buffer changes nothing.
pub proof fn lemma_paint_nothing(
    buf: Seq<u32>,
    w: int,
    h: int,
    region: spec_fn(int, int) -> bool,
    brush: Brush,
)
    requires
        0 <= w,
        forall|x: int, y: int| 0 <= x < w && 0 <= y < h ==> !(#[trigger] region(x, y)),
    ensures
        paint(buf, w, h, region, brush) == buf,
{
    let p = paint(buf, w, h, region, brush);
    assert forall|i: int| 0 <= i < buf.len() implies p[i] == buf[i] by {
        if i < w * h {
            lemma_index_pixel(i, w, h);
            assert(!region(i % w, i / w));
        }
    }
    assert(p =~= buf);
}

/// An offset of length at most `r` has both parts between `-r` and `r`.
pub proof fn lemma_within_square(dx: int, dy: int, r: int)
    requires
        within(dx, dy, r),
    ensures
        -r <= dx <= r,
        -r <= dy <= r,
{
    assert(-r <= dx <= r && -r <= dy <= r) by (nonlinear_arith)
        requires
            r >= 0,
            dx * dx + dy * dy <= r * r,
    ;
}

/// A point on the way from `p` to `q` lies between them.
pub proof fn lemma_lerp_between(p: int, q: int, i: int, steps: int)
    requires
        0 <= i <= steps,
        0 < steps,
    ensures
        min(p, q) <= lerp(p, q, i, steps) <= max(p, q),
        abs((q - p) * i) <= abs(q - p) * steps,
        (q - p) * i >= 0 <==> (q >= p || i == 0),
{
    let d = abs(q - p);
    assert(0 <= d * i <= d * steps && 0 <= d * i / steps <= d) by (nonlinear_arith)
        requires
            0 <= i <= steps,
            0 < steps,
            0 <= d,
    ;
    if q >= p {
        assert((q - p) * i == d * i);
    } else {
        assert((q - p) * i == -(d * i)) by (nonlinear_arith)
            requires
                d == -(q - p),
        ;
        assert(d * i == 0 ==> i == 0) by (nonlinear_arith)
            requires
                d > 0,
                i >= 0,
        ;
    }
}

/// Sets one pixel; a point outside the buffer changes nothing.
pub fn put(buf: &mut [u32], w: usize, h: usize, x: i32, y: i32, brush: &Brush)
    requires
        holds(old(buf)@, w as int, h as int),
        brush.covers(w * h),
    ensures
        final(buf)@ == paint(old(buf)@, w as int, h as int, dot(x as int, y as int), *brush),
{
    let ghost before = buf@;
    let ghost after = paint(before, w as int, h as int, dot(x as int, y as int), *brush);
    if x >= 0 && y >= 0 && (x as usize) < w && (y as usize) < h {
        let _len: usize = buf.len();
        proof {
            lemma_pixel_index(x as int, y as int, w as int);
            lemma_pixel_bound(x as int, y as int, w as int, h as int);
        }
        let i: usize = y as usize * w + x as usize;
        let value = brush.sample(i);
        buf[i] = value;
        proof {
            assert forall|j: int| 0 <= j < before.len() implies buf@[j] == after[j] by {
                if j < w * h {
                    lemma_index_pixel(j, w as int, h as int);
                }
            }
            assert(buf@ =~= after);
        }
    } else {
        proof {
            lemma_paint_nothing(before, w as int, h as int, dot(x as int, y as int), *brush);
        }
    }
}

/// The part of `shape` that a scan has met once it has come to `(x, y)`,
/// going through the rows from the top and through each row from the left.
pub open spec fn scanned(shape: spec_fn(int, int) -> bool, x: int, y: int) -> spec_fn(
    int,
    int,
) -> bool {
    |px: int, py: int| shape(px, py) && (py < y || (py == y && px < x))
}

/// Every pixel of the buffer that belongs to `shape` lies in the box from
/// `(x0, y0)` to `(x1, y1)`, both corners included.
pub open spec fn boxed(
    shape: spec_fn(int, int) -> bool,
    w: int,
    h: int,
    x0: int,
    y0: int,
    x1: int,
    y1: int,
) -> bool {
    forall|x: int, y: int|
        0 <= x < w && 0 <= y < h && #[trigger] shape(x, y) ==> x0 <= x <= x1 && y0 <= y <= y1
}

/// A scan that has not left the first corner of the box has painted nothing.
pub proof fn lemma_scan_begin(
    buf: Seq<u32>,
    w: int,
    h: int,
    shape: spec_fn(int, int) -> bool,
    x0: int,
    y0: int,
    x1: int,
    y1: int,
    brush: Brush,
)
    requires
        0 <= w,
        boxed(shape, w, h, x0, y0, x1, y1),
    ensures
        paint(buf, w, h, scanned(shape, x0, y0), brush) == buf,
{
    let region = scanned(shape, x0, y0);
    assert forall|x: int, y: int| 0 <= x < w && 0 <= y < h implies !(#[trigger] region(x, y)) by {
        assert(shape(x, y) ==> x0 <= x && y0 <= y);
    }
    lemma_paint_nothing(buf, w, h, region, brush);
}

/// One step of a scan: `now` is the picture at `(x, y)`, and `next` the picture
/// after the pixel there has been painted, if it belongs to the shape.
pub proof fn lemma_scan_step(
    buf: Seq<u32>,
    w: int,
    h: int,
    shape: spec_fn(int, int) -> bool,
    x: int,
    y: int,
    brush: Brush,
)
    requires
        0 <= w,
    ensures
        paint(buf, w, h, scanned(shape, x + 1, y), brush) == (if shape(x, y) {
            paint(paint(buf, w, h, scanned(shape, x, y), brush), w, h, dot(x, y), brush)
        } else {
            paint(buf, w, h, scanned(shape, x, y), brush)
        }),
{
    if shape(x, y) {
        lemma_paint_union(
            buf,
            w,
            h,
            scanned(shape, x, y),
            dot(x, y),
            scanned(shape, x + 1, y),
            brush,
        );
    } else {
        lemma_paint_same(buf, w, h, scanned(shape, x, y), scanned(shape, x + 1, y), brush);
    }
}

/// At the end of a row a scan stands where it stands at the start of the next.
pub proof fn lemma_scan_row(
    buf: Seq<u32>,
    w: int,
    h: int,
    shape: spec_fn(int, int) -> bool,
    x0: int,
    y0: int,
    x1: int,
    y1: int,
    x: int,
    y: int,
    brush: Brush,
)
    requires
        0 <= w,
        boxed(shape, w, h, x0, y0, x1, y1),
        x > x1,
    ensures
        paint(buf, w, h, scanned(shape, x, y), brush) == paint(
            buf,
            w,
            h,
            scanned(shape, x0, y + 1),
            brush,
        ),
{
    let r1 = scanned(shape, x, y);
    let r2 = scanned(shape, x0, y + 1);
    assert forall|px: int, py: int| 0 <= px < w && 0 <= py < h implies (#[trigger] r1(px, py)
        <==> r2(px, py)) by {
        assert(shape(px, py) ==> x0 <= px <= x1);
    }
    lemma_paint_same(buf, w, h, r1, r2, brush);
}

/// A scan that has left the box has painted the shape.
pub proof fn lemma_scan_end(
    buf: Seq<u32>,
    w: int,
    h: int,
    shape: spec_fn(int, int) -> bool,
    x0: int,
    y0: int,
    x1: int,
    y1: int,
    y: int,
    brush: Brush,
)
    requires
        0 <= w,
        boxed(shape, w, h, x0, y0, x1, y1),
        y > y1,
    ensures
        paint(buf, w, h, scanned(shape, x0, y), brush) == paint(buf, w, h, shape, brush),
{
    let r1 = scanned(shape, x0, y);
    assert forall|px: int, py: int| 0 <= px < w && 0 <= py < h implies (#[trigger] r1(px, py)
        <==> shape(px, py)) by {
        assert(shape(px, py) ==> py <= y1);
    }
    lemma_paint_same(buf, w, h, r1, shape, brush);
}

/// Stamps a disk.
pub fn put_disk(buf: &mut [u32], w: usize, h: usize, cx: i32, cy: i32, r: i32, brush: &Brush)
    requires
        holds(old(buf)@, w as int, h as int),
        brush.covers(w * h),
        disk_fits(cx as int, cy as int, r as int),
    ensures
        final(buf)@ == paint(
            old(buf)@,
            w as int,
            h as int,
            disk(cx as int, cy as int, r as int),
            *brush,
        ),
{
    let ghost before = buf@;
    let ghost shape = disk(cx as int, cy as int, r as int);
    proof {
        assert forall|x: int, y: int| #[trigger] shape(x, y) implies cx - r <= x <= cx + r && cy - r
            <= y <= cy + r by {
            lemma_within_square(x - cx, y - cy, r as int);
        }
        lemma_scan_begin(before, w as int, h as int, shape, cx - r, cy - r, cx + r, cy + r, *brush);
        assert(r >= 0 ==> r <= r * r) by (nonlinear_arith);
    }
    let mut dy: i32 = -r;
    while dy <= r
        invariant
            holds(before, w as int, h as int),
            brush.covers(w * h),
            disk_fits(cx as int, cy as int, r as int),
            shape == disk(cx as int, cy as int, r as int),
            boxed(shape, w as int, h as int, cx - r, cy - r, cx + r, cy + r),
            -r <= dy,
            dy <= r + 1 || dy == -r,
            r < i32::MAX,
            buf@ == paint(before, w as int, h as int, scanned(shape, cx - r, cy + dy), *brush),
        decreases r - dy + 1,
    {
        let mut dx: i32 = -r;
        while dx <= r
            invariant
                holds(before, w as int, h as int),
                brush.covers(w * h),
                disk_fits(cx as int, cy as int, r as int),
                shape == disk(cx as int, cy as int, r as int),
                -r <= dy <= r,
                -r <= dx <= r + 1,
                r < i32::MAX,
                buf@ == paint(before, w as int, h as int, scanned(shape, cx + dx, cy + dy), *brush),
            decreases r - dx + 1,
        {
            proof {
                assert(0 <= dx * dx <= r * r && 0 <= dy * dy <= r * r) by (nonlinear_arith)
                    requires
                        -r <= dx <= r,
                        -r <= dy <= r,
                ;
                lemma_scan_step(before, w as int, h as int, shape, cx + dx, cy + dy, *brush);
                assert(shape(cx + dx, cy + dy) <==> within(dx as int, dy as int, r as int));
            }
            if dx * dx + dy * dy <= r * r {
                put(buf, w, h, cx + dx, cy + dy, brush);
            }
            dx += 1;
        }
        proof {
            lemma_scan_row(
                before,
                w as int,
                h as int,
                shape,
                cx - r,
                cy - r,
                cx + r,
                cy + r,
                cx + dx,
                cy + dy,
                *brush,
            );
        }
        dy += 1;
    }
    proof {
        lemma_scan_end(
            before,
            w as int,
            h as int,
            shape,
            cx - r,
            cy - r,
            cx + r,
            cy + r,
            cy + dy,
            *brush,
        );
    }
}

/// Draws a line with a round brush, one stamp per step.
pub fn put_line(
    buf: &mut [u32],
    w: usize,
    h: usize,
    a: (i32, i32),
    b: (i32, i32),
    r: i32,
    brush: &Brush,
)
    requires
        holds(old(buf)@, w as int, h as int),
        brush.covers(w * h),
        line_fits(a, b, r as int),
    ensures
        final(buf)@ == paint(old(buf)@, w as int, h as int, line(a, b, r as int), *brush),
{
    let ghost before = buf@;
    let (x0, y0) = a;
    let (x1, y1) = b;
    let ghost steps = line_steps(a, b);
    proof {
        assert(steps <= 46340) by (nonlinear_arith)
            requires
                steps >= 1,
                steps * steps <= 0x7fff_ffff,
        ;
    }
    let vx: i32 = x1 - x0;
    let vy: i32 = y1 - y0;
    let dx: i32 = if vx < 0 { -vx } else { vx };
    let dy: i32 = if vy < 0 { -vy } else { vy };
    let mut n: i32 = 1;
    if dx > n {
        n = dx;
    }
    if dy > n {
        n = dy;
    }
    assert(n == steps);
    let mut i: i32 = 0;
    proof {
        lemma_paint_nothing(before, w as int, h as int, line_prefix(a, b, r as int, 0), *brush);
    }
    while i <= n
        invariant
            holds(before, w as int, h as int),
            brush.covers(w * h),
            line_fits(a, b, r as int),
            a == (x0, y0),
            b == (x1, y1),
            vx == x1 - x0,
            vy == y1 - y0,
            n == line_steps(a, b),
            n < i32::MAX,
            0 <= i <= n + 1,
            buf@ == paint(before, w as int, h as int, line_prefix(a, b, r as int, i as int), *brush),
        decreases n - i + 1,
    {
        proof {
            lemma_lerp_between(x0 as int, x1 as int, i as int, n as int);
            lemma_lerp_between(y0 as int, y1 as int, i as int, n as int);
            assert(abs(vx as int) * n <= n * n && abs(vy as int) * n <= n * n) by (nonlinear_arith)
                requires
                    abs(vx as int) <= n,
                    abs(vy as int) <= n,
                    0 <= n,
            ;
        }
        let x: i32 = x0 + vx * i / n;
        let y: i32 = y0 + vy * i / n;
        assert(x == lerp(x0 as int, x1 as int, i as int, n as int));
        assert(y == lerp(y0 as int, y1 as int, i as int, n as int));
        put_disk(buf, w, h, x, y, r, brush);
        proof {
            let r1 = line_prefix(a, b, r as int, i as int);
            let r2 = line_prefix(a, b, r as int, i + 1);
            let stamp = disk(x as int, y as int, r as int);
            assert forall|px: int, py: int| #[trigger] r2(px, py) <==> (r1(px, py) || stamp(
                px,
                py,
            )) by {
                assert(stamp(px, py) <==> line_stamp(a, b, r as int, i as int, px, py));
            }
            lemma_paint_union(before, w as int, h as int, r1, stamp, r2, *brush);
        }
        i += 1;
    }
}

/// Fills a rectangle.
pub fn fill_rect(
    buf: &mut [u32],
    w: usize,
    h: usize,
    x: i32,
    y: i32,
    rw: i32,
    rh: i32,
    brush: &Brush,
)
    requires
        holds(old(buf)@, w as int, h as int),
        brush.covers(w * h),
        w <= i32::MAX,
        h <= i32::MAX,
        fits_i32(x + rw),
        fits_i32(y + rh),
    ensures
        final(buf)@ == paint(
            old(buf)@,
            w as int,
            h as int,
            rect(x as int, y as int, rw as int, rh as int),
            *brush,
        ),
{
    let ghost before = buf@;
    let ghost shape = rect(x as int, y as int, rw as int, rh as int);
    let x0: i32 = if x > 0 { x } else { 0 };
    let y0: i32 = if y > 0 { y } else { 0 };
    let x1: i32 = if x + rw < w as i32 { x + rw } else { w as i32 };
    let y1: i32 = if y + rh < h as i32 { y + rh } else { h as i32 };
    proof {
        lemma_scan_begin(
            before,
            w as int,
            h as int,
            shape,
            x0 as int,
            y0 as int,
            x1 - 1,
            y1 - 1,
            *brush,
        );
    }
    let mut py: i32 = y0;
    while py < y1
        invariant
            holds(before, w as int, h as int),
            brush.covers(w * h),
            shape == rect(x as int, y as int, rw as int, rh as int),
            boxed(shape, w as int, h as int, x0 as int, y0 as int, x1 - 1, y1 - 1),
            x <= x0,
            y <= y0,
            x1 <= x + rw,
            y1 <= y + rh,
            y0 <= py,
            buf@ == paint(before, w as int, h as int, scanned(shape, x0 as int, py as int), *brush),
        decreases y1 - py,
    {
        let mut px: i32 = x0;
        while px < x1
            invariant
                holds(before, w as int, h as int),
                brush.covers(w * h),
                shape == rect(x as int, y as int, rw as int, rh as int),
                x <= x0,
                y <= y0,
                x1 <= x + rw,
                y1 <= y + rh,
                y0 <= py < y1,
                x0 <= px,
                buf@ == paint(
                    before,
                    w as int,
                    h as int,
                    scanned(shape, px as int, py as int),
                    *brush,
                ),
            decreases x1 - px,
        {
            proof {
                lemma_scan_step(before, w as int, h as int, shape, px as int, py as int, *brush);
                assert(shape(px as int, py as int));
            }
            put(buf, w, h, px, py, brush);
            px += 1;
        }
        proof {
            lemma_scan_row(
                before,
                w as int,
                h as int,
                shape,
                x0 as int,
                y0 as int,
                x1 - 1,
                y1 - 1,
                px as int,
                py as int,
                *brush,
            );
        }
        py += 1;
    }
    proof {
        lemma_scan_end(
            before,
            w as int,
            h as int,
            shape,
            x0 as int,
            y0 as int,
            x1 - 1,
            y1 - 1,
            py as int,
            *brush,
        );
    }
}

} // verus!
