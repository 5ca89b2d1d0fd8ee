//! Polygons. Where an edge passes a pixel, and where a corner goes that is moved
//! inwards, is for the caller to say.

use vstd::prelude::*;

use crate::canvas;
use crate::fb::{SCREEN_H, SCREEN_W};
use crate::raster::{self, Brush};
use crate::shapes;

verus! {

/// A ray to the right from the middle of pixel `(x, y)` crosses the edge from
/// one corner to another.
pub type Cross = spec_fn(int, int, (i32, i32), (i32, i32)) -> bool;

/// Where a corner goes that is moved inwards, given the sums of the coordinates
/// of all corners, their number, the corner and how far it is moved.
pub type Inward = spec_fn(int, int, int, (i32, i32), int) -> (i32, i32);

/// `crosses` answers as `cross` does.
pub open spec fn crosses_as<C: Fn(i32, i32, (i32, i32), (i32, i32)) -> bool>(
    crosses: C,
    cross: Cross,
) -> bool {
    forall|x: i32, y: i32, a: (i32, i32), b: (i32, i32), r: bool| #[trigger]
        crosses.ensures((x, y, a, b), r) ==> r == cross(x as int, y as int, a, b)
}

/// `crosses` answers any question.
pub open spec fn crosses_all<C: Fn(i32, i32, (i32, i32), (i32, i32)) -> bool>(crosses: C) -> bool {
    forall|x: i32, y: i32, a: (i32, i32), b: (i32, i32)| #[trigger]
        crosses.requires((x, y, a, b))
}

/// `moves` moves corners as `inward` does.
pub open spec fn moves_as<M: Fn(i32, i32, usize, (i32, i32), i32) -> (i32, i32)>(
    moves: M,
    inward: Inward,
) -> bool {
    forall|sx: i32, sy: i32, n: usize, p: (i32, i32), d: i32, r: (i32, i32)| #[trigger]
        moves.ensures((sx, sy, n, p, d), r) ==> r == inward(
            sx as int,
            sy as int,
            n as int,
            p,
            d as int,
        )
}

/// `moves` moves any corner.
pub open spec fn moves_all<M: Fn(i32, i32, usize, (i32, i32), i32) -> (i32, i32)>(
    moves: M,
) -> bool {
    forall|sx: i32, sy: i32, n: usize, p: (i32, i32), d: i32| #[trigger]
        moves.requires((sx, sy, n, p, d))
}

/// The corner before corner `i`, going round.
pub open spec fn corner_before(points: Seq<(i32, i32)>, i: int) -> (i32, i32) {
    if i == 0 {
        points[points.len() - 1]
    } else {
        points[i - 1]
    }
}

/// How many of the first `n` edges a ray from `(x, y)` crosses.
pub open spec fn crossings(
    points: Seq<(i32, i32)>,
    x: int,
    y: int,
    cross: Cross,
    n: int,
) -> int
    decreases n,
{
    if n <= 0 {
        0
    } else {
        crossings(points, x, y, cross, n - 1) + (if cross(
            x,
            y,
            points[n - 1],
            corner_before(points, n - 1),
        ) {
            1int
        } else {
            0
        })
    }
}

/// `(x, y)` lies inside: a ray from it crosses the edges an odd number of times.
pub open spec fn inside(points: Seq<(i32, i32)>, x: int, y: int, cross: Cross) -> bool {
    crossings(points, x, y, cross, points.len() as int) % 2 == 1
}

/// `(x, y)` lies between corners, across and down.
pub open spec fn between_corners(points: Seq<(i32, i32)>, x: int, y: int) -> bool {
    &&& exists|i: int| 0 <= i < points.len() && (#[trigger] points[i]).0 <= x
    &&& exists|i: int| 0 <= i < points.len() && x <= (#[trigger] points[i]).0
    &&& exists|i: int| 0 <= i < points.len() && (#[trigger] points[i]).1 <= y
    &&& exists|i: int| 0 <= i < points.len() && y <= (#[trigger] points[i]).1
}

/// The polygon of some corners; fewer than three make none.
pub open spec fn polygon(points: Seq<(i32, i32)>, cross: Cross) -> spec_fn(int, int) -> bool {
    |x: int, y: int|
        points.len() >= 3 && between_corners(points, x, y) && inside(points, x, y, cross)
}

/// Whether a pixel lies inside a polygon.
pub fn point_in_polygon<C: Fn(i32, i32, (i32, i32), (i32, i32)) -> bool>(
    px: i32,
    py: i32,
    points: &[(i32, i32)],
    crosses: &C,
) -> (r: bool)
    requires
        points@.len() > 0,
        crosses_all(*crosses),
    ensures
        forall|cross: Cross| #[trigger]
            crosses_as(*crosses, cross) ==> r == inside(points@, px as int, py as int, cross),
{
    let mut inside_now = false;
    let mut j: usize = points.len() - 1;
    let mut i: usize = 0;
    while i < points.len()
        invariant
            points@.len() > 0,
            crosses_all(*crosses),
            i <= points@.len(),
            j < points@.len(),
            i < points@.len() ==> points@[j as int] == corner_before(points@, i as int),
            forall|cross: Cross| #[trigger]
                crosses_as(*crosses, cross) ==> inside_now == (crossings(
                    points@,
                    px as int,
                    py as int,
                    cross,
                    i as int,
                ) % 2 == 1),
        decreases points@.len() - i,
    {
        if crosses(px, py, points[i], points[j]) {
            inside_now = !inside_now;
        }
        j = i;
        i += 1;
    }
    inside_now
}

/// The sum of the first `n` coordinates across.
pub open spec fn sum_x(points: Seq<(i32, i32)>, n: int) -> int
    decreases n,
{
    if n <= 0 {
        0
    } else {
        sum_x(points, n - 1) + points[n - 1].0
    }
}

/// The sum of the first `n` coordinates down.
pub open spec fn sum_y(points: Seq<(i32, i32)>, n: int) -> int
    decreases n,
{
    if n <= 0 {
        0
    } else {
        sum_y(points, n - 1) + points[n - 1].1
    }
}

/// The sums of the coordinates are `i32`s, at every step.
pub open spec fn sums_fit(points: Seq<(i32, i32)>) -> bool {
    forall|n: int|
        0 <= n <= points.len() ==> raster::fits_i32(#[trigger] sum_x(points, n))
            && raster::fits_i32(sum_y(points, n))
}

/// The corners moved inwards.
pub open spec fn moved_in(points: Seq<(i32, i32)>, inset: int, inward: Inward) -> Seq<(i32, i32)> {
    let n = points.len() as int;
    Seq::new(
        points.len(),
        |i: int| inward(sum_x(points, n), sum_y(points, n), n, points[i], inset),
    )
}

/// The least and greatest coordinates of some points.
fn extent(points: &[(i32, i32)]) -> (r: (i32, i32, i32, i32))
    requires
        points@.len() > 0,
    ensures
        forall|i: int|
            0 <= i < points@.len() ==> r.0 <= (#[trigger] points@[i]).0 <= r.1 && r.2
                <= points@[i].1 <= r.3,
        exists|i: int| 0 <= i < points@.len() && (#[trigger] points@[i]).0 == r.0,
        exists|i: int| 0 <= i < points@.len() && (#[trigger] points@[i]).0 == r.1,
        exists|i: int| 0 <= i < points@.len() && (#[trigger] points@[i]).1 == r.2,
        exists|i: int| 0 <= i < points@.len() && (#[trigger] points@[i]).1 == r.3,
{
    let first = points[0];
    let mut min_x: i32 = first.0;
    let mut max_x: i32 = first.0;
    let mut min_y: i32 = first.1;
    let mut max_y: i32 = first.1;
    let mut k: usize = 1;
    while k < points.len()
        invariant
            1 <= k <= points@.len(),
            forall|i: int|
                0 <= i < k ==> min_x <= (#[trigger] points@[i]).0 <= max_x && min_y <= points@[i].1
                    <= max_y,
            exists|i: int| 0 <= i < k && (#[trigger] points@[i]).0 == min_x,
            exists|i: int| 0 <= i < k && (#[trigger] points@[i]).0 == max_x,
            exists|i: int| 0 <= i < k && (#[trigger] points@[i]).1 == min_y,
            exists|i: int| 0 <= i < k && (#[trigger] points@[i]).1 == max_y,
        decreases points@.len() - k,
    {
        let p = points[k];
        assert(points@[k as int] == p);
        if p.0 < min_x {
            min_x = p.0;
        }
        if p.0 > max_x {
            max_x = p.0;
        }
        if p.1 < min_y {
            min_y = p.1;
        }
        if p.1 > max_y {
            max_y = p.1;
        }
        k += 1;
    }
    (min_x, max_x, min_y, max_y)
}

/// Fills a polygon.
pub fn fill_polygon<C: Fn(i32, i32, (i32, i32), (i32, i32)) -> bool>(
    buf: &mut [u32],
    points: &[(i32, i32)],
    color: u32,
    crosses: &C,
)
    requires
        canvas::screen(old(buf)@),
        crosses_all(*crosses),
    ensures
        final(buf)@.len() == old(buf)@.len(),
        forall|cross: Cross| #[trigger]
            crosses_as(*crosses, cross) ==> final(buf)@ == canvas::painted(
                old(buf)@,
                polygon(points@, cross),
                color,
            ),
{
    let ghost before = buf@;
    let ghost w = SCREEN_W as int;
    let ghost h = SCREEN_H as int;
    let ghost brush = Brush::Flat(color);
    if points.len() < 3 {
        proof {
            assert forall|cross: Cross| #[trigger] crosses_as(*crosses, cross) implies before
                == canvas::painted(before, polygon(points@, cross), color) by {
                raster::lemma_paint_nothing(before, w, h, polygon(points@, cross), brush);
            }
        }
        return;
    }
    let (lo_x, hi_x, lo_y, hi_y) = extent(points);
    let min_x: i32 = shapes::above(lo_x, 0);
    let max_x: i32 = shapes::smaller(hi_x, SCREEN_W as i32 - 1);
    let min_y: i32 = shapes::above(lo_y, 0);
    let max_y: i32 = shapes::smaller(hi_y, SCREEN_H as i32 - 1);
    proof {
        assert forall|x: int, y: int|
            min_x <= x <= max_x && min_y <= y <= max_y implies #[trigger] between_corners(
            points@,
            x,
            y,
        ) by {
            let i = choose|i: int| 0 <= i < points@.len() && (#[trigger] points@[i]).0 == lo_x;
            assert(points@[i].0 <= x);
            let i = choose|i: int| 0 <= i < points@.len() && (#[trigger] points@[i]).0 == hi_x;
            assert(x <= points@[i].0);
            let i = choose|i: int| 0 <= i < points@.len() && (#[trigger] points@[i]).1 == lo_y;
            assert(points@[i].1 <= y);
            let i = choose|i: int| 0 <= i < points@.len() && (#[trigger] points@[i]).1 == hi_y;
            assert(y <= points@[i].1);
        }
        assert forall|x: int, y: int|
            0 <= x < w && 0 <= y < h && #[trigger] between_corners(points@, x, y) implies min_x <= x
            <= max_x && min_y <= y <= max_y by {
        }
        assert forall|cross: Cross| #[trigger] crosses_as(*crosses, cross) implies buf@
            == raster::paint(
            before,
            w,
            h,
            raster::scanned(polygon(points@, cross), min_x as int, min_y as int),
            brush,
        ) by {
            assert(raster::boxed(
                polygon(points@, cross),
                w,
                h,
                min_x as int,
                min_y as int,
                max_x as int,
                max_y as int,
            ));
            raster::lemma_scan_begin(
                before,
                w,
                h,
                polygon(points@, cross),
                min_x as int,
                min_y as int,
                max_x as int,
                max_y as int,
                brush,
            );
        }
    }
    let mut py: i32 = min_y;
    while py <= max_y
        invariant
            w == SCREEN_W,
            h == SCREEN_H,
            brush == Brush::Flat(color),
            canvas::screen(before),
            points@.len() >= 3,
            crosses_all(*crosses),
            max_x < SCREEN_W,
            max_y < SCREEN_H,
            min_y <= py,
            forall|x: int, y: int|
                min_x <= x <= max_x && min_y <= y <= max_y ==> #[trigger] between_corners(
                    points@,
                    x,
                    y,
                ),
            forall|x: int, y: int|
                0 <= x < w && 0 <= y < h && #[trigger] between_corners(points@, x, y) ==> min_x <= x
                    <= max_x && min_y <= y <= max_y,
            buf@.len() == before.len(),
            forall|cross: Cross| #[trigger]
                crosses_as(*crosses, cross) ==> buf@ == raster::paint(
                    before,
                    w,
                    h,
                    raster::scanned(polygon(points@, cross), min_x as int, py as int),
                    brush,
                ),
        decreases max_y - py + 1,
    {
        let mut px: i32 = min_x;
        while px <= max_x
            invariant
                w == SCREEN_W,
                h == SCREEN_H,
                brush == Brush::Flat(color),
                canvas::screen(before),
                points@.len() >= 3,
                crosses_all(*crosses),
                max_x < SCREEN_W,
                max_y < SCREEN_H,
                min_y <= py <= max_y,
                min_x <= px,
                forall|x: int, y: int|
                    min_x <= x <= max_x && min_y <= y <= max_y ==> #[trigger] between_corners(
                        points@,
                        x,
                        y,
                    ),
                buf@.len() == before.len(),
                forall|cross: Cross| #[trigger]
                    crosses_as(*crosses, cross) ==> buf@ == raster::paint(
                        before,
                        w,
                        h,
                        raster::scanned(polygon(points@, cross), px as int, py as int),
                        brush,
                    ),
            decreases max_x - px + 1,
        {
            let hit = point_in_polygon(px, py, points, crosses);
            if hit {
                canvas::put_px(buf, px, py, color);
            }
            proof {
                assert forall|cross: Cross| #[trigger] crosses_as(*crosses, cross) implies buf@
                    == raster::paint(
                    before,
                    w,
                    h,
                    raster::scanned(polygon(points@, cross), px + 1, py as int),
                    brush,
                ) by {
                    let shape = polygon(points@, cross);
                    assert(between_corners(points@, px as int, py as int));
                    raster::lemma_scan_step(before, w, h, shape, px as int, py as int, brush);
                    assert(shape(px as int, py as int) == hit);
                }
            }
            px += 1;
        }
        proof {
            assert forall|cross: Cross| #[trigger] crosses_as(*crosses, cross) implies buf@
                == raster::paint(
                before,
                w,
                h,
                raster::scanned(polygon(points@, cross), min_x as int, py + 1),
                brush,
            ) by {
                let shape = polygon(points@, cross);
                assert(raster::boxed(
                    shape,
                    w,
                    h,
                    min_x as int,
                    min_y as int,
                    max_x as int,
                    max_y as int,
                ));
                raster::lemma_scan_row(
                    before,
                    w,
                    h,
                    shape,
                    min_x as int,
                    min_y as int,
                    max_x as int,
                    max_y as int,
                    px as int,
                    py as int,
                    brush,
                );
            }
        }
        py += 1;
    }
    proof {
        assert forall|cross: Cross| #[trigger] crosses_as(*crosses, cross) implies buf@
            == canvas::painted(before, polygon(points@, cross), color) by {
            let shape = polygon(points@, cross);
            assert(raster::boxed(
                shape,
                w,
                h,
                min_x as int,
                min_y as int,
                max_x as int,
                max_y as int,
            ));
            raster::lemma_scan_end(
                before,
                w,
                h,
                shape,
                min_x as int,
                min_y as int,
                max_x as int,
                max_y as int,
                py as int,
                brush,
            );
        }
    }
}

/// Fills the polygon of some corners that are first moved inwards.
pub fn fill_polygon_inset<
    C: Fn(i32, i32, (i32, i32), (i32, i32)) -> bool,
    M: Fn(i32, i32, usize, (i32, i32), i32) -> (i32, i32),
>(buf: &mut [u32], points: &[(i32, i32)], inset: i32, color: u32, crosses: &C, moves: &M)
    requires
        canvas::screen(old(buf)@),
        crosses_all(*crosses),
        moves_all(*moves),
        points@.len() >= 3 ==> sums_fit(points@),
    ensures
        final(buf)@.len() == old(buf)@.len(),
        forall|cross: Cross, inward: Inward|
            #![trigger crosses_as(*crosses, cross), moves_as(*moves, inward)]
            crosses_as(*crosses, cross) && moves_as(*moves, inward) ==> final(buf)@
                == canvas::painted(
                old(buf)@,
                polygon(moved_in(points@, inset as int, inward), cross),
                color,
            ),
{
    let ghost before = buf@;
    let n: usize = points.len();
    if n < 3 {
        proof {
            assert forall|cross: Cross, inward: Inward|
                #![trigger crosses_as(*crosses, cross), moves_as(*moves, inward)]
                crosses_as(*crosses, cross) && moves_as(*moves, inward) implies before
                == canvas::painted(
                before,
                polygon(moved_in(points@, inset as int, inward), cross),
                color,
            ) by {
                raster::lemma_paint_nothing(
                    before,
                    SCREEN_W as int,
                    SCREEN_H as int,
                    polygon(moved_in(points@, inset as int, inward), cross),
                    Brush::Flat(color),
                );
            }
        }
        return;
    }
    let mut sx: i32 = 0;
    let mut sy: i32 = 0;
    let mut k: usize = 0;
    while k < n
        invariant
            n == points@.len(),
            sums_fit(points@),
            k <= n,
            sx == sum_x(points@, k as int),
            sy == sum_y(points@, k as int),
        decreases n - k,
    {
        assert(raster::fits_i32(sum_x(points@, k + 1)));
        sx += points[k].0;
        sy += points[k].1;
        k += 1;
    }
    let mut inner: Vec<(i32, i32)> = Vec::new();
    k = 0;
    while k < n
        invariant
            n == points@.len(),
            moves_all(*moves),
            k <= n,
            sx == sum_x(points@, n as int),
            sy == sum_y(points@, n as int),
            inner@.len() == k,
            forall|inward: Inward| #[trigger]
                moves_as(*moves, inward) ==> inner@ == moved_in(
                    points@,
                    inset as int,
                    inward,
                ).take(k as int),
        decreases n - k,
    {
        let q = moves(sx, sy, n, points[k], inset);
        inner.push(q);
        proof {
            assert forall|inward: Inward| #[trigger] moves_as(*moves, inward) implies inner@
                == moved_in(points@, inset as int, inward).take(k + 1) by {
                let all = moved_in(points@, inset as int, inward);
                assert(all[k as int] == q);
                assert(all.take(k + 1) =~= all.take(k as int).push(q));
            }
        }
        k += 1;
    }
    fill_polygon(buf, inner.as_slice(), color, crosses);
    proof {
        assert forall|cross: Cross, inward: Inward|
            #![trigger crosses_as(*crosses, cross), moves_as(*moves, inward)]
            crosses_as(*crosses, cross) && moves_as(*moves, inward) implies buf@
            == canvas::painted(
            before,
            polygon(moved_in(points@, inset as int, inward), cross),
            color,
        ) by {
            let all = moved_in(points@, inset as int, inward);
            assert(all.take(n as int) =~= all);
        }
    }
}

} // verus!
