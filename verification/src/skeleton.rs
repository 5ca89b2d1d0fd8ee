//! What holds of thinned ink, said of the pixels themselves.

use vstd::prelude::*;

use crate::thin;

verus! {

/// There is ink in column `x` of row `y` of a mask of `w` by `h` pixels.
pub open spec fn dark(m: Seq<bool>, w: int, h: int, x: int, y: int) -> bool {
    0 <= x < w && 0 <= y < h && m[y * w + x]
}

/// The neighbours of a pixel, going round it from the one above, to the right.
pub open spec fn beside(m: Seq<bool>, w: int, h: int, x: int, y: int, k: int) -> bool {
    if k == 0 {
        dark(m, w, h, x, y - 1)
    } else if k == 1 {
        dark(m, w, h, x + 1, y - 1)
    } else if k == 2 {
        dark(m, w, h, x + 1, y)
    } else if k == 3 {
        dark(m, w, h, x + 1, y + 1)
    } else if k == 4 {
        dark(m, w, h, x, y + 1)
    } else if k == 5 {
        dark(m, w, h, x - 1, y + 1)
    } else if k == 6 {
        dark(m, w, h, x - 1, y)
    } else {
        dark(m, w, h, x - 1, y - 1)
    }
}

/// Going round the pixel, ink and paper take turns at four places.
pub open spec fn takes_turns(
    m: Seq<bool>,
    w: int,
    h: int,
    x: int,
    y: int,
    a: int,
    b: int,
    c: int,
    d: int,
) -> bool {
    &&& 0 <= a < b < c < d < 8
    &&& beside(m, w, h, x, y, a) != beside(m, w, h, x, y, b)
    &&& beside(m, w, h, x, y, b) != beside(m, w, h, x, y, c)
    &&& beside(m, w, h, x, y, c) != beside(m, w, h, x, y, d)
}

/// The ink around a pixel falls into two runs or more, with paper between them.
pub open spec fn parted(m: Seq<bool>, w: int, h: int, x: int, y: int) -> bool {
    exists|a: int, b: int, c: int, d: int| #[trigger] takes_turns(m, w, h, x, y, a, b, c, d)
}

/// How many of the eight neighbours have ink.
pub open spec fn company(m: Seq<bool>, w: int, h: int, x: int, y: int) -> int {
    dark(m, w, h, x - 1, y - 1) as int + dark(m, w, h, x, y - 1) as int + dark(
        m,
        w,
        h,
        x + 1,
        y - 1,
    ) as int + dark(m, w, h, x - 1, y) as int + dark(m, w, h, x + 1, y) as int + dark(
        m,
        w,
        h,
        x - 1,
        y + 1,
    ) as int + dark(m, w, h, x, y + 1) as int + dark(m, w, h, x + 1, y + 1) as int
}

/// The pixel has neighbours on all sides.
pub open spec fn inner(w: int, h: int, x: int, y: int) -> bool {
    1 <= x < w - 1 && 1 <= y < h - 1
}

/// A phase can wear the pixel off from its side. The first phase needs paper
/// below it or to its right, or both above it and to its left; the second one
/// the opposite.
pub open spec fn exposed(m: Seq<bool>, w: int, h: int, x: int, y: int, second: bool) -> bool {
    let above = dark(m, w, h, x, y - 1);
    let below = dark(m, w, h, x, y + 1);
    let left = dark(m, w, h, x - 1, y);
    let right = dark(m, w, h, x + 1, y);
    if second {
        !above || !left || (!below && !right)
    } else {
        !below || !right || (!above && !left)
    }
}

/// A mask with room for its pixels.
pub open spec fn sized(m: Seq<bool>, w: int, h: int) -> bool {
    0 < w && 0 < h && w * h <= m.len()
}

/// The number of an inner pixel is one with neighbours, and they are its ring.
proof fn lemma_ring(m: Seq<bool>, w: int, h: int, x: int, y: int)
    requires
        sized(m, w, h),
        inner(w, h, x, y),
    ensures
        thin::interior(w, h, y * w + x),
        forall|k: int|
            0 <= k < 8 ==> #[trigger] thin::ring(m, w, y * w + x)[k] == beside(m, w, h, x, y, k),
{
    let i = y * w + x;
    crate::raster::lemma_pixel_index(x, y, w);
    crate::raster::lemma_pixel_bound(x, y, w, h);
    assert((y - 1) * w == y * w - w && (y + 1) * w == y * w + w) by (nonlinear_arith);
    let p = thin::ring(m, w, i);
    assert(p[0] == beside(m, w, h, x, y, 0) && p[1] == beside(m, w, h, x, y, 1) && p[2] == beside(
        m,
        w,
        h,
        x,
        y,
        2,
    ) && p[3] == beside(m, w, h, x, y, 3) && p[4] == beside(m, w, h, x, y, 4) && p[5] == beside(
        m,
        w,
        h,
        x,
        y,
        5,
    ) && p[6] == beside(m, w, h, x, y, 6) && p[7] == beside(m, w, h, x, y, 7));
}

/// Eight steps round.
proof fn lemma_turns(p: Seq<bool>)
    requires
        p.len() == 8,
    ensures
        thin::turns(p, 8) == (!p[0] && p[1]) as int + (!p[1] && p[2]) as int + (!p[2] && p[3]) as int
            + (!p[3] && p[4]) as int + (!p[4] && p[5]) as int + (!p[5] && p[6]) as int + (!p[6]
            && p[7]) as int + (!p[7] && p[0]) as int,
        thin::count(p, 8) == p[0] as int + p[1] as int + p[2] as int + p[3] as int + p[4] as int
            + p[5] as int + p[6] as int + p[7] as int,
{
    reveal_with_fuel(thin::turns, 9);
    reveal_with_fuel(thin::count, 9);
}

proof fn lemma_parted_turns(m: Seq<bool>, w: int, h: int, x: int, y: int)
    requires
        sized(m, w, h),
        inner(w, h, x, y),
        parted(m, w, h, x, y),
    ensures
        thin::turns(thin::ring(m, w, y * w + x), 8) >= 2,
{
    let p = thin::ring(m, w, y * w + x);
    lemma_ring(m, w, h, x, y);
    lemma_turns(p);
    let (a, b, c, d) = choose|a: int, b: int, c: int, d: int| #[trigger]
        takes_turns(m, w, h, x, y, a, b, c, d);
    assert(takes_turns(m, w, h, x, y, a, b, c, d));
    assert(p[a] != p[b] && p[b] != p[c] && p[c] != p[d]);
}

/// Two places at which paper is followed by ink.
proof fn lemma_two_turns(p: Seq<bool>) -> (r: (int, int))
    requires
        p.len() == 8,
        thin::turns(p, 8) >= 2,
    ensures
        0 <= r.0 < r.1 < 8,
        !p[r.0] && p[r.0 + 1],
        !p[r.1] && p[(r.1 + 1) % 8],
{
    lemma_turns(p);
    let i: int = if !p[0] && p[1] {
        0
    } else if !p[1] && p[2] {
        1
    } else if !p[2] && p[3] {
        2
    } else if !p[3] && p[4] {
        3
    } else if !p[4] && p[5] {
        4
    } else if !p[5] && p[6] {
        5
    } else {
        6
    };
    let j: int = if !p[7] && p[0] {
        7
    } else if !p[6] && p[7] {
        6
    } else if !p[5] && p[6] {
        5
    } else if !p[4] && p[5] {
        4
    } else if !p[3] && p[4] {
        3
    } else if !p[2] && p[3] {
        2
    } else {
        1
    };
    (i, j)
}

proof fn lemma_turns_parted(m: Seq<bool>, w: int, h: int, x: int, y: int)
    requires
        sized(m, w, h),
        inner(w, h, x, y),
        thin::turns(thin::ring(m, w, y * w + x), 8) >= 2,
    ensures
        parted(m, w, h, x, y),
{
    let p = thin::ring(m, w, y * w + x);
    lemma_ring(m, w, h, x, y);
    let (i, j) = lemma_two_turns(p);
    if j == 7 {
        assert(p[0] && !p[i] && p[i + 1] && !p[7]);
        assert(takes_turns(m, w, h, x, y, 0, i, i + 1, 7));
    } else {
        assert(!p[i] && p[i + 1] && !p[j] && p[j + 1]);
        assert(takes_turns(m, w, h, x, y, i, i + 1, j, j + 1));
    }
}

/// A phase wears off exactly the inked pixels that have two to six inked
/// neighbours in a single run, and lie on the side that the phase takes.
pub proof fn law_what_a_phase_wears_off(
    m: Seq<bool>,
    w: int,
    h: int,
    x: int,
    y: int,
    second: bool,
)
    requires
        sized(m, w, h),
        0 <= x < w,
        0 <= y < h,
    ensures
        dark(thin::phase(m, w, h, second), w, h, x, y) == (dark(m, w, h, x, y) && !(inner(
            w,
            h,
            x,
            y,
        ) && 2 <= company(m, w, h, x, y) <= 6 && !parted(m, w, h, x, y) && exposed(
            m,
            w,
            h,
            x,
            y,
            second,
        ))),
{
    let i = y * w + x;
    crate::raster::lemma_pixel_index(x, y, w);
    crate::raster::lemma_pixel_bound(x, y, w, h);
    let p = thin::ring(m, w, i);
    lemma_turns(p);
    if inner(w, h, x, y) {
        lemma_ring(m, w, h, x, y);
        assert(thin::count(p, 8) == company(m, w, h, x, y)) by {
            assert(p[0] == beside(m, w, h, x, y, 0) && p[1] == beside(m, w, h, x, y, 1));
            assert(p[2] == beside(m, w, h, x, y, 2) && p[3] == beside(m, w, h, x, y, 3));
            assert(p[4] == beside(m, w, h, x, y, 4) && p[5] == beside(m, w, h, x, y, 5));
            assert(p[6] == beside(m, w, h, x, y, 6) && p[7] == beside(m, w, h, x, y, 7));
        }
        if parted(m, w, h, x, y) {
            lemma_parted_turns(m, w, h, x, y);
        } else if thin::turns(p, 8) >= 2 {
            lemma_turns_parted(m, w, h, x, y);
        }
        assert(thin::on_side(p, second) == exposed(m, w, h, x, y, second)) by {
            assert(p[0] == beside(m, w, h, x, y, 0) && p[2] == beside(m, w, h, x, y, 2));
            assert(p[4] == beside(m, w, h, x, y, 4) && p[6] == beside(m, w, h, x, y, 6));
        }
    }
}

/// Thinning breaks no line: a pixel with separate runs of ink around it stays
/// in every phase.
pub proof fn law_lines_are_not_broken(
    m: Seq<bool>,
    w: int,
    h: int,
    x: int,
    y: int,
    second: bool,
)
    requires
        sized(m, w, h),
        dark(m, w, h, x, y),
        parted(m, w, h, x, y),
    ensures
        dark(thin::phase(m, w, h, second), w, h, x, y),
{
    law_what_a_phase_wears_off(m, w, h, x, y, second);
}

/// Nothing in the mask can be worn off: every inked pixel is at the edge, is
/// the end of a line, or holds separate runs of ink together.
pub open spec fn all_lines(m: Seq<bool>, w: int, h: int) -> bool {
    forall|x: int, y: int| #[trigger]
        dark(m, w, h, x, y) ==> !inner(w, h, x, y) || company(m, w, h, x, y) <= 1 || parted(
            m,
            w,
            h,
            x,
            y,
        )
}

/// Ink that is lines already is left as it is.
pub proof fn law_lines_stay(m: Seq<bool>, w: int, h: int)
    requires
        sized(m, w, h),
        all_lines(m, w, h),
    ensures
        thin::thinned(m, w, h) == m,
{
    lemma_phase_keeps_lines(m, w, h, false);
    lemma_phase_keeps_lines(m, w, h, true);
}

proof fn lemma_phase_keeps_lines(m: Seq<bool>, w: int, h: int, second: bool)
    requires
        sized(m, w, h),
        all_lines(m, w, h),
    ensures
        thin::phase(m, w, h, second) == m,
{
    let f = thin::phase(m, w, h, second);
    assert forall|i: int| 0 <= i < m.len() implies f[i] == m[i] by {
        if m[i] && thin::interior(w, h, i) {
            let (x, y) = (i % w, i / w);
            crate::raster::lemma_index_pixel(i, w, h);
            assert(dark(m, w, h, x, y));
            law_what_a_phase_wears_off(m, w, h, x, y, second);
        }
    }
    assert(f =~= m);
}

/// The ink of the mask is one straight line of `n` pixels from `(x, y)` on,
/// level, upright, or along a diagonal.
pub open spec fn straight(
    m: Seq<bool>,
    w: int,
    h: int,
    x: int,
    y: int,
    dx: int,
    dy: int,
    n: int,
) -> bool {
    &&& (dx, dy) == (1int, 0int) || (dx, dy) == (0int, 1int) || (dx, dy) == (1int, 1int) || (dx, dy)
        == (-1int, 1int)
    &&& forall|px: int, py: int| #[trigger]
        dark(m, w, h, px, py) <==> on_line(x, y, dx, dy, n, px, py)
}

/// `(px, py)` is one of the `n` pixels of a line.
pub open spec fn on_line(x: int, y: int, dx: int, dy: int, n: int, px: int, py: int) -> bool {
    if dy == 0 {
        py == y && x <= px < x + n
    } else {
        y <= py < y + n && px == x + dx * (py - y)
    }
}

/// A straight line one pixel wide stays as it is, whatever its direction.
pub proof fn law_a_straight_line_stays(
    m: Seq<bool>,
    w: int,
    h: int,
    x: int,
    y: int,
    dx: int,
    dy: int,
    n: int,
)
    requires
        sized(m, w, h),
        straight(m, w, h, x, y, dx, dy, n),
    ensures
        thin::thinned(m, w, h) == m,
{
    assert forall|px: int, py: int| #[trigger] dark(m, w, h, px, py) implies !inner(w, h, px, py)
        || company(m, w, h, px, py) <= 1 || parted(m, w, h, px, py) by {
        let f = |qx: int, qy: int| dark(m, w, h, qx, qy);
        assert(f(px - 1, py - 1) <==> on_line(x, y, dx, dy, n, px - 1, py - 1));
        assert(f(px, py - 1) <==> on_line(x, y, dx, dy, n, px, py - 1));
        assert(f(px + 1, py - 1) <==> on_line(x, y, dx, dy, n, px + 1, py - 1));
        assert(f(px - 1, py) <==> on_line(x, y, dx, dy, n, px - 1, py));
        assert(f(px + 1, py) <==> on_line(x, y, dx, dy, n, px + 1, py));
        assert(f(px - 1, py + 1) <==> on_line(x, y, dx, dy, n, px - 1, py + 1));
        assert(f(px, py + 1) <==> on_line(x, y, dx, dy, n, px, py + 1));
        assert(f(px + 1, py + 1) <==> on_line(x, y, dx, dy, n, px + 1, py + 1));
        if company(m, w, h, px, py) > 1 {
            if dy == 0 {
                assert(takes_turns(m, w, h, px, py, 1, 2, 3, 6));
            } else if dx == 0 {
                assert(takes_turns(m, w, h, px, py, 0, 1, 4, 5));
            } else if dx == 1 {
                assert(takes_turns(m, w, h, px, py, 2, 3, 4, 7));
            } else {
                assert(takes_turns(m, w, h, px, py, 0, 1, 2, 5));
            }
        }
    }
    law_lines_stay(m, w, h);
}

/// Thinning goes on until nothing is left to wear off: no inked pixel of the
/// result has two to six inked neighbours in a single run, with paper on a side
/// from which it is worn. One round more before makes no difference.
pub proof fn law_nothing_is_left_to_wear_off(m: Seq<bool>, w: int, h: int, x: int, y: int)
    requires
        sized(m, w, h),
        0 <= x < w,
        0 <= y < h,
    ensures
        ({
            let t = thin::thinned(m, w, h);
            dark(t, w, h, x, y) && inner(w, h, x, y) && 2 <= company(t, w, h, x, y) <= 6 ==> parted(
                t,
                w,
                h,
                x,
                y,
            ) || !(exposed(t, w, h, x, y, false) || exposed(t, w, h, x, y, true))
        }),
        thin::thinned(thin::phase(thin::phase(m, w, h, false), w, h, true), w, h) == thin::thinned(
            m,
            w,
            h,
        ),
{
    let t = thin::thinned(m, w, h);
    thin::law_thinning_only_wears(m, w, h);
    let f = thin::phase(t, w, h, false);
    assert(f =~= t) by {
        assert forall|i: int| 0 <= i < t.len() implies f[i] == t[i] by {
            assert(thin::round(t, w, h)[i] == t[i]);
        }
    }
    law_what_a_phase_wears_off(t, w, h, x, y, false);
    law_what_a_phase_wears_off(t, w, h, x, y, true);
}

} // verus!
