//! Zhang-Suen thinning: a mask of ink is worn down to lines one pixel wide.

use vstd::prelude::*;

verus! {

/// One line of writing.
pub struct Line {
    pub width: usize,
    pub height: usize,
    /// Bit mask of inked pixels, row-major.
    pub mask: Vec<bool>,
}

impl Line {
    /// The mask holds every pixel.
    pub open spec fn wf(&self) -> bool {
        self.width * self.height <= self.mask@.len()
    }
}

/// Pixel `i` of a mask of `w` by `h` pixels has neighbours on all sides.
pub open spec fn interior(w: int, h: int, i: int) -> bool {
    &&& 0 <= i < w * h
    &&& 1 <= i % w < w - 1
    &&& 1 <= i / w < h - 1
}

/// The neighbours of pixel `i`, clockwise from the one above it.
pub open spec fn ring(m: Seq<bool>, w: int, i: int) -> Seq<bool> {
    seq![
        m[i - w],
        m[i - w + 1],
        m[i + 1],
        m[i + w + 1],
        m[i + w],
        m[i + w - 1],
        m[i - 1],
        m[i - w - 1],
    ]
}

/// How many of the first `n` hold.
pub open spec fn count(p: Seq<bool>, n: int) -> int
    decreases n,
{
    if n <= 0 {
        0
    } else {
        count(p, n - 1) + (if p[n - 1] {
            1int
        } else {
            0
        })
    }
}

/// How many of the first `n` are blank and followed by ink, going round.
pub open spec fn turns(p: Seq<bool>, n: int) -> int
    decreases n,
{
    if n <= 0 {
        0
    } else {
        turns(p, n - 1) + (if !p[n - 1] && p[n % 8] {
            1int
        } else {
            0
        })
    }
}

/// The side from which a phase wears the ink down, given the ring: the first
/// phase takes south-east edges and north-west corners, the second one the
/// opposite ones.
pub open spec fn on_side(p: Seq<bool>, second: bool) -> bool {
    if second {
        !(p[0] && p[2] && p[6]) && !(p[0] && p[4] && p[6])
    } else {
        !(p[0] && p[2] && p[4]) && !(p[2] && p[4] && p[6])
    }
}

/// Pixel `i` is worn off in a phase: it is on the edge of the ink, and the ink
/// around it holds together without it.
pub open spec fn worn(m: Seq<bool>, w: int, h: int, second: bool, i: int) -> bool {
    &&& interior(w, h, i)
    &&& m[i]
    &&& 2 <= count(ring(m, w, i), 8) <= 6
    &&& turns(ring(m, w, i), 8) == 1
    &&& on_side(ring(m, w, i), second)
}

/// The mask after a phase, in which all pixels are worn off at once.
pub open spec fn phase(m: Seq<bool>, w: int, h: int, second: bool) -> Seq<bool> {
    Seq::new(m.len(), |i: int| m[i] && !worn(m, w, h, second, i))
}

/// The mask after both phases.
pub open spec fn round(m: Seq<bool>, w: int, h: int) -> Seq<bool> {
    phase(phase(m, w, h, false), w, h, true)
}

/// The mask when nothing more is worn off.
pub open spec fn thinned(m: Seq<bool>, w: int, h: int) -> Seq<bool>
    decreases count(m, m.len() as int),
{
    if round(m, w, h) == m {
        m
    } else {
        proof {
            lemma_round_wears(m, w, h);
        }
        thinned(round(m, w, h), w, h)
    }
}

proof fn lemma_count_less(a: Seq<bool>, b: Seq<bool>, n: int)
    requires
        n <= a.len(),
        n <= b.len(),
        forall|i: int| 0 <= i < n && #[trigger] a[i] ==> b[i],
    ensures
        count(a, n) <= count(b, n),
        0 <= count(a, n),
        (exists|i: int| 0 <= i < n && !a[i] && b[i]) ==> count(a, n) < count(b, n),
    decreases n,
{
    if n > 0 {
        lemma_count_less(a, b, n - 1);
        if exists|i: int| 0 <= i < n && !a[i] && b[i] {
            let i = choose|i: int| 0 <= i < n && !a[i] && b[i];
            if i == n - 1 {
                assert(!a[n - 1] && b[n - 1]);
            } else {
                assert(0 <= i < n - 1 && !a[i] && b[i]);
            }
        }
    }
}

/// A round takes ink away, if it changes anything.
pub proof fn lemma_round_wears(m: Seq<bool>, w: int, h: int)
    ensures
        round(m, w, h).len() == m.len(),
        forall|i: int| 0 <= i < m.len() && #[trigger] round(m, w, h)[i] ==> m[i],
        0 <= count(round(m, w, h), m.len() as int),
        round(m, w, h) != m ==> count(round(m, w, h), m.len() as int) < count(m, m.len() as int),
{
    let r = round(m, w, h);
    assert forall|i: int| 0 <= i < m.len() && #[trigger] r[i] implies m[i] by {
        assert(phase(m, w, h, false)[i]);
    }
    lemma_count_less(r, m, m.len() as int);
    if r != m {
        assert(!(r =~= m));
        let i = choose|i: int| 0 <= i < m.len() && r[i] != m[i];
        assert(!r[i] && m[i]);
    }
}

/// What stands around an interior pixel lies in the mask.
proof fn lemma_interior(w: int, h: int, i: int)
    requires
        0 < w,
        interior(w, h, i),
    ensures
        w + 1 <= i,
        i + w + 1 < w * h,
{
    let y = i / w;
    vstd::arithmetic::div_mod::lemma_fundamental_div_mod(i, w);
    assert(w * 1 <= w * y) by (nonlinear_arith)
        requires
            1 <= y,
            0 < w,
    ;
    assert(w * y <= w * (h - 2)) by (nonlinear_arith)
        requires
            y <= h - 2,
            0 < w,
    ;
    assert(w * (h - 2) == w * h - 2 * w) by (nonlinear_arith);
}

proof fn lemma_eight(p: Seq<bool>)
    requires
        p.len() == 8,
    ensures
        count(p, 8) == p[0] as int + p[1] as int + p[2] as int + p[3] as int + p[4] as int
            + p[5] as int + p[6] as int + p[7] as int,
{
    reveal_with_fuel(count, 9);
}

/// Whether a pixel with this ring is worn off.
fn wears_off(p: &[bool; 8], second: bool) -> (r: bool)
    ensures
        r == (2 <= count(p@, 8) <= 6 && turns(p@, 8) == 1 && on_side(p@, second)),
{
    let mut b: u32 = 0;
    let mut a: u32 = 0;
    let mut i: usize = 0;
    while i < 8
        invariant
            i <= 8,
            b <= i,
            a <= i,
            b == count(p@, i as int),
            a == turns(p@, i as int),
        decreases 8 - i,
    {
        if p[i] {
            b += 1;
        }
        if !p[i] && p[(i + 1) % 8] {
            a += 1;
        }
        i += 1;
    }
    if b < 2 || b > 6 || a != 1 {
        return false;
    }
    if second {
        !(p[0] && p[2] && p[6]) && !(p[0] && p[4] && p[6])
    } else {
        !(p[0] && p[2] && p[4]) && !(p[2] && p[4] && p[6])
    }
}

/// One phase of thinning; says whether anything was worn off.
fn thin_phase(mask: &mut Vec<bool>, w: usize, h: usize, second: bool) -> (changed: bool)
    requires
        w * h <= old(mask)@.len(),
        0 < w,
    ensures
        final(mask)@ == phase(old(mask)@, w as int, h as int, second),
        changed == (final(mask)@ != old(mask)@),
{
    let ghost m = mask@;
    let mut next: Vec<bool> = vstd::slice::slice_to_vec(mask.as_slice());
    let mut changed = false;
    let n: usize = mask.len();
    let pixels: usize = w * h;
    let mut i: usize = 0;
    while i < pixels
        invariant
            0 < w,
            pixels == w * h,
            pixels <= n,
            n == m.len(),
            i <= pixels,
            mask@ == m,
            next@.len() == n,
            forall|j: int|
                0 <= j < n ==> #[trigger] next@[j] == (m[j] && !(j < i && worn(
                    m,
                    w as int,
                    h as int,
                    second,
                    j,
                ))),
            changed == exists|j: int|
                0 <= j < i && #[trigger] worn(m, w as int, h as int, second, j),
        decreases pixels - i,
    {
        let x: usize = i % w;
        let y: usize = i / w;
        if mask[i] && 1 <= x && x + 1 < w && 1 <= y && y + 1 < h {
            proof {
                lemma_interior(w as int, h as int, i as int);
            }
            let p: [bool; 8] = [
                mask[i - w],  // N
                mask[i - w + 1],  // NE
                mask[i + 1],  // E
                mask[i + w + 1],  // SE
                mask[i + w],  // S
                mask[i + w - 1],  // SW
                mask[i - 1],  // W
                mask[i - w - 1],  // NW
            ];
            assert(p@ =~= ring(m, w as int, i as int));
            if wears_off(&p, second) {
                assert(worn(m, w as int, h as int, second, i as int));
                next.set(i, false);
                changed = true;
            }
        }
        i += 1;
    }
    proof {
        assert(next@ =~= phase(m, w as int, h as int, second));
        if changed {
            let j = choose|j: int|
                0 <= j < i && #[trigger] worn(m, w as int, h as int, second, j);
            assert(next@[j] != m[j]);
        } else {
            assert(next@ =~= m);
        }
    }
    *mask = next;
    changed
}

/// Zhang-Suen thinning: reduce the mask to 1px-wide skeleton lines.
pub fn thin(line: &mut Line)
    requires
        old(line).width >= 3 && old(line).height >= 3 ==> old(line).wf(),
    ensures
        final(line).width == old(line).width,
        final(line).height == old(line).height,
        final(line).mask@.len() == old(line).mask@.len(),
        final(line).mask@ == thinned(
            old(line).mask@,
            old(line).width as int,
            old(line).height as int,
        ),
{
    let w: usize = line.width;
    let h: usize = line.height;
    let ghost m0 = line.mask@;
    if w < 3 || h < 3 {
        proof {
            assert(round(m0, w as int, h as int) =~= m0);
        }
        return;
    }
    loop
        invariant
            3 <= w,
            line.width == w,
            line.height == h,
            old(line).width == w,
            old(line).height == h,
            old(line).mask@ == m0,
            w * h <= line.mask@.len(),
            line.mask@.len() == m0.len(),
            thinned(line.mask@, w as int, h as int) == thinned(m0, w as int, h as int),
        decreases count(line.mask@, line.mask@.len() as int),
    {
        let ghost before = line.mask@;
        proof {
            lemma_round_wears(before, w as int, h as int);
        }
        let first = thin_phase(&mut line.mask, w, h, false);
        let ghost middle = line.mask@;
        let second = thin_phase(&mut line.mask, w, h, true);
        proof {
            if first {
                assert(!(middle =~= before));
                let j = choose|j: int| 0 <= j < before.len() && middle[j] != before[j];
                assert(before[j] && !middle[j]);
                assert(!round(before, w as int, h as int)[j]);
            }
        }
        if !first && !second {
            return;
        }
    }
}

/// No ink appears, the edge of the mask stays as it is, and thinning a thinned
/// mask again changes nothing.
pub proof fn law_thinning_only_wears(m: Seq<bool>, w: int, h: int)
    ensures
        ({
            let t = thinned(m, w, h);
            &&& t.len() == m.len()
            &&& forall|i: int| 0 <= i < m.len() && #[trigger] t[i] ==> m[i]
            &&& forall|i: int|
                0 <= i < m.len() && !interior(w, h, i) ==> #[trigger] t[i] == m[i]
            &&& round(t, w, h) == t
            &&& thinned(t, w, h) == t
        }),
    decreases count(m, m.len() as int),
{
    let r = round(m, w, h);
    lemma_round_wears(m, w, h);
    if r != m {
        law_thinning_only_wears(r, w, h);
        let t = thinned(m, w, h);
        assert forall|i: int| 0 <= i < m.len() && #[trigger] t[i] implies m[i] by {
            assert(r[i]);
        }
        assert forall|i: int| 0 <= i < m.len() && !interior(w, h, i) implies #[trigger] t[i]
            == m[i] by {
            assert(t[i] == r[i]);
            assert(phase(m, w, h, false)[i] == m[i]);
        }
    }
}

/// A dot that stands alone is kept.
pub proof fn law_dots_stay(m: Seq<bool>, w: int, h: int, i: int)
    requires
        0 < w,
        0 < h,
        w * h <= m.len(),
        interior(w, h, i),
        m[i],
        count(ring(m, w, i), 8) == 0,
    ensures
        thinned(m, w, h)[i],
    decreases count(m, m.len() as int),
{
    let r = round(m, w, h);
    lemma_round_wears(m, w, h);
    if r != m {
        lemma_interior(w, h, i);
        let f = phase(m, w, h, false);
        lemma_eight(ring(m, w, i));
        lemma_eight(ring(f, w, i));
        lemma_eight(ring(r, w, i));
        assert(f[i]);
        assert(count(ring(f, w, i), 8) == 0);
        assert(r[i]);
        assert(count(ring(r, w, i), 8) == 0);
        law_dots_stay(r, w, h, i);
    }
}

} // verus!
