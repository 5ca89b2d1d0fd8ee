//! Tracing: thin lines of ink become strokes of a pen.

use vstd::prelude::*;

use crate::raster;
use crate::thin;
use crate::thin::Line;

verus! {

/// A place in a mask of `w` pixels a row.
pub open spec fn index(w: int, p: (int, int)) -> int {
    p.1 * w + p.0
}

/// The pixel at a place.
pub open spec fn pixel(w: int, i: int) -> (int, int) {
    (i % w, i / w)
}

/// There is ink at `p`.
pub open spec fn lit(m: Seq<bool>, w: int, h: int, p: (int, int)) -> bool {
    0 <= p.0 < w && 0 <= p.1 < h && m[index(w, p)]
}

/// The eight places around `p`, in reading order.
pub open spec fn around(p: (int, int), k: int) -> (int, int) {
    let j = if k < 4 {
        k
    } else {
        k + 1
    };
    (p.0 + j % 3 - 1, p.1 + j / 3 - 1)
}

/// How many of the first `k` places around `p` have ink.
pub open spec fn degree(m: Seq<bool>, w: int, h: int, p: (int, int), k: int) -> int
    decreases k,
{
    if k <= 0 {
        0
    } else {
        degree(m, w, h, p, k - 1) + (if lit(m, w, h, around(p, k - 1)) {
            1int
        } else {
            0
        })
    }
}

/// There is ink at `p` that no walk has seen.
pub open spec fn unseen(m: Seq<bool>, w: int, h: int, seen: Seq<bool>, p: (int, int)) -> bool {
    lit(m, w, h, p) && 0 <= index(w, p) < seen.len() && !seen[index(w, p)]
}

/// Where a walk goes on from `p`: the first place around it, from number `k`
/// on, with ink that no walk has seen.
pub open spec fn onward(
    m: Seq<bool>,
    w: int,
    h: int,
    seen: Seq<bool>,
    p: (int, int),
    k: int,
) -> Option<(int, int)>
    decreases 8 - k,
{
    if k >= 8 {
        None
    } else if unseen(m, w, h, seen, around(p, k)) {
        Some(around(p, k))
    } else {
        onward(m, w, h, seen, p, k + 1)
    }
}

/// A walk that has come as far as the end of `path`, and what has been seen
/// when it is over.
pub open spec fn walk(
    m: Seq<bool>,
    w: int,
    h: int,
    seen: Seq<bool>,
    path: Seq<(int, int)>,
) -> (Seq<(int, int)>, Seq<bool>)
    decreases seen.len() - thin::count(seen, seen.len() as int),
{
    match onward(m, w, h, seen, path.last(), 0) {
        Some(q) => {
            proof {
                lemma_onward(m, w, h, seen, path.last(), 0);
                lemma_count_seen(seen, index(w, q), seen.len() as int);
            }
            walk(m, w, h, seen.update(index(w, q), true), path.push(q))
        },
        None => (path, seen),
    }
}

/// The inked pixels among the first `n`, in reading order.
pub open spec fn inked(m: Seq<bool>, w: int, n: int) -> Seq<(int, int)>
    decreases n,
{
    if n <= 0 {
        seq![]
    } else if m[n - 1] {
        inked(m, w, n - 1).push(pixel(w, n - 1))
    } else {
        inked(m, w, n - 1)
    }
}

/// The tips of lines among the first `n` pixels: those with one neighbour.
pub open spec fn tips(m: Seq<bool>, w: int, h: int, n: int) -> Seq<(int, int)>
    decreases n,
{
    if n <= 0 {
        seq![]
    } else if m[n - 1] && degree(m, w, h, pixel(w, n - 1), 8) == 1 {
        tips(m, w, h, n - 1).push(pixel(w, n - 1))
    } else {
        tips(m, w, h, n - 1)
    }
}

/// Where walks may start: first at the tips of lines, then anywhere (loops have
/// no tips).
pub open spec fn starts(m: Seq<bool>, w: int, h: int) -> Seq<(int, int)> {
    tips(m, w, h, w * h) + inked(m, w, w * h)
}

/// The walks from some starts, one after another, and what they have seen. A
/// start that has been seen is passed over.
pub open spec fn walks(m: Seq<bool>, w: int, h: int, from: Seq<(int, int)>) -> (
    Seq<Seq<(int, int)>>,
    Seq<bool>,
)
    decreases from.len(),
{
    if from.len() == 0 {
        (seq![], Seq::new((w * h) as nat, |i: int| false))
    } else {
        let (done, seen) = walks(m, w, h, from.drop_last());
        let s = from.last();
        if seen[index(w, s)] {
            (done, seen)
        } else {
            let (path, now_seen) = walk(m, w, h, seen.update(index(w, s), true), seq![s]);
            (done.push(path), now_seen)
        }
    }
}

/// The walks that make a stroke: those of three points or more.
pub open spec fn long_enough(paths: Seq<Seq<(int, int)>>) -> Seq<Seq<(int, int)>>
    decreases paths.len(),
{
    if paths.len() == 0 {
        seq![]
    } else if paths.last().len() >= 3 {
        long_enough(paths.drop_last()).push(paths.last())
    } else {
        long_enough(paths.drop_last())
    }
}

/// How far left a stroke comes.
pub open spec fn left_edge(path: Seq<(int, int)>) -> int
    decreases path.len(),
{
    if path.len() == 0 {
        0
    } else if path.len() == 1 || path.last().0 <= left_edge(path.drop_last()) {
        path.last().0
    } else {
        left_edge(path.drop_last())
    }
}

/// `list` with `path` put behind the last stroke that does not come further
/// right.
pub open spec fn put_in(list: Seq<Seq<(int, int)>>, path: Seq<(int, int)>) -> Seq<Seq<(int, int)>>
    decreases list.len(),
{
    if list.len() > 0 && left_edge(list.last()) > left_edge(path) {
        put_in(list.drop_last(), path).push(list.last())
    } else {
        list.push(path)
    }
}

/// Strokes from left to right; those that come equally far left stay in order.
pub open spec fn left_to_right(paths: Seq<Seq<(int, int)>>) -> Seq<Seq<(int, int)>>
    decreases paths.len(),
{
    if paths.len() == 0 {
        seq![]
    } else {
        put_in(left_to_right(paths.drop_last()), paths.last())
    }
}

/// The strokes of a mask.
pub open spec fn traced(m: Seq<bool>, w: int, h: int) -> Seq<Seq<(int, int)>> {
    left_to_right(long_enough(walks(m, w, h, starts(m, w, h)).0))
}

/// A point.
pub open spec fn point(p: (i32, i32)) -> (int, int) {
    (p.0 as int, p.1 as int)
}

/// The points of a path.
pub open spec fn points(path: Seq<(i32, i32)>) -> Seq<(int, int)> {
    path.map_values(|p: (i32, i32)| point(p))
}

/// The points of some paths.
pub open spec fn paths(list: Seq<Vec<(i32, i32)>>) -> Seq<Seq<(int, int)>> {
    list.map_values(|path: Vec<(i32, i32)>| points(path@))
}

/// What lies onward has not been seen.
pub proof fn lemma_onward(
    m: Seq<bool>,
    w: int,
    h: int,
    seen: Seq<bool>,
    p: (int, int),
    k: int,
)
    requires
        0 <= k,
    ensures
        onward(m, w, h, seen, p, k) matches Some(q) ==> unseen(m, w, h, seen, q) && exists|j: int|
            0 <= j < 8 && q == #[trigger] around(p, j),
    decreases 8 - k,
{
    if k < 8 && !unseen(m, w, h, seen, around(p, k)) {
        lemma_onward(m, w, h, seen, p, k + 1);
    }
}

/// Seeing a place for the first time adds one to what has been seen, which is
/// never more than there is.
pub proof fn lemma_count_seen(seen: Seq<bool>, i: int, n: int)
    requires
        n <= seen.len(),
        0 <= i < seen.len(),
        !seen[i],
    ensures
        thin::count(seen.update(i, true), n) == thin::count(seen, n) + (if i < n {
            1int
        } else {
            0
        }),
        thin::count(seen.update(i, true), n) <= if n < 0 {
            0
        } else {
            n
        },
    decreases n,
{
    if n > 0 {
        lemma_count_seen(seen, i, n - 1);
    }
}

/// Places inside the mask have numbers inside it.
pub proof fn lemma_index(w: int, h: int, p: (int, int))
    requires
        0 <= p.0 < w,
        0 <= p.1 < h,
    ensures
        0 <= index(w, p) < w * h,
        pixel(w, index(w, p)) == p,
{
    raster::lemma_pixel_index(p.0, p.1, w);
    raster::lemma_pixel_bound(p.0, p.1, w, h);
}

/// Numbers inside the mask have places inside it.
pub proof fn lemma_pixel(w: int, h: int, i: int)
    requires
        0 < w,
        0 <= i < w * h,
    ensures
        0 <= pixel(w, i).0 < w,
        0 <= pixel(w, i).1 < h,
        index(w, pixel(w, i)) == i,
{
    raster::lemma_index_pixel(i, w, h);
}

/// A line that can be traced: the mask holds every pixel, and coordinates are
/// numbers of 32 bits.
pub open spec fn traceable(line: Line) -> bool {
    line.wf() && line.width <= i32::MAX && line.height <= i32::MAX
}

/// The number of a place in the mask.
fn place(line: &Line, x: i32, y: i32) -> (i: usize)
    requires
        traceable(*line),
        0 <= x < line.width,
        0 <= y < line.height,
    ensures
        i == index(line.width as int, (x as int, y as int)),
        i < line.width * line.height,
{
    let _n: usize = line.mask.len();
    proof {
        lemma_index(line.width as int, line.height as int, (x as int, y as int));
        assert(0 <= y * line.width) by (nonlinear_arith)
            requires
                0 <= y,
                0 <= line.width,
        ;
    }
    y as usize * line.width + x as usize
}

/// Whether there is ink at a place.
fn is_lit(line: &Line, x: i32, y: i32) -> (r: bool)
    requires
        traceable(*line),
    ensures
        r == lit(line.mask@, line.width as int, line.height as int, (x as int, y as int)),
{
    if x >= 0 && y >= 0 && (x as usize) < line.width && (y as usize) < line.height {
        line.mask[place(line, x, y)]
    } else {
        false
    }
}

/// A place around another.
fn place_around(x: i32, y: i32, k: usize) -> (q: (i32, i32))
    requires
        k < 8,
        0 <= x < i32::MAX,
        0 <= y < i32::MAX,
    ensures
        point(q) == around((x as int, y as int), k as int),
{
    let j: usize = if k < 4 { k } else { k + 1 };
    (x - 1 + (j % 3) as i32, y - 1 + (j / 3) as i32)
}

/// How many places around a place have ink.
fn count_around(line: &Line, x: i32, y: i32) -> (n: usize)
    requires
        traceable(*line),
        0 <= x < line.width,
        0 <= y < line.height,
    ensures
        n == degree(
            line.mask@,
            line.width as int,
            line.height as int,
            (x as int, y as int),
            8,
        ),
{
    let mut n: usize = 0;
    let mut k: usize = 0;
    while k < 8
        invariant
            traceable(*line),
            0 <= x < line.width,
            0 <= y < line.height,
            k <= 8,
            n <= k,
            n == degree(
                line.mask@,
                line.width as int,
                line.height as int,
                (x as int, y as int),
                k as int,
            ),
        decreases 8 - k,
    {
        let q = place_around(x, y, k);
        if is_lit(line, q.0, q.1) {
            n += 1;
        }
        k += 1;
    }
    n
}

/// Where a walk goes on from a place.
fn find_onward(line: &Line, seen: &Vec<bool>, x: i32, y: i32) -> (r: Option<(i32, i32)>)
    requires
        traceable(*line),
        seen@.len() == line.width * line.height,
        0 <= x < line.width,
        0 <= y < line.height,
    ensures
        (match r {
            Some(q) => onward(
                line.mask@,
                line.width as int,
                line.height as int,
                seen@,
                (x as int, y as int),
                0,
            ) == Some(point(q)) && unseen(
                line.mask@,
                line.width as int,
                line.height as int,
                seen@,
                point(q),
            ),
            None => onward(
                line.mask@,
                line.width as int,
                line.height as int,
                seen@,
                (x as int, y as int),
                0,
            ) is None,
        }),
{
    let ghost m = line.mask@;
    let ghost w = line.width as int;
    let ghost h = line.height as int;
    let ghost p = (x as int, y as int);
    let mut k: usize = 0;
    while k < 8
        invariant
            traceable(*line),
            m == line.mask@,
            w == line.width,
            h == line.height,
            p == (x as int, y as int),
            seen@.len() == w * h,
            0 <= x < line.width,
            0 <= y < line.height,
            k <= 8,
            onward(m, w, h, seen@, p, 0) == onward(m, w, h, seen@, p, k as int),
        decreases 8 - k,
    {
        let q = place_around(x, y, k);
        if is_lit(line, q.0, q.1) {
            if !seen[place(line, q.0, q.1)] {
                return Some(q);
            }
        }
        k += 1;
    }
    None
}

/// Where walks may start.
fn find_starts(line: &Line) -> (out: Vec<(i32, i32)>)
    requires
        traceable(*line),
    ensures
        points(out@) == starts(line.mask@, line.width as int, line.height as int),
{
    let mut out: Vec<(i32, i32)> = Vec::new();
    let ghost m = line.mask@;
    let ghost w = line.width as int;
    let ghost h = line.height as int;
    if line.width == 0 || line.height == 0 {
        assert(w * h == 0) by (nonlinear_arith)
            requires
                w == 0 || h == 0,
        ;
        assert(points(out@) =~= starts(m, w, h));
        return out;
    }
    let _n: usize = line.mask.len();
    let total: usize = line.width * line.height;
    let mut i: usize = 0;
    assert(points(out@) =~= tips(m, w, h, 0));
    while i < total
        invariant
            traceable(*line),
            m == line.mask@,
            w == line.width,
            h == line.height,
            0 < w,
            total == w * h,
            i <= total,
            points(out@) == tips(m, w, h, i as int),
        decreases total - i,
    {
        let ghost before = out@;
        proof {
            lemma_pixel(w, h, i as int);
        }
        let x: i32 = (i % line.width) as i32;
        let y: i32 = (i / line.width) as i32;
        if line.mask[i] && count_around(line, x, y) == 1 {
            out.push((x, y));
            assert(points(out@) =~= points(before).push(pixel(w, i as int)));
        }
        i += 1;
    }
    let ghost first = points(out@);
    i = 0;
    assert(first + inked(m, w, 0) =~= first);
    while i < total
        invariant
            traceable(*line),
            m == line.mask@,
            w == line.width,
            h == line.height,
            0 < w,
            total == w * h,
            i <= total,
            points(out@) == first + inked(m, w, i as int),
        decreases total - i,
    {
        let ghost before = out@;
        proof {
            lemma_pixel(w, h, i as int);
        }
        if line.mask[i] {
            let x: i32 = (i % line.width) as i32;
            let y: i32 = (i / line.width) as i32;
            out.push((x, y));
            assert(points(out@) =~= points(before).push(pixel(w, i as int)));
            assert(points(out@) =~= first + inked(m, w, i + 1));
        }
        i += 1;
    }
    out
}

/// Walks on from a start that has just been seen, as far as there is ink.
fn follow(line: &Line, seen: &mut Vec<bool>, start: (i32, i32)) -> (path: Vec<(i32, i32)>)
    requires
        traceable(*line),
        old(seen)@.len() == line.width * line.height,
        0 <= start.0 < line.width,
        0 <= start.1 < line.height,
    ensures
        final(seen)@.len() == old(seen)@.len(),
        (points(path@), final(seen)@) == walk(
            line.mask@,
            line.width as int,
            line.height as int,
            old(seen)@,
            seq![point(start)],
        ),
{
    let ghost m = line.mask@;
    let ghost w = line.width as int;
    let ghost h = line.height as int;
    let ghost all = walk(m, w, h, seen@, seq![point(start)]);
    let mut path: Vec<(i32, i32)> = Vec::new();
    path.push(start);
    assert(points(path@) =~= seq![point(start)]);
    let mut here: (i32, i32) = start;
    loop
        invariant
            traceable(*line),
            m == line.mask@,
            w == line.width,
            h == line.height,
            seen@.len() == w * h,
            seen@.len() == old(seen)@.len(),
            0 <= here.0 < w,
            0 <= here.1 < h,
            path@.len() > 0,
            here == path@.last(),
            walk(m, w, h, seen@, points(path@)) == all,
            all == walk(m, w, h, old(seen)@, seq![point(start)]),
        decreases seen@.len() - thin::count(seen@, seen@.len() as int),
    {
        let ghost before = path@;
        assert(points(path@).last() == point(here));
        match find_onward(line, seen, here.0, here.1) {
            Some(q) => {
                proof {
                    lemma_index(w, h, point(q));
                    lemma_count_seen(seen@, index(w, point(q)), seen@.len() as int);
                }
                seen.set(place(line, q.0, q.1), true);
                path.push(q);
                here = q;
                assert(points(path@) =~= points(before).push(point(q)));
            },
            None => {
                return path;
            },
        }
    }
}

/// How far left a stroke comes.
fn leftmost(path: &Vec<(i32, i32)>) -> (x: i32)
    ensures
        x == left_edge(points(path@)),
{
    if path.len() == 0 {
        return 0;
    }
    let ghost all = points(path@);
    let mut x: i32 = path[0].0;
    let mut i: usize = 1;
    assert(all.take(1).drop_last().len() == 0);
    while i < path.len()
        invariant
            1 <= i <= path@.len(),
            all == points(path@),
            x == left_edge(all.take(i as int)),
        decreases path@.len() - i,
    {
        assert(all.take(i + 1).drop_last() =~= all.take(i as int));
        if path[i].0 <= x {
            x = path[i].0;
        }
        i += 1;
    }
    assert(all.take(i as int) =~= all);
    x
}

/// Puts a stroke in its place among strokes that go from left to right.
fn put_stroke(list: &mut Vec<Vec<(i32, i32)>>, path: Vec<(i32, i32)>)
    ensures
        paths(final(list)@) == put_in(paths(old(list)@), points(path@)),
{
    let ghost all = paths(list@);
    let ghost p = points(path@);
    let x: i32 = leftmost(&path);
    let mut at: usize = list.len();
    assert(all.take(at as int) =~= all);
    assert(put_in(all.take(at as int), p) + all.skip(at as int) =~= put_in(all, p));
    while at > 0 && leftmost(&list[at - 1]) > x
        invariant
            at <= list@.len(),
            all == paths(list@),
            all == paths(old(list)@),
            x == left_edge(p),
            put_in(all.take(at as int), p) + all.skip(at as int) == put_in(all, p),
        decreases at,
    {
        proof {
            let head = all.take(at as int);
            assert(head.last() == points(list@[at - 1]@));
            assert(head.drop_last() =~= all.take(at - 1));
            assert(put_in(head, p) == put_in(all.take(at - 1), p).push(head.last()));
            assert(put_in(all.take(at - 1), p) + all.skip(at - 1) =~= put_in(head, p) + all.skip(
                at as int,
            ));
        }
        at -= 1;
    }
    proof {
        let head = all.take(at as int);
        if at > 0 {
            assert(head.last() == points(list@[at - 1]@));
        }
        assert(put_in(head, p) == head.push(p));
    }
    list.insert(at, path);
    assert(paths(list@) =~= all.take(at as int).push(p) + all.skip(at as int));
}

/// Trace the skeleton into polyline strokes, ordered left-to-right so the
/// animation writes like a hand.
pub fn trace(line: &Line) -> (strokes: Vec<Vec<(i32, i32)>>)
    requires
        traceable(*line),
    ensures
        paths(strokes@) == traced(line.mask@, line.width as int, line.height as int),
{
    let ghost m = line.mask@;
    let ghost w = line.width as int;
    let ghost h = line.height as int;
    let _n: usize = line.mask.len();
    let total: usize = line.width * line.height;
    let mut seen: Vec<bool> = Vec::new();
    while seen.len() < total
        invariant
            seen@.len() <= total,
            forall|i: int| 0 <= i < seen@.len() ==> !seen@[i],
        decreases total - seen@.len(),
    {
        seen.push(false);
    }
    let from = find_starts(line);
    let ghost all = starts(m, w, h);
    let mut strokes: Vec<Vec<(i32, i32)>> = Vec::new();
    let mut i: usize = 0;
    proof {
        assert(seen@ =~= walks(m, w, h, all.take(0)).1);
        assert(paths(strokes@) =~= seq![]);
        lemma_starts_lit(m, w, h);
    }
    while i < from.len()
        invariant
            traceable(*line),
            m == line.mask@,
            w == line.width,
            h == line.height,
            all == starts(m, w, h),
            points(from@) == all,
            forall|j: int| 0 <= j < all.len() ==> lit(m, w, h, #[trigger] all[j]),
            i <= from@.len(),
            seen@.len() == w * h,
            seen@ == walks(m, w, h, all.take(i as int)).1,
            paths(strokes@) == left_to_right(
                long_enough(walks(m, w, h, all.take(i as int)).0),
            ),
        decreases from@.len() - i,
    {
        let s = from[i];
        proof {
            assert(points(from@)[i as int] == point(s));
            assert(all[i as int] == point(s));
            lemma_index(w, h, point(s));
            assert(all.take(i + 1).drop_last() =~= all.take(i as int));
            assert(all.take(i + 1).last() == point(s));
        }
        let at: usize = place(line, s.0, s.1);
        if !seen[at] {
            seen.set(at, true);
            let path = follow(line, &mut seen, s);
            proof {
                let done = walks(m, w, h, all.take(i as int)).0;
                let now = walks(m, w, h, all.take(i + 1)).0;
                assert(now == done.push(points(path@)));
                assert(now.drop_last() =~= done);
                let kept = long_enough(done).push(points(path@));
                assert(kept.drop_last() =~= long_enough(done));
            }
            if path.len() >= 3 {
                put_stroke(&mut strokes, path);
            }
        }
        i += 1;
    }
    assert(all.take(i as int) =~= all);
    strokes
}

/// Walks start where there is ink.
pub proof fn lemma_starts_lit(m: Seq<bool>, w: int, h: int)
    requires
        0 <= w,
        0 <= h,
    ensures
        forall|j: int|
            0 <= j < starts(m, w, h).len() ==> lit(m, w, h, #[trigger] starts(m, w, h)[j]),
{
    if w * h > 0 {
        assert(0 < w) by (nonlinear_arith)
            requires
                w * h > 0,
                0 <= w,
        ;
        lemma_inked_lit(m, w, h, w * h);
        lemma_tips_lit(m, w, h, w * h);
    }
}

proof fn lemma_inked_lit(m: Seq<bool>, w: int, h: int, n: int)
    requires
        0 < w,
        n <= w * h,
    ensures
        forall|j: int|
            0 <= j < inked(m, w, n).len() ==> lit(m, w, h, #[trigger] inked(m, w, n)[j]),
    decreases n,
{
    if n > 0 {
        lemma_inked_lit(m, w, h, n - 1);
        lemma_pixel(w, h, n - 1);
        assert forall|j: int| 0 <= j < inked(m, w, n).len() implies lit(
            m,
            w,
            h,
            #[trigger] inked(m, w, n)[j],
        ) by {
            if j < inked(m, w, n - 1).len() {
                assert(inked(m, w, n)[j] == inked(m, w, n - 1)[j]);
            }
        }
    }
}

proof fn lemma_tips_lit(m: Seq<bool>, w: int, h: int, n: int)
    requires
        0 < w,
        n <= w * h,
    ensures
        forall|j: int|
            0 <= j < tips(m, w, h, n).len() ==> lit(m, w, h, #[trigger] tips(m, w, h, n)[j]),
    decreases n,
{
    if n > 0 {
        lemma_tips_lit(m, w, h, n - 1);
        lemma_pixel(w, h, n - 1);
        assert forall|j: int| 0 <= j < tips(m, w, h, n).len() implies lit(
            m,
            w,
            h,
            #[trigger] tips(m, w, h, n)[j],
        ) by {
            if j < tips(m, w, h, n - 1).len() {
                assert(tips(m, w, h, n)[j] == tips(m, w, h, n - 1)[j]);
            }
        }
    }
}

} // verus!
