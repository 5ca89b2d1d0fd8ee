//! What holds of traced strokes.

use vstd::prelude::*;

use crate::thin;
use crate::trace;

verus! {

/// Two places touch, along an edge or at a corner.
pub open spec fn touch(p: (int, int), q: (int, int)) -> bool {
    -1 <= q.0 - p.0 <= 1 && -1 <= q.1 - p.1 <= 1 && p != q
}

/// A path along the ink: every point has ink, and each touches the next.
pub open spec fn along_ink(m: Seq<bool>, w: int, h: int, path: Seq<(int, int)>) -> bool {
    &&& forall|i: int| 0 <= i < path.len() ==> trace::lit(m, w, h, #[trigger] path[i])
    &&& forall|i: int|
        0 <= i < path.len() - 1 ==> touch(#[trigger] path[i], path[i + 1])
}

/// No point occurs twice in a path.
pub open spec fn simple(path: Seq<(int, int)>) -> bool {
    forall|i: int, j: int| 0 <= i < j < path.len() ==> path[i] != path[j]
}

/// No point occurs in both paths.
pub open spec fn apart(a: Seq<(int, int)>, b: Seq<(int, int)>) -> bool {
    forall|i: int, j: int| 0 <= i < a.len() && 0 <= j < b.len() ==> a[i] != b[j]
}

/// No point occurs in two of the paths.
pub open spec fn all_apart(list: Seq<Seq<(int, int)>>) -> bool {
    forall|k: int, l: int|
        0 <= k < l < list.len() ==> apart(#[trigger] list[k], #[trigger] list[l])
}

/// A path goes through a point.
pub open spec fn goes_through(path: Seq<(int, int)>, p: (int, int)) -> bool {
    exists|i: int| 0 <= i < path.len() && #[trigger] path[i] == p
}

/// Every point of a path has been seen.
spec fn path_seen(w: int, seen: Seq<bool>, path: Seq<(int, int)>) -> bool {
    forall|i: int| 0 <= i < path.len() ==> seen[trace::index(w, #[trigger] path[i])]
}

/// A mask with room for its pixels.
pub open spec fn sized(m: Seq<bool>, w: int, h: int) -> bool {
    0 <= w && 0 <= h && w * h <= m.len()
}

proof fn lemma_same_index(w: int, h: int, p: (int, int), q: (int, int))
    requires
        0 <= p.0 < w,
        0 <= p.1 < h,
        0 <= q.0 < w,
        0 <= q.1 < h,
        trace::index(w, p) == trace::index(w, q),
    ensures
        p == q,
{
    trace::lemma_index(w, h, p);
    trace::lemma_index(w, h, q);
}

/// What a walk does, given what it has done.
proof fn lemma_walk(m: Seq<bool>, w: int, h: int, seen: Seq<bool>, path: Seq<(int, int)>)
    requires
        sized(m, w, h),
        seen.len() == w * h,
        path.len() > 0,
        along_ink(m, w, h, path),
        simple(path),
        path_seen(w, seen, path),
    ensures
        ({
            let (all, now) = trace::walk(m, w, h, seen, path);
            &&& path.is_prefix_of(all)
            &&& along_ink(m, w, h, all)
            &&& simple(all)
            &&& now.len() == seen.len()
            &&& path_seen(w, now, all)
            &&& forall|j: int| 0 <= j < seen.len() && #[trigger] seen[j] ==> now[j]
            &&& forall|i: int|
                path.len() <= i < all.len() ==> !seen[trace::index(w, #[trigger] all[i])]
            &&& forall|p: (int, int)|
                #![trigger trace::lit(m, w, h, p)]
                trace::lit(m, w, h, p) && now[trace::index(w, p)] && !seen[trace::index(w, p)]
                    ==> goes_through(all, p)
        }),
    decreases seen.len() - thin::count(seen, seen.len() as int),
{
    let here = path.last();
    trace::lemma_onward(m, w, h, seen, here, 0);
    match trace::onward(m, w, h, seen, here, 0) {
        None => {},
        Some(q) => {
            let at = trace::index(w, q);
            let next_seen = seen.update(at, true);
            let next = path.push(q);
            trace::lemma_count_seen(seen, at, seen.len() as int);
            trace::lemma_index(w, h, q);
            let k = choose|k: int| 0 <= k < 8 && q == #[trigger] trace::around(here, k);
            lemma_around_touches(here, k);
            assert forall|i: int| 0 <= i < next.len() implies trace::lit(
                m,
                w,
                h,
                #[trigger] next[i],
            ) by {
                if i < path.len() {
                    assert(next[i] == path[i]);
                }
            }
            assert forall|i: int| 0 <= i < next.len() - 1 implies touch(
                #[trigger] next[i],
                next[i + 1],
            ) by {
                assert(next[i] == path[i]);
                if i + 1 < path.len() {
                    assert(next[i + 1] == path[i + 1]);
                }
            }
            assert forall|i: int, j: int| 0 <= i < j < next.len() implies next[i] != next[j] by {
                assert(next[i] == path[i]);
                if j < path.len() {
                    assert(next[j] == path[j]);
                } else {
                    assert(seen[trace::index(w, path[i])]);
                }
            }
            assert forall|i: int| 0 <= i < next.len() implies next_seen[trace::index(
                w,
                #[trigger] next[i],
            )] by {
                if i < path.len() {
                    assert(next[i] == path[i]);
                    assert(trace::lit(m, w, h, path[i]));
                    trace::lemma_index(w, h, path[i]);
                }
            }
            lemma_walk(m, w, h, next_seen, next);
            let (all, now) = trace::walk(m, w, h, seen, path);
            assert(path =~= all.take(path.len() as int)) by {
                assert(next =~= all.take(next.len() as int));
                assert forall|i: int| 0 <= i < path.len() implies path[i] == all[i] by {
                    assert(next[i] == all.take(next.len() as int)[i]);
                }
            }
            assert(all[path.len() as int] == q) by {
                assert(next =~= all.take(next.len() as int));
                assert(next[path.len() as int] == all.take(next.len() as int)[path.len() as int]);
            }
            assert forall|j: int| 0 <= j < seen.len() && #[trigger] seen[j] implies now[j] by {
                assert(next_seen[j]);
            }
            assert forall|i: int| path.len() <= i < all.len() implies !seen[trace::index(
                w,
                #[trigger] all[i],
            )] by {
                if i > path.len() {
                    assert(!next_seen[trace::index(w, all[i])]);
                    assert(trace::lit(m, w, h, all[i]));
                    trace::lemma_index(w, h, all[i]);
                }
            }
            assert forall|p: (int, int)|
                #![trigger trace::lit(m, w, h, p)]
                trace::lit(m, w, h, p) && now[trace::index(w, p)] && !seen[trace::index(
                    w,
                    p,
                )] implies goes_through(all, p) by {
                trace::lemma_index(w, h, p);
                if trace::index(w, p) == at {
                    lemma_same_index(w, h, p, q);
                    assert(all[path.len() as int] == p);
                } else {
                    assert(!next_seen[trace::index(w, p)]);
                }
            }
        },
    }
}

proof fn lemma_around_touches(p: (int, int), k: int)
    requires
        0 <= k < 8,
    ensures
        touch(p, trace::around(p, k)),
{
    assert(k == 0 || k == 1 || k == 2 || k == 3 || k == 4 || k == 5 || k == 6 || k == 7);
}

/// What the walks have done: every one goes along the ink, none crosses itself
/// or another one, and they have seen exactly the points on them.
spec fn walked(m: Seq<bool>, w: int, h: int, done: Seq<Seq<(int, int)>>, seen: Seq<bool>) -> bool {
    &&& seen.len() == w * h
    &&& forall|k: int|
        0 <= k < done.len() ==> (#[trigger] done[k]).len() > 0 && along_ink(m, w, h, done[k])
            && simple(done[k]) && path_seen(w, seen, done[k])
    &&& all_apart(done)
    &&& forall|p: (int, int)|
        #![trigger trace::lit(m, w, h, p)]
        trace::lit(m, w, h, p) && seen[trace::index(w, p)] ==> exists|k: int|
            0 <= k < done.len() && goes_through(#[trigger] done[k], p)
}

proof fn lemma_walks(m: Seq<bool>, w: int, h: int, from: Seq<(int, int)>)
    requires
        sized(m, w, h),
        forall|i: int| 0 <= i < from.len() ==> trace::lit(m, w, h, #[trigger] from[i]),
    ensures
        walked(m, w, h, trace::walks(m, w, h, from).0, trace::walks(m, w, h, from).1),
        path_seen(w, trace::walks(m, w, h, from).1, from),
    decreases from.len(),
{
    assert(0 <= w * h) by (nonlinear_arith)
        requires
            0 <= w,
            0 <= h,
    ;
    let (all, now) = trace::walks(m, w, h, from);
    if from.len() == 0 {
        assert forall|p: (int, int)|
            #![trigger trace::lit(m, w, h, p)]
            trace::lit(m, w, h, p) && now[trace::index(w, p)] implies exists|k: int|
            0 <= k < all.len() && goes_through(#[trigger] all[k], p) by {
            trace::lemma_index(w, h, p);
        }
    } else {
        let before = from.drop_last();
        assert forall|i: int| 0 <= i < before.len() implies trace::lit(
            m,
            w,
            h,
            #[trigger] before[i],
        ) by {
            assert(before[i] == from[i]);
        }
        lemma_walks(m, w, h, before);
        let (done, seen) = trace::walks(m, w, h, before);
        let s = from.last();
        assert(trace::lit(m, w, h, from[from.len() - 1]));
        trace::lemma_index(w, h, s);
        let at = trace::index(w, s);
        if seen[at] {
            assert forall|i: int| 0 <= i < from.len() implies now[trace::index(
                w,
                #[trigger] from[i],
            )] by {
                if i < before.len() {
                    assert(before[i] == from[i]);
                }
            }
        } else {
            let start = seen.update(at, true);
            assert(seq![s][0] == s);
            lemma_walk(m, w, h, start, seq![s]);
            let (path, _) = trace::walk(m, w, h, start, seq![s]);
            assert(all == done.push(path));
            assert(path[0] == s) by {
                assert(seq![s] =~= path.take(1));
                assert(seq![s][0] == path.take(1)[0]);
            }
            assert forall|i: int| 0 <= i < path.len() implies !seen[trace::index(
                w,
                #[trigger] path[i],
            )] by {
                if i > 0 {
                    assert(!start[trace::index(w, path[i])]);
                    assert(trace::lit(m, w, h, path[i]));
                    trace::lemma_index(w, h, path[i]);
                }
            }
            assert forall|k: int| 0 <= k < all.len() implies (#[trigger] all[k]).len() > 0
                && along_ink(m, w, h, all[k]) && simple(all[k]) && path_seen(w, now, all[k]) by {
                if k < done.len() {
                    assert(all[k] == done[k]);
                    assert forall|i: int| 0 <= i < done[k].len() implies now[trace::index(
                        w,
                        #[trigger] done[k][i],
                    )] by {
                        assert(trace::lit(m, w, h, done[k][i]));
                        trace::lemma_index(w, h, done[k][i]);
                        assert(seen[trace::index(w, done[k][i])]);
                        assert(start[trace::index(w, done[k][i])]);
                    }
                }
            }
            assert forall|k: int, l: int| 0 <= k < l < all.len() implies apart(
                #[trigger] all[k],
                #[trigger] all[l],
            ) by {
                assert(all[k] == done[k]);
                if l < done.len() {
                    assert(all[l] == done[l]);
                } else {
                    assert forall|i: int, j: int|
                        0 <= i < done[k].len() && 0 <= j < path.len() implies done[k][i]
                        != path[j] by {
                        assert(seen[trace::index(w, done[k][i])]);
                        assert(!seen[trace::index(w, path[j])]);
                    }
                }
            }
            assert forall|p: (int, int)|
                #![trigger trace::lit(m, w, h, p)]
                trace::lit(m, w, h, p) && now[trace::index(w, p)] implies exists|k: int|
                0 <= k < all.len() && goes_through(#[trigger] all[k], p) by {
                trace::lemma_index(w, h, p);
                if seen[trace::index(w, p)] {
                    let k = choose|k: int| 0 <= k < done.len() && goes_through(
                        #[trigger] done[k],
                        p,
                    );
                    assert(goes_through(all[k], p));
                } else {
                    if trace::index(w, p) == at {
                        lemma_same_index(w, h, p, s);
                        assert(path[0] == p);
                    }
                    assert(goes_through(path, p));
                    assert(all[done.len() as int] == path);
                }
            }
            assert forall|i: int| 0 <= i < from.len() implies now[trace::index(
                w,
                #[trigger] from[i],
            )] by {
                if i < before.len() {
                    assert(before[i] == from[i]);
                    assert(trace::lit(m, w, h, from[i]));
                    trace::lemma_index(w, h, from[i]);
                    assert(start[trace::index(w, from[i])]);
                } else {
                    assert(now[trace::index(w, path[0])]);
                }
            }
        }
    }
}

/// Every start has ink, and every pixel with ink is a start.
proof fn lemma_starts(m: Seq<bool>, w: int, h: int)
    requires
        sized(m, w, h),
    ensures
        forall|i: int|
            0 <= i < trace::starts(m, w, h).len() ==> trace::lit(
                m,
                w,
                h,
                #[trigger] trace::starts(m, w, h)[i],
            ),
        forall|p: (int, int)| #[trigger]
            trace::lit(m, w, h, p) ==> goes_through(trace::starts(m, w, h), p),
{
    let all = trace::starts(m, w, h);
    let first = trace::tips(m, w, h, w * h);
    let rest = trace::inked(m, w, w * h);
    trace::lemma_starts_lit(m, w, h);
    assert forall|p: (int, int)| #[trigger] trace::lit(m, w, h, p) implies goes_through(all, p) by {
        trace::lemma_index(w, h, p);
        lemma_inked_holds(m, w, w * h, trace::index(w, p));
        let i = choose|i: int| 0 <= i < rest.len() && #[trigger] rest[i] == p;
        assert(all[first.len() + i] == p);
    }
}

proof fn lemma_inked_holds(m: Seq<bool>, w: int, n: int, i: int)
    requires
        0 <= i < n,
        m[i],
    ensures
        goes_through(trace::inked(m, w, n), trace::pixel(w, i)),
    decreases n,
{
    let all = trace::inked(m, w, n);
    if i == n - 1 {
        assert(all[all.len() - 1] == trace::pixel(w, i));
    } else {
        lemma_inked_holds(m, w, n - 1, i);
        let before = trace::inked(m, w, n - 1);
        let j = choose|j: int| 0 <= j < before.len() && #[trigger] before[j] == trace::pixel(w, i);
        assert(all[j] == trace::pixel(w, i));
    }
}

/// What is long enough is kept, and nothing else.
proof fn lemma_long_enough(list: Seq<Seq<(int, int)>>)
    ensures
        forall|k: int|
            0 <= k < trace::long_enough(list).len() ==> (#[trigger] trace::long_enough(
                list,
            )[k]).len() >= 3 && list.contains(trace::long_enough(list)[k]),
        forall|k: int|
            0 <= k < list.len() && (#[trigger] list[k]).len() >= 3 ==> trace::long_enough(
                list,
            ).contains(list[k]),
        all_apart(list) ==> all_apart(trace::long_enough(list)),
    decreases list.len(),
{
    if list.len() > 0 {
        let before = list.drop_last();
        let kept = trace::long_enough(before);
        let all = trace::long_enough(list);
        lemma_long_enough(before);
        assert forall|k: int| 0 <= k < all.len() implies (#[trigger] all[k]).len() >= 3
            && list.contains(all[k]) by {
            if k < kept.len() {
                assert(all[k] == kept[k]);
                let j = choose|j: int| 0 <= j < before.len() && before[j] == kept[k];
                assert(list[j] == kept[k]);
            } else {
                assert(list[list.len() - 1] == all[k]);
            }
        }
        assert forall|k: int| 0 <= k < list.len() && (
        #[trigger] list[k]).len() >= 3 implies all.contains(list[k]) by {
            if k < before.len() {
                assert(before[k] == list[k]);
                let j = choose|j: int| 0 <= j < kept.len() && kept[j] == list[k];
                assert(all[j] == list[k]);
            } else {
                assert(all[all.len() - 1] == list[k]);
            }
        }
        if all_apart(list) {
            assert forall|k: int, l: int| 0 <= k < l < before.len() implies apart(
                #[trigger] before[k],
                #[trigger] before[l],
            ) by {
                assert(before[k] == list[k] && before[l] == list[l]);
            }
            assert forall|k: int, l: int| 0 <= k < l < all.len() implies apart(
                #[trigger] all[k],
                #[trigger] all[l],
            ) by {
                assert(all[k] == kept[k]);
                if l < kept.len() {
                    assert(all[l] == kept[l]);
                } else {
                    let j = choose|j: int| 0 <= j < before.len() && before[j] == kept[k];
                    assert(list[j] == kept[k]);
                    assert(all[l] == list[list.len() - 1]);
                }
            }
        }
    }
}

/// A stroke is put in at one place, and everything else stays in order.
proof fn lemma_put_in(list: Seq<Seq<(int, int)>>, path: Seq<(int, int)>) -> (at: int)
    ensures
        0 <= at <= list.len(),
        trace::put_in(list, path) == list.insert(at, path),
        forall|k: int|
            at <= k < list.len() ==> trace::left_edge(path) < trace::left_edge(#[trigger] list[k]),
        at > 0 ==> trace::left_edge(list[at - 1]) <= trace::left_edge(path),
    decreases list.len(),
{
    if list.len() > 0 && trace::left_edge(list.last()) > trace::left_edge(path) {
        let before = list.drop_last();
        let at = lemma_put_in(before, path);
        assert(trace::put_in(list, path) =~= list.insert(at, path));
        assert forall|k: int| at <= k < list.len() implies trace::left_edge(path)
            < trace::left_edge(#[trigger] list[k]) by {
            if k < before.len() {
                assert(before[k] == list[k]);
            }
        }
        at
    } else {
        assert(trace::put_in(list, path) =~= list.insert(list.len() as int, path));
        list.len() as int
    }
}

/// Strokes go from left to right.
pub open spec fn in_order(list: Seq<Seq<(int, int)>>) -> bool {
    forall|k: int, l: int|
        0 <= k < l < list.len() ==> trace::left_edge(#[trigger] list[k]) <= trace::left_edge(
            #[trigger] list[l],
        )
}

/// The strokes that come as far left as `x`.
pub open spec fn with_edge(list: Seq<Seq<(int, int)>>, x: int) -> Seq<Seq<(int, int)>>
    decreases list.len(),
{
    if list.len() == 0 {
        seq![]
    } else if trace::left_edge(list.last()) == x {
        with_edge(list.drop_last(), x).push(list.last())
    } else {
        with_edge(list.drop_last(), x)
    }
}

proof fn lemma_with_edge_put_in(list: Seq<Seq<(int, int)>>, path: Seq<(int, int)>, x: int)
    ensures
        with_edge(trace::put_in(list, path), x) == with_edge(list.push(path), x),
    decreases list.len(),
{
    assert(list.push(path).drop_last() =~= list);
    if list.len() > 0 && trace::left_edge(list.last()) > trace::left_edge(path) {
        let before = list.drop_last();
        let all = trace::put_in(list, path);
        lemma_with_edge_put_in(before, path, x);
        assert(all.drop_last() =~= trace::put_in(before, path));
        assert(all.last() == list.last());
        assert(before.push(path).drop_last() =~= before);
        assert(with_edge(all, x) == if trace::left_edge(list.last()) == x {
            with_edge(before.push(path), x).push(list.last())
        } else {
            with_edge(before.push(path), x)
        });
        assert(with_edge(before.push(path), x) == if trace::left_edge(path) == x {
            with_edge(before, x).push(path)
        } else {
            with_edge(before, x)
        });
        assert(with_edge(list.push(path), x) == if trace::left_edge(path) == x {
            with_edge(list, x).push(path)
        } else {
            with_edge(list, x)
        });
    }
}

/// Putting strokes in order keeps them all: they go from left to right, those
/// that come equally far left stay in the order in which they came, and nothing
/// is added.
pub proof fn law_ordering_is_stable(list: Seq<Seq<(int, int)>>)
    ensures
        in_order(trace::left_to_right(list)),
        trace::left_to_right(list).to_multiset() == list.to_multiset(),
        forall|x: int| #[trigger]
            with_edge(trace::left_to_right(list), x) == with_edge(list, x),
    decreases list.len(),
{
    broadcast use vstd::seq_lib::group_to_multiset_ensures;

    let all = trace::left_to_right(list);
    if list.len() == 0 {
        assert(all =~= list);
    } else {
        let before = list.drop_last();
        let path = list.last();
        law_ordering_is_stable(before);
        let sorted = trace::left_to_right(before);
        let at = lemma_put_in(sorted, path);
        assert forall|k: int, l: int| 0 <= k < l < all.len() implies trace::left_edge(
            #[trigger] all[k],
        ) <= trace::left_edge(#[trigger] all[l]) by {
            if k < at {
                assert(all[k] == sorted[k]);
                assert(k == at - 1 || trace::left_edge(sorted[k]) <= trace::left_edge(
                    sorted[at - 1],
                ));
                if l > at {
                    assert(all[l] == sorted[l - 1]);
                } else if l < at {
                    assert(all[l] == sorted[l]);
                }
            } else {
                assert(all[l] == sorted[l - 1]);
                if k > at {
                    assert(all[k] == sorted[k - 1]);
                }
            }
        }
        vstd::seq_lib::to_multiset_insert(sorted, at, path);
        assert(list =~= before.push(path));
        vstd::seq_lib::to_multiset_build(before, path);
        assert forall|x: int| #[trigger] with_edge(all, x) == with_edge(list, x) by {
            lemma_with_edge_put_in(sorted, path, x);
            assert(sorted.push(path).drop_last() =~= sorted);
            assert(with_edge(sorted, x) == with_edge(before, x));
        }
    }
}

proof fn lemma_left_to_right(list: Seq<Seq<(int, int)>>)
    ensures
        forall|k: int|
            0 <= k < trace::left_to_right(list).len() ==> list.contains(
                #[trigger] trace::left_to_right(list)[k],
            ),
        forall|k: int|
            0 <= k < list.len() ==> trace::left_to_right(list).contains(#[trigger] list[k]),
        all_apart(list) ==> all_apart(trace::left_to_right(list)),
    decreases list.len(),
{
    if list.len() > 0 {
        let before = list.drop_last();
        let path = list.last();
        let sorted = trace::left_to_right(before);
        let all = trace::left_to_right(list);
        lemma_left_to_right(before);
        let at = lemma_put_in(sorted, path);
        assert forall|k: int| 0 <= k < all.len() implies list.contains(#[trigger] all[k]) by {
            if k == at {
                assert(list[list.len() - 1] == all[k]);
            } else {
                let i = if k < at {
                    k
                } else {
                    k - 1
                };
                assert(all[k] == sorted[i]);
                let j = choose|j: int| 0 <= j < before.len() && before[j] == sorted[i];
                assert(list[j] == all[k]);
            }
        }
        assert forall|k: int| 0 <= k < list.len() implies all.contains(#[trigger] list[k]) by {
            if k < before.len() {
                assert(before[k] == list[k]);
                let j = choose|j: int| 0 <= j < sorted.len() && sorted[j] == before[k];
                if j < at {
                    assert(all[j] == list[k]);
                } else {
                    assert(all[j + 1] == list[k]);
                }
            } else {
                assert(all[at] == list[k]);
            }
        }
        if all_apart(list) {
            assert forall|k: int, l: int| 0 <= k < l < before.len() implies apart(
                #[trigger] before[k],
                #[trigger] before[l],
            ) by {
                assert(before[k] == list[k] && before[l] == list[l]);
            }
            assert forall|i: int| 0 <= i < sorted.len() implies apart(#[trigger] sorted[i], path)
                && apart(path, sorted[i]) by {
                let j = choose|j: int| 0 <= j < before.len() && before[j] == sorted[i];
                assert(list[j] == sorted[i]);
                assert(list[list.len() - 1] == path);
                assert(apart(list[j], list[list.len() - 1]));
                assert forall|a: int, b: int|
                    0 <= a < path.len() && 0 <= b < sorted[i].len() implies path[a]
                    != sorted[i][b] by {
                    assert(list[j][b] != list[list.len() - 1][a]);
                }
            }
            assert forall|k: int, l: int| 0 <= k < l < all.len() implies apart(
                #[trigger] all[k],
                #[trigger] all[l],
            ) by {
                if k < at {
                    assert(all[k] == sorted[k]);
                    if l < at {
                        assert(all[l] == sorted[l]);
                    } else if l > at {
                        assert(all[l] == sorted[l - 1]);
                    }
                } else {
                    assert(all[l] == sorted[l - 1]);
                    if k > at {
                        assert(all[k] == sorted[k - 1]);
                    }
                }
            }
        }
    }
}

/// Where a traced stroke comes from.
proof fn lemma_traced(m: Seq<bool>, w: int, h: int)
    requires
        sized(m, w, h),
    ensures
        walked(
            m,
            w,
            h,
            trace::walks(m, w, h, trace::starts(m, w, h)).0,
            trace::walks(m, w, h, trace::starts(m, w, h)).1,
        ),
        forall|k: int|
            0 <= k < trace::traced(m, w, h).len() ==> (#[trigger] trace::traced(m, w, h)[k]).len()
                >= 3 && trace::walks(m, w, h, trace::starts(m, w, h)).0.contains(
                trace::traced(m, w, h)[k],
            ),
        all_apart(trace::traced(m, w, h)),
{
    lemma_starts(m, w, h);
    lemma_walks(m, w, h, trace::starts(m, w, h));
    let done = trace::walks(m, w, h, trace::starts(m, w, h)).0;
    let kept = trace::long_enough(done);
    lemma_long_enough(done);
    lemma_left_to_right(kept);
    let all = trace::traced(m, w, h);
    assert forall|k: int| 0 <= k < all.len() implies (#[trigger] all[k]).len() >= 3
        && done.contains(all[k]) by {
        let j = choose|j: int| 0 <= j < kept.len() && kept[j] == all[k];
        assert(kept[j].len() >= 3);
    }
}

/// Every stroke has three points or more, each of them inked and touching the
/// next, and no stroke comes back to where it was.
pub proof fn law_strokes_follow_the_ink(m: Seq<bool>, w: int, h: int)
    requires
        sized(m, w, h),
    ensures
        forall|k: int|
            0 <= k < trace::traced(m, w, h).len() ==> (#[trigger] trace::traced(m, w, h)[k]).len()
                >= 3 && along_ink(m, w, h, trace::traced(m, w, h)[k]) && simple(
                trace::traced(m, w, h)[k],
            ),
{
    lemma_traced(m, w, h);
    let done = trace::walks(m, w, h, trace::starts(m, w, h)).0;
    let all = trace::traced(m, w, h);
    assert forall|k: int| 0 <= k < all.len() implies (#[trigger] all[k]).len() >= 3 && along_ink(
        m,
        w,
        h,
        all[k],
    ) && simple(all[k]) by {
        let j = choose|j: int| 0 <= j < done.len() && done[j] == all[k];
        assert(along_ink(m, w, h, done[j]));
    }
}

/// No point is drawn twice: strokes never share one.
pub proof fn law_no_point_is_drawn_twice(m: Seq<bool>, w: int, h: int)
    requires
        sized(m, w, h),
    ensures
        all_apart(trace::traced(m, w, h)),
{
    lemma_traced(m, w, h);
}

/// Strokes go from left to right, like a hand that writes.
pub proof fn law_strokes_go_left_to_right(m: Seq<bool>, w: int, h: int)
    ensures
        in_order(trace::traced(m, w, h)),
{
    law_ordering_is_stable(trace::long_enough(trace::walks(m, w, h, trace::starts(m, w, h)).0));
}

/// No ink is passed over: every inked pixel is on a stroke, or on a walk of
/// fewer than three points that could not go on.
pub proof fn law_all_ink_is_drawn(m: Seq<bool>, w: int, h: int, p: (int, int))
    requires
        sized(m, w, h),
        trace::lit(m, w, h, p),
    ensures
        ({
            let strokes = trace::traced(m, w, h);
            let done = trace::walks(m, w, h, trace::starts(m, w, h)).0;
            ||| exists|k: int| 0 <= k < strokes.len() && goes_through(#[trigger] strokes[k], p)
            ||| exists|k: int|
                0 <= k < done.len() && (#[trigger] done[k]).len() < 3 && goes_through(done[k], p)
                    && ends(m, w, h, done, k)
        }),
{
    lemma_traced(m, w, h);
    lemma_starts(m, w, h);
    let from = trace::starts(m, w, h);
    lemma_walks_end(m, w, h, from);
    lemma_walks(m, w, h, from);
    let (done, seen) = trace::walks(m, w, h, from);
    let i = choose|i: int| 0 <= i < from.len() && #[trigger] from[i] == p;
    assert(seen[trace::index(w, from[i])]);
    let k = choose|k: int| 0 <= k < done.len() && goes_through(#[trigger] done[k], p);
    if done[k].len() >= 3 {
        let kept = trace::long_enough(done);
        let strokes = trace::traced(m, w, h);
        lemma_long_enough(done);
        lemma_left_to_right(kept);
        let j = choose|j: int| 0 <= j < kept.len() && kept[j] == done[k];
        assert(strokes.contains(kept[j]));
        let l = choose|l: int| 0 <= l < strokes.len() && strokes[l] == kept[j];
        assert(goes_through(strokes[l], p));
    } else {
        assert(ends(m, w, h, done, k));
    }
}

/// The left edge of a stroke is its smallest column.
pub proof fn law_left_edge_is_leftmost(path: Seq<(int, int)>)
    requires
        path.len() > 0,
    ensures
        forall|i: int| 0 <= i < path.len() ==> trace::left_edge(path) <= (#[trigger] path[i]).0,
        exists|i: int| 0 <= i < path.len() && trace::left_edge(path) == (#[trigger] path[i]).0,
    decreases path.len(),
{
    let before = path.drop_last();
    if path.len() > 1 {
        law_left_edge_is_leftmost(before);
        assert forall|i: int| 0 <= i < path.len() implies trace::left_edge(path) <= (
        #[trigger] path[i]).0 by {
            if i < before.len() {
                assert(before[i] == path[i]);
            }
        }
        if trace::left_edge(path) == path.last().0 {
            assert(path[path.len() - 1].0 == trace::left_edge(path));
        } else {
            let i = choose|i: int|
                0 <= i < before.len() && trace::left_edge(before) == (#[trigger] before[i]).0;
            assert(path[i].0 == trace::left_edge(path));
        }
    } else {
        assert(path[0].0 == trace::left_edge(path));
    }
}

/// Where nothing lies onward, everything around has been seen.
proof fn lemma_stuck(m: Seq<bool>, w: int, h: int, seen: Seq<bool>, p: (int, int), k: int)
    requires
        0 <= k,
        trace::onward(m, w, h, seen, p, k) is None,
    ensures
        forall|j: int| k <= j < 8 ==> !trace::unseen(m, w, h, seen, #[trigger] trace::around(p, j)),
    decreases 8 - k,
{
    if k < 8 {
        lemma_stuck(m, w, h, seen, p, k + 1);
    }
}

/// What touches a place is one of the places around it.
proof fn lemma_touch_is_around(p: (int, int), q: (int, int)) -> (k: int)
    requires
        touch(p, q),
    ensures
        0 <= k < 8,
        trace::around(p, k) == q,
{
    let j = (q.1 - p.1 + 1) * 3 + (q.0 - p.0 + 1);
    if j < 4 {
        j
    } else {
        j - 1
    }
}

/// From the end of a walk there is no way on.
proof fn lemma_walk_ends(m: Seq<bool>, w: int, h: int, seen: Seq<bool>, path: Seq<(int, int)>)
    requires
        sized(m, w, h),
        seen.len() == w * h,
        path.len() > 0,
        trace::lit(m, w, h, path.last()),
    ensures
        ({
            let (all, now) = trace::walk(m, w, h, seen, path);
            &&& all.len() > 0
            &&& forall|q: (int, int)| #[trigger]
                trace::lit(m, w, h, q) && touch(all.last(), q) ==> now[trace::index(w, q)]
        }),
    decreases seen.len() - thin::count(seen, seen.len() as int),
{
    let here = path.last();
    trace::lemma_onward(m, w, h, seen, here, 0);
    match trace::onward(m, w, h, seen, here, 0) {
        None => {
            lemma_stuck(m, w, h, seen, here, 0);
            assert forall|q: (int, int)| #[trigger]
                trace::lit(m, w, h, q) && touch(here, q) implies seen[trace::index(w, q)] by {
                let k = lemma_touch_is_around(here, q);
                assert(!trace::unseen(m, w, h, seen, trace::around(here, k)));
                trace::lemma_index(w, h, q);
            }
        },
        Some(q) => {
            trace::lemma_count_seen(seen, trace::index(w, q), seen.len() as int);
            lemma_walk_ends(m, w, h, seen.update(trace::index(w, q), true), path.push(q));
        },
    }
}

/// The last point of a path has no way on: all ink that touches it lies on the
/// path or on one before it.
pub open spec fn ends(m: Seq<bool>, w: int, h: int, list: Seq<Seq<(int, int)>>, k: int) -> bool {
    forall|q: (int, int)| #[trigger]
        trace::lit(m, w, h, q) && touch(list[k].last(), q) ==> exists|l: int|
            0 <= l <= k && goes_through(#[trigger] list[l], q)
}

proof fn lemma_walks_end(m: Seq<bool>, w: int, h: int, from: Seq<(int, int)>)
    requires
        sized(m, w, h),
        forall|i: int| 0 <= i < from.len() ==> trace::lit(m, w, h, #[trigger] from[i]),
    ensures
        forall|k: int|
            0 <= k < trace::walks(m, w, h, from).0.len() ==> #[trigger] ends(
                m,
                w,
                h,
                trace::walks(m, w, h, from).0,
                k,
            ),
    decreases from.len(),
{
    if from.len() > 0 {
        let before = from.drop_last();
        assert forall|i: int| 0 <= i < before.len() implies trace::lit(
            m,
            w,
            h,
            #[trigger] before[i],
        ) by {
            assert(before[i] == from[i]);
        }
        lemma_walks_end(m, w, h, before);
        lemma_walks(m, w, h, before);
        lemma_walks(m, w, h, from);
        let (done, seen) = trace::walks(m, w, h, before);
        let (all, now) = trace::walks(m, w, h, from);
        let s = from.last();
        assert(trace::lit(m, w, h, from[from.len() - 1]));
        trace::lemma_index(w, h, s);
        if !seen[trace::index(w, s)] {
            let start = seen.update(trace::index(w, s), true);
            let (path, _) = trace::walk(m, w, h, start, seq![s]);
            assert(seq![s].last() == s);
            lemma_walk_ends(m, w, h, start, seq![s]);
            assert(all == done.push(path));
            assert forall|k: int| 0 <= k < all.len() implies #[trigger] ends(m, w, h, all, k) by {
                if k < done.len() {
                    assert(ends(m, w, h, done, k));
                    assert(all[k] == done[k]);
                    assert forall|q: (int, int)| #[trigger]
                        trace::lit(m, w, h, q) && touch(all[k].last(), q) implies exists|l: int|
                        0 <= l <= k && goes_through(#[trigger] all[l], q) by {
                        let l = choose|l: int| 0 <= l <= k && goes_through(#[trigger] done[l], q);
                        assert(all[l] == done[l]);
                    }
                } else {
                    assert(all[k] == path);
                    assert forall|q: (int, int)| #[trigger]
                        trace::lit(m, w, h, q) && touch(all[k].last(), q) implies exists|l: int|
                        0 <= l <= k && goes_through(#[trigger] all[l], q) by {
                        assert(now[trace::index(w, q)]);
                        let l = choose|l: int|
                            0 <= l < all.len() && goes_through(#[trigger] all[l], q);
                        assert(0 <= l <= k);
                    }
                }
            }
        }
    }
}

/// Some walks take up all the ink: each goes from pixel to touching pixel, no
/// pixel is walked twice, none is left out, and a walk stops only where it
/// cannot go on.
pub open spec fn walked_out(m: Seq<bool>, w: int, h: int, list: Seq<Seq<(int, int)>>) -> bool {
    &&& forall|k: int|
        0 <= k < list.len() ==> (#[trigger] list[k]).len() > 0 && along_ink(m, w, h, list[k])
            && simple(list[k]) && ends(m, w, h, list, k)
    &&& all_apart(list)
    &&& forall|p: (int, int)| #[trigger]
        trace::lit(m, w, h, p) ==> exists|k: int|
            0 <= k < list.len() && goes_through(#[trigger] list[k], p)
}

/// The strokes are walks that take up all the ink, without those of fewer than
/// three points.
pub proof fn law_walks_stop_only_where_they_must(m: Seq<bool>, w: int, h: int)
    requires
        sized(m, w, h),
    ensures
        exists|list: Seq<Seq<(int, int)>>|
            #![trigger walked_out(m, w, h, list)]
            walked_out(m, w, h, list) && forall|path: Seq<(int, int)>| #[trigger]
                trace::traced(m, w, h).contains(path) <==> list.contains(path) && path.len() >= 3,
{
    let from = trace::starts(m, w, h);
    lemma_starts(m, w, h);
    lemma_walks(m, w, h, from);
    lemma_walks_end(m, w, h, from);
    let (done, seen) = trace::walks(m, w, h, from);
    let kept = trace::long_enough(done);
    let strokes = trace::traced(m, w, h);
    lemma_long_enough(done);
    lemma_left_to_right(kept);
    assert forall|p: (int, int)| #[trigger] trace::lit(m, w, h, p) implies exists|k: int|
        0 <= k < done.len() && goes_through(#[trigger] done[k], p) by {
        let i = choose|i: int| 0 <= i < from.len() && #[trigger] from[i] == p;
        assert(seen[trace::index(w, from[i])]);
    }
    assert forall|k: int| 0 <= k < done.len() implies (#[trigger] done[k]).len() > 0 && along_ink(
        m,
        w,
        h,
        done[k],
    ) && simple(done[k]) && ends(m, w, h, done, k) by {
        assert(ends(m, w, h, done, k));
    }
    assert(walked_out(m, w, h, done));
    assert forall|path: Seq<(int, int)>| #[trigger] strokes.contains(path) <==> done.contains(path)
        && path.len() >= 3 by {
        if strokes.contains(path) {
            let i = choose|i: int| 0 <= i < strokes.len() && strokes[i] == path;
            assert(kept.contains(strokes[i]));
            let j = choose|j: int| 0 <= j < kept.len() && kept[j] == path;
            assert(done.contains(kept[j]));
        }
        if done.contains(path) && path.len() >= 3 {
            let i = choose|i: int| 0 <= i < done.len() && done[i] == path;
            assert(kept.contains(done[i]));
            let j = choose|j: int| 0 <= j < kept.len() && kept[j] == path;
            assert(strokes.contains(kept[j]));
        }
    }
}

/// A line of ink by itself: each pixel touches the next, and no other ink
/// touches any of them.
pub open spec fn chain(m: Seq<bool>, w: int, h: int, c: Seq<(int, int)>) -> bool {
    &&& c.len() >= 2
    &&& along_ink(m, w, h, c)
    &&& simple(c)
    &&& forall|i: int, q: (int, int)|
        #![trigger touch(c[i], q)]
        0 <= i < c.len() && trace::lit(m, w, h, q) && touch(c[i], q) ==> (i > 0 && q == c[i - 1])
            || (i + 1 < c.len() && q == c[i + 1])
}

/// How far the pixels of a line have been seen: the first `k`, and no more.
spec fn seen_up_to(w: int, seen: Seq<bool>, c: Seq<(int, int)>, k: int) -> bool {
    forall|i: int| 0 <= i < c.len() ==> seen[trace::index(w, #[trigger] c[i])] == (i < k)
}

/// A walk on a line goes on to its end.
proof fn lemma_walk_on_chain(
    m: Seq<bool>,
    w: int,
    h: int,
    c: Seq<(int, int)>,
    seen: Seq<bool>,
    k: int,
)
    requires
        sized(m, w, h),
        seen.len() == w * h,
        chain(m, w, h, c),
        1 <= k <= c.len(),
        seen_up_to(w, seen, c, k),
    ensures
        trace::walk(m, w, h, seen, c.take(k)).0 == c,
        seen_up_to(w, trace::walk(m, w, h, seen, c.take(k)).1, c, c.len() as int),
    decreases c.len() - k,
{
    let path = c.take(k);
    let here = path.last();
    assert(here == c[k - 1]);
    trace::lemma_onward(m, w, h, seen, here, 0);
    match trace::onward(m, w, h, seen, here, 0) {
        None => {
            lemma_stuck(m, w, h, seen, here, 0);
            if k < c.len() {
                assert(touch(c[k - 1], c[k]));
                let j = lemma_touch_is_around(here, c[k]);
                assert(trace::lit(m, w, h, c[k]));
                trace::lemma_index(w, h, c[k]);
                assert(!seen[trace::index(w, c[k])]);
                assert(!trace::unseen(m, w, h, seen, trace::around(here, j)));
            }
            assert(path =~= c);
        },
        Some(q) => {
            let j = choose|j: int| 0 <= j < 8 && q == #[trigger] trace::around(here, j);
            lemma_around_touches(here, j);
            assert(touch(c[k - 1], q));
            if k - 1 > 0 {
                assert(seen[trace::index(w, c[k - 2])]);
            }
            assert(k < c.len() && q == c[k]);
            let at = trace::index(w, q);
            trace::lemma_index(w, h, q);
            trace::lemma_count_seen(seen, at, seen.len() as int);
            let next = seen.update(at, true);
            assert forall|i: int| 0 <= i < c.len() implies next[trace::index(w, #[trigger] c[i])]
                == (i < k + 1) by {
                assert(trace::lit(m, w, h, c[i]));
                trace::lemma_index(w, h, c[i]);
                assert(seen[trace::index(w, c[i])] == (i < k));
                if trace::index(w, c[i]) == at {
                    lemma_same_index(w, h, c[i], q);
                    assert(i == k) by {
                        if i < k {
                            assert(c[i] != c[k]);
                        } else if k < i {
                            assert(c[k] != c[i]);
                        }
                    }
                } else {
                    assert(i != k);
                }
            }
            assert(path.push(q) =~= c.take(k + 1));
            lemma_walk_on_chain(m, w, h, c, next, k + 1);
        },
    }
}

/// A walk beside a line does not come onto it.
proof fn lemma_walk_beside_chain(
    m: Seq<bool>,
    w: int,
    h: int,
    c: Seq<(int, int)>,
    seen: Seq<bool>,
    path: Seq<(int, int)>,
    k: int,
)
    requires
        sized(m, w, h),
        seen.len() == w * h,
        chain(m, w, h, c),
        path.len() > 0,
        trace::lit(m, w, h, path.last()),
        !goes_through(c, path.last()),
        seen_up_to(w, seen, c, k),
    ensures
        seen_up_to(w, trace::walk(m, w, h, seen, path).1, c, k),
    decreases seen.len() - thin::count(seen, seen.len() as int),
{
    let here = path.last();
    trace::lemma_onward(m, w, h, seen, here, 0);
    match trace::onward(m, w, h, seen, here, 0) {
        None => {},
        Some(q) => {
            let j = choose|j: int| 0 <= j < 8 && q == #[trigger] trace::around(here, j);
            lemma_around_touches(here, j);
            if goes_through(c, q) {
                let i = choose|i: int| 0 <= i < c.len() && #[trigger] c[i] == q;
                assert(touch(c[i], here));
                if i > 0 && here == c[i - 1] {
                    assert(goes_through(c, here));
                } else {
                    assert(c[i + 1] == here);
                    assert(goes_through(c, here));
                }
            }
            let at = trace::index(w, q);
            trace::lemma_index(w, h, q);
            trace::lemma_count_seen(seen, at, seen.len() as int);
            let next = seen.update(at, true);
            assert forall|i: int| 0 <= i < c.len() implies next[trace::index(w, #[trigger] c[i])]
                == (i < k) by {
                assert(trace::lit(m, w, h, c[i]));
                trace::lemma_index(w, h, c[i]);
                if trace::index(w, c[i]) == at {
                    lemma_same_index(w, h, c[i], q);
                    assert(goes_through(c, q));
                }
            }
            lemma_walk_beside_chain(m, w, h, c, next, path.push(q), k);
        },
    }
}

/// One pixel of a line has one neighbour if it is an end, and two otherwise.
proof fn lemma_chain_degree(m: Seq<bool>, w: int, h: int, c: Seq<(int, int)>, i: int)
    requires
        chain(m, w, h, c),
        0 <= i < c.len(),
    ensures
        trace::degree(m, w, h, c[i], 8) == 1 <==> i == 0 || i == c.len() - 1,
{
    let p = c[i];
    reveal_with_fuel(trace::degree, 9);
    assert forall|k: int|
        0 <= k < 8 && trace::lit(m, w, h, #[trigger] trace::around(p, k)) implies (i > 0
        && trace::around(p, k) == c[i - 1]) || (i + 1 < c.len() && trace::around(p, k)
        == c[i + 1]) by {
        lemma_around_touches(p, k);
        assert(touch(c[i], trace::around(p, k)));
    }
    let a: int = if i > 0 {
        assert(touch(c[i - 1], c[i - 1 + 1]));
        assert(trace::lit(m, w, h, c[i - 1]));
        lemma_touch_is_around(p, c[i - 1])
    } else {
        -1
    };
    let b: int = if i + 1 < c.len() {
        assert(touch(c[i], c[i + 1]));
        assert(trace::lit(m, w, h, c[i + 1]));
        lemma_touch_is_around(p, c[i + 1])
    } else {
        -1
    };
    if i > 0 && i + 1 < c.len() {
        assert(c[i - 1] != c[i + 1]);
    }
    assert forall|k: int| 0 <= k < 8 implies trace::lit(m, w, h, #[trigger] trace::around(p, k))
        == (k == a || k == b) by {
        if k != a && k != b && trace::lit(m, w, h, trace::around(p, k)) {
            if i > 0 && trace::around(p, k) == c[i - 1] {
                assert(trace::around(p, a) == trace::around(p, k));
                assert(k == a);
            } else {
                assert(trace::around(p, b) == trace::around(p, k));
                assert(k == b);
            }
        }
    }
    assert(trace::lit(m, w, h, trace::around(p, 0)) == (0 == a || 0 == b));
    assert(trace::lit(m, w, h, trace::around(p, 1)) == (1 == a || 1 == b));
    assert(trace::lit(m, w, h, trace::around(p, 2)) == (2 == a || 2 == b));
    assert(trace::lit(m, w, h, trace::around(p, 3)) == (3 == a || 3 == b));
    assert(trace::lit(m, w, h, trace::around(p, 4)) == (4 == a || 4 == b));
    assert(trace::lit(m, w, h, trace::around(p, 5)) == (5 == a || 5 == b));
    assert(trace::lit(m, w, h, trace::around(p, 6)) == (6 == a || 6 == b));
    assert(trace::lit(m, w, h, trace::around(p, 7)) == (7 == a || 7 == b));
}

/// The first end of a line is where it is walked from.
proof fn lemma_chain_is_walked(m: Seq<bool>, w: int, h: int, c: Seq<(int, int)>, n: int)
    requires
        sized(m, w, h),
        0 <= n <= w * h,
        chain(m, w, h, c),
        trace::index(w, c[0]) < trace::index(w, c.last()),
    ensures
        ({
            let (done, seen) = trace::walks(m, w, h, trace::tips(m, w, h, n));
            if n <= trace::index(w, c[0]) {
                seen_up_to(w, seen, c, 0)
            } else {
                seen_up_to(w, seen, c, c.len() as int) && done.contains(c)
            }
        }),
    decreases n,
{
    let from = trace::tips(m, w, h, n);
    assert(trace::lit(m, w, h, c[0]) && trace::lit(m, w, h, c[c.len() - 1]));
    trace::lemma_index(w, h, c[0]);
    trace::lemma_index(w, h, c.last());
    if n == 0 {
        let seen = trace::walks(m, w, h, from).1;
        assert forall|i: int| 0 <= i < c.len() implies seen[trace::index(w, #[trigger] c[i])]
            == (i < 0) by {
            assert(trace::lit(m, w, h, c[i]));
            trace::lemma_index(w, h, c[i]);
        }
    } else {
        lemma_chain_is_walked(m, w, h, c, n - 1);
        let before = trace::tips(m, w, h, n - 1);
        let s = trace::pixel(w, n - 1);
        trace::lemma_pixel(w, h, n - 1);
        lemma_chain_degree(m, w, h, c, 0);
        lemma_chain_degree(m, w, h, c, c.len() - 1);
        lemma_tips_starts(m, w, h, n - 1);
        lemma_walks(m, w, h, before);
        let (done, seen) = trace::walks(m, w, h, before);
        if m[n - 1] && trace::degree(m, w, h, s, 8) == 1 {
            assert(from.drop_last() =~= before && from.last() == s);
            let at = trace::index(w, s);
            assert(at == n - 1);
            if !seen[at] {
                let start = seen.update(at, true);
                let (path, now) = trace::walk(m, w, h, start, seq![s]);
                assert(seq![s].last() == s);
                if goes_through(c, s) {
                    let i = choose|i: int| 0 <= i < c.len() && #[trigger] c[i] == s;
                    lemma_chain_degree(m, w, h, c, i);
                    assert(seen[trace::index(w, c[i])] == (i < (if n - 1 <= trace::index(w, c[0]) {
                        0
                    } else {
                        c.len() as int
                    })));
                    assert(n - 1 <= trace::index(w, c[0]));
                    assert(i == 0);
                    assert forall|j: int| 0 <= j < c.len() implies start[trace::index(
                        w,
                        #[trigger] c[j],
                    )] == (j < 1) by {
                        assert(trace::lit(m, w, h, c[j]));
                        trace::lemma_index(w, h, c[j]);
                        if trace::index(w, c[j]) == at {
                            lemma_same_index(w, h, c[j], s);
                            if j > 0 {
                                assert(c[0] != c[j]);
                            }
                        }
                    }
                    assert(seq![s] =~= c.take(1));
                    lemma_walk_on_chain(m, w, h, c, start, 1);
                    assert(done.push(path)[done.len() as int] == c);
                } else {
                    let k = if n - 1 <= trace::index(w, c[0]) {
                        0
                    } else {
                        c.len() as int
                    };
                    assert forall|j: int| 0 <= j < c.len() implies start[trace::index(
                        w,
                        #[trigger] c[j],
                    )] == (j < k) by {
                        assert(trace::lit(m, w, h, c[j]));
                        trace::lemma_index(w, h, c[j]);
                        if trace::index(w, c[j]) == at {
                            lemma_same_index(w, h, c[j], s);
                            assert(goes_through(c, s));
                        }
                    }
                    lemma_walk_beside_chain(m, w, h, c, start, seq![s], k);
                    if n - 1 == trace::index(w, c[0]) {
                        assert(c[0] == s);
                        assert(goes_through(c, s));
                    }
                    if k > 0 {
                        let j = choose|j: int| 0 <= j < done.len() && done[j] == c;
                        assert(done.push(path)[j] == c);
                    }
                }
            } else if n - 1 == trace::index(w, c[0]) {
                assert(seen[trace::index(w, c[0])] == (0 < 0));
            }
        } else if n - 1 == trace::index(w, c[0]) {
            assert(c[0] == s);
        }
    }
}

proof fn lemma_tips_starts(m: Seq<bool>, w: int, h: int, n: int)
    requires
        sized(m, w, h),
        0 <= n <= w * h,
    ensures
        forall|i: int|
            0 <= i < trace::tips(m, w, h, n).len() ==> trace::lit(
                m,
                w,
                h,
                #[trigger] trace::tips(m, w, h, n)[i],
            ),
    decreases n,
{
    if n > 0 {
        lemma_tips_starts(m, w, h, n - 1);
        assert(0 < w) by (nonlinear_arith)
            requires
                0 < w * h,
                0 <= w,
        ;
        trace::lemma_pixel(w, h, n - 1);
        let all = trace::tips(m, w, h, n);
        let before = trace::tips(m, w, h, n - 1);
        assert forall|i: int| 0 <= i < all.len() implies trace::lit(m, w, h, #[trigger] all[i]) by {
            if i < before.len() {
                assert(all[i] == before[i]);
            }
        }
    }
}

/// Walks that are done stay done.
proof fn lemma_walks_stay(
    m: Seq<bool>,
    w: int,
    h: int,
    a: Seq<(int, int)>,
    b: Seq<(int, int)>,
    path: Seq<(int, int)>,
)
    requires
        trace::walks(m, w, h, a).0.contains(path),
    ensures
        trace::walks(m, w, h, a + b).0.contains(path),
    decreases b.len(),
{
    if b.len() == 0 {
        assert(a + b =~= a);
    } else {
        lemma_walks_stay(m, w, h, a, b.drop_last(), path);
        assert((a + b).drop_last() =~= a + b.drop_last());
        let done = trace::walks(m, w, h, a + b.drop_last()).0;
        let all = trace::walks(m, w, h, a + b).0;
        let k = choose|k: int| 0 <= k < done.len() && done[k] == path;
        assert(all[k] == path);
    }
}

/// `p` comes before `q` when a page is read.
pub open spec fn reads_before(p: (int, int), q: (int, int)) -> bool {
    p.1 < q.1 || p.1 == q.1 && p.0 < q.0
}

/// A line of three pixels or more is one stroke through all of them, from the
/// end that is read first to the other.
pub proof fn law_a_line_is_one_stroke(m: Seq<bool>, w: int, h: int, c: Seq<(int, int)>)
    requires
        sized(m, w, h),
        c.len() >= 3,
        chain(m, w, h, c),
        reads_before(c[0], c.last()),
    ensures
        trace::traced(m, w, h).contains(c),
{
    assert(trace::lit(m, w, h, c[0]) && trace::lit(m, w, h, c[c.len() - 1]));
    trace::lemma_index(w, h, c[0]);
    trace::lemma_index(w, h, c.last());
    let (p, q) = (c[0], c.last());
    assert(p.1 * w + p.0 < q.1 * w + q.0) by (nonlinear_arith)
        requires
            p.1 < q.1 || p.1 == q.1 && p.0 < q.0,
            0 <= p.0 < w,
            0 <= q.0 < w,
    ;
    lemma_chain_is_walked(m, w, h, c, w * h);
    let first = trace::tips(m, w, h, w * h);
    let rest = trace::inked(m, w, w * h);
    lemma_walks_stay(m, w, h, first, rest, c);
    let done = trace::walks(m, w, h, trace::starts(m, w, h)).0;
    let kept = trace::long_enough(done);
    lemma_long_enough(done);
    lemma_left_to_right(kept);
    let i = choose|i: int| 0 <= i < done.len() && done[i] == c;
    assert(kept.contains(done[i]));
    let j = choose|j: int| 0 <= j < kept.len() && kept[j] == c;
    assert(trace::traced(m, w, h).contains(kept[j]));
}

} // verus!
