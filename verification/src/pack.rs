//! Packing rectangles into a square, tallest first, along a skyline.
//!
//! The skyline is the upper outline of what has been placed so far: a list
//! of stretches `V2(x, y)`, each beginning at column `x` and reaching to the
//! beginning of the next (the last one to the right edge of the square),
//! filled up to height `y`.

use vstd::prelude::*;
use crate::geom::{area_at, ints, lemma_ints_push, Area, V2};

verus! {

/// Rectangle `i` is placed before rectangle `j`: the taller one first, of
/// two equally tall ones the wider, of two equal ones the earlier.
pub open spec fn precedes(rects: Seq<V2<int>>, i: int, j: int) -> bool {
    let a = rects[i];
    let b = rects[j];
    a.1 > b.1 || (a.1 == b.1 && (a.0 > b.0 || (a.0 == b.0 && i < j)))
}

/// The first position from `p` on whose entry in `order` rectangle `i`
/// precedes; the length of `order` where there is none.
pub open spec fn slot_from(rects: Seq<V2<int>>, order: Seq<int>, i: int, p: int) -> int
    decreases order.len() - p,
{
    if p < 0 || p >= order.len() || precedes(rects, i, order[p]) {
        p
    } else {
        slot_from(rects, order, i, p + 1)
    }
}

/// The indices of the first `n` rectangles in the order in which they are
/// placed.
pub open spec fn pack_order(rects: Seq<V2<int>>, n: int) -> Seq<int>
    decreases n,
{
    if n <= 0 {
        Seq::empty()
    } else {
        let order = pack_order(rects, n - 1);
        order.insert(slot_from(rects, order, n - 1, 0), n - 1)
    }
}

/// `order` lists each of the indices `0..n` once, and each entry precedes
/// all that follow it.
pub open spec fn is_sorted_order(rects: Seq<V2<int>>, n: int, order: Seq<int>) -> bool {
    &&& order.len() == n
    &&& forall|a: int| 0 <= a < order.len() ==> 0 <= #[trigger] order[a] < n
    &&& forall|i: int| 0 <= i < n ==> order.contains(i)
    &&& forall|a: int, b: int|
        0 <= a < b < order.len() ==> precedes(rects, #[trigger] order[a], #[trigger] order[b])
}

/// The slot lies between `p` and the end of `order`; rectangle `i` precedes
/// the entry at the slot and none of the entries from `p` up to it.
proof fn lemma_slot_from(rects: Seq<V2<int>>, order: Seq<int>, i: int, p: int)
    requires
        0 <= p <= order.len(),
    ensures
        p <= slot_from(rects, order, i, p) <= order.len(),
        forall|q: int|
            p <= q < slot_from(rects, order, i, p) ==> !precedes(rects, i, #[trigger] order[q]),
        slot_from(rects, order, i, p) < order.len() ==> precedes(
            rects,
            i,
            order[slot_from(rects, order, i, p)],
        ),
    decreases order.len() - p,
{
    if p < order.len() && !precedes(rects, i, order[p]) {
        lemma_slot_from(rects, order, i, p + 1);
    }
}

/// The order of placement is the sorted one: it lists every rectangle once,
/// and each one precedes all that come after it.
pub proof fn lemma_pack_order_sorted(rects: Seq<V2<int>>, n: int)
    requires
        0 <= n <= rects.len(),
    ensures
        is_sorted_order(rects, n, pack_order(rects, n)),
        pack_order(rects, n).no_duplicates(),
    decreases n,
{
    if n > 0 {
        lemma_pack_order_sorted(rects, n - 1);
        let prev = pack_order(rects, n - 1);
        let slot = slot_from(rects, prev, n - 1, 0);
        lemma_slot_from(rects, prev, n - 1, 0);
        let order = prev.insert(slot, n - 1);
        assert(order == pack_order(rects, n));
        assert forall|i: int| 0 <= i < n implies order.contains(i) by {
            if i == n - 1 {
                assert(order[slot] == i);
            } else {
                assert(prev.contains(i));
                let a = choose|a: int| 0 <= a < prev.len() && prev[a] == i;
                if a < slot {
                    assert(order[a] == i);
                } else {
                    assert(order[a + 1] == i);
                }
            }
        }
        assert forall|a: int, b: int| 0 <= a < b < order.len() implies precedes(
            rects,
            #[trigger] order[a],
            #[trigger] order[b],
        ) by {
            if a == slot {
                assert(order[b] == prev[b - 1]);
                assert(precedes(rects, n - 1, prev[slot]));
                if b - 1 > slot {
                    assert(precedes(rects, prev[slot], prev[b - 1]));
                }
            } else if b == slot {
                assert(order[a] == prev[a]);
                assert(!precedes(rects, n - 1, prev[a]));
            } else {
                let pa = if a < slot { a } else { a - 1 };
                let pb = if b < slot { b } else { b - 1 };
                assert(order[a] == prev[pa] && order[b] == prev[pb]);
            }
        }
        assert forall|a: int, b: int|
            0 <= a < order.len() && 0 <= b < order.len() && a != b implies order[a] != order[b] by {
            if a < b {
                assert(precedes(rects, order[a], order[b]));
            } else {
                assert(precedes(rects, order[b], order[a]));
            }
        }
    }
}

/// `sky` is a skyline over the square of the given side: it begins at the
/// left edge, its stretches begin at strictly increasing columns inside the
/// square, and no height exceeds the side.
pub open spec fn skyline_wf(sky: Seq<V2<int>>, side: int) -> bool {
    &&& sky.len() >= 1
    &&& sky[0].0 == 0
    &&& forall|i: int, j: int|
        0 <= i < j < sky.len() ==> (#[trigger] sky[i]).0 < (#[trigger] sky[j]).0
    &&& forall|i: int| 0 <= i < sky.len() ==> 0 <= (#[trigger] sky[i]).1 <= side
    &&& forall|i: int| 0 < i < sky.len() ==> (#[trigger] sky[i]).0 < side
}

/// The column at which stretch `i` ends: where the next one begins, or the
/// right edge of the square.
pub open spec fn stretch_end(sky: Seq<V2<int>>, side: int, i: int) -> int {
    if i + 1 < sky.len() {
        sky[i + 1].0
    } else {
        side
    }
}

/// The greatest height among stretch `i` and the stretches after it that
/// begin left of column `right`.
pub open spec fn top_from(sky: Seq<V2<int>>, i: int, right: int) -> int
    decreases sky.len() - i,
{
    if 0 <= i && i + 1 < sky.len() && sky[i + 1].0 < right {
        let rest = top_from(sky, i + 1, right);
        if sky[i].1 >= rest {
            sky[i].1
        } else {
            rest
        }
    } else {
        sky[i].1
    }
}

/// The height at which a rectangle of width `w` comes to rest when its left
/// edge is put at the beginning of stretch `i`.
pub open spec fn rest_height(sky: Seq<V2<int>>, i: int, w: int) -> int {
    top_from(sky, i, sky[i].0 + w)
}

/// A rectangle of width `w` with its left edge at the beginning of stretch
/// `i` ends inside the square.
pub open spec fn can_start(sky: Seq<V2<int>>, side: int, i: int, w: int) -> bool {
    0 <= i < sky.len() && sky[i].0 + w <= side
}

/// Stretch `i` is where a rectangle of width `w` goes: it can start there,
/// nowhere does it rest lower, and everywhere to the left it rests higher.
pub open spec fn is_best_start(sky: Seq<V2<int>>, side: int, w: int, i: int) -> bool {
    &&& can_start(sky, side, i, w)
    &&& forall|j: int| #[trigger]
        can_start(sky, side, j, w) ==> rest_height(sky, i, w) <= rest_height(sky, j, w)
    &&& forall|j: int| #[trigger]
        can_start(sky, side, j, w) && j < i ==> rest_height(sky, i, w) < rest_height(sky, j, w)
}

/// The stretch among the first `n` at which a rectangle of width `w` rests
/// lowest, the leftmost of several.
pub open spec fn best_upto(sky: Seq<V2<int>>, side: int, w: int, n: int) -> int
    decreases n,
{
    if n <= 1 {
        0
    } else {
        let best = best_upto(sky, side, w, n - 1);
        if can_start(sky, side, n - 1, w) && rest_height(sky, n - 1, w) < rest_height(
            sky,
            best,
            w,
        ) {
            n - 1
        } else {
            best
        }
    }
}

/// The stretch at which a rectangle of width `w` is placed.
pub open spec fn best_start(sky: Seq<V2<int>>, side: int, w: int) -> int {
    best_upto(sky, side, w, sky.len() as int)
}

/// The first stretch from `k` on that begins at or right of column `right`;
/// the number of stretches where there is none.
pub open spec fn next_from(sky: Seq<V2<int>>, k: int, right: int) -> int
    decreases sky.len() - k,
{
    if 0 <= k < sky.len() && sky[k].0 < right {
        next_from(sky, k + 1, right)
    } else {
        k
    }
}

/// The skyline after a rectangle of width `w` was put at the beginning of
/// stretch `i` with its upper edge at height `top`: one stretch at `top`
/// stands for the columns it covers, and where it ends inside a stretch the
/// rest of that stretch keeps its height.
pub open spec fn raised(sky: Seq<V2<int>>, side: int, i: int, w: int, top: int) -> Seq<V2<int>> {
    if w <= 0 {
        sky
    } else {
        let right = sky[i].0 + w;
        let k = next_from(sky, i + 1, right);
        let head = sky.subrange(0, i).push(V2(sky[i].0, top));
        let tail = sky.subrange(k, sky.len() as int);
        if right < stretch_end(sky, side, k - 1) {
            head.push(V2(right, sky[k - 1].1)) + tail
        } else {
            head + tail
        }
    }
}

/// Where a rectangle of the given dimensions is placed on the skyline, and
/// the skyline after it; `None` where it is wider than the square or would
/// reach above it.
pub open spec fn place(sky: Seq<V2<int>>, side: int, w: int, h: int) -> Option<
    (V2<int>, Seq<V2<int>>),
> {
    if w > side {
        None
    } else {
        let i = best_start(sky, side, w);
        let y = rest_height(sky, i, w);
        if y + h > side {
            None
        } else {
            Some((V2(sky[i].0, y), raised(sky, side, i, w, y + h)))
        }
    }
}

/// A state of packing: the skyline, and the position of each rectangle
/// placed so far.
pub struct Packing {
    pub sky: Seq<V2<int>>,
    pub at: Seq<V2<int>>,
}

/// The state after the first `k` rectangles of `order` were placed on an
/// empty square; `None` as soon as one of them does not fit.
pub open spec fn packed_upto(side: int, rects: Seq<V2<int>>, order: Seq<int>, k: int) -> Option<
    Packing,
>
    decreases k,
{
    if k <= 0 {
        Some(Packing { sky: seq![V2(0int, 0int)], at: Seq::new(rects.len(), |i: int| V2(0int, 0int)) })
    } else {
        match packed_upto(side, rects, order, k - 1) {
            None => None,
            Some(prev) => {
                let r = rects[order[k - 1]];
                match place(prev.sky, side, r.0, r.1) {
                    None => None,
                    Some((pos, sky)) => Some(
                        Packing { sky, at: prev.at.update(order[k - 1], pos) },
                    ),
                }
            },
        }
    }
}

/// The positions that packing gives to rectangles of dimensions `rects` in a
/// square of the given side, in the order of `rects`; `None` where they do
/// not all fit.
pub open spec fn packing(side: int, rects: Seq<V2<int>>) -> Option<Seq<V2<int>>> {
    match packed_upto(side, rects, pack_order(rects, rects.len() as int), rects.len() as int) {
        None => None,
        Some(p) => Some(p.at),
    }
}

/// Wherever the skyline runs over columns of `r`, it is at or above the
/// upper edge of `r`.
pub open spec fn supports(sky: Seq<V2<int>>, side: int, r: Area) -> bool {
    forall|j: int|
        0 <= j < sky.len() && r.w > 0 && (#[trigger] sky[j]).0 < r.x + r.w && r.x < stretch_end(
            sky,
            side,
            j,
        ) ==> sky[j].1 >= r.y + r.h
}

/// The greatest height from stretch `i` on is a height of the skyline,
/// and no stretch that it ranges over is higher.
proof fn lemma_top_from(sky: Seq<V2<int>>, side: int, i: int, right: int)
    requires
        skyline_wf(sky, side),
        0 <= i < sky.len(),
    ensures
        0 <= top_from(sky, i, right) <= side,
        forall|j: int|
            i <= j < sky.len() && (j == i || (#[trigger] sky[j]).0 < right) ==> sky[j].1
                <= top_from(sky, i, right),
    decreases sky.len() - i,
{
    if i + 1 < sky.len() && sky[i + 1].0 < right {
        lemma_top_from(sky, side, i + 1, right);
    } else {
        assert forall|j: int|
            i <= j < sky.len() && (j == i || (#[trigger] sky[j]).0 < right) implies j == i by {
            if j > i + 1 {
                assert(sky[i + 1].0 < sky[j].0);
            }
        }
    }
}

/// The stretches from `k` up to `next_from` begin left of `right`, and the
/// stretch at `next_from`, if there is one, does not.
proof fn lemma_next_from(sky: Seq<V2<int>>, k: int, right: int)
    requires
        0 <= k <= sky.len(),
    ensures
        k <= next_from(sky, k, right) <= sky.len(),
        forall|j: int| k <= j < next_from(sky, k, right) ==> (#[trigger] sky[j]).0 < right,
        next_from(sky, k, right) < sky.len() ==> sky[next_from(sky, k, right)].0 >= right,
    decreases sky.len() - k,
{
    if k < sky.len() && sky[k].0 < right {
        lemma_next_from(sky, k + 1, right);
    }
}

/// A column between the beginning of stretch `lo` and the end of stretch
/// `hi - 1` lies in one of the stretches from `lo` to `hi - 1`.
proof fn lemma_stretch_over(sky: Seq<V2<int>>, side: int, lo: int, hi: int, c: int) -> (j: int)
    requires
        skyline_wf(sky, side),
        0 <= lo < hi <= sky.len(),
        sky[lo].0 <= c < stretch_end(sky, side, hi - 1),
    ensures
        lo <= j < hi,
        sky[j].0 <= c < stretch_end(sky, side, j),
    decreases hi - lo,
{
    if c < stretch_end(sky, side, lo) {
        lo
    } else {
        lemma_stretch_over(sky, side, lo + 1, hi, c)
    }
}

/// Among the first `n` stretches, `best_upto` names the one that
/// `is_best_start` describes.
proof fn lemma_best_upto(sky: Seq<V2<int>>, side: int, w: int, n: int)
    requires
        skyline_wf(sky, side),
        0 <= w <= side,
        1 <= n <= sky.len(),
    ensures
        0 <= best_upto(sky, side, w, n) < n,
        can_start(sky, side, best_upto(sky, side, w, n), w),
        forall|j: int| #[trigger]
            can_start(sky, side, j, w) && j < n ==> rest_height(
                sky,
                best_upto(sky, side, w, n),
                w,
            ) <= rest_height(sky, j, w),
        forall|j: int| #[trigger]
            can_start(sky, side, j, w) && j < best_upto(sky, side, w, n) ==> rest_height(
                sky,
                best_upto(sky, side, w, n),
                w,
            ) < rest_height(sky, j, w),
    decreases n,
{
    if n > 1 {
        lemma_best_upto(sky, side, w, n - 1);
    }
}

/// The stretch at which a rectangle no wider than the square is placed is
/// the one where it rests lowest, and the leftmost of these.
pub proof fn lemma_best_start(sky: Seq<V2<int>>, side: int, w: int)
    requires
        skyline_wf(sky, side),
        0 <= w <= side,
    ensures
        is_best_start(sky, side, w, best_start(sky, side, w)),
{
    lemma_best_upto(sky, side, w, sky.len() as int);
}

/// The stretch of `sky` from which stretch `j` of the raised skyline comes.
pub open spec fn origin(sky: Seq<V2<int>>, side: int, i: int, w: int, j: int) -> int {
    let right = sky[i].0 + w;
    let k = next_from(sky, i + 1, right);
    if j < i {
        j
    } else if right < stretch_end(sky, side, k - 1) {
        if j == i + 1 {
            k - 1
        } else {
            j - (i + 2) + k
        }
    } else {
        j - (i + 1) + k
    }
}

/// What raising does to a skyline: stretch `i` now stands for the columns
/// under the rectangle, at its upper edge; every other stretch is a part
/// of an earlier one, at that one's height, and lies wholly left or
/// wholly right of the rectangle.
proof fn lemma_raised_shape(sky: Seq<V2<int>>, side: int, i: int, w: int, top: int)
    requires
        skyline_wf(sky, side),
        can_start(sky, side, i, w),
        w > 0,
        0 <= top <= side,
    ensures
        skyline_wf(raised(sky, side, i, w, top), side),
        i < raised(sky, side, i, w, top).len(),
        raised(sky, side, i, w, top)[i] == V2(sky[i].0, top),
        stretch_end(raised(sky, side, i, w, top), side, i) == sky[i].0 + w,
        forall|j: int|
            #![trigger raised(sky, side, i, w, top)[j]]
            0 <= j < raised(sky, side, i, w, top).len() && j != i ==> {
                &&& 0 <= origin(sky, side, i, w, j) < sky.len()
                &&& raised(sky, side, i, w, top)[j].1 == sky[origin(sky, side, i, w, j)].1
                &&& sky[origin(sky, side, i, w, j)].0 <= raised(sky, side, i, w, top)[j].0
                &&& stretch_end(raised(sky, side, i, w, top), side, j) <= stretch_end(
                    sky,
                    side,
                    origin(sky, side, i, w, j),
                )
                &&& (j < i ==> stretch_end(raised(sky, side, i, w, top), side, j) <= sky[i].0)
                &&& (j > i ==> raised(sky, side, i, w, top)[j].0 >= sky[i].0 + w)
            },
{
    let right = sky[i].0 + w;
    let k = next_from(sky, i + 1, right);
    lemma_next_from(sky, i + 1, right);
    let new = raised(sky, side, i, w, top);
    let head = sky.subrange(0, i).push(V2(sky[i].0, top));
    let tail = sky.subrange(k, sky.len() as int);
    let split = right < stretch_end(sky, side, k - 1);
    assert(head.len() == i + 1);
    assert(tail.len() == sky.len() - k);
    if split {
        let mid = head.push(V2(right, sky[k - 1].1));
        assert(new == mid + tail);
        assert(new.len() == i + 2 + sky.len() - k);
        assert(new[i] == mid[i]);
        assert(new[i + 1] == mid[i + 1]);
        assert forall|j: int| 0 <= j < i implies new[j] == sky[j] by {
            assert(new[j] == mid[j]);
        }
        assert forall|j: int| i + 2 <= j < new.len() implies new[j] == sky[j - (i + 2) + k] by {
            assert(new[j] == tail[j - (i + 2)]);
        }
    } else {
        assert(new == head + tail);
        assert(new.len() == i + 1 + sky.len() - k);
        assert(new[i] == head[i]);
        assert forall|j: int| 0 <= j < i implies new[j] == sky[j] by {
            assert(new[j] == head[j]);
        }
        assert forall|j: int| i + 1 <= j < new.len() implies new[j] == sky[j - (i + 1) + k] by {
            assert(new[j] == tail[j - (i + 1)]);
        }
    }
    assert forall|a: int, b: int| 0 <= a < b < new.len() implies (#[trigger] new[a]).0 < (
    #[trigger] new[b]).0 by {
        let oa = if a <= i { a } else { origin(sky, side, i, w, a) };
        let ob = if b <= i { b } else { origin(sky, side, i, w, b) };
        if a <= i {
            assert(new[a].0 == sky[a].0);
        }
        if b <= i {
            assert(new[b].0 == sky[b].0);
        } else if split && b == i + 1 {
            assert(new[b].0 == right);
        } else {
            assert(new[b] == sky[ob]);
            assert(sky[ob].0 >= right) by {
                if ob > k {
                    assert(sky[k].0 < sky[ob].0);
                }
            }
        }
        if a > i {
            if split && a == i + 1 {
                assert(new[a].0 == right);
                assert(ob >= k);
                if ob > k {
                    assert(sky[k].0 < sky[ob].0);
                }
            } else {
                assert(new[a] == sky[oa]);
                assert(oa < ob);
            }
        }
    }
    assert forall|j: int| 0 < j < new.len() implies (#[trigger] new[j]).0 < side by {
        if j <= i {
            assert(new[j].0 == sky[j].0);
        } else if split && j == i + 1 {
        } else {
            assert(new[j] == sky[origin(sky, side, i, w, j)]);
        }
    }
    assert forall|j: int| 0 <= j < new.len() implies 0 <= (#[trigger] new[j]).1 <= side by {
        if j < i {
            assert(new[j] == sky[j]);
        } else if j == i {
        } else if split && j == i + 1 {
            assert(new[j].1 == sky[k - 1].1);
        } else {
            assert(new[j] == sky[origin(sky, side, i, w, j)]);
        }
    }
    assert(new[0].0 == 0) by {
        if i > 0 {
            assert(new[0] == sky[0]);
        }
    }
    assert(stretch_end(new, side, i) == right) by {
        if !split && k < sky.len() {
            assert(new[i + 1] == sky[k]);
        }
    }
    assert forall|j: int| #![trigger new[j]] 0 <= j < new.len() && j != i implies {
        &&& 0 <= origin(sky, side, i, w, j) < sky.len()
        &&& new[j].1 == sky[origin(sky, side, i, w, j)].1
        &&& sky[origin(sky, side, i, w, j)].0 <= new[j].0
        &&& stretch_end(new, side, j) <= stretch_end(sky, side, origin(sky, side, i, w, j))
        &&& (j < i ==> stretch_end(new, side, j) <= sky[i].0)
        &&& (j > i ==> new[j].0 >= sky[i].0 + w)
    } by {
        let o = origin(sky, side, i, w, j);
        if j < i {
            assert(new[j] == sky[j]);
            assert(new[j + 1].0 == sky[j + 1].0) by {
                if j + 1 < i {
                    assert(new[j + 1] == sky[j + 1]);
                }
            }
            if j + 1 < i {
                assert(sky[j + 1].0 < sky[i].0);
            }
        } else if split && j == i + 1 {
            if k - 1 > i {
                assert(sky[k - 1].0 < right);
            }
            if j + 1 < new.len() {
                assert(new[j + 1] == sky[k]);
            }
        } else {
            assert(new[j] == sky[o]);
            if j + 1 < new.len() {
                assert(new[j + 1] == sky[o + 1]);
            }
            if o > k {
                assert(sky[k].0 < sky[o].0);
            }
        }
    }
}

/// The rectangle that entry `a` of `order` occupies under the positions `at`.
pub open spec fn spot(at: Seq<V2<int>>, rects: Seq<V2<int>>, order: Seq<int>, a: int) -> Area {
    area_at(at[order[a]], rects[order[a]])
}

/// What holds after the first `k` rectangles of `order` were placed: each
/// lies inside the square, no two of them overlap, and the skyline runs on
/// or above each of them.
pub open spec fn packed_well(
    side: int,
    rects: Seq<V2<int>>,
    order: Seq<int>,
    k: int,
    p: Packing,
) -> bool {
    &&& skyline_wf(p.sky, side)
    &&& p.at.len() == rects.len()
    &&& forall|a: int| 0 <= a < k ==> (#[trigger] spot(p.at, rects, order, a)).within(side)
    &&& forall|a: int| 0 <= a < k ==> supports(p.sky, side, #[trigger] spot(p.at, rects, order, a))
    &&& forall|a: int, b: int|
        0 <= a < b < k ==> !(#[trigger] spot(p.at, rects, order, a)).overlaps(
            #[trigger] spot(p.at, rects, order, b),
        )
}

/// A rectangle that is put where `place` says rests on or above every
/// rectangle under it that the skyline runs over.
proof fn lemma_rests_above(sky: Seq<V2<int>>, side: int, i: int, w: int, r: Area)
    requires
        skyline_wf(sky, side),
        can_start(sky, side, i, w),
        w > 0,
        supports(sky, side, r),
        r.w > 0,
        sky[i].0 < r.x + r.w,
        r.x < sky[i].0 + w,
    ensures
        rest_height(sky, i, w) >= r.y + r.h,
{
    let right = sky[i].0 + w;
    let k = next_from(sky, i + 1, right);
    lemma_next_from(sky, i + 1, right);
    lemma_top_from(sky, side, i, right);
    let c = if sky[i].0 >= r.x { sky[i].0 } else { r.x };
    assert(right <= stretch_end(sky, side, k - 1));
    let j = lemma_stretch_over(sky, side, i, k, c);
    assert(j == i || sky[j].0 < right);
    assert(sky[j].1 >= r.y + r.h);
}

/// Raising the skyline for a rectangle that rests at or above `r` keeps
/// the skyline on or above `r`.
proof fn lemma_raised_supports_old(
    sky: Seq<V2<int>>,
    side: int,
    i: int,
    w: int,
    top: int,
    r: Area,
)
    requires
        skyline_wf(sky, side),
        can_start(sky, side, i, w),
        w > 0,
        rest_height(sky, i, w) <= top <= side,
        supports(sky, side, r),
    ensures
        supports(raised(sky, side, i, w, top), side, r),
{
    let new_sky = raised(sky, side, i, w, top);
    lemma_top_from(sky, side, i, sky[i].0 + w);
    lemma_raised_shape(sky, side, i, w, top);
    assert forall|j: int|
        0 <= j < new_sky.len() && r.w > 0 && (#[trigger] new_sky[j]).0 < r.x + r.w && r.x
            < stretch_end(new_sky, side, j) implies new_sky[j].1 >= r.y + r.h by {
        if j == i {
            lemma_rests_above(sky, side, i, w, r);
        } else {
            let o = origin(sky, side, i, w, j);
            assert(sky[o].1 >= r.y + r.h);
        }
    }
}

/// After the skyline was raised for a rectangle, it runs on or above it.
proof fn lemma_raised_supports_new(sky: Seq<V2<int>>, side: int, i: int, w: int, y: int, h: int)
    requires
        skyline_wf(sky, side),
        can_start(sky, side, i, w),
        w > 0,
        h >= 0,
        0 <= y,
        y + h <= side,
    ensures
        supports(
            raised(sky, side, i, w, y + h),
            side,
            Area { x: sky[i].0, y, w, h },
        ),
{
    let new_sky = raised(sky, side, i, w, y + h);
    let r = Area { x: sky[i].0, y, w, h };
    lemma_raised_shape(sky, side, i, w, y + h);
    assert forall|j: int|
        0 <= j < new_sky.len() && r.w > 0 && (#[trigger] new_sky[j]).0 < r.x + r.w && r.x
            < stretch_end(new_sky, side, j) implies new_sky[j].1 >= r.y + r.h by {
        assert(j == i);
    }
}

/// A rectangle put where `place` says overlaps no rectangle that the
/// skyline runs on or above.
proof fn lemma_placed_apart(sky: Seq<V2<int>>, side: int, i: int, w: int, h: int, r: Area)
    requires
        skyline_wf(sky, side),
        can_start(sky, side, i, w),
        supports(sky, side, r),
    ensures
        !r.overlaps(Area { x: sky[i].0, y: rest_height(sky, i, w), w, h }),
{
    if w > 0 && r.w > 0 && sky[i].0 < r.x + r.w && r.x < sky[i].0 + w {
        lemma_rests_above(sky, side, i, w, r);
    }
}

/// What one placement does: the rectangle lies inside the square and
/// apart from every rectangle that the skyline ran over, and the new
/// skyline runs over it and over all that the old one ran over.
proof fn lemma_place(sky: Seq<V2<int>>, side: int, w: int, h: int)
    requires
        skyline_wf(sky, side),
        w >= 0,
        h >= 0,
        place(sky, side, w, h) is Some,
    ensures
        skyline_wf(place(sky, side, w, h).unwrap().1, side),
        area_at(place(sky, side, w, h).unwrap().0, V2(w, h)).within(side),
        supports(
            place(sky, side, w, h).unwrap().1,
            side,
            area_at(place(sky, side, w, h).unwrap().0, V2(w, h)),
        ),
        forall|r: Area| #[trigger]
            supports(sky, side, r) ==> supports(place(sky, side, w, h).unwrap().1, side, r)
                && !r.overlaps(area_at(place(sky, side, w, h).unwrap().0, V2(w, h))),
{
    let i = best_start(sky, side, w);
    lemma_best_start(sky, side, w);
    let y = rest_height(sky, i, w);
    lemma_top_from(sky, side, i, sky[i].0 + w);
    let pos = V2(sky[i].0, y);
    let new_sky = raised(sky, side, i, w, y + h);
    assert(place(sky, side, w, h).unwrap() == (pos, new_sky));
    let mine = area_at(pos, V2(w, h));
    assert(sky[i].0 >= 0) by {
        if i > 0 {
            assert(sky[0].0 < sky[i].0);
        }
    }
    if w > 0 {
        lemma_raised_shape(sky, side, i, w, y + h);
        lemma_raised_supports_new(sky, side, i, w, y, h);
    }
    assert forall|r: Area| #[trigger] supports(sky, side, r) implies supports(new_sky, side, r)
        && !r.overlaps(mine) by {
        lemma_placed_apart(sky, side, i, w, h, r);
        if w > 0 {
            lemma_raised_supports_old(sky, side, i, w, y + h, r);
        }
    }
}

/// Placing one more rectangle keeps what `packed_well` states.
proof fn lemma_place_keeps(side: int, rects: Seq<V2<int>>, order: Seq<int>, k: int, prev: Packing)
    requires
        1 <= k <= order.len(),
        order.no_duplicates(),
        forall|a: int| 0 <= a < order.len() ==> 0 <= #[trigger] order[a] < rects.len(),
        forall|i: int| 0 <= i < rects.len() ==> (#[trigger] rects[i]).0 >= 0 && rects[i].1 >= 0,
        packed_well(side, rects, order, k - 1, prev),
        place(prev.sky, side, rects[order[k - 1]].0, rects[order[k - 1]].1) is Some,
    ensures
        packed_well(
            side,
            rects,
            order,
            k,
            Packing {
                sky: place(prev.sky, side, rects[order[k - 1]].0, rects[order[k - 1]].1).unwrap().1,
                at: prev.at.update(
                    order[k - 1],
                    place(prev.sky, side, rects[order[k - 1]].0, rects[order[k - 1]].1).unwrap().0,
                ),
            },
        ),
{
    let me = order[k - 1];
    let w = rects[me].0;
    let h = rects[me].1;
    let placed = place(prev.sky, side, w, h).unwrap();
    let at = prev.at.update(me, placed.0);
    let mine = area_at(placed.0, V2(w, h));
    lemma_place(prev.sky, side, w, h);
    assert(rects[me] == V2(w, h));
    assert(spot(at, rects, order, k - 1) == mine);
    assert forall|a: int| 0 <= a < k - 1 implies #[trigger] spot(at, rects, order, a) == spot(
        prev.at,
        rects,
        order,
        a,
    ) by {
        assert(order[a] != order[k - 1]);
    }
    assert forall|a: int| 0 <= a < k implies (#[trigger] spot(at, rects, order, a)).within(side)
        && supports(placed.1, side, spot(at, rects, order, a)) by {
        if a < k - 1 {
            let r = spot(prev.at, rects, order, a);
            assert(r.within(side));
            assert(supports(prev.sky, side, r));
        }
    }
    assert forall|a: int, b: int| 0 <= a < b < k implies !(#[trigger] spot(
        at,
        rects,
        order,
        a,
    )).overlaps(#[trigger] spot(at, rects, order, b)) by {
        let ra = spot(prev.at, rects, order, a);
        if b == k - 1 {
            assert(supports(prev.sky, side, ra));
        } else {
            assert(!ra.overlaps(spot(prev.at, rects, order, b)));
        }
    }
}

/// Every state that packing reaches is one that `packed_well` accepts.
proof fn lemma_packed_upto(side: int, rects: Seq<V2<int>>, order: Seq<int>, k: int)
    requires
        side >= 0,
        0 <= k <= order.len(),
        order.no_duplicates(),
        forall|a: int| 0 <= a < order.len() ==> 0 <= #[trigger] order[a] < rects.len(),
        forall|i: int| 0 <= i < rects.len() ==> (#[trigger] rects[i]).0 >= 0 && rects[i].1 >= 0,
    ensures
        packed_upto(side, rects, order, k) matches Some(p) ==> packed_well(
            side,
            rects,
            order,
            k,
            p,
        ),
    decreases k,
{
    if k > 0 {
        lemma_packed_upto(side, rects, order, k - 1);
        if let Some(prev) = packed_upto(side, rects, order, k - 1) {
            let r = rects[order[k - 1]];
            if place(prev.sky, side, r.0, r.1) is Some {
                lemma_place_keeps(side, rects, order, k, prev);
            }
        }
    }
}

/// Once a rectangle does not fit, packing has failed for good.
proof fn lemma_packed_upto_none(side: int, rects: Seq<V2<int>>, order: Seq<int>, k: int, n: int)
    requires
        k <= n,
        packed_upto(side, rects, order, k) is None,
    ensures
        packed_upto(side, rects, order, n) is None,
    decreases n - k,
{
    if k < n {
        lemma_packed_upto_none(side, rects, order, k, n - 1);
    }
}

/// What `packed_well` states of the entries of a complete order holds of
/// the rectangles themselves.
proof fn lemma_packed_all(side: int, rects: Seq<V2<int>>, order: Seq<int>, at: Seq<V2<int>>)
    requires
        order.len() == rects.len(),
        forall|i: int| 0 <= i < rects.len() ==> order.contains(i),
        forall|a: int| 0 <= a < order.len() ==> (#[trigger] spot(at, rects, order, a)).within(side),
        forall|a: int, b: int|
            0 <= a < b < order.len() ==> !(#[trigger] spot(at, rects, order, a)).overlaps(
                #[trigger] spot(at, rects, order, b),
            ),
    ensures
        forall|i: int| 0 <= i < rects.len() ==> (#[trigger] area_at(at[i], rects[i])).within(side),
        forall|i: int, j: int|
            0 <= i < rects.len() && 0 <= j < rects.len() && i != j ==> !(#[trigger] area_at(
                at[i],
                rects[i],
            )).overlaps(#[trigger] area_at(at[j], rects[j])),
{
    assert forall|i: int| 0 <= i < rects.len() implies (#[trigger] area_at(
        at[i],
        rects[i],
    )).within(side) by {
        assert(order.contains(i));
        let a = choose|a: int| 0 <= a < order.len() && order[a] == i;
        assert(spot(at, rects, order, a).within(side));
    }
    assert forall|i: int, j: int|
        0 <= i < rects.len() && 0 <= j < rects.len() && i != j implies !(#[trigger] area_at(
        at[i],
        rects[i],
    )).overlaps(#[trigger] area_at(at[j], rects[j])) by {
        assert(order.contains(i));
        assert(order.contains(j));
        let a = choose|a: int| 0 <= a < order.len() && order[a] == i;
        let b = choose|b: int| 0 <= b < order.len() && order[b] == j;
        if a < b {
            assert(!spot(at, rects, order, a).overlaps(spot(at, rects, order, b)));
        } else {
            assert(!spot(at, rects, order, b).overlaps(spot(at, rects, order, a)));
        }
    }
}

/// Where packing succeeds, it gives every rectangle a position inside the
/// square, and no two rectangles overlap.
pub proof fn lemma_packing_sound(side: int, rects: Seq<V2<int>>)
    requires
        side >= 0,
        forall|i: int| 0 <= i < rects.len() ==> (#[trigger] rects[i]).0 >= 0 && rects[i].1 >= 0,
    ensures
        packing(side, rects) matches Some(at) ==> {
            &&& at.len() == rects.len()
            &&& forall|i: int|
                0 <= i < rects.len() ==> (#[trigger] area_at(at[i], rects[i])).within(side)
            &&& forall|i: int, j: int|
                0 <= i < rects.len() && 0 <= j < rects.len() && i != j ==> !(#[trigger] area_at(
                    at[i],
                    rects[i],
                )).overlaps(#[trigger] area_at(at[j], rects[j]))
        },
{
    let n = rects.len() as int;
    let order = pack_order(rects, n);
    lemma_pack_order_sorted(rects, n);
    lemma_packed_upto(side, rects, order, n);
    if let Some(p) = packed_upto(side, rects, order, n) {
        assert(packing(side, rects) == Some(p.at));
        assert(packed_well(side, rects, order, n, p));
        lemma_packed_all(side, rects, order, p.at);
    }
}

/// A rectangle that is wider or taller than the square keeps packing from
/// succeeding.
pub proof fn lemma_packing_needs_room(side: int, rects: Seq<V2<int>>, i: int)
    requires
        side >= 0,
        forall|j: int| 0 <= j < rects.len() ==> (#[trigger] rects[j]).0 >= 0 && rects[j].1 >= 0,
        0 <= i < rects.len(),
        rects[i].0 > side || rects[i].1 > side,
    ensures
        packing(side, rects) is None,
{
    lemma_packing_sound(side, rects);
    if let Some(at) = packing(side, rects) {
        assert(area_at(at[i], rects[i]).within(side));
    }
}

/// The indices of `dims` in the order in which the rectangles are placed.
fn placement_order(dims: &Vec<V2<u32>>) -> (order: Vec<usize>)
    ensures
        order@.map_values(|i: usize| i as int) == pack_order(ints(dims@), dims.len() as int),
{
    let ghost rects = ints(dims@);
    let mut order: Vec<usize> = Vec::new();
    let mut n: usize = 0;
    while n < dims.len()
        invariant
            n <= dims.len(),
            rects == ints(dims@),
            order.len() == n,
            forall|a: int| 0 <= a < order.len() ==> 0 <= #[trigger] order[a] < n,
            order@.map_values(|i: usize| i as int) == pack_order(rects, n as int),
        decreases dims.len() - n,
    {
        let ghost prev = pack_order(rects, n as int);
        let mine: V2<u32> = dims[n];
        let mut p: usize = 0;
        while p < order.len() && !(mine.1 > dims[order[p]].1 || (mine.1 == dims[order[p]].1 && mine.0
            > dims[order[p]].0))
            invariant
                p <= order.len(),
                n < dims.len(),
                order.len() == n,
                rects == ints(dims@),
                mine == dims[n as int],
                forall|a: int| 0 <= a < order.len() ==> 0 <= #[trigger] order[a] < n,
                prev == order@.map_values(|i: usize| i as int),
                slot_from(rects, prev, n as int, 0) == slot_from(rects, prev, n as int, p as int),
            decreases order.len() - p,
        {
            proof {
                assert(prev[p as int] == order[p as int]);
                assert(!precedes(rects, n as int, prev[p as int]));
            }
            p = p + 1;
        }
        proof {
            if p < order.len() {
                assert(prev[p as int] == order[p as int]);
                assert(precedes(rects, n as int, prev[p as int]));
            }
            assert(slot_from(rects, prev, n as int, 0) == p);
        }
        order.insert(p, n);
        proof {
            assert(order@.map_values(|i: usize| i as int) =~= prev.insert(p as int, n as int));
        }
        n = n + 1;
    }
    order
}

/// The height at which a rectangle of width `w` rests at stretch `i`.
fn rest_at(sky: &Vec<V2<u32>>, side: u32, i: usize, w: u32) -> (y: u32)
    requires
        skyline_wf(ints(sky@), side as int),
        can_start(ints(sky@), side as int, i as int, w as int),
    ensures
        y == rest_height(ints(sky@), i as int, w as int),
        y <= side,
{
    let ghost s = ints(sky@);
    assert(s.len() == sky.len());
    let right: u32 = sky[i].0 + w;
    let mut y: u32 = sky[i].1;
    let mut j: usize = i + 1;
    proof {
        lemma_top_from(s, side as int, i as int, right as int);
    }
    while j < sky.len() && sky[j].0 < right
        invariant
            i < j <= sky.len(),
            s == ints(sky@),
            y <= side,
            skyline_wf(s, side as int),
            top_from(s, i as int, right as int) == if j < sky.len() && s[j as int].0 < right {
                if y >= top_from(s, j as int, right as int) {
                    y as int
                } else {
                    top_from(s, j as int, right as int)
                }
            } else {
                y as int
            },
        decreases sky.len() - j,
    {
        if sky[j].1 > y {
            y = sky[j].1;
        }
        j = j + 1;
    }
    y
}

/// The stretch at which a rectangle of width `w` is placed, and the height
/// at which it rests there.
fn find_start(sky: &Vec<V2<u32>>, side: u32, w: u32) -> (found: (usize, u32))
    requires
        skyline_wf(ints(sky@), side as int),
        w <= side,
    ensures
        found.0 == best_start(ints(sky@), side as int, w as int),
        found.0 < sky.len(),
        can_start(ints(sky@), side as int, found.0 as int, w as int),
        found.1 == rest_height(ints(sky@), found.0 as int, w as int),
        found.1 <= side,
{
    let ghost s = ints(sky@);
    let mut best: usize = 0;
    let mut best_y: u32 = rest_at(sky, side, 0, w);
    let mut n: usize = 1;
    while n < sky.len()
        invariant
            1 <= n <= sky.len(),
            s == ints(sky@),
            skyline_wf(s, side as int),
            w <= side,
            best == best_upto(s, side as int, w as int, n as int),
            best < n,
            can_start(s, side as int, best as int, w as int),
            best_y == rest_height(s, best as int, w as int),
            best_y <= side,
        decreases sky.len() - n,
    {
        if sky[n].0 <= side - w {
            let y: u32 = rest_at(sky, side, n, w);
            if y < best_y {
                best = n;
                best_y = y;
            }
        }
        n = n + 1;
    }
    (best, best_y)
}

/// Raises the skyline over the columns of a rectangle of width `w` put at
/// the beginning of stretch `i`, to the height `top`.
fn raise(sky: &mut Vec<V2<u32>>, side: u32, i: usize, w: u32, top: u32)
    requires
        skyline_wf(ints(old(sky)@), side as int),
        can_start(ints(old(sky)@), side as int, i as int, w as int),
        top <= side,
    ensures
        ints(final(sky)@) == raised(ints(old(sky)@), side as int, i as int, w as int, top as int),
{
    if w == 0 {
        return ;
    }
    let ghost s = ints(sky@);
    assert(s.len() == sky.len());
    let left: u32 = sky[i].0;
    let right: u32 = left + w;
    let mut k: usize = i + 1;
    while k < sky.len() && sky[k].0 < right
        invariant
            i < k <= sky.len(),
            s == ints(sky@),
            next_from(s, i + 1, right as int) == next_from(s, k as int, right as int),
        decreases sky.len() - k,
    {
        k = k + 1;
    }
    let end: u32 = if k < sky.len() { sky[k].0 } else { side };
    let tail_height: u32 = sky[k - 1].1;
    let mut out: Vec<V2<u32>> = Vec::new();
    let mut j: usize = 0;
    while j < i
        invariant
            j <= i < sky.len(),
            s == ints(sky@),
            ints(out@) == s.subrange(0, j as int),
        decreases i - j,
    {
        proof {
            lemma_ints_push(out@, sky[j as int]);
        }
        out.push(sky[j]);
        proof {
            assert(ints(out@) =~= s.subrange(0, j + 1));
        }
        j = j + 1;
    }
    proof {
        lemma_ints_push(out@, V2(left, top));
    }
    out.push(V2(left, top));
    let ghost head = s.subrange(0, i as int).push(V2(left as int, top as int));
    proof {
        assert(ints(out@) =~= head);
    }
    if right < end {
        proof {
            lemma_ints_push(out@, V2(right, tail_height));
        }
        out.push(V2(right, tail_height));
        proof {
            assert(ints(out@) =~= head.push(V2(right as int, tail_height as int)));
        }
    }
    let ghost mid = ints(out@);
    let mut t: usize = k;
    while t < sky.len()
        invariant
            k <= t <= sky.len(),
            s == ints(sky@),
            ints(out@) == mid + s.subrange(k as int, t as int),
        decreases sky.len() - t,
    {
        proof {
            lemma_ints_push(out@, sky[t as int]);
        }
        out.push(sky[t]);
        proof {
            assert(ints(out@) =~= mid + s.subrange(k as int, t + 1));
        }
        t = t + 1;
    }
    *sky = out;
}

/// Packs rectangles of the given dimensions (width, height) into a square
/// of the given side. The result holds the top-left corner of each
/// rectangle, in the order of `dims`; it is `None` where the rectangles do
/// not all fit.
pub fn pack_rectangles(side: u32, dims: &Vec<V2<u32>>) -> (packed: Option<Vec<V2<u32>>>)
    ensures
        match packed {
            Some(at) => packing(side as int, ints(dims@)) == Some(ints(at@)),
            None => packing(side as int, ints(dims@)) is None,
        },
        packed matches Some(at) ==> {
            &&& at.len() == dims.len()
            &&& forall|i: int|
                0 <= i < dims.len() ==> at[i].0 + dims[i].0 <= side && at[i].1 + dims[i].1 <= side
            &&& forall|i: int, j: int|
                0 <= i < dims.len() && 0 <= j < dims.len() && i != j ==> !(#[trigger] area_at(
                    ints(at@)[i],
                    ints(dims@)[i],
                )).overlaps(#[trigger] area_at(ints(at@)[j], ints(dims@)[j]))
        },
{
    let ghost rects = ints(dims@);
    let ghost n = dims.len() as int;
    let ghost order_spec = pack_order(rects, n);
    let order = placement_order(dims);
    proof {
        lemma_pack_order_sorted(rects, n);
        lemma_packing_sound(side as int, rects);
    }
    let mut at: Vec<V2<u32>> = Vec::new();
    let mut i: usize = 0;
    while i < dims.len()
        invariant
            i <= dims.len(),
            at.len() == i,
            forall|j: int| 0 <= j < at.len() ==> #[trigger] at[j] == V2(0u32, 0u32),
        decreases dims.len() - i,
    {
        at.push(V2(0, 0));
        i = i + 1;
    }
    let mut sky: Vec<V2<u32>> = Vec::new();
    sky.push(V2(0, 0));
    proof {
        assert(ints(sky@) =~= seq![V2(0int, 0int)]);
        assert(ints(at@) =~= Seq::new(rects.len(), |i: int| V2(0int, 0int)));
    }
    let mut k: usize = 0;
    while k < order.len()
        invariant
            k <= order.len(),
            order.len() == dims.len(),
            at.len() == dims.len(),
            n == dims.len(),
            rects == ints(dims@),
            order_spec == pack_order(rects, n),
            order@.map_values(|i: usize| i as int) == order_spec,
            is_sorted_order(rects, n, order_spec),
            order_spec.no_duplicates(),
            forall|j: int| 0 <= j < rects.len() ==> (#[trigger] rects[j]).0 >= 0 && rects[j].1 >= 0,
            packed_upto(side as int, rects, order_spec, k as int) == Some(
                Packing { sky: ints(sky@), at: ints(at@) },
            ),
        decreases order.len() - k,
    {
        let me: usize = order[k];
        proof {
            assert(order_spec[k as int] == me);
            lemma_packed_upto(side as int, rects, order_spec, k as int);
        }
        let w: u32 = dims[me].0;
        let h: u32 = dims[me].1;
        if w > side {
            proof {
                lemma_packed_upto_none(side as int, rects, order_spec, k + 1, n);
            }
            return None;
        }
        let (start, y) = find_start(&sky, side, w);
        if h > side - y {
            proof {
                lemma_packed_upto_none(side as int, rects, order_spec, k + 1, n);
            }
            return None;
        }
        let ghost before = Packing { sky: ints(sky@), at: ints(at@) };
        let x: u32 = sky[start].0;
        at[me] = V2(x, y);
        raise(&mut sky, side, start, w, y + h);
        proof {
            assert(ints(at@) =~= before.at.update(me as int, V2(x as int, y as int)));
        }
        k = k + 1;
    }
    proof {
        assert forall|i: int| 0 <= i < dims.len() implies at[i].0 + dims[i].0 <= side && at[i].1
            + dims[i].1 <= side by {
            assert(area_at(ints(at@)[i], rects[i]).within(side as int));
        }
    }
    Some(at)
}

} // verus!
