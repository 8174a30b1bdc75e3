//! Two-dimensional vectors and axis-aligned rectangles.

use vstd::prelude::*;

verus! {

/// A pair of coordinates: `.0` runs along the x axis, `.1` along the y axis.
#[derive(Clone, Copy, PartialEq, Eq, Debug)]
pub struct V2<T>(pub T, pub T);

/// An axis-aligned rectangle: `.0` is its top-left corner, `.1` its
/// dimensions (width, height).
#[derive(Clone, Copy, PartialEq, Eq, Debug)]
pub struct Rect<T>(pub V2<T>, pub V2<T>);

/// A rectangle of the integer plane, as specifications speak of it.
pub struct Area {
    pub x: int,
    pub y: int,
    pub w: int,
    pub h: int,
}

impl Area {
    /// The cell in column `cx` and row `cy` lies inside the rectangle.
    pub open spec fn has(self, cx: int, cy: int) -> bool {
        self.x <= cx < self.x + self.w && self.y <= cy < self.y + self.h
    }

    /// The two rectangles share at least one cell.
    pub open spec fn overlaps(self, other: Area) -> bool {
        &&& self.x < other.x + other.w
        &&& other.x < self.x + self.w
        &&& self.y < other.y + other.h
        &&& other.y < self.y + self.h
        &&& self.w > 0 && self.h > 0 && other.w > 0 && other.h > 0
    }

    /// The rectangle lies inside the square `[0, side) x [0, side)`.
    pub open spec fn within(self, side: int) -> bool {
        &&& 0 <= self.x && 0 <= self.y
        &&& 0 <= self.w && 0 <= self.h
        &&& self.x + self.w <= side
        &&& self.y + self.h <= side
    }

    /// Every cell of `other` is a cell of this rectangle.
    pub open spec fn covers(self, other: Area) -> bool {
        &&& self.x <= other.x && other.x + other.w <= self.x + self.w
        &&& self.y <= other.y && other.y + other.h <= self.y + self.h
    }
}

impl Rect<u32> {
    /// The rectangle as specifications speak of it.
    pub open spec fn area(self) -> Area {
        Area { x: self.0.0 as int, y: self.0.1 as int, w: self.1.0 as int, h: self.1.1 as int }
    }
}

impl Rect<i64> {
    /// The rectangle as specifications speak of it.
    pub open spec fn area(self) -> Area {
        Area { x: self.0.0 as int, y: self.0.1 as int, w: self.1.0 as int, h: self.1.1 as int }
    }
}

/// A sequence of machine-integer pairs as pairs of mathematical integers.
pub open spec fn ints(v: Seq<V2<u32>>) -> Seq<V2<int>> {
    Seq::new(v.len(), |i: int| V2(v[i].0 as int, v[i].1 as int))
}

/// Appending a pair and then reading the pairs as mathematical integers
/// gives what reading first and appending then gives.
pub proof fn lemma_ints_push(v: Seq<V2<u32>>, e: V2<u32>)
    ensures
        ints(v.push(e)) == ints(v).push(V2(e.0 as int, e.1 as int)),
{
    assert(ints(v.push(e)) =~= ints(v).push(V2(e.0 as int, e.1 as int)));
}

/// The rectangle of dimensions `dim` with its top-left corner at `pos`.
pub open spec fn area_at(pos: V2<int>, dim: V2<int>) -> Area {
    Area { x: pos.0, y: pos.1, w: dim.0, h: dim.1 }
}

/// Two rectangles overlap exactly when some cell lies in both.
pub proof fn lemma_overlaps_is_shared_cell(a: Area, b: Area)
    ensures
        a.overlaps(b) <==> exists|cx: int, cy: int| a.has(cx, cy) && b.has(cx, cy),
{
    if a.overlaps(b) {
        let cx = if a.x >= b.x { a.x } else { b.x };
        let cy = if a.y >= b.y { a.y } else { b.y };
        assert(a.has(cx, cy) && b.has(cx, cy));
    }
}

} // verus!
