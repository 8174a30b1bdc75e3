//! RGBA pixel buffers: reading, writing, cropping to the visible part and
//! copying one buffer into another.

use vstd::prelude::*;
use crate::geom::{Area, Rect, V2};

verus! {

/// One pixel: red, green, blue and alpha (opacity), eight bits each.
#[derive(Clone, Copy, PartialEq, Eq, Debug, Structural)]
pub struct Rgba8 {
    pub r: u8,
    pub g: u8,
    pub b: u8,
    pub a: u8,
}

/// The pixel that a fresh buffer is filled with: fully transparent black.
pub open spec fn transparent() -> Rgba8 {
    Rgba8 { r: 0, g: 0, b: 0, a: 0 }
}

/// What an image holds, as specifications speak of it: a width and the rows
/// of pixels from top to bottom.
pub struct Pixels {
    pub width: nat,
    pub rows: Seq<Seq<Rgba8>>,
}

impl Pixels {
    /// The number of rows.
    pub open spec fn height(self) -> nat {
        self.rows.len()
    }

    /// Every row is `width` pixels long.
    pub open spec fn wf(self) -> bool {
        forall|y: int| 0 <= y < self.rows.len() ==> (#[trigger] self.rows[y]).len() == self.width
    }

    /// Column `x` of row `y` is a pixel of the image.
    pub open spec fn contains(self, x: int, y: int) -> bool {
        0 <= x < self.width && 0 <= y < self.rows.len()
    }

    /// The pixel in column `x` of row `y`.
    pub open spec fn at(self, x: int, y: int) -> Rgba8 {
        self.rows[y][x]
    }

    /// The pixel in column `x` of row `y` exists and is not fully transparent.
    pub open spec fn visible(self, x: int, y: int) -> bool {
        self.contains(x, y) && self.at(x, y).a > 0
    }

    /// Column `x` holds a visible pixel.
    pub open spec fn column_visible(self, x: int) -> bool {
        exists|y: int| self.visible(x, y)
    }

    /// Row `y` holds a visible pixel.
    pub open spec fn row_visible(self, y: int) -> bool {
        exists|x: int| self.visible(x, y)
    }

    /// The image with the pixel in column `x` of row `y` replaced by `p`.
    pub open spec fn put(self, x: int, y: int, p: Rgba8) -> Pixels {
        Pixels { width: self.width, rows: self.rows.update(y, self.rows[y].update(x, p)) }
    }

    /// The image of the given dimensions whose pixels are all transparent.
    pub open spec fn blank(width: nat, height: nat) -> Pixels {
        Pixels { width, rows: Seq::new(height, |y: int| Seq::new(width, |x: int| transparent())) }
    }

    /// The part of the image that `area` selects, as an image of its own.
    pub open spec fn region(self, area: Area) -> Pixels {
        Pixels {
            width: area.w as nat,
            rows: Seq::new(
                area.h as nat,
                |y: int| Seq::new(area.w as nat, |x: int| self.at(area.x + x, area.y + y)),
            ),
        }
    }

    /// The image after `src` was copied onto it with its top-left corner at
    /// column `ox`, row `oy`; what of `src` falls outside the image is lost.
    pub open spec fn stamped(self, src: Pixels, ox: int, oy: int) -> Pixels {
        Pixels {
            width: self.width,
            rows: Seq::new(
                self.rows.len(),
                |y: int|
                    Seq::new(
                        self.width,
                        |x: int|
                            if src.contains(x - ox, y - oy) {
                                src.at(x - ox, y - oy)
                            } else {
                                self.at(x, y)
                            },
                    ),
            ),
        }
    }

    /// The whole image as a rectangle with its corner at the origin.
    pub open spec fn bounds(self) -> Area {
        Area { x: 0, y: 0, w: self.width as int, h: self.rows.len() as int }
    }
}

/// `r` is the smallest rectangle that holds every visible pixel of `img`:
/// each visible pixel lies inside it and each of its four edges touches one.
/// Of an image without a visible pixel it is the empty rectangle at the
/// origin.
pub open spec fn is_alpha_bounds(img: Pixels, r: Area) -> bool {
    if exists|x: int, y: int| img.visible(x, y) {
        &&& forall|x: int, y: int| img.visible(x, y) ==> r.has(x, y)
        &&& img.column_visible(r.x)
        &&& img.column_visible(r.x + r.w - 1)
        &&& img.row_visible(r.y)
        &&& img.row_visible(r.y + r.h - 1)
    } else {
        r == (Area { x: 0, y: 0, w: 0, h: 0 })
    }
}

/// The rectangle that `is_alpha_bounds` describes.
pub open spec fn alpha_bounds(img: Pixels) -> Area {
    choose|r: Area| is_alpha_bounds(img, r)
}

/// An image has at most one rectangle that `is_alpha_bounds` accepts.
pub proof fn lemma_alpha_bounds_unique(img: Pixels, r1: Area, r2: Area)
    requires
        is_alpha_bounds(img, r1),
        is_alpha_bounds(img, r2),
    ensures
        r1 == r2,
{
    if exists|x: int, y: int| img.visible(x, y) {
        lemma_edges_inside(img, r1, r2);
        lemma_edges_inside(img, r2, r1);
    }
}

/// The rectangle around the visible pixels lies inside the image, and
/// `alpha_bounds` names it.
pub proof fn lemma_alpha_bounds_inside(img: Pixels, r: Area)
    requires
        is_alpha_bounds(img, r),
    ensures
        r == alpha_bounds(img),
        img.bounds().covers(r),
        r.w >= 0 && r.h >= 0,
        (r.w == 0 && r.h == 0) || (r.w > 0 && r.h > 0),
{
    lemma_alpha_bounds_unique(img, r, alpha_bounds(img));
    if exists|x: int, y: int| img.visible(x, y) {
        lemma_edges_inside(img, r, r);
        let right = r.x + r.w - 1;
        let bottom = r.y + r.h - 1;
        let l = choose|y: int| img.visible(r.x, y);
        let e = choose|y: int| img.visible(right, y);
        let t = choose|x: int| img.visible(x, r.y);
        let b = choose|x: int| img.visible(x, bottom);
        assert(img.contains(r.x, l) && img.contains(right, e));
        assert(img.contains(t, r.y) && img.contains(b, bottom));
    }
}

/// Where `outer` holds every visible pixel, the four edges of the tight
/// rectangle `inner` lie inside it.
proof fn lemma_edges_inside(img: Pixels, inner: Area, outer: Area)
    requires
        is_alpha_bounds(img, inner),
        exists|x: int, y: int| img.visible(x, y),
        forall|x: int, y: int| img.visible(x, y) ==> outer.has(x, y),
    ensures
        outer.x <= inner.x,
        inner.x + inner.w <= outer.x + outer.w,
        outer.y <= inner.y,
        inner.y + inner.h <= outer.y + outer.h,
        inner.w > 0 && inner.h > 0,
{
    let right = inner.x + inner.w - 1;
    let bottom = inner.y + inner.h - 1;
    let l = choose|y: int| img.visible(inner.x, y);
    let e = choose|y: int| img.visible(right, y);
    let t = choose|x: int| img.visible(x, inner.y);
    let b = choose|x: int| img.visible(x, bottom);
    assert(outer.has(inner.x, l) && outer.has(right, e));
    assert(outer.has(t, inner.y) && outer.has(b, bottom));
    assert(inner.has(inner.x, l) && inner.has(t, inner.y));
}

/// Two well-formed images of the same dimensions that agree on every pixel
/// are the same image.
pub proof fn lemma_pixels_ext(a: Pixels, b: Pixels)
    requires
        a.wf(),
        b.wf(),
        a.width == b.width,
        a.height() == b.height(),
        forall|x: int, y: int| a.contains(x, y) ==> a.at(x, y) == b.at(x, y),
    ensures
        a == b,
{
    assert forall|y: int| 0 <= y < a.rows.len() implies a.rows[y] =~= b.rows[y] by {
        assert forall|x: int| 0 <= x < a.rows[y].len() implies a.rows[y][x] == b.rows[y][x] by {
            assert(a.contains(x, y));
            assert(a.at(x, y) == b.at(x, y));
        }
    }
    assert(a.rows =~= b.rows);
}

/// An owned two-dimensional buffer of RGBA pixels.
#[derive(Debug)]
pub struct Image {
    width: u32,
    height: u32,
    rows: Vec<Vec<Rgba8>>,
}

impl View for Image {
    type V = Pixels;

    closed spec fn view(&self) -> Pixels {
        Pixels {
            width: self.width as nat,
            rows: Seq::new(
                self.height as nat,
                |y: int| Seq::new(self.width as nat, |x: int| self.rows[y][x]),
            ),
        }
    }
}

impl Image {
    #[verifier::type_invariant]
    spec fn inv(&self) -> bool {
        &&& self.rows.len() == self.height
        &&& forall|y: int| 0 <= y < self.rows.len() ==> (#[trigger] self.rows[y]).len() == self.width
    }

    /// The content of every image is well formed and has dimensions that fit
    /// in 32 bits.
    pub proof fn lemma_view_wf(&self)
        ensures
            self@.wf(),
            self@.width <= u32::MAX,
            self@.height() <= u32::MAX,
    {
    }

    /// A buffer of the given dimensions, every pixel transparent.
    pub fn new(width: u32, height: u32) -> (img: Image)
        ensures
            img@ == Pixels::blank(width as nat, height as nat),
    {
        let mut rows: Vec<Vec<Rgba8>> = Vec::new();
        let mut y: u32 = 0;
        while y < height
            invariant
                y <= height,
                rows.len() == y,
                forall|j: int| 0 <= j < rows.len() ==> (#[trigger] rows[j]).len() == width,
                forall|j: int, i: int|
                    0 <= j < rows.len() && 0 <= i < width ==> (#[trigger] rows[j][i])
                        == transparent(),
            decreases height - y,
        {
            let mut row: Vec<Rgba8> = Vec::new();
            let mut x: u32 = 0;
            while x < width
                invariant
                    x <= width,
                    row.len() == x,
                    forall|i: int| 0 <= i < row.len() ==> (#[trigger] row[i]) == transparent(),
                decreases width - x,
            {
                row.push(Rgba8 { r: 0, g: 0, b: 0, a: 0 });
                x = x + 1;
            }
            rows.push(row);
            y = y + 1;
        }
        let img = Image { width, height, rows };
        proof {
            lemma_pixels_ext(img@, Pixels::blank(width as nat, height as nat));
        }
        img
    }

    /// The number of columns.
    pub fn width(&self) -> (w: u32)
        ensures
            w == self@.width,
    {
        self.width
    }

    /// The number of rows.
    pub fn height(&self) -> (h: u32)
        ensures
            h == self@.height(),
    {
        self.height
    }

    /// Width and height, in this order.
    pub fn dimensions(&self) -> (d: (u32, u32))
        ensures
            d.0 == self@.width,
            d.1 == self@.height(),
    {
        (self.width, self.height)
    }

    /// The pixel in column `x` of row `y`.
    pub fn get_pixel(&self, x: u32, y: u32) -> (p: Rgba8)
        requires
            self@.contains(x as int, y as int),
        ensures
            p == self@.at(x as int, y as int),
    {
        proof {
            use_type_invariant(self);
        }
        self.rows[y as usize][x as usize]
    }

    /// Replaces the pixel in column `x` of row `y` by `p`.
    pub fn put_pixel(&mut self, x: u32, y: u32, p: Rgba8)
        requires
            old(self)@.contains(x as int, y as int),
        ensures
            final(self)@ == old(self)@.put(x as int, y as int, p),
    {
        proof {
            use_type_invariant(&*self);
        }
        put_in_rows(&mut self.rows, x as usize, y as usize, p);
        proof {
            assert(self@.rows[y as int] =~= old(self)@.rows[y as int].update(x as int, p));
            assert(self@.rows =~= old(self)@.put(x as int, y as int, p).rows);
        }
    }
}

/// The smallest rectangle that holds every pixel of `image` whose alpha is
/// above zero; the empty rectangle at the origin where there is none.
pub fn crop_alpha(image: &Image) -> (r: Rect<u32>)
    ensures
        is_alpha_bounds(image@, r.area()),
        r.area() == alpha_bounds(image@),
        image@.bounds().covers(r.area()),
{
    let w: u32 = image.width();
    let h: u32 = image.height();
    let mut found: bool = false;
    let mut min_x: u32 = 0;
    let mut max_x: u32 = 0;
    let mut min_y: u32 = 0;
    let mut max_y: u32 = 0;
    let ghost mut wl: int = 0;
    let ghost mut wr: int = 0;
    let ghost mut wt: int = 0;
    let ghost mut wb: int = 0;
    let mut y: u32 = 0;
    while y < h
        invariant
            y <= h,
            w == image@.width,
            h == image@.height(),
            !found ==> forall|px: int, py: int| py < y ==> !image@.visible(px, py),
            found ==> forall|px: int, py: int|
                py < y && image@.visible(px, py) ==> min_x <= px <= max_x && min_y <= py <= max_y,
            found ==> image@.visible(min_x as int, wl) && image@.visible(max_x as int, wr)
                && image@.visible(wt, min_y as int) && image@.visible(wb, max_y as int),
            found ==> min_x <= max_x && min_y <= max_y <= y,
        decreases h - y,
    {
        let mut x: u32 = 0;
        while x < w
            invariant
                x <= w,
                y < h,
                w == image@.width,
                h == image@.height(),
                !found ==> forall|px: int, py: int|
                    (py < y || (py == y && px < x)) ==> !image@.visible(px, py),
                found ==> forall|px: int, py: int|
                    (py < y || (py == y && px < x)) && image@.visible(px, py) ==> min_x <= px
                        <= max_x && min_y <= py <= max_y,
                found ==> image@.visible(min_x as int, wl) && image@.visible(max_x as int, wr)
                    && image@.visible(wt, min_y as int) && image@.visible(wb, max_y as int),
                found ==> min_x <= max_x && min_y <= max_y <= y,
            decreases w - x,
        {
            let p: Rgba8 = image.get_pixel(x, y);
            if p.a > 0 {
                if !found {
                    found = true;
                    min_x = x;
                    max_x = x;
                    min_y = y;
                    max_y = y;
                    proof {
                        wl = y as int;
                        wr = y as int;
                        wt = x as int;
                        wb = x as int;
                    }
                } else {
                    if x < min_x {
                        min_x = x;
                        proof {
                            wl = y as int;
                        }
                    }
                    if x > max_x {
                        max_x = x;
                        proof {
                            wr = y as int;
                        }
                    }
                    if y > max_y {
                        max_y = y;
                        proof {
                            wb = x as int;
                        }
                    }
                }
            }
            x = x + 1;
        }
        y = y + 1;
    }
    let r: Rect<u32> = if found {
        Rect(V2(min_x, min_y), V2(max_x - min_x + 1, max_y - min_y + 1))
    } else {
        Rect(V2(0, 0), V2(0, 0))
    };
    proof {
        if found {
            assert(image@.visible(r.area().x, wl));
            assert(image@.visible(r.area().x + r.area().w - 1, wr));
            assert(image@.visible(wt, r.area().y));
            assert(image@.visible(wb, r.area().y + r.area().h - 1));
            assert(image@.column_visible(r.area().x));
            assert(image@.column_visible(r.area().x + r.area().w - 1));
            assert(image@.row_visible(r.area().y));
            assert(image@.row_visible(r.area().y + r.area().h - 1));
        }
        lemma_alpha_bounds_inside(image@, r.area());
    }
    r
}

impl Image {
    /// A copy of the part of the image that `rect` selects.
    pub fn sub_image(&self, rect: Rect<u32>) -> (part: Image)
        requires
            self@.bounds().covers(rect.area()),
        ensures
            part@ == self@.region(rect.area()),
    {
        let w: u32 = rect.1.0;
        let h: u32 = rect.1.1;
        let mut rows: Vec<Vec<Rgba8>> = Vec::new();
        let mut y: u32 = 0;
        while y < h
            invariant
                y <= h,
                w == rect.1.0,
                h == rect.1.1,
                self@.bounds().covers(rect.area()),
                rows.len() == y,
                forall|j: int| 0 <= j < rows.len() ==> (#[trigger] rows[j]).len() == w,
                forall|j: int, i: int|
                    0 <= j < rows.len() && 0 <= i < w ==> (#[trigger] rows[j][i]) == self@.at(
                        rect.0.0 + i,
                        rect.0.1 + j,
                    ),
            decreases h - y,
        {
            let mut row: Vec<Rgba8> = Vec::new();
            let mut x: u32 = 0;
            while x < w
                invariant
                    x <= w,
                    y < h,
                    w == rect.1.0,
                    h == rect.1.1,
                    self@.bounds().covers(rect.area()),
                    row.len() == x,
                    forall|i: int|
                        0 <= i < row.len() ==> (#[trigger] row[i]) == self@.at(
                            rect.0.0 + i,
                            rect.0.1 + y,
                        ),
                decreases w - x,
            {
                row.push(self.get_pixel(rect.0.0 + x, rect.0.1 + y));
                x = x + 1;
            }
            rows.push(row);
            y = y + 1;
        }
        let part = Image { width: w, height: h, rows };
        proof {
            lemma_pixels_ext(part@, self@.region(rect.area()));
        }
        part
    }
}

impl Clone for Image {
    fn clone(&self) -> (copy: Image)
        ensures
            copy@ == self@,
    {
        let copy = self.sub_image(Rect(V2(0, 0), V2(self.width, self.height)));
        proof {
            self.lemma_view_wf();
            lemma_pixels_ext(copy@, self@);
        }
        copy
    }
}

/// Copies `src` onto `dst` with its top-left corner at `offset`; what of
/// `src` falls outside `dst` is left out.
pub fn blit(src: &Image, dst: &mut Image, offset: V2<u32>)
    ensures
        final(dst)@ == old(dst)@.stamped(src@, offset.0 as int, offset.1 as int),
{
    let w: u32 = src.width();
    let h: u32 = src.height();
    let dw: u32 = dst.width();
    let dh: u32 = dst.height();
    proof {
        dst.lemma_view_wf();
    }
    let mut y: u32 = 0;
    while y < h && y < dh && offset.1 < dh - y
        invariant
            w == src@.width,
            h == src@.height(),
            dw == dst@.width == old(dst)@.width,
            dh == dst@.height() == old(dst)@.height(),
            dst@.wf(),
            old(dst)@.wf(),
            forall|px: int, py: int| #[trigger]
                old(dst)@.contains(px, py) ==> dst@.at(px, py) == if src@.contains(
                    px - offset.0,
                    py - offset.1,
                ) && py - offset.1 < y {
                    src@.at(px - offset.0, py - offset.1)
                } else {
                    old(dst)@.at(px, py)
                },
        decreases h - y,
    {
        let mut x: u32 = 0;
        while x < w && x < dw && offset.0 < dw - x
            invariant
                y < h,
                y < dh,
                offset.1 < dh - y,
                w == src@.width,
                h == src@.height(),
                dw == dst@.width == old(dst)@.width,
                dh == dst@.height() == old(dst)@.height(),
                dst@.wf(),
                old(dst)@.wf(),
                forall|px: int, py: int| #[trigger]
                    old(dst)@.contains(px, py) ==> dst@.at(px, py) == if src@.contains(
                        px - offset.0,
                        py - offset.1,
                    ) && (py - offset.1 < y || (py - offset.1 == y && px - offset.0 < x)) {
                        src@.at(px - offset.0, py - offset.1)
                    } else {
                        old(dst)@.at(px, py)
                    },
            decreases w - x,
        {
            let p: Rgba8 = src.get_pixel(x, y);
            dst.put_pixel(offset.0 + x, offset.1 + y, p);
            x = x + 1;
        }
        y = y + 1;
    }
    proof {
        let goal = old(dst)@.stamped(src@, offset.0 as int, offset.1 as int);
        assert forall|px: int, py: int| dst@.contains(px, py) implies dst@.at(px, py) == goal.at(
            px,
            py,
        ) by {
            assert(old(dst)@.contains(px, py));
        }
        lemma_pixels_ext(dst@, goal);
    }
}

/// Replaces element `x` of row `y`; every other element and all lengths stay.
fn put_in_rows(rows: &mut Vec<Vec<Rgba8>>, x: usize, y: usize, p: Rgba8)
    requires
        y < old(rows).len(),
        x < old(rows)[y as int].len(),
    ensures
        final(rows).len() == old(rows).len(),
        final(rows)[y as int]@ == old(rows)[y as int]@.update(x as int, p),
        forall|j: int| 0 <= j < old(rows).len() && j != y ==> final(rows)[j] == old(rows)[j],
    no_unwind
{
    rows[y][x] = p;
}

} // verus!
