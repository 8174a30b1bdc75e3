//! Building a sprite atlas: many images packed into one square texture,
//! with the rectangles that a renderer needs to draw each of them.

use vstd::prelude::*;
use vstd::arithmetic::power2::is_pow2;
use crate::geom::{area_at, ints, Area, Rect, V2};
use crate::img::{alpha_bounds, blit, crop_alpha, lemma_pixels_ext, transparent, Image, Pixels};
use crate::pack::{lemma_packing_needs_room, lemma_packing_sound, pack_rectangles, packing};

verus! {

/// One sprite as the builder keeps it: the visible part of the image that
/// was pushed, and where its top-left corner is to be drawn.
pub struct Sprite {
    pub pixels: Pixels,
    pub offset: V2<int>,
}

/// The sprite that pushing `image` with the draw offset `offset` stores:
/// the image cropped to its visible pixels, and the offset moved by the
/// corner of the crop.
pub open spec fn sprite_of(offset: V2<i32>, image: Pixels) -> Sprite {
    let crop = alpha_bounds(image);
    Sprite { pixels: image.region(crop), offset: V2(offset.0 + crop.x, offset.1 + crop.y) }
}

struct Entry {
    image: Image,
    offset: V2<i64>,
}

/// Collects the sprites of an atlas. Each push returns the index under
/// which the finished atlas lists the sprite.
pub struct AtlasBuilder {
    entries: Vec<Entry>,
}

impl View for AtlasBuilder {
    type V = Seq<Sprite>;

    closed spec fn view(&self) -> Seq<Sprite> {
        sprites_of(self.entries@)
    }
}

spec fn sprites_of(entries: Seq<Entry>) -> Seq<Sprite> {
    Seq::new(
        entries.len(),
        |i: int|
            Sprite {
                pixels: entries[i].image@,
                offset: V2(entries[i].offset.0 as int, entries[i].offset.1 as int),
            },
    )
}

/// What holds of every sprite that a builder keeps: its pixels form a
/// well-formed image whose dimensions fit in 32 bits, and its offset fits
/// in 64 bits.
pub open spec fn sprite_wf(s: Sprite) -> bool {
    &&& s.pixels.wf()
    &&& s.pixels.width <= u32::MAX
    &&& s.pixels.height() <= u32::MAX
    &&& i64::MIN <= s.offset.0 <= i64::MAX
    &&& i64::MIN <= s.offset.1 <= i64::MAX
}

impl AtlasBuilder {
    /// A builder without sprites.
    pub fn new() -> (builder: AtlasBuilder)
        ensures
            builder@ == Seq::<Sprite>::empty(),
    {
        let builder = AtlasBuilder { entries: Vec::new() };
        proof {
            assert(builder@ =~= Seq::<Sprite>::empty());
        }
        builder
    }

    /// Every sprite of a builder is well formed.
    pub proof fn lemma_sprites_wf(&self)
        ensures
            forall|i: int| 0 <= i < self@.len() ==> sprite_wf(#[trigger] self@[i]),
    {
        assert forall|i: int| 0 <= i < self@.len() implies sprite_wf(#[trigger] self@[i]) by {
            self.entries[i].image.lemma_view_wf();
        }
    }

    /// Adds `image`, cropped to its visible pixels, as the next sprite. The
    /// result is its index: the number of sprites pushed before.
    pub fn push(&mut self, offset: V2<i32>, image: Image) -> (index: usize)
        ensures
            final(self)@ == old(self)@.push(sprite_of(offset, image@)),
            index == old(self)@.len(),
    {
        let crop: Rect<u32> = crop_alpha(&image);
        let cropped: Image = image.sub_image(crop);
        let moved: V2<i64> = V2(offset.0 as i64 + crop.0.0 as i64, offset.1 as i64 + crop.0.1 as i64);
        let index: usize = self.entries.len();
        self.entries.push(Entry { image: cropped, offset: moved });
        proof {
            assert(self@ =~= old(self)@.push(sprite_of(offset, image@)));
        }
        index
    }

    /// The number of sprites pushed so far.
    pub fn len(&self) -> (n: usize)
        ensures
            n == self@.len(),
    {
        self.entries.len()
    }
}

/// The dimensions of the sprites, in their order.
pub open spec fn sprite_dims(sprites: Seq<Sprite>) -> Seq<V2<int>> {
    Seq::new(
        sprites.len(),
        |i: int| V2(sprites[i].pixels.width as int, sprites[i].pixels.height() as int),
    )
}

/// The dimensions with the border added that keeps neighbours in the atlas
/// from bleeding into each other: one pixel more in width and in height.
pub open spec fn padded(dims: Seq<V2<int>>) -> Seq<V2<int>> {
    Seq::new(dims.len(), |i: int| V2(dims[i].0 + 1, dims[i].1 + 1))
}

/// The sum of the areas of rectangles of the given dimensions.
pub open spec fn total_area(dims: Seq<V2<int>>) -> int
    decreases dims.len(),
{
    if dims.len() == 0 {
        0
    } else {
        total_area(dims.drop_last()) + dims.last().0 * dims.last().1
    }
}

/// A square of side `side` can serve as the atlas of rectangles of the
/// dimensions `pads`: the side is a power of two, the square has at least
/// their total area, and packing them into it succeeds.
pub open spec fn side_ok(pads: Seq<V2<int>>, side: int) -> bool {
    &&& is_pow2(side)
    &&& side * side >= total_area(pads)
    &&& packing(side, pads) is Some
}

/// `side` is the side of the atlas: the least one that can serve.
pub open spec fn is_atlas_side(pads: Seq<V2<int>>, side: int) -> bool {
    &&& side_ok(pads, side)
    &&& forall|t: int| t < side ==> !#[trigger] side_ok(pads, t)
}

/// Twice a power of two is a power of two.
proof fn lemma_pow2_double(p: int)
    requires
        is_pow2(p),
    ensures
        is_pow2(2 * p),
        p >= 1,
{
    reveal(is_pow2);
}

/// No power of two lies strictly between a power of two and its double.
proof fn lemma_pow2_gap(a: int, b: int)
    requires
        is_pow2(a),
        is_pow2(b),
        a < 2 * b,
    ensures
        a <= b,
    decreases a,
{
    reveal(is_pow2);
    if a > 1 && b > 1 {
        lemma_pow2_gap(a / 2, b / 2);
    }
}

/// Of two numbers that are not negative, the larger has the larger square.
proof fn lemma_square_mono(a: int, b: int)
    requires
        0 <= a <= b,
    ensures
        a * a <= b * b,
{
    assert(a * a <= b * b) by (nonlinear_arith)
        requires
            0 <= a <= b,
    ;
}

/// The total area of the first `n` rectangles grows with `n`.
proof fn lemma_total_area_prefix(dims: Seq<V2<int>>, n: int)
    requires
        0 <= n <= dims.len(),
        forall|i: int| 0 <= i < dims.len() ==> (#[trigger] dims[i]).0 >= 0 && dims[i].1 >= 0,
    ensures
        0 <= total_area(dims.take(n)) <= total_area(dims),
    decreases dims.len() - n,
{
    if n == dims.len() {
        assert(dims.take(n) =~= dims);
        lemma_total_area_nonneg(dims);
    } else {
        lemma_total_area_prefix(dims, n + 1);
        lemma_total_area_step(dims, n);
        lemma_total_area_nonneg(dims.take(n));
    }
}

/// The total area of rectangles is not negative.
proof fn lemma_total_area_nonneg(dims: Seq<V2<int>>)
    requires
        forall|i: int| 0 <= i < dims.len() ==> (#[trigger] dims[i]).0 >= 0 && dims[i].1 >= 0,
    ensures
        total_area(dims) >= 0,
    decreases dims.len(),
{
    if dims.len() > 0 {
        lemma_total_area_nonneg(dims.drop_last());
        let a = dims.last().0;
        let b = dims.last().1;
        assert(a * b >= 0) by (nonlinear_arith)
            requires
                a >= 0,
                b >= 0,
        ;
    }
}

/// The total area of the first `n + 1` rectangles is that of the first `n`
/// and the area of rectangle `n`.
proof fn lemma_total_area_step(dims: Seq<V2<int>>, n: int)
    requires
        0 <= n < dims.len(),
        forall|i: int| 0 <= i < dims.len() ==> (#[trigger] dims[i]).0 >= 0 && dims[i].1 >= 0,
    ensures
        total_area(dims.take(n + 1)) == total_area(dims.take(n)) + dims[n].0 * dims[n].1,
        dims[n].0 * dims[n].1 >= 0,
{
    assert(dims.take(n + 1).drop_last() =~= dims.take(n));
    let a = dims[n].0;
    let b = dims[n].1;
    assert(a * b >= 0) by (nonlinear_arith)
        requires
            a >= 0,
            b >= 0,
    ;
}

/// The largest atlas side that `Atlas::new` accepts.
pub const MAX_ATLAS_SIDE: u32 = 536870912;

/// Why an atlas could not be built.
#[derive(Clone, Copy, PartialEq, Eq, Debug)]
pub enum AtlasError {
    /// The sprites are too many or too large: they fit in no square up to
    /// the largest side allowed.
    TooLarge,
}

/// The sum of the padded areas, where it is at most `cap`.
fn padded_area(pads: &Vec<V2<u32>>, cap: u64) -> (area: Option<u64>)
    requires
        forall|i: int| 0 <= i < pads.len() ==> (#[trigger] pads[i]).0 >= 1 && pads[i].1 >= 1,
    ensures
        match area {
            Some(a) => a == total_area(ints(pads@)) && a <= cap,
            None => total_area(ints(pads@)) > cap,
        },
{
    let ghost dims = ints(pads@);
    let mut sum: u64 = 0;
    let mut i: usize = 0;
    proof {
        assert(dims.take(0) =~= Seq::<V2<int>>::empty());
    }
    while i < pads.len()
        invariant
            i <= pads.len(),
            dims == ints(pads@),
            forall|j: int| 0 <= j < dims.len() ==> (#[trigger] dims[j]).0 >= 0 && dims[j].1 >= 0,
            sum == total_area(dims.take(i as int)),
            sum <= cap,
        decreases pads.len() - i,
    {
        let w: u64 = pads[i].0 as u64;
        let h: u64 = pads[i].1 as u64;
        proof {
            lemma_total_area_step(dims, i as int);
            lemma_total_area_prefix(dims, i + 1);
            assert(w * h <= 0xffff_ffff * 0xffff_ffff) by (nonlinear_arith)
                requires
                    0 <= w <= 0xffff_ffff,
                    0 <= h <= 0xffff_ffff,
            ;
        }
        let term: u64 = w * h;
        if term > cap - sum {
            return None;
        }
        sum = sum + term;
        i = i + 1;
    }
    proof {
        assert(dims.take(i as int) =~= dims);
    }
    Some(sum)
}

/// The side of the atlas and the position of each padded rectangle in it;
/// `None` where no side up to `max_side` can serve.
fn find_side(pads: &Vec<V2<u32>>, max_side: u32) -> (found: Option<(u32, Vec<V2<u32>>)>)
    requires
        forall|i: int| 0 <= i < pads.len() ==> (#[trigger] pads[i]).0 >= 1 && pads[i].1 >= 1,
    ensures
        match found {
            Some((side, at)) => {
                &&& side <= max_side
                &&& is_atlas_side(ints(pads@), side as int)
                &&& packing(side as int, ints(pads@)) == Some(ints(at@))
            },
            None => forall|t: int| t <= max_side ==> !#[trigger] side_ok(ints(pads@), t),
        },
{
    let ghost dims = ints(pads@);
    proof {
        assert(max_side * max_side <= 0xffff_ffff * 0xffff_ffff) by (nonlinear_arith)
            requires
                0 <= max_side <= 0xffff_ffff,
        ;
    }
    let cap: u64 = max_side as u64 * max_side as u64;
    let area: u64 = match padded_area(pads, cap) {
        Some(a) => a,
        None => {
            proof {
                assert forall|t: int| t <= max_side implies !#[trigger] side_ok(dims, t) by {
                    if is_pow2(t) {
                        lemma_pow2_double(t);
                        lemma_square_mono(t, max_side as int);
                    }
                }
            }
            return None;
        },
    };
    if max_side == 0 {
        proof {
            assert forall|t: int| t <= max_side implies !#[trigger] side_ok(dims, t) by {
                if is_pow2(t) {
                    lemma_pow2_double(t);
                }
            }
        }
        return None;
    }
    let mut side: u32 = 1;
    proof {
        reveal(is_pow2);
        assert(is_pow2(1));
        assert forall|t: int| t < 1 implies !#[trigger] side_ok(dims, t) by {
            if is_pow2(t) {
                lemma_pow2_double(t);
            }
        }
    }
    loop
        invariant
            1 <= side <= max_side,
            is_pow2(side as int),
            dims == ints(pads@),
            area == total_area(dims),
            cap == max_side * max_side,
            area <= cap,
            forall|t: int| t < side ==> !#[trigger] side_ok(dims, t),
        decreases max_side - side,
    {
        proof {
            lemma_square_mono(side as int, max_side as int);
        }
        if side as u64 * side as u64 >= area {
            match pack_rectangles(side, pads) {
                Some(at) => {
                    return Some((side, at));
                },
                None => {},
            }
        }
        proof {
            assert(!side_ok(dims, side as int));
            assert forall|t: int| t < 2 * side implies !#[trigger] side_ok(dims, t) by {
                if is_pow2(t) {
                    lemma_pow2_gap(t, side as int);
                }
            }
            lemma_pow2_double(side as int);
        }
        if side > max_side / 2 {
            proof {
                assert forall|t: int| t <= max_side implies !#[trigger] side_ok(dims, t) by {}
            }
            return None;
        }
        side = side * 2;
    }
}

/// Cell (`x`, `y`) lies in one of the first `k` of the rectangles of
/// dimensions `dims` at the positions `at`.
pub open spec fn covered(at: Seq<V2<int>>, dims: Seq<V2<int>>, k: int, x: int, y: int) -> bool {
    exists|i: int| 0 <= i < k && #[trigger] area_at(at[i], dims[i]).has(x, y)
}

/// The finished atlas: the texture, and for each sprite, in the order of
/// the pushes, the rectangle at which it is drawn (`vertices`) and the
/// rectangle of the texture that holds it (`texcoords`, in pixels: divided
/// by the side of the texture they are the normalised coordinates).
#[derive(Debug)]
pub struct Atlas {
    pub image: Image,
    pub vertices: Vec<Rect<i64>>,
    pub texcoords: Vec<Rect<u32>>,
}

/// The texture of side `side` shows each sprite at its position `at`, and
/// is transparent wherever no sprite lies.
pub open spec fn shows(image: Pixels, side: int, sprites: Seq<Sprite>, at: Seq<V2<int>>) -> bool {
    &&& image.wf()
    &&& image.width == side
    &&& image.height() == side
    &&& forall|i: int, x: int, y: int|
        0 <= i < sprites.len() && #[trigger] sprites[i].pixels.contains(x, y) ==> image.at(
            at[i].0 + x,
            at[i].1 + y,
        ) == sprites[i].pixels.at(x, y)
    &&& forall|x: int, y: int| #[trigger]
        image.contains(x, y) && !covered(at, sprite_dims(sprites), sprites.len() as int, x, y)
            ==> image.at(x, y) == transparent()
}

/// `atlas` is the atlas of `sprites`: its side is the least that can
/// serve, each sprite stands in the texture where packing puts its padded
/// rectangle, and the two lists describe the sprites in their order.
pub open spec fn is_atlas_of(sprites: Seq<Sprite>, atlas: Atlas) -> bool {
    let dims = sprite_dims(sprites);
    let side = atlas.image@.width as int;
    let at = packing(side, padded(dims)).unwrap();
    &&& is_atlas_side(padded(dims), side)
    &&& shows(atlas.image@, side, sprites, at)
    &&& atlas.vertices@.len() == sprites.len()
    &&& atlas.texcoords@.len() == sprites.len()
    &&& forall|i: int|
        0 <= i < sprites.len() ==> (#[trigger] atlas.vertices@[i]).area() == area_at(
            sprites[i].offset,
            dims[i],
        )
    &&& forall|i: int|
        0 <= i < sprites.len() ==> (#[trigger] atlas.texcoords@[i]).area() == area_at(
            at[i],
            dims[i],
        )
}

/// What building an atlas with sides up to `max_side` yields: the atlas
/// where some side up to `max_side` can serve, the error where none can.
pub open spec fn is_build_of(
    sprites: Seq<Sprite>,
    max_side: int,
    built: Result<Atlas, AtlasError>,
) -> bool {
    match built {
        Ok(atlas) => is_atlas_of(sprites, atlas) && atlas.image@.width <= max_side,
        Err(_) => forall|t: int|
            t <= max_side ==> !#[trigger] side_ok(padded(sprite_dims(sprites)), t),
    }
}

/// The dimensions of the sprites, in their order.
fn sizes(entries: &Vec<Entry>) -> (dims: Vec<V2<u32>>)
    ensures
        ints(dims@) == sprite_dims(sprites_of(entries@)),
{
    let mut dims: Vec<V2<u32>> = Vec::new();
    let mut i: usize = 0;
    while i < entries.len()
        invariant
            i <= entries.len(),
            dims.len() == i,
            forall|j: int|
                0 <= j < i ==> (#[trigger] dims[j]).0 == entries[j].image@.width && dims[j].1
                    == entries[j].image@.height(),
        decreases entries.len() - i,
    {
        dims.push(V2(entries[i].image.width(), entries[i].image.height()));
        i = i + 1;
    }
    proof {
        assert(ints(dims@) =~= sprite_dims(sprites_of(entries@)));
    }
    dims
}

/// The dimensions with one pixel added to each; `None` where one of them
/// has no room for that.
fn pad_all(dims: &Vec<V2<u32>>) -> (pads: Option<Vec<V2<u32>>>)
    ensures
        match pads {
            Some(p) => ints(p@) == padded(ints(dims@)) && forall|i: int|
                0 <= i < p.len() ==> (#[trigger] p[i]).0 >= 1 && p[i].1 >= 1,
            None => exists|i: int|
                0 <= i < dims.len() && ((#[trigger] dims[i]).0 == u32::MAX || dims[i].1
                    == u32::MAX),
        },
{
    let mut pads: Vec<V2<u32>> = Vec::new();
    let mut i: usize = 0;
    while i < dims.len()
        invariant
            i <= dims.len(),
            pads.len() == i,
            forall|j: int|
                0 <= j < i ==> (#[trigger] pads[j]).0 == dims[j].0 + 1 && pads[j].1 == dims[j].1
                    + 1,
        decreases dims.len() - i,
    {
        let d: V2<u32> = dims[i];
        if d.0 == u32::MAX || d.1 == u32::MAX {
            return None;
        }
        pads.push(V2(d.0 + 1, d.1 + 1));
        i = i + 1;
    }
    proof {
        assert(ints(pads@) =~= padded(ints(dims@)));
    }
    Some(pads)
}

/// The texture of side `side` with each sprite copied to its position.
fn compose(entries: &Vec<Entry>, side: u32, at: &Vec<V2<u32>>) -> (image: Image)
    requires
        at.len() == entries.len(),
        forall|i: int|
            0 <= i < entries.len() ==> (#[trigger] area_at(
                ints(at@)[i],
                padded(sprite_dims(sprites_of(entries@)))[i],
            )).within(side as int),
        forall|i: int, j: int|
            0 <= i < entries.len() && 0 <= j < entries.len() && i != j ==> !(#[trigger] area_at(
                ints(at@)[i],
                padded(sprite_dims(sprites_of(entries@)))[i],
            )).overlaps(
                #[trigger] area_at(ints(at@)[j], padded(sprite_dims(sprites_of(entries@)))[j]),
            ),
    ensures
        shows(image@, side as int, sprites_of(entries@), ints(at@)),
{
    let ghost sprites = sprites_of(entries@);
    let ghost dims = sprite_dims(sprites);
    let ghost pads = padded(dims);
    let ghost pos = ints(at@);
    let mut image: Image = Image::new(side, side);
    let mut k: usize = 0;
    proof {
        assert forall|i: int| 0 <= i < sprites.len() implies (#[trigger] sprites[i]).pixels.wf() by {
            entries[i].image.lemma_view_wf();
        }
    }
    while k < entries.len()
        invariant
            k <= entries.len(),
            at.len() == entries.len(),
            sprites == sprites_of(entries@),
            dims == sprite_dims(sprites),
            pads == padded(dims),
            pos == ints(at@),
            forall|i: int| 0 <= i < sprites.len() ==> (#[trigger] sprites[i]).pixels.wf(),
            forall|i: int|
                0 <= i < entries.len() ==> (#[trigger] area_at(pos[i], pads[i])).within(
                    side as int,
                ),
            forall|i: int, j: int|
                0 <= i < entries.len() && 0 <= j < entries.len() && i != j ==> !(
                #[trigger] area_at(pos[i], pads[i])).overlaps(#[trigger] area_at(pos[j], pads[j])),
            image@.wf(),
            image@.width == side,
            image@.height() == side,
            forall|i: int, x: int, y: int|
                0 <= i < k && #[trigger] sprites[i].pixels.contains(x, y) ==> image@.at(
                    pos[i].0 + x,
                    pos[i].1 + y,
                ) == sprites[i].pixels.at(x, y),
            forall|x: int, y: int| #[trigger]
                image@.contains(x, y) && !covered(pos, dims, k as int, x, y) ==> image@.at(x, y)
                    == transparent(),
        decreases entries.len() - k,
    {
        let ghost before = image@;
        let ghost src = sprites[k as int].pixels;
        let ghost ox = pos[k as int].0;
        let ghost oy = pos[k as int].1;
        blit(&entries[k].image, &mut image, at[k]);
        proof {
            assert(image@ == before.stamped(src, ox, oy));
            assert(area_at(pos[k as int], pads[k as int]).within(side as int));
            assert forall|i: int, x: int, y: int|
                0 <= i < k + 1 && #[trigger] sprites[i].pixels.contains(x, y) implies image@.at(
                pos[i].0 + x,
                pos[i].1 + y,
            ) == sprites[i].pixels.at(x, y) by {
                let tx = pos[i].0 + x;
                let ty = pos[i].1 + y;
                assert(area_at(pos[i], pads[i]).within(side as int));
                assert(before.contains(tx, ty));
                if i < k {
                    if src.contains(tx - ox, ty - oy) {
                        assert(area_at(pos[i], pads[i]).overlaps(
                            area_at(pos[k as int], pads[k as int]),
                        ));
                    }
                }
            }
            assert forall|x: int, y: int| #[trigger]
                image@.contains(x, y) && !covered(pos, dims, k + 1, x, y) implies image@.at(x, y)
                == transparent() by {
                assert(before.contains(x, y));
                if src.contains(x - ox, y - oy) {
                    assert(area_at(pos[k as int], dims[k as int]).has(x, y));
                }
                if covered(pos, dims, k as int, x, y) {
                    let i = choose|i: int| 0 <= i < k && #[trigger] area_at(pos[i], dims[i]).has(x, y);
                    assert(area_at(pos[i], dims[i]).has(x, y));
                }
            }
        }
        k = k + 1;
    }
    image
}

impl Atlas {
    /// Builds the atlas of the sprites of `builder` in the smallest square
    /// texture that can serve, with a side of at most `MAX_ATLAS_SIDE`.
    pub fn new(builder: AtlasBuilder) -> (built: Result<Atlas, AtlasError>)
        ensures
            is_build_of(builder@, MAX_ATLAS_SIDE as int, built),
            built matches Ok(atlas) ==> {
                &&& is_pow2(atlas.image@.width as int)
                &&& atlas.image@.height() == atlas.image@.width
                &&& atlas.vertices@.len() == builder@.len()
                &&& atlas.texcoords@.len() == builder@.len()
            },
    {
        Atlas::with_max_side(builder, MAX_ATLAS_SIDE)
    }

    /// Builds the atlas of the sprites of `builder` in the smallest square
    /// texture that can serve. Its side is a power of two; where no side up
    /// to `max_side` can serve, the result is the error.
    pub fn with_max_side(builder: AtlasBuilder, max_side: u32) -> (built: Result<
        Atlas,
        AtlasError,
    >)
        ensures
            is_build_of(builder@, max_side as int, built),
            built matches Ok(atlas) ==> {
                &&& is_pow2(atlas.image@.width as int)
                &&& atlas.image@.height() == atlas.image@.width
                &&& atlas.vertices@.len() == builder@.len()
                &&& atlas.texcoords@.len() == builder@.len()
            },
    {
        let ghost sprites = builder@;
        let ghost dims_spec = sprite_dims(sprites);
        let entries = builder.entries;
        let dims: Vec<V2<u32>> = sizes(&entries);
        let pads: Vec<V2<u32>> = match pad_all(&dims) {
            Some(p) => p,
            None => {
                proof {
                    let i = choose|i: int|
                        0 <= i < dims.len() && ((#[trigger] dims[i]).0 == u32::MAX || dims[i].1
                            == u32::MAX);
                    assert(ints(dims@)[i].0 == dims[i].0);
                    assert forall|t: int| t <= max_side implies !#[trigger] side_ok(
                        padded(dims_spec),
                        t,
                    ) by {
                        if is_pow2(t) {
                            lemma_pow2_double(t);
                            lemma_packing_needs_room(t, padded(dims_spec), i);
                        }
                    }
                }
                return Err(AtlasError::TooLarge);
            },
        };
        let (side, at) = match find_side(&pads, max_side) {
            Some(found) => found,
            None => {
                return Err(AtlasError::TooLarge);
            },
        };
        proof {
            lemma_pow2_double(side as int);
            lemma_packing_sound(side as int, ints(pads@));
        }
        let image: Image = compose(&entries, side, &at);
        let mut vertices: Vec<Rect<i64>> = Vec::new();
        let mut texcoords: Vec<Rect<u32>> = Vec::new();
        let mut i: usize = 0;
        while i < entries.len()
            invariant
                i <= entries.len(),
                at.len() == entries.len(),
                dims.len() == entries.len(),
                sprites == sprites_of(entries@),
                dims_spec == sprite_dims(sprites),
                ints(dims@) == dims_spec,
                vertices.len() == i,
                texcoords.len() == i,
                forall|j: int|
                    0 <= j < i ==> (#[trigger] vertices@[j]).area() == area_at(
                        sprites[j].offset,
                        dims_spec[j],
                    ),
                forall|j: int|
                    0 <= j < i ==> (#[trigger] texcoords@[j]).area() == area_at(
                        ints(at@)[j],
                        dims_spec[j],
                    ),
            decreases entries.len() - i,
        {
            let d: V2<u32> = dims[i];
            proof {
                assert(ints(dims@)[i as int] == V2(d.0 as int, d.1 as int));
            }
            vertices.push(Rect(entries[i].offset, V2(d.0 as i64, d.1 as i64)));
            texcoords.push(Rect(at[i], d));
            i = i + 1;
        }
        Ok(Atlas { image, vertices, texcoords })
    }

    /// The side of the square texture.
    pub fn side(&self) -> (side: u32)
        ensures
            side == self.image@.width,
    {
        self.image.width()
    }
}

/// The rectangle of the texture that is kept for a sprite: the one that
/// holds it, with the border of one pixel added on the right and below.
pub open spec fn reserved(texcoord: Rect<u32>) -> Area {
    Area {
        x: texcoord.area().x,
        y: texcoord.area().y,
        w: texcoord.area().w + 1,
        h: texcoord.area().h + 1,
    }
}

/// The positions of the sprites of an atlas are those of its `texcoords`.
proof fn lemma_positions(sprites: Seq<Sprite>, atlas: Atlas)
    requires
        is_atlas_of(sprites, atlas),
        forall|i: int| 0 <= i < sprites.len() ==> sprite_wf(#[trigger] sprites[i]),
    ensures
        packing(atlas.image@.width as int, padded(sprite_dims(sprites))) is Some,
        forall|i: int|
            0 <= i < sprites.len() ==> reserved(#[trigger] atlas.texcoords@[i]) == area_at(
                packing(atlas.image@.width as int, padded(sprite_dims(sprites))).unwrap()[i],
                padded(sprite_dims(sprites))[i],
            ),
{
}

/// In an atlas the rectangles kept for the sprites, borders included, lie
/// inside the texture, and no two of them overlap.
pub proof fn lemma_atlas_disjoint(sprites: Seq<Sprite>, atlas: Atlas)
    requires
        is_atlas_of(sprites, atlas),
        forall|i: int| 0 <= i < sprites.len() ==> sprite_wf(#[trigger] sprites[i]),
    ensures
        forall|i: int|
            0 <= i < sprites.len() ==> reserved(#[trigger] atlas.texcoords@[i]).within(
                atlas.image@.width as int,
            ),
        forall|i: int, j: int|
            0 <= i < sprites.len() && 0 <= j < sprites.len() && i != j ==> !reserved(
                #[trigger] atlas.texcoords@[i],
            ).overlaps(reserved(#[trigger] atlas.texcoords@[j])),
{
    let side = atlas.image@.width as int;
    let pads = padded(sprite_dims(sprites));
    lemma_pow2_double(side);
    lemma_packing_sound(side, pads);
    lemma_positions(sprites, atlas);
    let at = packing(side, pads).unwrap();
    assert forall|i: int| 0 <= i < sprites.len() implies reserved(
        #[trigger] atlas.texcoords@[i],
    ).within(side) by {
        assert(area_at(at[i], pads[i]).within(side));
    }
    assert forall|i: int, j: int|
        0 <= i < sprites.len() && 0 <= j < sprites.len() && i != j implies !reserved(
        #[trigger] atlas.texcoords@[i],
    ).overlaps(reserved(#[trigger] atlas.texcoords@[j])) by {
        assert(!area_at(at[i], pads[i]).overlaps(area_at(at[j], pads[j])));
    }
}

/// The side of an atlas is a power of two, and the two lists of an atlas
/// have one entry for each sprite.
pub proof fn lemma_atlas_shape(sprites: Seq<Sprite>, atlas: Atlas)
    requires
        is_atlas_of(sprites, atlas),
    ensures
        is_pow2(atlas.image@.width as int),
        atlas.image@.width >= 1,
        atlas.image@.height() == atlas.image@.width,
        atlas.vertices@.len() == sprites.len(),
        atlas.texcoords@.len() == sprites.len(),
{
    lemma_pow2_double(atlas.image@.width as int);
}

/// Reading the texture of an atlas back at the rectangle that `texcoords`
/// gives for a sprite yields the pixels of that sprite.
pub proof fn lemma_atlas_round_trip(sprites: Seq<Sprite>, atlas: Atlas, i: int)
    requires
        is_atlas_of(sprites, atlas),
        forall|j: int| 0 <= j < sprites.len() ==> sprite_wf(#[trigger] sprites[j]),
        0 <= i < sprites.len(),
    ensures
        atlas.image@.region(atlas.texcoords@[i].area()) == sprites[i].pixels,
{
    let side = atlas.image@.width as int;
    let at = packing(side, padded(sprite_dims(sprites))).unwrap();
    let area = atlas.texcoords@[i].area();
    let part = atlas.image@.region(area);
    assert(area == area_at(at[i], sprite_dims(sprites)[i]));
    assert(sprite_wf(sprites[i]));
    assert forall|x: int, y: int| part.contains(x, y) implies part.at(x, y) == sprites[i].pixels.at(
        x,
        y,
    ) by {
        assert(sprites[i].pixels.contains(x, y));
    }
    lemma_pixels_ext(part, sprites[i].pixels);
}

/// The sprites determine the atlas: two atlases of the same sprites have
/// the same texture and the same two lists.
pub proof fn lemma_atlas_unique(sprites: Seq<Sprite>, a: Atlas, b: Atlas)
    requires
        is_atlas_of(sprites, a),
        is_atlas_of(sprites, b),
        forall|i: int| 0 <= i < sprites.len() ==> sprite_wf(#[trigger] sprites[i]),
    ensures
        a.image@ == b.image@,
        a.vertices@ == b.vertices@,
        a.texcoords@ == b.texcoords@,
{
    let dims = sprite_dims(sprites);
    let pads = padded(dims);
    let side = a.image@.width as int;
    assert(side == b.image@.width) by {
        if a.image@.width < b.image@.width {
            assert(side_ok(pads, a.image@.width as int));
        } else if b.image@.width < a.image@.width {
            assert(side_ok(pads, b.image@.width as int));
        }
    }
    let at = packing(side, pads).unwrap();
    assert forall|i: int| 0 <= i < sprites.len() implies a.vertices@[i] == b.vertices@[i] by {
        assert(a.vertices@[i].area() == b.vertices@[i].area());
    }
    assert(a.vertices@ =~= b.vertices@);
    assert forall|i: int| 0 <= i < sprites.len() implies a.texcoords@[i] == b.texcoords@[i] by {
        assert(a.texcoords@[i].area() == b.texcoords@[i].area());
    }
    assert(a.texcoords@ =~= b.texcoords@);
    assert forall|x: int, y: int| a.image@.contains(x, y) implies a.image@.at(x, y) == b.image@.at(
        x,
        y,
    ) by {
        assert(b.image@.contains(x, y));
        if covered(at, dims, sprites.len() as int, x, y) {
            let i = choose|i: int|
                0 <= i < sprites.len() && #[trigger] area_at(at[i], dims[i]).has(x, y);
            assert(sprites[i].pixels.contains(x - at[i].0, y - at[i].1));
        }
    }
    lemma_pixels_ext(a.image@, b.image@);
}

/// Building is a function of the sprites and the largest side allowed:
/// two builds of the same sprites both fail or both succeed, and where
/// they succeed they yield the same texture and the same two lists.
pub proof fn lemma_build_deterministic(
    sprites: Seq<Sprite>,
    max_side: int,
    first: Result<Atlas, AtlasError>,
    second: Result<Atlas, AtlasError>,
)
    requires
        is_build_of(sprites, max_side, first),
        is_build_of(sprites, max_side, second),
        forall|i: int| 0 <= i < sprites.len() ==> sprite_wf(#[trigger] sprites[i]),
    ensures
        first is Ok <==> second is Ok,
        first is Ok ==> first.unwrap().image@ == second.unwrap().image@ && first.unwrap().vertices@
            == second.unwrap().vertices@ && first.unwrap().texcoords@
            == second.unwrap().texcoords@,
{
    let pads = padded(sprite_dims(sprites));
    if let Ok(a) = first {
        assert(side_ok(pads, a.image@.width as int));
        if let Ok(b) = second {
            lemma_atlas_unique(sprites, a, b);
        }
    } else if let Ok(b) = second {
        assert(side_ok(pads, b.image@.width as int));
    }
}

} // verus!
