//! Passing pixel buffers to and from the `image` crate.

use vstd::prelude::*;
use crate::img::{lemma_pixels_ext, transparent, Image, Pixels, Rgba8};

verus! {

/// An RGBA buffer of the `image` crate. The verifier does not look inside
/// it: what it holds goes by the names `buffer_size` and `buffer_pixels`,
/// and the functions below that read and write it state, without proof,
/// what the methods of `image::ImageBuffer` do to them.
#[verifier::external_body]
pub struct RgbaBuffer(pub image::RgbaImage);

/// Width and height of the buffer.
pub uninterp spec fn buffer_size(buffer: RgbaBuffer) -> (int, int);

/// The pixels of the buffer, by column and row.
pub uninterp spec fn buffer_pixels(buffer: RgbaBuffer) -> Map<(int, int), Rgba8>;

/// Column `x` of row `y` is a pixel of the buffer.
pub open spec fn buffer_has(buffer: RgbaBuffer, x: int, y: int) -> bool {
    0 <= x < buffer_size(buffer).0 && 0 <= y < buffer_size(buffer).1
}

/// What the buffer holds, as an image.
pub open spec fn buffer_image(buffer: RgbaBuffer) -> Pixels {
    Pixels {
        width: buffer_size(buffer).0 as nat,
        rows: Seq::new(
            buffer_size(buffer).1 as nat,
            |y: int| Seq::new(buffer_size(buffer).0 as nat, |x: int| buffer_pixels(buffer)[(x, y)]),
        ),
    }
}

/// `ImageBuffer::dimensions`: the width and the height of the buffer.
#[verifier::external_body]
fn buffer_dimensions(buffer: &RgbaBuffer) -> (d: (u32, u32))
    ensures
        buffer_size(*buffer) == (d.0 as int, d.1 as int),
{
    buffer.0.dimensions()
}

/// `ImageBuffer::get_pixel`: the four channels of the pixel in column `x`
/// of row `y`. The call panics outside the buffer, which the `requires`
/// leaves out.
#[verifier::external_body]
fn buffer_get(buffer: &RgbaBuffer, x: u32, y: u32) -> (p: Rgba8)
    requires
        buffer_has(*buffer, x as int, y as int),
    ensures
        p == buffer_pixels(*buffer)[(x as int, y as int)],
{
    let q = buffer.0.get_pixel(x, y);
    Rgba8 { r: q.0[0], g: q.0[1], b: q.0[2], a: q.0[3] }
}

/// `ImageBuffer::new`: a buffer of the given dimensions with every channel
/// of every pixel zero. The call panics where the buffer would be larger
/// than a vector can be, which the `requires` leaves out.
#[verifier::external_body]
fn buffer_new(width: u32, height: u32) -> (buffer: RgbaBuffer)
    requires
        4 * width * height <= isize::MAX,
    ensures
        buffer_size(buffer) == (width as int, height as int),
        forall|x: int, y: int| #[trigger]
            buffer_has(buffer, x, y) ==> buffer_pixels(buffer)[(x, y)] == transparent(),
{
    RgbaBuffer(image::RgbaImage::new(width, height))
}

/// `ImageBuffer::put_pixel`: replaces the pixel in column `x` of row `y`
/// and leaves the dimensions and the other pixels as they are. The call
/// panics outside the buffer, which the `requires` leaves out.
#[verifier::external_body]
fn buffer_put(buffer: &mut RgbaBuffer, x: u32, y: u32, p: Rgba8)
    requires
        buffer_has(*old(buffer), x as int, y as int),
    ensures
        buffer_size(*final(buffer)) == buffer_size(*old(buffer)),
        buffer_pixels(*final(buffer)) == buffer_pixels(*old(buffer)).insert(
            (x as int, y as int),
            p,
        ),
{
    buffer.0.put_pixel(x, y, image::Rgba([p.r, p.g, p.b, p.a]));
}

impl Image {
    /// A copy of what a buffer of the `image` crate holds.
    pub fn from_buffer(buffer: &RgbaBuffer) -> (img: Image)
        ensures
            img@ == buffer_image(*buffer),
    {
        let (w, h) = buffer_dimensions(buffer);
        let mut img: Image = Image::new(w, h);
        let mut y: u32 = 0;
        while y < h
            invariant
                y <= h,
                buffer_size(*buffer) == (w as int, h as int),
                img@.wf(),
                img@.width == w,
                img@.height() == h,
                forall|px: int, py: int|
                    0 <= px < w && 0 <= py < y ==> img@.at(px, py) == #[trigger] buffer_pixels(
                        *buffer,
                    )[(px, py)],
            decreases h - y,
        {
            let mut x: u32 = 0;
            while x < w
                invariant
                    x <= w,
                    y < h,
                    buffer_size(*buffer) == (w as int, h as int),
                    img@.wf(),
                    img@.width == w,
                    img@.height() == h,
                    forall|px: int, py: int|
                        0 <= px < w && (0 <= py < y || (py == y && px < x)) ==> img@.at(px, py)
                            == #[trigger] buffer_pixels(*buffer)[(px, py)],
                decreases w - x,
            {
                let p: Rgba8 = buffer_get(buffer, x, y);
                img.put_pixel(x, y, p);
                x = x + 1;
            }
            y = y + 1;
        }
        proof {
            let goal = buffer_image(*buffer);
            assert forall|px: int, py: int| img@.contains(px, py) implies img@.at(px, py)
                == goal.at(px, py) by {
                assert(img@.at(px, py) == buffer_pixels(*buffer)[(px, py)]);
            }
            lemma_pixels_ext(img@, goal);
        }
        img
    }

    /// A buffer of the `image` crate that holds a copy of the image; `None`
    /// where the image is larger than such a buffer can be.
    pub fn to_buffer(&self) -> (made: Option<RgbaBuffer>)
        ensures
            match made {
                Some(buffer) => buffer_image(buffer) == self@,
                None => 4 * self@.width * self@.height() > isize::MAX,
            },
    {
        let w: u32 = self.width();
        let h: u32 = self.height();
        proof {
            self.lemma_view_wf();
            assert(4 * w * h <= 4 * 0xffff_ffff * 0xffff_ffff) by (nonlinear_arith)
                requires
                    0 <= w <= 0xffff_ffff,
                    0 <= h <= 0xffff_ffff,
            ;
        }
        if 4 * (w as u128) * (h as u128) > isize::MAX as u128 {
            return None;
        }
        let mut buffer: RgbaBuffer = buffer_new(w, h);
        let mut y: u32 = 0;
        while y < h
            invariant
                y <= h,
                w == self@.width,
                h == self@.height(),
                buffer_size(buffer) == (w as int, h as int),
                forall|px: int, py: int|
                    0 <= px < w && 0 <= py < y ==> buffer_pixels(buffer)[(px, py)]
                        == #[trigger] self@.at(px, py),
            decreases h - y,
        {
            let mut x: u32 = 0;
            while x < w
                invariant
                    x <= w,
                    y < h,
                    w == self@.width,
                    h == self@.height(),
                    buffer_size(buffer) == (w as int, h as int),
                    forall|px: int, py: int|
                        0 <= px < w && (0 <= py < y || (py == y && px < x)) ==> buffer_pixels(
                            buffer,
                        )[(px, py)] == #[trigger] self@.at(px, py),
                decreases w - x,
            {
                buffer_put(&mut buffer, x, y, self.get_pixel(x, y));
                x = x + 1;
            }
            y = y + 1;
        }
        proof {
            let got = buffer_image(buffer);
            assert forall|px: int, py: int| got.contains(px, py) implies got.at(px, py) == self@.at(
                px,
                py,
            ) by {
                assert(buffer_pixels(buffer)[(px, py)] == self@.at(px, py));
            }
            lemma_pixels_ext(got, self@);
        }
        Some(buffer)
    }
}

} // verus!
