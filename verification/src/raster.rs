//! A raster of RGB pixels, stored in an `image::RgbImage`.

use crate::draw::Color;
use vstd::prelude::*;

verus! {

/// A `width` by `height` raster of RGB pixels.
///
/// The pixels live in an `image::RgbImage`, which the verifier does not look
/// into: `raster_dims` and `raster_pixels` name what it holds, and the
/// private functions of this module say what the calls into `image` do to
/// them.
#[verifier::external_body]
#[derive(Debug)]
pub struct Raster {
    img: image::RgbImage,
}

/// Width and height of a raster.
pub uninterp spec fn raster_dims(img: Raster) -> (nat, nat);

/// The pixels of a raster row by row, each row from left to right.
pub uninterp spec fn raster_pixels(img: Raster) -> Seq<Color>;

/// `ImageBuffer::dimensions`: the width and the height the buffer was made
/// with. The buffer holds one pixel for each position of that extent.
#[verifier::external_body]
pub(crate) fn raster_dimensions(img: &Raster) -> (r: (u32, u32))
    ensures
        r.0 == raster_dims(*img).0,
        r.1 == raster_dims(*img).1,
        raster_pixels(*img).len() == r.0 * r.1,
{
    img.img.dimensions()
}

/// `ImageBuffer::get_pixel`: the pixel at column `x` of row `y`. The call
/// panics outside the buffer's extent, which `requires` leaves out.
#[verifier::external_body]
pub(crate) fn raster_get_pixel(img: &Raster, x: u32, y: u32) -> (c: Color)
    requires
        x < raster_dims(*img).0,
        y < raster_dims(*img).1,
    ensures
        c == raster_pixels(*img)[y * raster_dims(*img).0 + x],
{
    let p = img.img.get_pixel(x, y);
    Color { r: p.0[0], g: p.0[1], b: p.0[2] }
}

/// `ImageBuffer::put_pixel`: overwrites the pixel at column `x` of row `y`
/// and nothing else. The call panics outside the buffer's extent, which
/// `requires` leaves out.
#[verifier::external_body]
pub(crate) fn raster_put_pixel(img: &mut Raster, x: u32, y: u32, c: Color)
    requires
        x < raster_dims(*old(img)).0,
        y < raster_dims(*old(img)).1,
    ensures
        raster_dims(*final(img)) == raster_dims(*old(img)),
        raster_pixels(*final(img)) == raster_pixels(*old(img)).update(
            y * raster_dims(*old(img)).0 + x,
            c,
        ),
{
    img.img.put_pixel(x, y, image::Rgb([c.r, c.g, c.b]))
}

/// `ImageBuffer::from_pixel`: a buffer of the given extent with every pixel
/// set to `c`. The call panics where the three bytes per pixel exceed what a
/// vector can hold, which `requires` leaves out.
#[verifier::external_body]
pub(crate) fn raster_from_pixel(width: u32, height: u32, c: Color) -> (img: Raster)
    requires
        3 * width * height <= isize::MAX,
    ensures
        raster_dims(img) == (width as nat, height as nat),
        raster_pixels(img) == Seq::new((width * height) as nat, |i: int| c),
{
    Raster { img: image::ImageBuffer::from_pixel(width, height, image::Rgb([c.r, c.g, c.b])) }
}

impl Raster {
    /// Width of the raster in pixels.
    pub open spec fn width(&self) -> nat {
        raster_dims(*self).0
    }

    /// Height of the raster in pixels.
    pub open spec fn height(&self) -> nat {
        raster_dims(*self).1
    }

    /// The pixel at column `x` of row `y`.
    pub open spec fn pixel(&self, x: int, y: int) -> Color {
        raster_pixels(*self)[y * self.width() + x]
    }

    /// A raster of the given extent with every pixel set to `fill`, or `None`
    /// where its bytes would not fit in memory.
    pub fn new(width: u32, height: u32, fill: Color) -> (r: Option<Raster>)
        ensures
            r is Some <==> 3 * width * height <= isize::MAX,
            r matches Some(img) ==> {
                &&& img.width() == width
                &&& img.height() == height
                &&& raster_pixels(img).len() == width * height
                &&& forall|x: int, y: int|
                    0 <= x < width && 0 <= y < height ==> #[trigger] img.pixel(x, y) == fill
            },
    {
        assert(0 <= width * height <= 0xffff_ffff * 0xffff_ffff && 3 * width * height == 3 * (width
            * height)) by (nonlinear_arith)
            requires
                0 <= width <= 0xffff_ffff,
                0 <= height <= 0xffff_ffff,
        ;
        let area: u128 = (width as u128) * (height as u128);
        let bytes: u128 = 3 * area;
        if bytes <= isize::MAX as u128 {
            let img = raster_from_pixel(width, height, fill);
            proof {
                assert forall|x: int, y: int| 0 <= x < width && 0 <= y < height implies img.pixel(
                    x,
                    y,
                ) == fill by {
                    lemma_cell_in_range(x, y, width as int, height as int);
                }
            }
            Some(img)
        } else {
            None
        }
    }

    /// Width and height of the raster, which holds one pixel for each
    /// position of that extent.
    pub fn dimensions(&self) -> (r: (u32, u32))
        ensures
            r.0 == self.width(),
            r.1 == self.height(),
            raster_pixels(*self).len() == r.0 * r.1,
    {
        raster_dimensions(self)
    }

    /// The pixel at column `x` of row `y`, or `None` outside the raster.
    pub fn get(&self, x: u32, y: u32) -> (r: Option<Color>)
        ensures
            r is Some <==> x < self.width() && y < self.height(),
            r matches Some(c) ==> c == self.pixel(x as int, y as int),
    {
        let (width, height) = raster_dimensions(self);
        if x < width && y < height {
            Some(raster_get_pixel(self, x, y))
        } else {
            None
        }
    }

    /// Sets the pixel at column `x` of row `y` and says whether the position
    /// lies on the raster; outside it nothing changes.
    pub fn set(&mut self, x: u32, y: u32, c: Color) -> (done: bool)
        ensures
            done <==> x < old(self).width() && y < old(self).height(),
            final(self).width() == old(self).width(),
            final(self).height() == old(self).height(),
            done ==> raster_pixels(*final(self)) == raster_pixels(*old(self)).update(
                y * old(self).width() + x,
                c,
            ),
            !done ==> raster_pixels(*final(self)) == raster_pixels(*old(self)),
    {
        let (width, height) = raster_dimensions(self);
        if x < width && y < height {
            raster_put_pixel(self, x, y, c);
            true
        } else {
            false
        }
    }
}

/// The cell `y * width + x` of a position on the canvas is an index into the
/// `width * height` cells of the canvas.
pub proof fn lemma_cell_in_range(x: int, y: int, width: int, height: int)
    requires
        0 <= x < width,
        0 <= y < height,
    ensures
        0 <= y * width + x < width * height,
{
    assert(y * width + x < width * height) by (nonlinear_arith)
        requires
            0 <= x < width,
            0 <= y < height,
    {
        assert((y + 1) * width <= height * width);
    }
    assert(0 <= y * width) by (nonlinear_arith)
        requires
            0 <= y,
            0 <= width,
    ;
}

} // verus!
