//! The pixel buffer that the colours are written to.

use image::ImageBuffer;
use image::Rgb;
use image::RgbImage;
use vstd::prelude::*;

verus! {

/// An image of red, green and blue bytes, kept in an `image::RgbImage`.
/// That type is generic over a pixel type bound by a trait of the `image`
/// crate, so the buffer stays closed here and is read only through `pixels`
/// and `extent`.
#[verifier::external_body]
pub struct Canvas {
    buffer: RgbImage,
}

/// The pixels of a canvas: the three channels at each position `(x, y)`.
pub uninterp spec fn pixels(canvas: Canvas) -> Map<(int, int), Seq<u8>>;

/// The width and the height that a canvas was made with.
pub uninterp spec fn extent(canvas: Canvas) -> (int, int);

/// A `width` by `height` image in which every channel is zero.
pub open spec fn blank(width: int, height: int) -> Map<(int, int), Seq<u8>> {
    Map::new(
        |at: (int, int)| 0 <= at.0 < width && 0 <= at.1 < height,
        |at: (int, int)| seq![0u8, 0u8, 0u8],
    )
}

/// `image::ImageBuffer::new`: an image of the given size with every channel
/// zero. It panics when three bytes per pixel do not fit in a vector.
#[verifier::external_body]
fn canvas_new(width: u32, height: u32) -> (canvas: Canvas)
    requires
        3 * width * height <= isize::MAX,
    ensures
        pixels(canvas) == blank(width as int, height as int),
        extent(canvas) == (width as int, height as int),
{
    Canvas { buffer: ImageBuffer::new(width, height) }
}

/// `image::ImageBuffer::put_pixel`: sets the pixel at `(x, y)` and leaves
/// the others, and the size, alone. It panics outside the image.
#[verifier::external_body]
fn canvas_put(canvas: &mut Canvas, x: u32, y: u32, color: [u8; 3])
    requires
        x < extent(*old(canvas)).0,
        y < extent(*old(canvas)).1,
    ensures
        pixels(*final(canvas)) == pixels(*old(canvas)).insert((x as int, y as int), color@),
        extent(*final(canvas)) == extent(*old(canvas)),
{
    canvas.buffer.put_pixel(x, y, Rgb(color))
}

/// `image::ImageBuffer::get_pixel`: the pixel at `(x, y)`. It panics outside
/// the image.
#[verifier::external_body]
fn canvas_get(canvas: &Canvas, x: u32, y: u32) -> (color: [u8; 3])
    requires
        x < extent(*canvas).0,
        y < extent(*canvas).1,
    ensures
        color@ == pixels(*canvas)[(x as int, y as int)],
{
    canvas.buffer.get_pixel(x, y).0
}

/// `image::ImageBuffer::width`.
#[verifier::external_body]
fn canvas_width(canvas: &Canvas) -> (width: u32)
    ensures
        width == extent(*canvas).0,
{
    canvas.buffer.width()
}

/// `image::ImageBuffer::height`.
#[verifier::external_body]
fn canvas_height(canvas: &Canvas) -> (height: u32)
    ensures
        height == extent(*canvas).1,
{
    canvas.buffer.height()
}

impl Canvas {
    /// The pixels, by position `(x, y)`.
    pub open spec fn view(&self) -> Map<(int, int), Seq<u8>> {
        pixels(*self)
    }

    /// The width the canvas was made with.
    pub open spec fn spec_width(&self) -> int {
        extent(*self).0
    }

    /// The height the canvas was made with.
    pub open spec fn spec_height(&self) -> int {
        extent(*self).1
    }

    /// A black canvas of the given size.
    pub fn black(width: u32, height: u32) -> (canvas: Canvas)
        requires
            3 * width * height <= isize::MAX,
        ensures
            canvas@ == blank(width as int, height as int),
            canvas.spec_width() == width,
            canvas.spec_height() == height,
    {
        canvas_new(width, height)
    }

    /// The width in pixels.
    pub fn width(&self) -> (width: u32)
        ensures
            width == self.spec_width(),
    {
        canvas_width(self)
    }

    /// The height in pixels.
    pub fn height(&self) -> (height: u32)
        ensures
            height == self.spec_height(),
    {
        canvas_height(self)
    }

    /// The pixel at `(x, y)`, or `None` outside the canvas.
    pub fn pixel(&self, x: u32, y: u32) -> (color: Option<[u8; 3]>)
        ensures
            color.is_some() <==> x < self.spec_width() && y < self.spec_height(),
            color matches Some(c) ==> c@ == self@[(x as int, y as int)],
    {
        if x < canvas_width(self) && y < canvas_height(self) {
            Some(canvas_get(self, x, y))
        } else {
            None
        }
    }

    /// Paints the pixel at `(x, y)`.
    pub fn paint(&mut self, x: u32, y: u32, color: [u8; 3])
        requires
            x < old(self).spec_width(),
            y < old(self).spec_height(),
        ensures
            final(self)@ == old(self)@.insert((x as int, y as int), color@),
            final(self).spec_width() == old(self).spec_width(),
            final(self).spec_height() == old(self).spec_height(),
    {
        canvas_put(self, x, y, color)
    }
}

} // verus!
