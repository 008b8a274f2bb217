//! The finished image, held in the encoder's own buffer.
//!
//! The buffer belongs to the `image` crate. This module states what the few
//! calls made on it do, and offers the verified operations that the rest of
//! the crate builds on.

use vstd::prelude::*;
use crate::color::Color;

verus! {

/// An RGB image of eight-bit channels, stored by the `image` crate.
#[verifier::external_body]
pub struct Canvas {
    image: image::RgbImage,
}

/// The pixels of a canvas, row by row from the top, left to right in a row.
pub uninterp spec fn canvas_pixels(canvas: Canvas) -> Seq<Color>;

/// The number of pixels in a row of a canvas.
pub uninterp spec fn canvas_width(canvas: Canvas) -> nat;

/// The number of rows of a canvas.
pub uninterp spec fn canvas_height(canvas: Canvas) -> nat;

/// The largest number of bytes that one buffer may hold.
pub open spec fn max_buffer_len() -> int {
    isize::MAX as int
}

/// Whether an image of the given size can be made. Its bytes are counted
/// three to a pixel, first along one row and then over all rows: the count
/// for a row must be a `usize`, also where there is no row at all, and the
/// count for the image must fit in one buffer.
pub open spec fn holdable(width: int, height: int) -> bool {
    &&& 3 * width <= usize::MAX
    &&& 3 * width * height <= max_buffer_len()
}

/// `ImageBuffer::new`: an image of the given size with every channel zero.
/// It computes the byte count as three times the width, times the height,
/// and panics where either product is no `usize`, or where the vector of
/// that many bytes would be longer than a vector can be. The precondition
/// excludes all three.
#[verifier::external_body]
fn image_new(width: u32, height: u32) -> (canvas: Canvas)
    requires
        3 * width <= usize::MAX,
        3 * width * height <= max_buffer_len(),
    ensures
        canvas_width(canvas) == width,
        canvas_height(canvas) == height,
        canvas_pixels(canvas) == Seq::new((width * height) as nat, |i: int| Color::spec_black()),
{
    Canvas { image: image::ImageBuffer::new(width, height) }
}

/// `ImageBuffer::put_pixel`: replaces the pixel in column `x` of row `y` and
/// leaves every other pixel and the size as they were. It panics outside the
/// image, which the precondition excludes.
#[verifier::external_body]
fn image_put_pixel(canvas: &mut Canvas, x: u32, y: u32, color: Color)
    requires
        x < canvas_width(*old(canvas)),
        y < canvas_height(*old(canvas)),
    ensures
        canvas_width(*final(canvas)) == canvas_width(*old(canvas)),
        canvas_height(*final(canvas)) == canvas_height(*old(canvas)),
        canvas_pixels(*final(canvas)) == canvas_pixels(*old(canvas)).update(
            y * canvas_width(*old(canvas)) + x,
            color,
        ),
{
    canvas.image.put_pixel(x, y, image::Rgb([color.r, color.g, color.b]));
}

/// `ImageBuffer::get_pixel`: the pixel in column `x` of row `y`. It panics
/// outside the image, which the precondition excludes.
#[verifier::external_body]
fn image_get_pixel(canvas: &Canvas, x: u32, y: u32) -> (color: Color)
    requires
        x < canvas_width(*canvas),
        y < canvas_height(*canvas),
    ensures
        color == canvas_pixels(*canvas)[y * canvas_width(*canvas) + x],
{
    let p = canvas.image.get_pixel(x, y);
    Color { r: p.0[0], g: p.0[1], b: p.0[2] }
}

/// `ImageBuffer::width`.
#[verifier::external_body]
fn image_width(canvas: &Canvas) -> (w: u32)
    ensures
        w == canvas_width(*canvas),
{
    canvas.image.width()
}

/// `ImageBuffer::height`.
#[verifier::external_body]
fn image_height(canvas: &Canvas) -> (h: u32)
    ensures
        h == canvas_height(*canvas),
{
    canvas.image.height()
}

/// `ImageBuffer::into_raw`: the image's bytes, three for each pixel in the
/// order red, green, blue, the pixels in the order of `canvas_pixels`.
#[verifier::external_body]
fn image_into_raw(canvas: Canvas) -> (bytes: Vec<u8>)
    ensures
        bytes@ == channels(canvas_pixels(canvas)),
{
    canvas.image.into_raw()
}

/// The bytes of a run of pixels: red, green and blue of the first, then of
/// the second, and so on.
pub open spec fn channels(pixels: Seq<Color>) -> Seq<u8> {
    Seq::new(
        3 * pixels.len(),
        |i: int|
            if i % 3 == 0 {
                pixels[i / 3].r
            } else if i % 3 == 1 {
                pixels[i / 3].g
            } else {
                pixels[i / 3].b
            },
    )
}

/// In a grid of `width` columns and `height` rows, the cell in column `x` of
/// row `y` has a row-major index below `width * height`.
pub proof fn lemma_cell_index_in_range(x: int, y: int, width: int, height: int)
    requires
        0 <= x < width,
        0 <= y < height,
    ensures
        0 <= y * width + x < width * height,
{
    assert(y * width + x < width * height) by (nonlinear_arith)
        requires
            0 <= x < width,
            0 <= y < height,
    {
        assert((y + 1) * width <= height * width);
    }
    assert(0 <= y * width) by (nonlinear_arith)
        requires
            0 <= y,
            0 <= width,
    ;
}

impl Canvas {
    /// The pixels, row by row from the top.
    pub open spec fn pixels(self) -> Seq<Color> {
        canvas_pixels(self)
    }

    /// The width in pixels.
    pub open spec fn spec_width(self) -> nat {
        canvas_width(self)
    }

    /// The height in pixels.
    pub open spec fn spec_height(self) -> nat {
        canvas_height(self)
    }

    /// A canvas holds exactly one pixel for each column of each row.
    pub open spec fn wf(self) -> bool {
        self.pixels().len() == self.spec_width() * self.spec_height()
    }

    /// The pixel in column `x` of row `y`.
    pub open spec fn at(self, x: int, y: int) -> Color {
        self.pixels()[y * self.spec_width() + x]
    }

    /// Whether an image of `width * height` pixels of three bytes can be
    /// made.
    pub fn fits(width: u32, height: u32) -> (ok: bool)
        ensures
            ok == holdable(width as int, height as int),
    {
        let row: u64 = 3 * (width as u64);
        if row > usize::MAX as u64 {
            return false;
        }
        assert(width * height <= 0xffff_ffff * 0xffff_ffff) by (nonlinear_arith)
            requires
                width <= 0xffff_ffff,
                height <= 0xffff_ffff,
        ;
        let pixels: u64 = (width as u64) * (height as u64);
        assert(3 * width * height == 3 * (width * height)) by (nonlinear_arith);
        pixels <= (isize::MAX as u64) / 3
    }

    /// A black canvas of the given size.
    pub fn new(width: u32, height: u32) -> (canvas: Canvas)
        requires
            3 * width <= usize::MAX,
            3 * width * height <= max_buffer_len(),
        ensures
            canvas.wf(),
            canvas.spec_width() == width,
            canvas.spec_height() == height,
            forall|i: int| 0 <= i < width * height ==> canvas.pixels()[i] == Color::spec_black(),
    {
        image_new(width, height)
    }

    /// The width in pixels.
    pub fn width(&self) -> (w: u32)
        ensures
            w == self.spec_width(),
    {
        image_width(self)
    }

    /// The height in pixels.
    pub fn height(&self) -> (h: u32)
        ensures
            h == self.spec_height(),
    {
        image_height(self)
    }

    /// Width and height, in that order.
    pub fn dimensions(&self) -> (d: (u32, u32))
        ensures
            d.0 == self.spec_width(),
            d.1 == self.spec_height(),
    {
        (image_width(self), image_height(self))
    }

    /// Whether the canvas has no pixel at all.
    pub fn is_empty(&self) -> (e: bool)
        requires
            self.wf(),
        ensures
            e == (self.pixels().len() == 0),
    {
        let w = image_width(self);
        let h = image_height(self);
        assert((w == 0 || h == 0) <==> w * h == 0) by (nonlinear_arith);
        w == 0 || h == 0
    }

    /// Sets the pixel in column `x` of row `y`.
    pub fn put_pixel(&mut self, x: u32, y: u32, color: Color)
        requires
            old(self).wf(),
            x < old(self).spec_width(),
            y < old(self).spec_height(),
        ensures
            final(self).wf(),
            final(self).spec_width() == old(self).spec_width(),
            final(self).spec_height() == old(self).spec_height(),
            final(self).pixels() == old(self).pixels().update(
                y * old(self).spec_width() + x,
                color,
            ),
    {
        proof {
            lemma_cell_index_in_range(
                x as int,
                y as int,
                self.spec_width() as int,
                self.spec_height() as int,
            );
        }
        image_put_pixel(self, x, y, color);
    }

    /// The pixel in column `x` of row `y`.
    pub fn get_pixel(&self, x: u32, y: u32) -> (color: Color)
        requires
            x < self.spec_width(),
            y < self.spec_height(),
        ensures
            color == self.at(x as int, y as int),
    {
        image_get_pixel(self, x, y)
    }

    /// The image as bytes: three for each pixel, row by row from the top.
    pub fn into_raw(self) -> (bytes: Vec<u8>)
        ensures
            bytes@ == channels(self.pixels()),
    {
        image_into_raw(self)
    }
}

} // verus!
