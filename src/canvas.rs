use image::{ImageBuffer, Rgb, RgbImage};
use vstd::prelude::*;

verus! {

/// An RGB pixel buffer, backed by an `image::RgbImage`.
#[verifier::external_body]
pub struct Canvas {
    img: RgbImage,
}

/// The colour of each pixel of a canvas, keyed by (x, y).
pub uninterp spec fn pixels_of(c: Canvas) -> Map<(int, int), (u8, u8, u8)>;

/// The (width, height) of a canvas.
pub uninterp spec fn dimensions_of(c: Canvas) -> (u32, u32);

/// The pixels of a `width` by `height` canvas filled with `color`.
pub open spec fn filled_map(width: int, height: int, color: (u8, u8, u8)) -> Map<(int, int), (u8, u8, u8)> {
    Map::new(|p: (int, int)| 0 <= p.0 < width && 0 <= p.1 < height, |p: (int, int)| color)
}

impl Canvas {
    /// Relies on image's `ImageBuffer::from_pixel`: a `width` by `height` image
    /// with every pixel set to `color`; it panics where the buffer length
    /// `3 * width * height` overflows `usize`.
    #[verifier::external_body]
    pub(crate) fn filled(width: u32, height: u32, color: (u8, u8, u8)) -> (r: Canvas)
        requires
            3 * width * height <= usize::MAX,
        ensures
            dimensions_of(r) == (width, height),
            pixels_of(r) == filled_map(width as int, height as int, color),
    {
        Canvas { img: ImageBuffer::from_pixel(width, height, Rgb([color.0, color.1, color.2])) }
    }

    /// Relies on image's `ImageBuffer::put_pixel`: the pixel at (`x`, `y`)
    /// becomes `color` and nothing else changes; it panics outside the image.
    #[verifier::external_body]
    pub(crate) fn paint(&mut self, x: u32, y: u32, color: (u8, u8, u8))
        requires
            x < dimensions_of(*old(self)).0,
            y < dimensions_of(*old(self)).1,
        ensures
            dimensions_of(*final(self)) == dimensions_of(*old(self)),
            pixels_of(*final(self)) == pixels_of(*old(self)).insert((x as int, y as int), color),
    {
        self.img.put_pixel(x, y, Rgb([color.0, color.1, color.2]));
    }

    /// Relies on image's `ImageBuffer::get_pixel`: the colour at (`x`, `y`); it
    /// panics outside the image.
    #[verifier::external_body]
    pub(crate) fn pixel(&self, x: u32, y: u32) -> (r: (u8, u8, u8))
        requires
            x < dimensions_of(*self).0,
            y < dimensions_of(*self).1,
        ensures
            r == pixels_of(*self)[(x as int, y as int)],
    {
        let p = self.img.get_pixel(x, y);
        (p[0], p[1], p[2])
    }

    /// Relies on image's `ImageBuffer::dimensions`: the (width, height).
    #[verifier::external_body]
    pub(crate) fn dimensions(&self) -> (r: (u32, u32))
        ensures
            r == dimensions_of(*self),
    {
        self.img.dimensions()
    }

    /// The colour at (`x`, `y`), or `None` outside the canvas.
    pub fn get(&self, x: u32, y: u32) -> (r: Option<(u8, u8, u8)>)
        ensures
            r == if x < dimensions_of(*self).0 && y < dimensions_of(*self).1 {
                Some(pixels_of(*self)[(x as int, y as int)])
            } else {
                None::<(u8, u8, u8)>
            },
    {
        let (w, h) = self.dimensions();
        if x < w && y < h {
            Some(self.pixel(x, y))
        } else {
            None
        }
    }

    /// The (width, height) of the canvas in pixels.
    pub fn size(&self) -> (r: (u32, u32))
        ensures
            r == dimensions_of(*self),
    {
        self.dimensions()
    }
}

} // verus!
