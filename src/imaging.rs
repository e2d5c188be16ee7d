//! Raster images of the `image` crate, as the graph renderer uses them.
//!
//! An image is seen through its dimensions and a map from each coordinate
//! `(x, y)` with `x < width` and `y < height` to the pixel's red, green and
//! blue values.

use vstd::prelude::*;

verus! {

/// An RGB image with 8 bits per channel, held in an `image::RgbImage`.
#[verifier::external_body]
pub struct Raster {
    pub buffer: image::RgbImage,
}

/// Width and height of an image.
pub uninterp spec fn image_dims(img: Raster) -> (u32, u32);

/// The pixels of an image, by `(x, y)` coordinate.
pub uninterp spec fn image_pixels(img: Raster) -> Map<(u32, u32), (u8, u8, u8)>;

/// The coordinates of a `w` by `h` image.
pub open spec fn coords(w: u32, h: u32) -> Set<(u32, u32)> {
    Set::new(|p: (u32, u32)| p.0 < w && p.1 < h)
}

/// Relies on `ImageBuffer::new`: a `w` by `h` image whose channels are all
/// zero. It panics when `3 * w`, or then `3 * w * h`, does not fit in
/// `usize`.
#[verifier::external_body]
pub(crate) fn new_raster(w: u32, h: u32) -> (r: Raster)
    requires
        3 * (w as int) <= usize::MAX,
        3 * (w as int) * (h as int) <= usize::MAX,
    ensures
        image_dims(r) == (w, h),
        image_pixels(r).dom() == coords(w, h),
        forall|p: (u32, u32)|
            coords(w, h).contains(p) ==> #[trigger] image_pixels(r)[p] == (0u8, 0u8, 0u8),
{
    Raster { buffer: image::RgbImage::new(w, h) }
}

/// Relies on `ImageBuffer::put_pixel`: overwrites the pixel at `(x, y)`,
/// which must lie inside the image (it panics otherwise).
#[verifier::external_body]
pub(crate) fn put_raster_pixel(img: &mut Raster, x: u32, y: u32, rgb: (u8, u8, u8))
    requires
        x < image_dims(*old(img)).0,
        y < image_dims(*old(img)).1,
    ensures
        image_dims(*final(img)) == image_dims(*old(img)),
        image_pixels(*final(img)) == image_pixels(*old(img)).insert((x, y), rgb),
{
    img.buffer.put_pixel(x, y, image::Rgb([rgb.0, rgb.1, rgb.2]));
}

} // verus!
