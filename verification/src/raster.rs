//! The pixel grid that a render fills: an 8-bit RGB image of the `image`
//! crate, reached through a handful of trusted declarations.
//!
//! Nothing here is proved. Each contract states what the `image` crate does,
//! as its source shows it, over two names: what a pixel holds and what an
//! image holds.

use vstd::prelude::*;

verus! {

#[verifier::external_type_specification]
#[verifier::external_body]
pub struct ExDynamicImage(image::DynamicImage);

#[verifier::external_type_specification]
#[verifier::external_body]
#[verifier::reject_recursive_types(T)]
pub struct ExRgba<T>(image::Rgba<T>);

/// The four channels of a pixel: red, green, blue, alpha.
pub uninterp spec fn rgba_channels(pixel: image::Rgba<u8>) -> Seq<u8>;

/// What an image holds. For an image stored as 8-bit RGB this maps each
/// coordinate `(x, y)` inside the image, `x` counting columns from the left
/// and `y` rows from the top, to the red, green and blue value there. For an
/// image stored in any other way it is the empty map.
pub uninterp spec fn raster(img: image::DynamicImage) -> Map<(u32, u32), (u8, u8, u8)>;

/// The grid of `width` by `height` black pixels.
pub open spec fn blank_raster(width: u32, height: u32) -> Map<(u32, u32), (u8, u8, u8)> {
    Map::new(|at: (u32, u32)| at.0 < width && at.1 < height, |at: (u32, u32)| (0u8, 0u8, 0u8))
}

/// `image::Rgba`, the tuple struct's constructor: the pixel holds the four
/// values in the order given.
#[verifier::external_body]
pub(crate) fn rgba_from_channels(r: u8, g: u8, b: u8, a: u8) -> (pixel: image::Rgba<u8>)
    ensures
        rgba_channels(pixel) == seq![r, g, b, a],
{
    image::Rgba([r, g, b, a])
}

/// `image::DynamicImage::new_rgb8`: an image stored as 8-bit RGB, of the
/// given size, every channel zero. The call panics when the buffer of three
/// bytes per pixel does not fit a vector, which the precondition excludes.
#[verifier::external_body]
pub(crate) fn new_rgb8(width: u32, height: u32) -> (img: image::DynamicImage)
    requires
        3 * width <= usize::MAX,
        3 * width * height <= usize::MAX,
    ensures
        raster(img) == blank_raster(width, height),
{
    image::DynamicImage::new_rgb8(width, height)
}

/// `image::GenericImage::put_pixel` on a `DynamicImage`: in an image stored
/// as 8-bit RGB the pixel at `(x, y)` takes the red, green and blue of the
/// given pixel, whose alpha is dropped; no other pixel changes. The call
/// panics outside the image, which the precondition excludes.
#[verifier::external_body]
pub(crate) fn put_pixel(img: &mut image::DynamicImage, x: u32, y: u32, pixel: image::Rgba<u8>)
    requires
        raster(*old(img)).dom().contains((x, y)),
    ensures
        raster(*final(img)) == raster(*old(img)).insert(
            (x, y),
            (rgba_channels(pixel)[0], rgba_channels(pixel)[1], rgba_channels(pixel)[2]),
        ),
{
    image::GenericImage::put_pixel(img, x, y, pixel)
}

} // verus!
