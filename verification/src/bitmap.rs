//! Bitmaps of the `image` crate, as far as the carver reads and writes them.
//!
//! Verus does not look inside a `DynamicImage`. What the carver needs of one
//! is given names here, and the few methods it calls are wrapped with
//! contracts that are stated over those names and taken on trust.

use vstd::prelude::*;
use image::{DynamicImage, GenericImage, GenericImageView, Rgba};
use crate::picture::Picture;

verus! {

/// The `image` crate's `DynamicImage`: a bitmap in one of several pixel
/// formats. Nothing inside it is visible here.
#[verifier::external_type_specification]
#[verifier::external_body]
pub struct ExDynamicImage(image::DynamicImage);

/// The width and the height of a bitmap, as `DynamicImage::dimensions`
/// gives them.
pub uninterp spec fn image_dimensions(image: DynamicImage) -> (u32, u32);

/// The colours of a bitmap: at the key `(x, y)` the colour that
/// `get_pixel(x, y)` reads, as its four channels red, green, blue, alpha.
pub uninterp spec fn image_pixels(image: DynamicImage) -> Map<(int, int), [u8; 4]>;

/// The colour that is read back from a bitmap after `pixel` was put into it.
/// A bitmap keeps its colours in a format of its own; one of 8-bit RGBA
/// gives back what was put in, one of another format what that format keeps
/// of it.
pub uninterp spec fn stored_pixel(image: DynamicImage, pixel: [u8; 4]) -> [u8; 4];

/// The bitmap as a picture.
pub open spec fn image_picture(image: DynamicImage) -> Picture {
    Picture {
        width: image_dimensions(image).0 as nat,
        rows: Seq::new(
            image_dimensions(image).1 as nat,
            |y: int| Seq::new(image_dimensions(image).0 as nat, |x: int| image_pixels(image)[(x, y)]),
        ),
    }
}

/// `GenericImageView::dimensions` of a `DynamicImage`: the width and height
/// of the bitmap.
#[verifier::external_body]
pub(crate) fn dimensions(image: &DynamicImage) -> (size: (u32, u32))
    ensures
        size == image_dimensions(*image),
{
    image.dimensions()
}

/// `GenericImageView::get_pixel` of a `DynamicImage`: the colour at
/// `(x, y)`. The call panics outside the bitmap, so the position must lie
/// inside.
#[verifier::external_body]
pub(crate) fn get_pixel(image: &DynamicImage, x: u32, y: u32) -> (pixel: [u8; 4])
    requires
        x < image_dimensions(*image).0,
        y < image_dimensions(*image).1,
    ensures
        pixel == image_pixels(*image)[(x as int, y as int)],
{
    image.get_pixel(x, y).0
}

/// `GenericImage::put_pixel` of a `DynamicImage`: converts the colour to the
/// bitmap's format and stores it at `(x, y)`. The size, the format and all
/// other colours stay as they were. The call panics outside the bitmap, so
/// the position must lie inside.
#[verifier::external_body]
pub(crate) fn put_pixel(image: &mut DynamicImage, x: u32, y: u32, pixel: [u8; 4])
    requires
        x < image_dimensions(*old(image)).0,
        y < image_dimensions(*old(image)).1,
    ensures
        image_dimensions(*final(image)) == image_dimensions(*old(image)),
        image_pixels(*final(image)) == image_pixels(*old(image)).insert(
            (x as int, y as int),
            stored_pixel(*old(image), pixel),
        ),
        forall|p: [u8; 4]| #[trigger] stored_pixel(*final(image), p) == stored_pixel(*old(image), p),
{
    image.put_pixel(x, y, Rgba(pixel))
}

/// `DynamicImage::new_rgba8`: a bitmap of the given size in 8-bit RGBA with
/// every channel zero. The call panics when the number of its bytes, four
/// for each pixel, is more than a vector can hold, so that number must be
/// at most `isize::MAX`.
#[verifier::external_body]
pub(crate) fn new_rgba8(width: u32, height: u32) -> (image: DynamicImage)
    requires
        4 * (width as int * height as int) <= isize::MAX,
    ensures
        image_dimensions(image) == (width, height),
        forall|x: int, y: int|
            0 <= x < width && 0 <= y < height ==> #[trigger] image_pixels(image)[(x, y)]
                == [0u8, 0u8, 0u8, 0u8],
        forall|p: [u8; 4]| #[trigger] stored_pixel(image, p) == p,
{
    DynamicImage::new_rgba8(width, height)
}

/// `Clone::clone` of a `DynamicImage`: a bitmap of the same size and format
/// with the same colours.
#[verifier::external_body]
pub(crate) fn clone_image(image: &DynamicImage) -> (copy: DynamicImage)
    ensures
        image_dimensions(copy) == image_dimensions(*image),
        image_pixels(copy) == image_pixels(*image),
        forall|p: [u8; 4]| #[trigger] stored_pixel(copy, p) == stored_pixel(*image, p),
{
    image.clone()
}

} // verus!
