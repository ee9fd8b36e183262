//! The calls into the `image` crate that the splitting logic makes, and
//! what is known of their results.

use vstd::prelude::*;

use image::{DynamicImage, GenericImageView};

verus! {

#[verifier::external_type_specification]
#[verifier::external_body]
pub struct ExDynamicImage(DynamicImage);

/// The `(width, height)` of an image, as `GenericImageView::dimensions` reports them.
pub uninterp spec fn image_dims(img: DynamicImage) -> (u32, u32);

/// The raw 8-bit luma buffer of an image, row by row, as `DynamicImage::to_luma8`
/// converts it and `ImageBuffer::into_raw` hands it out.
pub uninterp spec fn image_luma(img: DynamicImage) -> Seq<u8>;

/// The pixels of an image converted to RGBA, as `DynamicImage::to_rgba8`
/// converts them: the `[r, g, b, a]` channels at each `(x, y)`.
pub uninterp spec fn image_rgba(img: DynamicImage) -> Map<(u32, u32), [u8; 4]>;

/// Calls `GenericImageView::dimensions`; the result is the image's `(width, height)`.
#[verifier::external_body]
pub(crate) fn dimensions(img: &DynamicImage) -> (res: (u32, u32))
    ensures
        res == image_dims(*img),
{
    img.dimensions()
}

/// Calls `DynamicImage::to_luma8` and hands out the buffer of the luma image.
///
/// The conversion keeps the image's dimensions, and an `ImageBuffer` holds at
/// least `width * height` one-channel samples (its constructors check that), so
/// the buffer is at least that long; pixel `(x, y)` is the sample at
/// `y * width + x`. How a color is turned into luma is left unsaid: the buffer
/// is `image_luma` of the image.
#[verifier::external_body]
pub(crate) fn luma_pixels(img: &DynamicImage) -> (res: Vec<u8>)
    ensures
        res@ == image_luma(*img),
        res@.len() >= image_dims(*img).0 as int * image_dims(*img).1 as int,
{
    img.to_luma8().into_raw()
}

/// The rectangle that `image::imageops::crop_imm` keeps of an image of
/// `iw` by `ih` pixels when asked for `(x, y, w, h)`: the corner is clamped
/// into the image and the extent to what remains of it.
pub open spec fn crop_extent(iw: u32, ih: u32, x: u32, y: u32, w: u32, h: u32) -> (u32, u32) {
    let cx = if x < iw { x } else { iw };
    let cy = if y < ih { y } else { ih };
    let cw = if w < (iw - cx) as u32 { w } else { (iw - cx) as u32 };
    let ch = if h < (ih - cy) as u32 { h } else { (ih - cy) as u32 };
    (cw, ch)
}

/// The image that `DynamicImage::crop_imm` makes of `img` when asked for the
/// part at `(x, y)` of `w` by `h` pixels. It depends on these arguments alone.
pub uninterp spec fn image_crop(img: DynamicImage, x: u32, y: u32, w: u32, h: u32) -> DynamicImage;

/// Calls `DynamicImage::crop_imm`: a new image of the part of `img` at
/// `(x, y)` of `w` by `h` pixels, clamped as `crop_extent` says. The result
/// is `image_crop` of the arguments; which pixels that holds is left unsaid.
#[verifier::external_body]
pub(crate) fn crop_imm(img: &DynamicImage, x: u32, y: u32, w: u32, h: u32) -> (res: DynamicImage)
    ensures
        res == image_crop(*img, x, y, w, h),
        image_dims(res) == crop_extent(image_dims(*img).0, image_dims(*img).1, x, y, w, h),
{
    img.crop_imm(x, y, w, h)
}

} // verus!
