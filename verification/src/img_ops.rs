use vstd::prelude::*;
use image::DynamicImage;
use image::GenericImage;
use image::GenericImageView;

verus! {

#[verifier::external_type_specification]
#[verifier::external_body]
pub struct ExDynamicImage(DynamicImage);

/// The pixels of an image, row by row from the top left, each as the
/// (R, G, B, A) channel bytes of its RGBA reading.
pub uninterp spec fn img_pixels(img: DynamicImage) -> Seq<(u8, u8, u8, u8)>;

/// The width and height of an image, in pixels.
pub uninterp spec fn img_dims(img: DynamicImage) -> (u32, u32);

/// True of an image whose buffer stores the four RGBA channel bytes of every
/// pixel exactly as written. Images in other color formats convert written
/// pixels into their own format and may not give the same bytes back.
pub uninterp spec fn img_stores_rgba(img: DynamicImage) -> bool;

/// Relies on GenericImageView::dimensions: the image's width and height. The
/// pixel grid holds exactly width * height pixels, the order GenericImageView::pixels
/// walks them in.
#[verifier::external_body]
pub fn img_dimensions(img: &DynamicImage) -> (d: (u32, u32))
    ensures
        d == img_dims(*img),
        img_pixels(*img).len() == d.0 * d.1,
{
    img.dimensions()
}

/// Relies on GenericImageView::get_pixel: the RGBA channel bytes of the pixel
/// in column x of row y, which is pixel number y * width + x row by row.
#[verifier::external_body]
pub fn img_get_pixel(img: &DynamicImage, x: u32, y: u32) -> (p: (u8, u8, u8, u8))
    requires
        x < img_dims(*img).0,
        y < img_dims(*img).1,
    ensures
        p == img_pixels(*img)[y * img_dims(*img).0 + x],
{
    let q = img.get_pixel(x, y);
    (q.0[0], q.0[1], q.0[2], q.0[3])
}

/// Relies on GenericImage::put_pixel: writes the pixel in column x of row y
/// (pixel number y * width + x), leaving every other pixel, both dimensions
/// and the image's color format unchanged. Only a buffer that stores RGBA
/// exactly records the given bytes as they are; other formats convert them.
#[verifier::external_body]
pub fn img_put_pixel(img: &mut DynamicImage, x: u32, y: u32, p: (u8, u8, u8, u8))
    requires
        x < img_dims(*old(img)).0,
        y < img_dims(*old(img)).1,
    ensures
        img_dims(*final(img)) == img_dims(*old(img)),
        img_stores_rgba(*final(img)) == img_stores_rgba(*old(img)),
        img_pixels(*final(img)).len() == img_pixels(*old(img)).len(),
        forall|i: int|
            0 <= i < img_pixels(*old(img)).len() && i != y * img_dims(*old(img)).0 + x
                ==> img_pixels(*final(img))[i] == img_pixels(*old(img))[i],
        img_stores_rgba(*old(img)) ==> img_pixels(*final(img)) == img_pixels(*old(img)).update(
            y * img_dims(*old(img)).0 + x,
            p,
        ),
{
    img.put_pixel(x, y, image::Rgba([p.0, p.1, p.2, p.3]));
}

/// Relies on GenericImageView::pixels: yields every pixel once, row by row
/// from the top left.
#[verifier::external_body]
pub fn img_collect_pixels(img: &DynamicImage) -> (v: Vec<(u8, u8, u8, u8)>)
    ensures
        v@ == img_pixels(*img),
{
    img.pixels().map(|(_, _, q)| (q.0[0], q.0[1], q.0[2], q.0[3])).collect()
}

/// Relies on DynamicImage::new_rgba8: a width * height image of fully
/// transparent black RGBA pixels, stored exactly as written.
#[verifier::external_body]
pub fn new_rgba_image(width: u32, height: u32) -> (img: DynamicImage)
    requires
        4 * (width as int) * (height as int) <= usize::MAX,
    ensures
        img_dims(img) == (width, height),
        img_stores_rgba(img),
        img_pixels(img) == Seq::new((width * height) as nat, |i: int| (0u8, 0u8, 0u8, 0u8)),
{
    DynamicImage::new_rgba8(width, height)
}

} // verus!
