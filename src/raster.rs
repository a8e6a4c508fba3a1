//! An RGB raster: `3 * width * height` bytes, row-major, one `R, G, B`
//! triple per pixel, no padding between rows.

use image::DynamicImage;
use vstd::prelude::*;

verus! {

#[verifier::external_type_specification]
#[verifier::external_body]
pub struct ExDynamicImage(DynamicImage);

/// Relies on `DynamicImage::to_rgb8`, `ImageBuffer::dimensions` and
/// `ImageBuffer::into_raw` (image 0.25): the RGB copy of an image has the
/// image's width and height, and its buffer holds at least
/// `3 * width * height` bytes, row-major, of which the first
/// `3 * width * height` are the pixels.
#[verifier::external_body]
fn rgb8_parts(img: &DynamicImage) -> (r: (u32, u32, Vec<u8>))
    ensures
        r.2@.len() >= 3 * r.0 * r.1,
{
    let rgb = img.to_rgb8();
    let (width, height) = rgb.dimensions();
    (width, height, rgb.into_raw())
}

/// The number of pixels of a `width` by `height` image, which always fits in a `u64`.
pub fn pixel_count(width: u32, height: u32) -> (p: u64)
    ensures
        p == width * height,
        3 * p == 3 * width * height,
{
    let w = width as u64;
    let h = height as u64;
    assert(w * h <= 0xffff_ffffu64 * 0xffff_ffffu64) by (nonlinear_arith)
        requires
            w <= 0xffff_ffffu64,
            h <= 0xffff_ffffu64,
    ;
    let p = w * h;
    assert(3 * p == 3 * width * height) by (nonlinear_arith)
        requires
            p == w * h,
            w == width,
            h == height,
    ;
    p
}

#[derive(Debug)]
pub struct Raster {
    width: u32,
    height: u32,
    data: Vec<u8>,
}

impl Raster {
    #[verifier::type_invariant]
    spec fn sized(&self) -> bool {
        self.data@.len() == 3 * self.width * self.height
    }

    pub closed spec fn spec_width(&self) -> u32 {
        self.width
    }

    pub closed spec fn spec_height(&self) -> u32 {
        self.height
    }

    pub closed spec fn spec_data(&self) -> Seq<u8> {
        self.data@
    }

    /// A raster of the given dimensions over `data`, which must hold exactly
    /// `3 * width * height` bytes.
    pub fn new(width: u32, height: u32, data: Vec<u8>) -> (r: Option<Raster>)
        ensures
            (r is Some) == (data@.len() == 3 * width * height),
            r matches Some(raster) ==> raster.spec_width() == width && raster.spec_height()
                == height && raster.spec_data() == data@,
    {
        let pixels = pixel_count(width, height);
        if pixels > (data.len() / 3) as u64 || pixels * 3 != data.len() as u64 {
            return None;
        }
        Some(Raster { width, height, data })
    }

    /// The RGB pixels of a decoded image of any color type.
    pub fn from_image(img: &DynamicImage) -> (r: Raster) {
        let (width, height, mut data) = rgb8_parts(img);
        let pixels = pixel_count(width, height);
        let len = data.len();
        assert(3 * pixels <= len);
        data.truncate((pixels * 3) as usize);
        Raster { width, height, data }
    }

    pub fn width(&self) -> (r: u32)
        ensures
            r == self.spec_width(),
    {
        self.width
    }

    pub fn height(&self) -> (r: u32)
        ensures
            r == self.spec_height(),
    {
        self.height
    }

    pub fn data(&self) -> (r: &Vec<u8>)
        ensures
            r@ == self.spec_data(),
            r@.len() == 3 * self.spec_width() * self.spec_height(),
    {
        proof {
            use_type_invariant(self);
        }
        &self.data
    }

    pub fn into_data(self) -> (r: Vec<u8>)
        ensures
            r@ == self.spec_data(),
    {
        self.data
    }
}

} // verus!
