//! Luma rasters and the inside/outside mask.

use vstd::prelude::*;

verus! {

#[verifier::external_type_specification]
#[verifier::external_body]
pub struct ExDynamicImage(image::DynamicImage);

/// A single-channel 8-bit raster, stored row-major.
pub struct Raster {
    pub width: u32,
    pub height: u32,
    pub luma: Vec<u8>,
}

impl Raster {
    /// The buffer holds exactly one byte per pixel.
    pub open spec fn wf(&self) -> bool {
        self.luma@.len() == self.width as int * self.height as int
    }

    /// Builds a raster from its size and its row-major luma bytes; `None`
    /// when the buffer does not hold exactly one byte per pixel.
    pub fn new(width: u32, height: u32, luma: Vec<u8>) -> (r: Option<Raster>)
        ensures
            r is Some <==> luma@.len() == width as int * height as int,
            r matches Some(ras) ==> ras.wf() && ras.width == width && ras.height == height
                && ras.luma@ == luma@,
    {
        proof {
            lemma_dims_fit_u128(width, height);
        }
        if (luma.len() as u128) == (width as u128) * (height as u128) {
            Some(Raster { width, height, luma })
        } else {
            None
        }
    }

    /// Converts a decoded image to its luma raster.
    pub fn from_image(image: &image::DynamicImage) -> (r: Raster)
        ensures
            r.wf(),
    {
        let (width, height, raw) = luma8_parts(image);
        let raw_len: usize = raw.len();
        let n: usize = (width as usize) * (height as usize);
        let mut luma: Vec<u8> = Vec::with_capacity(n);
        let mut i: usize = 0;
        while i < n
            invariant
                n == width as int * height as int,
                n <= raw@.len(),
                i <= n,
                luma@ == raw@.subrange(0, i as int),
            decreases n - i,
        {
            luma.push(raw[i]);
            i += 1;
        }
        assert(luma@.len() == n);
        Raster { width, height, luma }
    }
}

/// The pixel count of a raster fits in `u128`.
pub proof fn lemma_dims_fit_u128(width: u32, height: u32)
    ensures
        0 <= width as int * height as int <= u64::MAX,
{
    assert(0 <= width as int * height as int <= u32::MAX as int * u32::MAX as int) by (nonlinear_arith)
        requires width <= u32::MAX, height <= u32::MAX;
}

/// Relies on `image::DynamicImage::to_luma8` for the 8-bit luma copy of an
/// image, read back through `ImageBuffer::width`, `height` and `into_raw`:
/// an image buffer always holds at least one byte per pixel, and its pixel
/// count fits in `usize`.
#[verifier::external_body]
fn luma8_parts(image: &image::DynamicImage) -> (r: (u32, u32, Vec<u8>))
    ensures
        r.0 as int * r.1 as int <= r.2@.len(),
{
    let gray = image.to_luma8();
    (gray.width(), gray.height(), gray.into_raw())
}

/// Thresholds a raster: a pixel is inside when its luma is strictly above
/// the threshold.
pub open spec fn mask_of(luma: Seq<u8>, threshold: u8) -> Seq<bool> {
    Seq::new(luma.len(), |i: int| luma[i] > threshold)
}

/// The binary inside/outside mask of a raster.
pub fn create_binary_mask(raster: &Raster, threshold: u8) -> (mask: Vec<bool>)
    ensures
        mask@ == mask_of(raster.luma@, threshold),
{
    let mut mask: Vec<bool> = Vec::with_capacity(raster.luma.len());
    let mut i: usize = 0;
    while i < raster.luma.len()
        invariant
            i <= raster.luma@.len(),
            mask@ == mask_of(raster.luma@, threshold).subrange(0, i as int),
        decreases raster.luma@.len() - i,
    {
        mask.push(raster.luma[i] > threshold);
        i += 1;
    }
    assert(mask@ =~= mask_of(raster.luma@, threshold));
    mask
}

} // verus!
