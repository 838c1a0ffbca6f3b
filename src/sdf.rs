//! The distance grid, its normalization and visualization.

use vstd::prelude::*;
use vstd::string::StringExecFns;
use crate::geometry::{index_of, lemma_index_in_bounds};

verus! {

/// The scale of normalized values: [`SDFData::get_normalized`] returns
/// `NORMALIZED_ONE` for a value of one.
pub const NORMALIZED_ONE: i64 = 65536;

/// A dense signed distance grid, row-major, in distance units: negative
/// inside, positive outside.
pub struct SDFData {
    pub width: u32,
    pub height: u32,
    pub data: Vec<i64>,
    pub max_distance: u32,
}

/// Relies on `image::ImageBuffer::from_raw` for `GrayImage`: it returns an
/// image exactly when the buffer holds at least one byte per pixel of a
/// `width` by `height` luma image, whose pixels are then those bytes,
/// row-major. The image is handed back as `DynamicImage::ImageLuma8`.
#[verifier::external_body]
fn gray_image_from_raw(width: u32, height: u32, bytes: Vec<u8>) -> (r: Option<image::DynamicImage>)
    ensures
        bytes@.len() == width as int * height as int ==> r is Some,
{
    image::GrayImage::from_raw(width, height, bytes).map(image::DynamicImage::ImageLuma8)
}

/// A finished grid with what the caller records about how it was made.
pub struct SDF {
    pub data: SDFData,
    pub metadata: SDFMetadata,
}

/// Where a grid came from and how it was computed; filled in by the caller.
pub struct SDFMetadata {
    pub source_file: Option<String>,
    pub algorithm: String,
    pub threshold: u8,
    pub processing_time: Option<std::time::Duration>,
}

impl SDF {
    /// Wraps raw grid values with default metadata: no source, algorithm
    /// `"unknown"`, threshold 128, no timing.
    pub fn from_raw_data(data: Vec<i64>, width: u32, height: u32, max_distance: u32) -> (r: Self)
        ensures
            r.data.data@ == data@,
            r.data.width == width && r.data.height == height && r.data.max_distance == max_distance,
            r.metadata.source_file is None,
            r.metadata.algorithm@ == "unknown"@,
            r.metadata.threshold == 128,
            r.metadata.processing_time is None,
    {
        SDF {
            data: SDFData { width, height, data, max_distance },
            metadata: SDFMetadata {
                source_file: None,
                algorithm: String::from_str("unknown"),
                threshold: 128,
                processing_time: None,
            },
        }
    }
}

/// `(v + m) / (2 m)` scaled by [`NORMALIZED_ONE`] and rounded down.
pub open spec fn normalized_value(v: int, m: int) -> int {
    (v + m) * NORMALIZED_ONE as int / (2 * m)
}

/// `q` limited to `0..=255`.
pub open spec fn clamp_byte(q: int) -> int {
    if q < 0 { 0 } else if q > 255 { 255 } else { q }
}

/// One visualization byte: `clamp(value, 0, 1) * 255` rounded down, where
/// the value is `(v + m) / (2 m)` when normalizing and `v / m` otherwise.
/// With `m == 0` the quotient is infinite or undefined: positive values
/// give 255, the others 0.
pub open spec fn visual_byte(v: int, m: int, normalize: bool) -> int {
    if m == 0 {
        if v > 0 { 255 } else { 0 }
    } else if normalize {
        clamp_byte((v + m) * 255 / (2 * m))
    } else {
        clamp_byte(v * 255 / m)
    }
}

/// `a / b` rounded toward negative infinity.
pub fn floor_div(a: i128, b: i128) -> (q: i128)
    requires
        b > 0,
        a > i128::MIN,
    ensures
        q as int == a as int / b as int,
{
    if a >= 0 {
        ((a as u128) / (b as u128)) as i128
    } else {
        let n: u128 = ((-(a + 1)) as u128) + (b as u128);
        let q: u128 = n / (b as u128);
        proof {
            let r = (n as int) % (b as int);
            vstd::arithmetic::div_mod::lemma_fundamental_div_mod(n as int, b as int);
            let qi = q as int;
            let bi = b as int;
            let ai = a as int;
            assert(bi * qi + r == -ai - 1 + bi);
            assert(qi <= -ai) by (nonlinear_arith)
                requires bi * qi + r == -ai - 1 + bi, 0 <= r, bi >= 1, -ai >= 1;
            assert((-qi) * bi == -(bi * qi)) by (nonlinear_arith);
            vstd::arithmetic::div_mod::lemma_fundamental_div_mod_converse(
                a as int,
                b as int,
                -(q as int),
                b - 1 - r,
            );
        }
        -(q as i128)
    }
}

impl SDFData {
    pub open spec fn wf(&self) -> bool {
        self.data@.len() == self.width as int * self.height as int
    }

    /// The value at `(x, y)`.
    pub open spec fn at(&self, x: int, y: int) -> int {
        self.data@[index_of(self.width as int, x, y)] as int
    }

    /// A grid with every cell at `max_distance`.
    pub fn new(width: u32, height: u32, max_distance: u32) -> (r: Self)
        requires
            width as int * height as int <= usize::MAX,
        ensures
            r.wf(),
            r.width == width && r.height == height && r.max_distance == max_distance,
            forall|i: int| 0 <= i < r.data@.len() ==> #[trigger] r.data@[i] == max_distance as i64,
    {
        let n: usize = (width as usize) * (height as usize);
        let data: Vec<i64> = vec![max_distance as i64; n];
        SDFData { width, height, data, max_distance }
    }

    pub fn get(&self, x: u32, y: u32) -> (v: i64)
        requires
            self.wf(),
            x < self.width,
            y < self.height,
        ensures
            v == self.at(x as int, y as int),
    {
        let n: usize = self.data.len();
        proof {
            lemma_index_in_bounds(self.width as int, self.height as int, x as int, y as int);
        }
        self.data[(y as usize) * (self.width as usize) + (x as usize)]
    }

    pub fn set(&mut self, x: u32, y: u32, value: i64)
        requires
            old(self).wf(),
            x < old(self).width,
            y < old(self).height,
        ensures
            final(self).wf(),
            final(self).width == old(self).width && final(self).height == old(self).height,
            final(self).max_distance == old(self).max_distance,
            final(self).data@ == old(self).data@.update(
                index_of(old(self).width as int, x as int, y as int),
                value,
            ),
    {
        let n: usize = self.data.len();
        proof {
            lemma_index_in_bounds(self.width as int, self.height as int, x as int, y as int);
        }
        let i: usize = (y as usize) * (self.width as usize) + (x as usize);
        self.data[i] = value;
    }

    /// `(v + max_distance) / (2 * max_distance)` at `(x, y)`, scaled by
    /// [`NORMALIZED_ONE`] and rounded down.
    pub fn get_normalized(&self, x: u32, y: u32) -> (r: i128)
        requires
            self.wf(),
            x < self.width,
            y < self.height,
            self.max_distance > 0,
        ensures
            r == normalized_value(self.at(x as int, y as int), self.max_distance as int),
    {
        let v = self.get(x, y) as i128;
        let m = self.max_distance as i128;
        assert(-0x1_0000_0000_0000_0000 * 0x10000 <= (v + m) * 0x10000 <= 0x1_0000_0000_0000_0000 * 0x10000)
            by (nonlinear_arith)
            requires -0x1_0000_0000_0000_0000 <= v + m <= 0x1_0000_0000_0000_0000;
        floor_div((v + m) * (NORMALIZED_ONE as i128), 2 * m)
    }

    /// The grid as 8-bit grayscale bytes, row-major, one per cell.
    pub fn to_visualization(&self, normalize: bool) -> (r: Vec<u8>)
        requires
            self.wf(),
        ensures
            r@.len() == self.data@.len(),
            forall|i: int| 0 <= i < r@.len() ==> #[trigger] r@[i] as int == visual_byte(
                self.data@[i] as int,
                self.max_distance as int,
                normalize,
            ),
    {
        let mut r: Vec<u8> = Vec::with_capacity(self.data.len());
        let m = self.max_distance as i128;
        let mut i: usize = 0;
        while i < self.data.len()
            invariant
                i <= self.data@.len(),
                m == self.max_distance,
                r@.len() == i,
                forall|j: int| 0 <= j < i ==> #[trigger] r@[j] as int == visual_byte(
                    self.data@[j] as int,
                    self.max_distance as int,
                    normalize,
                ),
            decreases self.data@.len() - i,
        {
            let v = self.data[i] as i128;
            let q: i128 = if m == 0 {
                if v > 0 { 255 } else { 0 }
            } else if normalize {
                assert(-0x1_0000_0000_0000_0000 * 255 <= (v + m) * 255 <= 0x1_0000_0000_0000_0000 * 255)
                    by (nonlinear_arith)
                    requires -0x1_0000_0000_0000_0000 <= v + m <= 0x1_0000_0000_0000_0000;
                floor_div((v + m) * 255, 2 * m)
            } else {
                assert(-0x1_0000_0000_0000_0000 * 255 <= v * 255 <= 0x1_0000_0000_0000_0000 * 255)
                    by (nonlinear_arith)
                    requires -0x1_0000_0000_0000_0000 <= v <= 0x1_0000_0000_0000_0000;
                floor_div(v * 255, m)
            };
            let b: u8 = if q < 0 { 0 } else if q > 255 { 255 } else { q as u8 };
            r.push(b);
            i += 1;
        }
        r
    }

    /// The grid as an 8-bit luma image whose pixels are
    /// [`Self::to_visualization`].
    pub fn to_grayscale_image(&self, normalize: bool) -> (r: image::DynamicImage)
        requires
            self.wf(),
    {
        let bytes = self.to_visualization(normalize);
        gray_image_from_raw(self.width, self.height, bytes).unwrap()
    }
}

} // verus!
