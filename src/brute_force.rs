//! Brute-force generation: a bounded square-window search per pixel.

use vstd::prelude::*;
use crate::fixed::{UNITS_PER_PIXEL, units_of_sq, clamp_to, signed, clamped_units};
use crate::geometry::{in_canvas, index_of, dist_sq, lemma_index_in_bounds, lemma_coords_of_index};
use crate::algorithms::SDFAlgorithm;
use crate::error::SDFError;
use crate::multi_channel::MultiChannelInput;
use crate::raster::{create_binary_mask, mask_of};
use crate::sdf::SDFData;
use rayon::iter::{IntoParallelIterator, ParallelIterator};

verus! {

/// Radius, in whole pixels, of the square search window: the maximum
/// distance rounded up.
pub open spec fn window_radius(max_distance: u32) -> int {
    (max_distance as int + UNITS_PER_PIXEL as int - 1) / UNITS_PER_PIXEL as int
}

/// `(qx, qy)` is on the canvas, inside the square window of radius `r`
/// around `(x, y)`, and of the other class than `(x, y)`.
pub open spec fn is_opposite_in_window(
    mask: Seq<bool>,
    w: int,
    h: int,
    r: int,
    x: int,
    y: int,
    qx: int,
    qy: int,
) -> bool {
    &&& in_canvas(w, h, qx, qy)
    &&& x - r <= qx <= x + r
    &&& y - r <= qy <= y + r
    &&& mask[index_of(w, qx, qy)] != mask[index_of(w, x, y)]
}

/// Some pixel of the other class lies in the window around `(x, y)`.
pub open spec fn has_opposite_in_window(mask: Seq<bool>, w: int, h: int, r: int, x: int, y: int) -> bool {
    exists|qx: int, qy: int| is_opposite_in_window(mask, w, h, r, x, y, qx, qy)
}

/// `d` is the least squared distance from `(x, y)` to a pixel of the other
/// class in its window.
pub open spec fn is_nearest_opposite_sq(
    mask: Seq<bool>,
    w: int,
    h: int,
    r: int,
    x: int,
    y: int,
    d: int,
) -> bool {
    &&& exists|qx: int, qy: int|
        #[trigger] is_opposite_in_window(mask, w, h, r, x, y, qx, qy) && dist_sq(x, y, qx, qy) == d
    &&& forall|qx: int, qy: int|
        #[trigger] is_opposite_in_window(mask, w, h, r, x, y, qx, qy) ==> d <= dist_sq(x, y, qx, qy)
}

/// The least squared distance from `(x, y)` to a pixel of the other class in
/// its window (meaningful when there is one).
pub open spec fn nearest_opposite_sq(mask: Seq<bool>, w: int, h: int, r: int, x: int, y: int) -> int {
    choose|d: int| is_nearest_opposite_sq(mask, w, h, r, x, y, d)
}

/// The brute-force signed distance of pixel `(x, y)`: the distance to the
/// nearest pixel of the other class in the window, clamped to
/// `max_distance`, or `max_distance` when the window holds none; negative
/// inside the mask.
pub open spec fn brute_force_cell(mask: Seq<bool>, w: int, h: int, max_distance: u32, x: int, y: int) -> int {
    let r = window_radius(max_distance);
    let mag = if has_opposite_in_window(mask, w, h, r, x, y) {
        clamp_to(units_of_sq(nearest_opposite_sq(mask, w, h, r, x, y)), max_distance as int)
    } else {
        max_distance as int
    };
    signed(mask[index_of(w, x, y)], mag)
}

/// The brute-force field of a mask: one signed distance per pixel, row-major.
pub open spec fn brute_force_field(mask: Seq<bool>, w: int, h: int, max_distance: u32) -> Seq<int> {
    Seq::new((w * h) as nat, |i: int| brute_force_cell(mask, w, h, max_distance, i % w, i / w))
}

/// The nearest squared distance is unique.
pub proof fn lemma_nearest_unique(mask: Seq<bool>, w: int, h: int, r: int, x: int, y: int, d: int)
    requires
        is_nearest_opposite_sq(mask, w, h, r, x, y, d),
    ensures
        nearest_opposite_sq(mask, w, h, r, x, y) == d,
{
    let e = nearest_opposite_sq(mask, w, h, r, x, y);
    assert(is_nearest_opposite_sq(mask, w, h, r, x, y, e));
    let (ax, ay) = choose|qx: int, qy: int|
        #[trigger] is_opposite_in_window(mask, w, h, r, x, y, qx, qy) && dist_sq(x, y, qx, qy) == d;
    let (bx, by) = choose|qx: int, qy: int|
        #[trigger] is_opposite_in_window(mask, w, h, r, x, y, qx, qy) && dist_sq(x, y, qx, qy) == e;
    assert(e <= d);
    assert(d <= e);
}

/// The signed brute-force distance of one pixel, in distance units.
pub fn calculate_distance_brute_force(
    mask: &Vec<bool>,
    x: u32,
    y: u32,
    width: u32,
    height: u32,
    max_distance: u32,
) -> (v: i64)
    requires
        mask@.len() == width as int * height as int,
        x < width,
        y < height,
    ensures
        v as int == brute_force_cell(mask@, width as int, height as int, max_distance, x as int, y as int),
{
    let ghost w = width as int;
    let ghost h = height as int;
    let ghost ms = mask@;
    let n: usize = mask.len();
    let r: i64 = ((max_distance as u64 + 255) / 256) as i64;
    assert(r == window_radius(max_distance));
    let xi = x as i64;
    let yi = y as i64;
    let x0: i64 = if xi - r > 0 { xi - r } else { 0 };
    let x1: i64 = if xi + r < width as i64 - 1 { xi + r } else { width as i64 - 1 };
    let y0: i64 = if yi - r > 0 { yi - r } else { 0 };
    let y1: i64 = if yi + r < height as i64 - 1 { yi + r } else { height as i64 - 1 };
    proof {
        lemma_index_in_bounds(w, h, x as int, y as int);
    }
    let idx: usize = (y as usize) * (width as usize) + (x as usize);
    let inside = mask[idx];
    let mut found = false;
    let mut best: u64 = 0;
    let mut ny: i64 = y0;
    while ny <= y1
        invariant
            0 <= y0 <= ny <= y1 + 1,
            y1 < h,
            0 <= x0 <= x1 < w,
            x0 == if x - r > 0 { x - r } else { 0 },
            x1 == if x + r < w - 1 { x + r } else { w - 1 },
            y0 == if y - r > 0 { y - r } else { 0 },
            y1 == if y + r < h - 1 { y + r } else { h - 1 },
            r == window_radius(max_distance),
            0 <= r <= 0x100_0000,
            ms == mask@,
            ms.len() == w * h,
            n == ms.len(),
            w == width,
            h == height,
            xi == x,
            yi == y,
            0 <= index_of(w, x as int, y as int) < w * h,
            inside == ms[index_of(w, x as int, y as int)],
            found ==> exists|qx: int, qy: int|
                #[trigger] is_opposite_in_window(ms, w, h, r as int, x as int, y as int, qx, qy)
                    && qy < ny && dist_sq(x as int, y as int, qx, qy) == best,
            forall|qx: int, qy: int|
                #[trigger] is_opposite_in_window(ms, w, h, r as int, x as int, y as int, qx, qy)
                    && qy < ny ==> found && best <= dist_sq(x as int, y as int, qx, qy),
        decreases y1 + 1 - ny,
    {
        let mut nx: i64 = x0;
        while nx <= x1
            invariant
                0 <= y0 <= ny <= y1,
                y1 < h,
                0 <= x0 <= nx <= x1 + 1,
                x1 < w,
                x0 == if x - r > 0 { x - r } else { 0 },
                x1 == if x + r < w - 1 { x + r } else { w - 1 },
                y0 == if y - r > 0 { y - r } else { 0 },
                y1 == if y + r < h - 1 { y + r } else { h - 1 },
                0 <= r <= 0x100_0000,
                ms == mask@,
                ms.len() == w * h,
                n == ms.len(),
                w == width,
                h == height,
                xi == x,
                yi == y,
                0 <= index_of(w, x as int, y as int) < w * h,
                inside == ms[index_of(w, x as int, y as int)],
                found ==> exists|qx: int, qy: int|
                    #[trigger] is_opposite_in_window(ms, w, h, r as int, x as int, y as int, qx, qy)
                        && (qy < ny || (qy == ny && qx < nx))
                        && dist_sq(x as int, y as int, qx, qy) == best,
                forall|qx: int, qy: int|
                    #[trigger] is_opposite_in_window(ms, w, h, r as int, x as int, y as int, qx, qy)
                        && (qy < ny || (qy == ny && qx < nx))
                        ==> found && best <= dist_sq(x as int, y as int, qx, qy),
            decreases x1 + 1 - nx,
        {
            proof {
                lemma_index_in_bounds(w, h, nx as int, ny as int);
            }
            let nidx: usize = (ny as usize) * (width as usize) + (nx as usize);
            let ghost q_opp = is_opposite_in_window(ms, w, h, r as int, x as int, y as int, nx as int, ny as int);
            assert(q_opp == (mask[nidx as int] != inside));
            if mask[nidx] != inside {
                let dx: i64 = xi - nx;
                let dy: i64 = yi - ny;
                assert(0 <= dx * dx <= 0x100_0000 * 0x100_0000) by (nonlinear_arith)
                    requires -0x100_0000 <= dx <= 0x100_0000;
                assert(0 <= dy * dy <= 0x100_0000 * 0x100_0000) by (nonlinear_arith)
                    requires -0x100_0000 <= dy <= 0x100_0000;
                let d: u64 = (dx * dx + dy * dy) as u64;
                assert(d == dist_sq(x as int, y as int, nx as int, ny as int));
                if !found || d < best {
                    found = true;
                    best = d;
                }
            }
            nx += 1;
        }
        ny += 1;
    }
    let mag: u32 = if found {
        proof {
            assert(is_nearest_opposite_sq(ms, w, h, r as int, x as int, y as int, best as int));
            lemma_nearest_unique(ms, w, h, r as int, x as int, y as int, best as int);
        }
        clamped_units(best as u128, max_distance)
    } else {
        assert(!has_opposite_in_window(ms, w, h, r as int, x as int, y as int));
        max_distance
    };
    if inside {
        -(mag as i64)
    } else {
        mag as i64
    }
}

/// The signed brute-force distance of the pixel at row-major index `i`.
pub fn brute_force_at_index(mask: &Vec<bool>, i: usize, width: u32, height: u32, max_distance: u32) -> (v: i64)
    requires
        mask@.len() == width as int * height as int,
        i < mask@.len(),
    ensures
        v as int == brute_force_cell(
            mask@,
            width as int,
            height as int,
            max_distance,
            i as int % width as int,
            i as int / width as int,
        ),
{
    proof {
        lemma_coords_of_index(width as int, height as int, i as int);
    }
    let x = (i % (width as usize)) as u32;
    let y = (i / (width as usize)) as u32;
    calculate_distance_brute_force(mask, x, y, width, height, max_distance)
}

/// Relies on rayon's indexed parallel iterators: collecting
/// `(0..n).into_par_iter().map(f)` into a `Vec` keeps index order, so slot
/// `i` holds `f(i)`. Each `f(i)` reads the shared mask only.
#[verifier::external_body]
fn par_brute_force(mask: &Vec<bool>, width: u32, height: u32, max_distance: u32) -> (r: Vec<i64>)
    requires
        mask@.len() == width as int * height as int,
    ensures
        r@.len() == mask@.len(),
        forall|i: int| 0 <= i < r@.len() ==> #[trigger] r@[i] as int == brute_force_field(
            mask@,
            width as int,
            height as int,
            max_distance,
        )[i],
{
    (0..mask.len()).into_par_iter().map(|i| brute_force_at_index(mask, i, width, height, max_distance)).collect()
}

/// Brute-force generation: for every pixel, the nearest pixel of the other
/// class inside a square window of radius `ceil(max_distance)`.
pub struct BruteForce {
    pub threshold: u8,
    pub max_distance: u32,
}

impl BruteForce {
    /// Threshold 128 and a maximum distance of 32 pixels.
    pub fn new() -> (r: Self)
        ensures
            r.threshold == 128,
            r.max_distance == 32 * UNITS_PER_PIXEL,
    {
        BruteForce { threshold: 128, max_distance: 32 * UNITS_PER_PIXEL }
    }

    pub fn with_threshold(self, threshold: u8) -> (r: Self)
        ensures
            r.threshold == threshold && r.max_distance == self.max_distance,
    {
        BruteForce { threshold, ..self }
    }

    /// Sets the maximum distance, in distance units.
    pub fn with_max_distance(self, max_distance: u32) -> (r: Self)
        ensures
            r.threshold == self.threshold && r.max_distance == max_distance,
    {
        BruteForce { max_distance, ..self }
    }

    /// The result owed for `input`: the brute-force field of the primary
    /// channel's mask, or the validation error of an empty store.
    pub open spec fn result_ok(&self, input: &MultiChannelInput, r: Result<SDFData, SDFError>) -> bool {
        if input.channels().len() == 0 {
            r matches Err(SDFError::ValidationError { details }) && details@ == "No input channels available"@
        } else {
            let c = input.reference();
            &&& r matches Ok(sdf)
            &&& sdf.wf()
            &&& sdf.width == c.width && sdf.height == c.height
            &&& sdf.max_distance == self.max_distance
            &&& sdf.data@.len() == c.width as int * c.height as int
            &&& forall|i: int| 0 <= i < sdf.data@.len() ==> #[trigger] sdf.data@[i] as int
                == brute_force_field(mask_of(c.luma@, self.threshold), c.width as int, c.height as int,
                self.max_distance)[i]
        }
    }
}

impl SDFAlgorithm for BruteForce {
    open spec fn produces(&self, input: &MultiChannelInput, r: Result<SDFData, SDFError>) -> bool {
        self.result_ok(input, r)
    }

    open spec fn spec_name(&self) -> Seq<char> {
        "brute-force"@
    }

    /// Computes the signed distance field of the primary channel.
    fn process(&self, input: &MultiChannelInput) -> (r: Result<SDFData, SDFError>) {
        let (width, height) = match input.dimensions() {
            Ok(d) => d,
            Err(e) => {
                return Err(e);
            },
        };
        let image = match input.get_primary_channel() {
            Ok(c) => c,
            Err(e) => {
                return Err(e);
            },
        };
        proof {
            assert(input.channels()[0].wf());
        }
        let mask = create_binary_mask(image, self.threshold);
        let data = par_brute_force(&mask, width, height, self.max_distance);
        Ok(SDFData { width, height, data, max_distance: self.max_distance })
    }

    fn name(&self) -> (r: &'static str) {
        "brute-force"
    }
}

} // verus!
