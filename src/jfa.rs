//! Jump-flooding generation: edge seeds propagated in passes of halving step.

use vstd::prelude::*;
use crate::fixed::{UNITS_PER_PIXEL, units_of_sq, clamp_to, signed, clamped_units};
use crate::geometry::{in_canvas, index_of, dist_sq, lemma_index_in_bounds, lemma_coords_of_index};
use crate::algorithms::SDFAlgorithm;
use crate::error::SDFError;
use crate::multi_channel::MultiChannelInput;
use crate::raster::{create_binary_mask, mask_of};
use crate::sdf::SDFData;
use rayon::iter::{IntoParallelIterator, ParallelIterator};

verus! {

/// A resolved seed: the pixel whose distance is propagated.
#[derive(Debug, Clone, Copy, PartialEq, Eq)]
pub struct Seed {
    pub x: u32,
    pub y: u32,
}

/// `(qx, qy)` is on the canvas and of the other class than `(x, y)`.
pub open spec fn differs(mask: Seq<bool>, w: int, h: int, x: int, y: int, qx: int, qy: int) -> bool {
    in_canvas(w, h, qx, qy) && mask[index_of(w, qx, qy)] != mask[index_of(w, x, y)]
}

/// A pixel with a 4-connected neighbour of the other class.
pub open spec fn is_edge(mask: Seq<bool>, w: int, h: int, x: int, y: int) -> bool {
    differs(mask, w, h, x, y, x - 1, y) || differs(mask, w, h, x, y, x + 1, y)
        || differs(mask, w, h, x, y, x, y - 1) || differs(mask, w, h, x, y, x, y + 1)
}

/// The starting seeds: every edge pixel is its own seed.
pub open spec fn initial_seeds(mask: Seq<bool>, w: int, h: int) -> Seq<Option<Seed>> {
    Seq::new(
        (w * h) as nat,
        |i: int|
            if is_edge(mask, w, h, i % w, i / w) {
                Some(Seed { x: (i % w) as u32, y: (i / w) as u32 })
            } else {
                None
            },
    )
}

/// Squared distance from `(x, y)` to a seed.
pub open spec fn seed_dist_sq(x: int, y: int, s: Seed) -> int {
    dist_sq(x, y, s.x as int, s.y as int)
}

/// The `k`-th of the nine candidates of `(x, y)` at `step`, in the order
/// `dy` then `dx`, each over `-step, 0, step`: the seed that the current
/// buffer holds there, if that pixel is on the canvas.
pub open spec fn candidate(cur: Seq<Option<Seed>>, w: int, h: int, step: int, x: int, y: int, k: int) -> Option<Seed> {
    let nx = x + (k % 3 - 1) * step;
    let ny = y + (k / 3 - 1) * step;
    if in_canvas(w, h, nx, ny) {
        cur[index_of(w, nx, ny)]
    } else {
        None
    }
}

/// The nearest among the first `k` candidates; on a tie the earlier one.
pub open spec fn best_candidate(cur: Seq<Option<Seed>>, w: int, h: int, step: int, x: int, y: int, k: int) -> Option<Seed>
    decreases k,
{
    if k <= 0 {
        None
    } else {
        let prev = best_candidate(cur, w, h, step, x, y, k - 1);
        match candidate(cur, w, h, step, x, y, k - 1) {
            Some(c) => match prev {
                Some(p) => if seed_dist_sq(x, y, c) < seed_dist_sq(x, y, p) { Some(c) } else { prev },
                None => Some(c),
            },
            None => prev,
        }
    }
}

/// One propagation pass: every pixel takes the nearest of its nine
/// candidates, all read from the current buffer.
pub open spec fn jfa_pass(cur: Seq<Option<Seed>>, w: int, h: int, step: int) -> Seq<Option<Seed>> {
    Seq::new(cur.len(), |i: int| best_candidate(cur, w, h, step, i % w, i / w, 9))
}

/// Passes at `step`, `step / 2`, ..., 1.
pub open spec fn jfa_passes(seeds: Seq<Option<Seed>>, w: int, h: int, step: nat) -> Seq<Option<Seed>>
    decreases step,
{
    if step == 0 {
        seeds
    } else {
        jfa_passes(jfa_pass(seeds, w, h, step as int), w, h, step / 2)
    }
}

/// The least power of two that is at least `n`, searching upward from `s`.
pub open spec fn pow2_at_least(s: nat, n: nat) -> nat
    decreases (if s >= n { 0 } else { n - s }),
{
    if s == 0 || s >= n {
        s
    } else {
        pow2_at_least(2 * s, n)
    }
}

/// The first step: the least power of two at least `max(w, h)`.
pub open spec fn first_step(w: int, h: int) -> nat {
    pow2_at_least(1, (if w > h { w } else { h }) as nat)
}

/// The seeds after every pass.
pub open spec fn jfa_seeds(mask: Seq<bool>, w: int, h: int) -> Seq<Option<Seed>> {
    jfa_passes(initial_seeds(mask, w, h), w, h, first_step(w, h))
}

/// The signed distance of pixel `i` given its final seed: the clamped
/// distance to the seed, or `max_distance` without one; negative inside.
pub open spec fn jfa_cell(mask: Seq<bool>, w: int, seeds: Seq<Option<Seed>>, max_distance: u32, i: int) -> int {
    let mag = match seeds[i] {
        Some(s) => clamp_to(units_of_sq(seed_dist_sq(i % w, i / w, s)), max_distance as int),
        None => max_distance as int,
    };
    signed(mask[i], mag)
}

/// The jump-flooding field of a mask, with the sign of each pixel's class.
pub open spec fn jfa_field(mask: Seq<bool>, w: int, h: int, max_distance: u32) -> Seq<int> {
    Seq::new((w * h) as nat, |i: int| jfa_cell(mask, w, jfa_seeds(mask, w, h), max_distance, i))
}

/// Marks every edge pixel as its own seed.
pub fn initialize_seeds(mask: &Vec<bool>, width: u32, height: u32) -> (seeds: Vec<Option<Seed>>)
    requires
        mask@.len() == width as int * height as int,
    ensures
        seeds@ == initial_seeds(mask@, width as int, height as int),
{
    let ghost w = width as int;
    let ghost h = height as int;
    let n: usize = mask.len();
    let mut seeds: Vec<Option<Seed>> = Vec::with_capacity(n);
    let mut y: u32 = 0;
    while y < height
        invariant
            y <= height,
            n == mask@.len() == w * h,
            w == width && h == height,
            seeds@.len() == y as int * w,
            forall|i: int| 0 <= i < seeds@.len() ==> #[trigger] seeds@[i] == initial_seeds(mask@, w, h)[i],
        decreases height - y,
    {
        let mut x: u32 = 0;
        while x < width
            invariant
                x <= width,
                y < height,
                n == mask@.len() == w * h,
                w == width && h == height,
                seeds@.len() == y as int * w + x,
                forall|i: int| 0 <= i < seeds@.len() ==> #[trigger] seeds@[i] == initial_seeds(mask@, w, h)[i],
            decreases width - x,
        {
            proof {
                lemma_index_in_bounds(w, h, x as int, y as int);
            }
            let idx: usize = (y as usize) * (width as usize) + (x as usize);
            let inside = mask[idx];
            let mut edge = false;
            if x > 0 {
                proof { lemma_index_in_bounds(w, h, x - 1, y as int); }
                if mask[idx - 1] != inside {
                    edge = true;
                }
            }
            if x + 1 < width {
                proof { lemma_index_in_bounds(w, h, x + 1, y as int); }
                if mask[idx + 1] != inside {
                    edge = true;
                }
            }
            if y > 0 {
                proof {
                    lemma_index_in_bounds(w, h, x as int, y - 1);
                    assert((y - 1) * w + x == y * w + x - w) by (nonlinear_arith);
                }
                if mask[idx - width as usize] != inside {
                    edge = true;
                }
            }
            if y + 1 < height {
                proof {
                    lemma_index_in_bounds(w, h, x as int, y + 1);
                    assert((y + 1) * w + x == y * w + x + w) by (nonlinear_arith);
                }
                if mask[idx + width as usize] != inside {
                    edge = true;
                }
            }
            assert(edge == is_edge(mask@, w, h, x as int, y as int));
            assert(initial_seeds(mask@, w, h)[idx as int] == if edge {
                Some(Seed { x, y })
            } else {
                None::<Seed>
            });
            if edge {
                seeds.push(Some(Seed { x, y }));
            } else {
                seeds.push(None);
            }
            x += 1;
        }
        assert((y + 1) * w == y * w + w) by (nonlinear_arith);
        y += 1;
    }
    assert(h * w == w * h) by (nonlinear_arith);
    assert(seeds@ =~= initial_seeds(mask@, w, h));
    seeds
}

/// Squared distance from `(x, y)` to a seed.
fn seed_distance_sq(x: u32, y: u32, s: Seed) -> (d: u128)
    ensures
        d == seed_dist_sq(x as int, y as int, s),
        d <= 0x2_0000_0000_0000_0000,
{
    let dx: i128 = x as i128 - s.x as i128;
    let dy: i128 = y as i128 - s.y as i128;
    assert(0 <= dx * dx <= 0x1_0000_0000_0000_0000) by (nonlinear_arith)
        requires -0x1_0000_0000 <= dx <= 0x1_0000_0000;
    assert(0 <= dy * dy <= 0x1_0000_0000_0000_0000) by (nonlinear_arith)
        requires -0x1_0000_0000 <= dy <= 0x1_0000_0000;
    (dx * dx + dy * dy) as u128
}

/// The nearest of the nine candidates of `(x, y)` at `step`.
fn best_seed_at(cur: &Vec<Option<Seed>>, width: u32, height: u32, step: u64, x: u32, y: u32) -> (r: Option<Seed>)
    requires
        cur@.len() == width as int * height as int,
        x < width,
        y < height,
        step <= 0x2_0000_0000,
    ensures
        r == best_candidate(cur@, width as int, height as int, step as int, x as int, y as int, 9),
{
    let ghost w = width as int;
    let ghost h = height as int;
    let n: usize = cur.len();
    let mut best: Option<Seed> = None;
    let mut best_d: u128 = 0;
    let mut k: u64 = 0;
    while k < 9
        invariant
            k <= 9,
            n == cur@.len() == w * h,
            w == width && h == height,
            step <= 0x2_0000_0000,
            best == best_candidate(cur@, w, h, step as int, x as int, y as int, k as int),
            best matches Some(b) ==> best_d == seed_dist_sq(x as int, y as int, b),
        decreases 9 - k,
    {
        let ghost kk = k as int;
        let fx: i64 = (k % 3) as i64 - 1;
        let fy: i64 = (k / 3) as i64 - 1;
        assert(-0x2_0000_0000 <= fx * (step as i64) <= 0x2_0000_0000) by (nonlinear_arith)
            requires -1 <= fx <= 1, 0 <= step <= 0x2_0000_0000;
        assert(-0x2_0000_0000 <= fy * (step as i64) <= 0x2_0000_0000) by (nonlinear_arith)
            requires -1 <= fy <= 1, 0 <= step <= 0x2_0000_0000;
        let nx: i64 = x as i64 + fx * (step as i64);
        let ny: i64 = y as i64 + fy * (step as i64);
        assert(nx == x + (kk % 3 - 1) * step);
        assert(ny == y + (kk / 3 - 1) * step);
        if nx >= 0 && ny >= 0 && nx < width as i64 && ny < height as i64 {
            proof {
                lemma_index_in_bounds(w, h, nx as int, ny as int);
            }
            let c = cur[(ny as usize) * (width as usize) + (nx as usize)];
            if let Some(s) = c {
                let d = seed_distance_sq(x, y, s);
                if best.is_none() || d < best_d {
                    best = c;
                    best_d = d;
                }
            }
        }
        k += 1;
    }
    best
}

/// One propagation pass, reading only `cur` and writing only the new buffer.
fn jfa_pass_exec(cur: &Vec<Option<Seed>>, width: u32, height: u32, step: u64) -> (next: Vec<Option<Seed>>)
    requires
        cur@.len() == width as int * height as int,
        step <= 0x2_0000_0000,
    ensures
        next@ == jfa_pass(cur@, width as int, height as int, step as int),
{
    let n: usize = cur.len();
    let mut next: Vec<Option<Seed>> = Vec::with_capacity(n);
    let mut i: usize = 0;
    while i < n
        invariant
            n == cur@.len() == width as int * height as int,
            step <= 0x2_0000_0000,
            i <= n,
            next@.len() == i,
            forall|j: int| 0 <= j < i ==> #[trigger] next@[j] == jfa_pass(cur@, width as int, height as int, step as int)[j],
        decreases n - i,
    {
        proof {
            lemma_coords_of_index(width as int, height as int, i as int);
        }
        let x = (i % (width as usize)) as u32;
        let y = (i / (width as usize)) as u32;
        next.push(best_seed_at(cur, width, height, step, x, y));
        i += 1;
    }
    assert(next@ =~= jfa_pass(cur@, width as int, height as int, step as int));
    next
}

/// Runs every propagation pass on `seeds`, then turns each pixel's seed
/// into its clamped distance, negative inside the mask.
pub fn jump_flooding(seeds: Vec<Option<Seed>>, mask: &Vec<bool>, width: u32, height: u32, max_distance: u32) -> (r: Vec<i64>)
    requires
        mask@.len() == width as int * height as int,
        seeds@ == initial_seeds(mask@, width as int, height as int),
    ensures
        r@.len() == mask@.len(),
        forall|i: int| 0 <= i < r@.len() ==> #[trigger] r@[i] as int == jfa_field(
            mask@,
            width as int,
            height as int,
            max_distance,
        )[i],
{
    let ghost w = width as int;
    let ghost h = height as int;
    let ghost target = jfa_seeds(mask@, w, h);
    let max_dim: u32 = if width > height { width } else { height };
    let mut step: u64 = 1;
    while step < max_dim as u64
        invariant
            1 <= step <= 0x2_0000_0000,
            pow2_at_least(step as nat, max_dim as nat) == first_step(w, h),
            max_dim as int == if w > h { w } else { h },
        decreases 0x2_0000_0000 - step,
    {
        step = step * 2;
    }
    let mut cur = seeds;
    while step >= 1
        invariant
            step <= 0x2_0000_0000,
            cur@.len() == w * h,
            w == width && h == height,
            jfa_passes(cur@, w, h, step as nat) == target,
        decreases step,
    {
        cur = jfa_pass_exec(&cur, width, height, step);
        step = step / 2;
    }
    par_materialize(&cur, mask, width, height, max_distance)
}

/// The signed distance of the pixel at row-major index `i` given the final
/// seeds: the clamped distance to its seed, or the maximum distance without
/// one; negative inside the mask.
pub fn materialize_at_index(
    seeds: &Vec<Option<Seed>>,
    mask: &Vec<bool>,
    i: usize,
    width: u32,
    height: u32,
    max_distance: u32,
) -> (v: i64)
    requires
        seeds@.len() == width as int * height as int,
        mask@.len() == width as int * height as int,
        i < mask@.len(),
    ensures
        v as int == jfa_cell(mask@, width as int, seeds@, max_distance, i as int),
{
    proof {
        lemma_coords_of_index(width as int, height as int, i as int);
    }
    let x = (i % (width as usize)) as u32;
    let y = (i / (width as usize)) as u32;
    let mag: u32 = match seeds[i] {
        Some(s) => clamped_units(seed_distance_sq(x, y, s), max_distance),
        None => max_distance,
    };
    if mask[i] {
        -(mag as i64)
    } else {
        mag as i64
    }
}

/// Relies on rayon's indexed parallel iterators: collecting
/// `(0..n).into_par_iter().map(f)` into a `Vec` keeps index order, so slot
/// `i` holds `f(i)`. Each `f(i)` reads the finished seed buffer and the
/// mask only.
#[verifier::external_body]
fn par_materialize(
    seeds: &Vec<Option<Seed>>,
    mask: &Vec<bool>,
    width: u32,
    height: u32,
    max_distance: u32,
) -> (r: Vec<i64>)
    requires
        seeds@.len() == width as int * height as int,
        mask@.len() == width as int * height as int,
    ensures
        r@.len() == mask@.len(),
        forall|i: int| 0 <= i < r@.len() ==> #[trigger] r@[i] as int == jfa_cell(
            mask@,
            width as int,
            seeds@,
            max_distance,
            i,
        ),
{
    (0..mask.len()).into_par_iter().map(|i| materialize_at_index(seeds, mask, i, width, height, max_distance)).collect()
}

/// Jump-flooding generation: seeds on edge pixels, propagated in passes of
/// halving step.
pub struct JumpFloodingAlgorithm {
    pub threshold: u8,
    pub max_distance: u32,
    /// Reserved for a sub-pixel refinement pass; it changes nothing yet.
    pub subpixel_precision: bool,
}

impl JumpFloodingAlgorithm {
    /// Threshold 128, a maximum distance of 32 pixels, no sub-pixel pass.
    pub fn new() -> (r: Self)
        ensures
            r.threshold == 128,
            r.max_distance == 32 * UNITS_PER_PIXEL,
            !r.subpixel_precision,
    {
        JumpFloodingAlgorithm { threshold: 128, max_distance: 32 * UNITS_PER_PIXEL, subpixel_precision: false }
    }

    pub fn with_threshold(self, threshold: u8) -> (r: Self)
        ensures
            r.threshold == threshold && r.max_distance == self.max_distance,
            r.subpixel_precision == self.subpixel_precision,
    {
        JumpFloodingAlgorithm { threshold, ..self }
    }

    /// Sets the maximum distance, in distance units.
    pub fn with_max_distance(self, max_distance: u32) -> (r: Self)
        ensures
            r.threshold == self.threshold && r.max_distance == max_distance,
            r.subpixel_precision == self.subpixel_precision,
    {
        JumpFloodingAlgorithm { max_distance, ..self }
    }

    pub fn with_subpixel_precision(self, enable: bool) -> (r: Self)
        ensures
            r.threshold == self.threshold && r.max_distance == self.max_distance,
            r.subpixel_precision == enable,
    {
        JumpFloodingAlgorithm { subpixel_precision: enable, ..self }
    }

    /// The result owed for `input`: the jump-flooding field of the primary
    /// channel's mask, or the validation error of an empty store.
    pub open spec fn result_ok(&self, input: &MultiChannelInput, r: Result<SDFData, SDFError>) -> bool {
        if input.channels().len() == 0 {
            r matches Err(SDFError::ValidationError { details }) && details@ == "No input channels available"@
        } else {
            let c = input.reference();
            &&& r matches Ok(sdf)
            &&& sdf.wf()
            &&& sdf.width == c.width && sdf.height == c.height
            &&& sdf.max_distance == self.max_distance
            &&& sdf.data@.len() == c.width as int * c.height as int
            &&& forall|i: int| 0 <= i < sdf.data@.len() ==> #[trigger] sdf.data@[i] as int
                == jfa_field(mask_of(c.luma@, self.threshold), c.width as int, c.height as int,
                self.max_distance)[i]
        }
    }
}

impl SDFAlgorithm for JumpFloodingAlgorithm {
    open spec fn produces(&self, input: &MultiChannelInput, r: Result<SDFData, SDFError>) -> bool {
        self.result_ok(input, r)
    }

    open spec fn spec_name(&self) -> Seq<char> {
        "jump-flooding"@
    }

    /// Computes the signed distance field of the primary channel.
    fn process(&self, input: &MultiChannelInput) -> (r: Result<SDFData, SDFError>) {
        let (width, height) = match input.dimensions() {
            Ok(d) => d,
            Err(e) => {
                return Err(e);
            },
        };
        let image = match input.get_primary_channel() {
            Ok(c) => c,
            Err(e) => {
                return Err(e);
            },
        };
        proof {
            assert(input.channels()[0].wf());
        }
        let mask = create_binary_mask(image, self.threshold);
        let seeds = initialize_seeds(&mask, width, height);
        let data = jump_flooding(seeds, &mask, width, height, self.max_distance);
        Ok(SDFData { width, height, data, max_distance: self.max_distance })
    }

    fn name(&self) -> (r: &'static str) {
        "jump-flooding"
    }
}

} // verus!
