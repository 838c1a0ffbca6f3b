//! Properties that relate the generators and the grid operations.

use vstd::prelude::*;
use crate::brute_force::{brute_force_cell, window_radius, is_opposite_in_window, has_opposite_in_window, is_nearest_opposite_sq, nearest_opposite_sq};
use crate::fixed::{signed, isqrt, is_isqrt, units_of_sq, lemma_isqrt_ge, integer_sqrt_spec_witness};
use crate::geometry::{in_canvas, index_of, dist_sq};
use crate::jfa::{Seed, initial_seeds, best_candidate, jfa_pass, jfa_passes, jfa_seeds, jfa_field, first_step, differs};
use crate::sdf::{visual_byte, normalized_value, clamp_byte, NORMALIZED_ONE, SDFData};
use crate::regions::adjacent;

verus! {

/// No cell holds a seed.
pub open spec fn no_seeds(s: Seq<Option<Seed>>) -> bool {
    forall|i: int| 0 <= i < s.len() ==> #[trigger] s[i] is None
}

/// Without seeds, no candidate is found.
proof fn lemma_best_none(cur: Seq<Option<Seed>>, w: int, h: int, step: int, x: int, y: int, k: int)
    requires
        no_seeds(cur),
        cur.len() == w * h,
        w > 0,
    ensures
        best_candidate(cur, w, h, step, x, y, k) is None,
    decreases k,
{
    if k > 0 {
        lemma_best_none(cur, w, h, step, x, y, k - 1);
        let nx = x + ((k - 1) % 3 - 1) * step;
        let ny = y + ((k - 1) / 3 - 1) * step;
        if in_canvas(w, h, nx, ny) {
            crate::geometry::lemma_index_in_bounds(w, h, nx, ny);
        }
    }
}

/// Passes over a buffer without seeds leave it without seeds.
proof fn lemma_passes_none(cur: Seq<Option<Seed>>, w: int, h: int, step: nat)
    requires
        no_seeds(cur),
        cur.len() == w * h,
        w > 0,
    ensures
        no_seeds(jfa_passes(cur, w, h, step)),
        jfa_passes(cur, w, h, step).len() == w * h,
    decreases step,
{
    if step > 0 {
        let next = jfa_pass(cur, w, h, step as int);
        assert forall|i: int| 0 <= i < next.len() implies #[trigger] next[i] is None by {
            lemma_best_none(cur, w, h, step as int, i % w, i / w, 9);
        }
        lemma_passes_none(next, w, h, step / 2);
    }
}

/// Jump flooding on a uniform mask: no pixel is an edge, so there are no
/// seeds, and every cell holds the maximum distance with the sign of the
/// mask's single class.
pub proof fn lemma_uniform_mask_jfa(mask: Seq<bool>, w: int, h: int, max_distance: u32, inside: bool)
    requires
        w >= 1,
        h >= 1,
        mask.len() == w * h,
        forall|i: int| 0 <= i < mask.len() ==> #[trigger] mask[i] == inside,
    ensures
        no_seeds(initial_seeds(mask, w, h)),
        no_seeds(jfa_seeds(mask, w, h)),
        forall|i: int| 0 <= i < w * h ==> #[trigger] jfa_field(mask, w, h, max_distance)[i] == signed(
            inside,
            max_distance as int,
        ),
{
    let seeds = initial_seeds(mask, w, h);
    assert forall|i: int| 0 <= i < seeds.len() implies #[trigger] seeds[i] is None by {
        crate::geometry::lemma_coords_of_index(w, h, i);
        let x = i % w;
        let y = i / w;
        assert forall|qx: int, qy: int| in_canvas(w, h, qx, qy) implies !differs(mask, w, h, x, y, qx, qy) by {
            crate::geometry::lemma_index_in_bounds(w, h, qx, qy);
        }
        assert(!differs(mask, w, h, x, y, x - 1, y));
        assert(!differs(mask, w, h, x, y, x + 1, y));
        assert(!differs(mask, w, h, x, y, x, y - 1));
        assert(!differs(mask, w, h, x, y, x, y + 1));
    }
    lemma_passes_none(seeds, w, h, first_step(w, h));
    let fin = jfa_seeds(mask, w, h);
    assert forall|i: int| 0 <= i < w * h implies #[trigger] jfa_field(mask, w, h, max_distance)[i] == signed(
        inside,
        max_distance as int,
    ) by {
        assert(fin[i] is None);
    }
}

/// The normalized visualization byte of a value agrees, to within one, with
/// the value's normalized form scaled to `0..=255` and clamped.
pub proof fn lemma_visualization_round_trip(v: int, m: int)
    requires
        m > 0,
    ensures
        -1 <= visual_byte(v, m, true) - clamp_byte(normalized_value(v, m) * 255 / NORMALIZED_ONE as int) <= 1,
{
    let a = v + m;
    let b = 2 * m;
    let k = NORMALIZED_ONE as int;
    let n = a * k / b;
    let q1 = a * 255 / b;
    let q2 = n * 255 / k;
    vstd::arithmetic::div_mod::lemma_fundamental_div_mod(a * k, b);
    vstd::arithmetic::div_mod::lemma_fundamental_div_mod(n * 255, k);
    vstd::arithmetic::div_mod::lemma_fundamental_div_mod(a * 255, b);
    let r1 = (a * k) % b;
    let r2 = (n * 255) % k;
    let r3 = (a * 255) % b;
    assert(a * k == b * n + r1);
    assert(n * 255 == k * q2 + r2);
    assert(a * 255 == b * q1 + r3);
    assert(k * b * (q2 - q1) == k * r3 - 255 * r1 - b * r2) by (nonlinear_arith)
        requires a * k == b * n + r1, n * 255 == k * q2 + r2, a * 255 == b * q1 + r3, k == 65536;
    assert(-1 <= q2 - q1 <= 0) by (nonlinear_arith)
        requires k * b * (q2 - q1) == k * r3 - 255 * r1 - b * r2, 0 <= r1 < b, 0 <= r2 < k, 0 <= r3 < b,
            b > 0, k == 65536;
}

/// Squared distances are never negative.
proof fn lemma_dist_sq_nonneg(x1: int, y1: int, x2: int, y2: int)
    ensures
        dist_sq(x1, y1, x2, y2) >= 0,
{
    assert((x1 - x2) * (x1 - x2) >= 0) by (nonlinear_arith);
    assert((y1 - y2) * (y1 - y2) >= 0) by (nonlinear_arith);
}

/// When some pixel of the other class lies in the window within squared
/// distance `bound`, a nearest one exists.
pub proof fn lemma_nearest_exists(mask: Seq<bool>, w: int, h: int, r: int, x: int, y: int, bound: nat)
    requires
        exists|qx: int, qy: int|
            #[trigger] is_opposite_in_window(mask, w, h, r, x, y, qx, qy) && dist_sq(x, y, qx, qy) <= bound,
    ensures
        exists|d: int| is_nearest_opposite_sq(mask, w, h, r, x, y, d),
    decreases bound,
{
    if bound > 0 && exists|qx: int, qy: int|
        #[trigger] is_opposite_in_window(mask, w, h, r, x, y, qx, qy) && dist_sq(x, y, qx, qy) <= bound - 1 {
        lemma_nearest_exists(mask, w, h, r, x, y, (bound - 1) as nat);
    } else {
        let (ax, ay) = choose|qx: int, qy: int|
            #[trigger] is_opposite_in_window(mask, w, h, r, x, y, qx, qy) && dist_sq(x, y, qx, qy) <= bound;
        assert forall|qx: int, qy: int| #[trigger] is_opposite_in_window(mask, w, h, r, x, y, qx, qy) implies dist_sq(
            x,
            y,
            ax,
            ay,
        ) <= dist_sq(x, y, qx, qy) by {
            lemma_dist_sq_nonneg(x, y, qx, qy);
            lemma_dist_sq_nonneg(x, y, ax, ay);
        }
        assert(is_nearest_opposite_sq(mask, w, h, r, x, y, dist_sq(x, y, ax, ay)));
    }
}

/// The nearest squared distance, when there is one, is attained and is a
/// lower bound.
proof fn lemma_nearest_facts(mask: Seq<bool>, w: int, h: int, r: int, x: int, y: int)
    requires
        has_opposite_in_window(mask, w, h, r, x, y),
    ensures
        is_nearest_opposite_sq(mask, w, h, r, x, y, nearest_opposite_sq(mask, w, h, r, x, y)),
{
    let (ax, ay) = choose|qx: int, qy: int| is_opposite_in_window(mask, w, h, r, x, y, qx, qy);
    lemma_dist_sq_nonneg(x, y, ax, ay);
    assert(is_opposite_in_window(mask, w, h, r, x, y, ax, ay) && dist_sq(x, y, ax, ay) <= dist_sq(x, y, ax, ay) as nat);
    lemma_nearest_exists(mask, w, h, r, x, y, dist_sq(x, y, ax, ay) as nat);
}

/// `units_of_sq(d)` is at least `m` exactly when `d` pixels squared reach
/// `m` units squared.
proof fn lemma_units_ge(d: int, m: int)
    requires
        d >= 0,
        m >= 0,
    ensures
        units_of_sq(d) >= m <==> d * 65536 >= m * m,
{
    let n = d * 256 * 256;
    let r = integer_sqrt_spec_witness(n);
    assert(is_isqrt(n, isqrt(n)));
    crate::fixed::lemma_isqrt_unique(n, r, isqrt(n));
    lemma_isqrt_ge(n, r, m);
}

/// Brute force clamps: a pixel with no pixel of the other class closer than
/// the maximum distance holds exactly the maximum distance, signed by its
/// class.
pub proof fn lemma_brute_force_far(mask: Seq<bool>, w: int, h: int, max_distance: u32, x: int, y: int)
    requires
        mask.len() == w * h,
        in_canvas(w, h, x, y),
        forall|qx: int, qy: int|
            in_canvas(w, h, qx, qy) && mask[index_of(w, qx, qy)] != mask[index_of(w, x, y)] ==> #[trigger] dist_sq(
                x,
                y,
                qx,
                qy,
            ) * 65536 >= max_distance as int * max_distance as int,
    ensures
        brute_force_cell(mask, w, h, max_distance, x, y) == signed(mask[index_of(w, x, y)], max_distance as int),
{
    let r = window_radius(max_distance);
    if has_opposite_in_window(mask, w, h, r, x, y) {
        lemma_nearest_facts(mask, w, h, r, x, y);
        let d = nearest_opposite_sq(mask, w, h, r, x, y);
        let (ax, ay) = choose|qx: int, qy: int|
            #[trigger] is_opposite_in_window(mask, w, h, r, x, y, qx, qy) && dist_sq(x, y, qx, qy) == d;
        assert(dist_sq(x, y, ax, ay) * 65536 >= max_distance as int * max_distance as int);
        lemma_dist_sq_nonneg(x, y, ax, ay);
        lemma_units_ge(d, max_distance as int);
    }
}

/// Brute force on a filled disk of radius `radius` pixels centred on a
/// canvas whose sides are each at least twice the radius plus twice the
/// maximum distance: the centre holds minus `min(radius, max_distance)`,
/// to within one pixel (deeper, never shallower).
pub proof fn lemma_brute_force_disk_center(mask: Seq<bool>, w: int, h: int, radius: int, max_distance: u32)
    requires
        w >= 1,
        h >= 1,
        radius >= 0,
        mask.len() == w * h,
        256 * w >= 256 * 2 * radius + 2 * max_distance,
        256 * h >= 256 * 2 * radius + 2 * max_distance,
        forall|i: int|
            0 <= i < w * h ==> #[trigger] mask[i] == (dist_sq(w / 2, h / 2, i % w, i / w) <= radius * radius),
    ensures
        ({
            let lo = if 256 * radius < max_distance { 256 * radius } else { max_distance as int };
            let v = brute_force_cell(mask, w, h, max_distance, w / 2, h / 2);
            -lo - 256 <= v <= -lo
        }),
{
    let c = w / 2;
    let cy = h / 2;
    let m = max_distance as int;
    let r = window_radius(max_distance);
    let lo = if 256 * radius < m { 256 * radius } else { m };
    vstd::arithmetic::div_mod::lemma_fundamental_div_mod(h, 2);
    crate::geometry::lemma_index_in_bounds(w, h, c, cy);
    assert(mask[index_of(w, c, cy)]) by {
        assert(dist_sq(c, cy, c, cy) == 0);
    }
    assert forall|qx: int, qy: int| #[trigger] is_opposite_in_window(mask, w, h, r, c, cy, qx, qy) implies dist_sq(
        c,
        cy,
        qx,
        qy,
    ) >= radius * radius + 1 by {
        crate::geometry::lemma_index_in_bounds(w, h, qx, qy);
    }
    if m > 256 * radius + 256 {
        let ax = c + radius + 1;
        assert(r >= radius + 2);
        vstd::arithmetic::div_mod::lemma_fundamental_div_mod(w, 2);
        assert(ax < w);
        crate::geometry::lemma_index_in_bounds(w, h, ax, cy);
        assert(dist_sq(c, cy, ax, cy) == (radius + 1) * (radius + 1)) by (nonlinear_arith)
            requires ax == c + radius + 1;
        assert(!mask[index_of(w, ax, cy)]) by {
            assert((radius + 1) * (radius + 1) > radius * radius) by (nonlinear_arith)
                requires radius >= 0;
        }
        assert(is_opposite_in_window(mask, w, h, r, c, cy, ax, cy));
    }
    if has_opposite_in_window(mask, w, h, r, c, cy) {
        lemma_nearest_facts(mask, w, h, r, c, cy);
        let d = nearest_opposite_sq(mask, w, h, r, c, cy);
        let (bx, by) = choose|qx: int, qy: int|
            #[trigger] is_opposite_in_window(mask, w, h, r, c, cy, qx, qy) && dist_sq(c, cy, qx, qy) == d;
        assert(d >= radius * radius + 1);
        let u = units_of_sq(d);
        lemma_units_ge(d, 256 * radius);
        assert(d * 65536 >= (256 * radius) * (256 * radius)) by (nonlinear_arith)
            requires d >= radius * radius + 1, radius >= 0;
        if m > 256 * radius + 256 {
            let ax = c + radius + 1;
            assert(is_opposite_in_window(mask, w, h, r, c, cy, ax, cy));
            assert(d <= (radius + 1) * (radius + 1));
            lemma_units_ge(d, 256 * radius + 257);
            assert(d * 65536 < (256 * radius + 257) * (256 * radius + 257)) by (nonlinear_arith)
                requires d <= (radius + 1) * (radius + 1), radius >= 0, d >= 0;
        }
    }
}

/// Cell `j` of a grid of width `w` lies in the rectangle `x0..=x1` by
/// `y0..=y1`.
pub open spec fn in_rect(w: int, j: int, x0: int, y0: int, x1: int, y1: int) -> bool {
    x0 <= j % w <= x1 && y0 <= j / w <= y1
}

/// Inside a rectangle of cells below zero, every cell is reached from `k`.
proof fn lemma_rect_walk(g: SDFData, x0: int, y0: int, x1: int, y1: int, k: int, x: int, y: int)
    requires
        g.wf(),
        0 <= x0 <= x1 < g.width,
        0 <= y0 <= y1 < g.height,
        forall|j: int| 0 <= j < g.data@.len() && in_rect(g.width as int, j, x0, y0, x1, y1) ==> #[trigger] g.neg(j),
        0 <= k < g.data@.len(),
        in_rect(g.width as int, k, x0, y0, x1, y1),
        x0 <= x <= x1,
        y0 <= y <= y1,
    ensures
        g.reach(k, index_of(g.width as int, x, y)),
    decreases (if x >= k % (g.width as int) { x - k % (g.width as int) } else { k % (g.width as int) - x }) + (if y
        >= k / (g.width as int) { y - k / (g.width as int) } else { k / (g.width as int) - y }),
{
    let w = g.width as int;
    let h = g.height as int;
    let kx = k % w;
    let ky = k / w;
    crate::geometry::lemma_coords_of_index(w, h, k);
    crate::geometry::lemma_index_in_bounds(w, h, x, y);
    let j = index_of(w, x, y);
    assert(in_rect(w, j, x0, y0, x1, y1));
    if x == kx && y == ky {
        g.lemma_reach_refl(k);
    } else {
        let (px, py) = if x != kx {
            (if x > kx { x - 1 } else { x + 1 }, y)
        } else {
            (x, if y > ky { y - 1 } else { y + 1 })
        };
        lemma_rect_walk(g, x0, y0, x1, y1, k, px, py);
        crate::geometry::lemma_index_in_bounds(w, h, px, py);
        let pj = index_of(w, px, py);
        assert(adjacent(w, h, pj, j));
        g.lemma_reach_step(k, pj, j);
    }
}

/// A filled rectangle of cells below zero that no other cell below zero
/// touches is exactly one region: the region of any of its cells is the
/// rectangle.
pub proof fn lemma_rectangle_is_region(g: SDFData, x0: int, y0: int, x1: int, y1: int, k: int)
    requires
        g.wf(),
        0 <= x0 <= x1 < g.width,
        0 <= y0 <= y1 < g.height,
        forall|j: int| 0 <= j < g.data@.len() && in_rect(g.width as int, j, x0, y0, x1, y1) ==> #[trigger] g.neg(j),
        forall|j: int, nb: int|
            0 <= j < g.data@.len() && in_rect(g.width as int, j, x0, y0, x1, y1) && #[trigger] adjacent(
                g.width as int,
                g.height as int,
                j,
                nb,
            ) && !in_rect(g.width as int, nb, x0, y0, x1, y1) ==> !g.neg(nb),
        0 <= k < g.data@.len(),
        in_rect(g.width as int, k, x0, y0, x1, y1),
    ensures
        forall|j: int| 0 <= j < g.data@.len() ==> #[trigger] g.region_mask(k)[j] == in_rect(g.width as int, j, x0, y0, x1, y1),
{
    let w = g.width as int;
    let h = g.height as int;
    let n = g.data@.len();
    let none = Seq::new(n, |j: int| false);
    let rect = Seq::new(n, |j: int| in_rect(w, j, x0, y0, x1, y1));
    assert(g.closed_outside(none, rect)) by {
        assert forall|a: int, b: int|
            0 <= a < rect.len() && rect[a] && !none[a] && #[trigger] adjacent(w, h, a, b) && g.neg(b) implies rect[b] by {}
    }
    assert forall|j: int| 0 <= j < n implies #[trigger] g.region_mask(k)[j] == in_rect(w, j, x0, y0, x1, y1) by {
        if g.reach(k, j) {
            let p = choose|p: Seq<int>| #[trigger] g.is_path(p) && p[0] == k && p.last() == j;
            assert forall|i: int| 0 <= i < p.len() implies g.free(none, #[trigger] p[i]) by {
                assert(g.neg(p[i]));
            }
            assert(g.is_path_avoiding(none, p));
            g.lemma_fill_path(none, rect, p);
        }
        if in_rect(w, j, x0, y0, x1, y1) {
            crate::geometry::lemma_coords_of_index(w, h, j);
            lemma_rect_walk(g, x0, y0, x1, y1, k, j % w, j / w);
        }
    }
}

} // verus!
