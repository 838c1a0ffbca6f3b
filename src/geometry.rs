//! Row-major canvas coordinates and squared distances.

use vstd::prelude::*;

verus! {

/// `(x, y)` lies on a `w` by `h` canvas.
pub open spec fn in_canvas(w: int, h: int, x: int, y: int) -> bool {
    0 <= x < w && 0 <= y < h
}

/// Row-major index of `(x, y)` on a canvas of width `w`.
pub open spec fn index_of(w: int, x: int, y: int) -> int {
    y * w + x
}

/// Squared Euclidean distance between two pixels.
pub open spec fn dist_sq(x1: int, y1: int, x2: int, y2: int) -> int {
    (x1 - x2) * (x1 - x2) + (y1 - y2) * (y1 - y2)
}

/// Row-major indices of a `w` by `h` canvas stay inside the buffer.
pub proof fn lemma_index_in_bounds(w: int, h: int, x: int, y: int)
    requires
        in_canvas(w, h, x, y),
    ensures
        0 <= index_of(w, x, y) < w * h,
        index_of(w, x, y) % w == x,
        index_of(w, x, y) / w == y,
{
    assert(0 <= y * w + x < w * h) by (nonlinear_arith)
        requires 0 <= x < w, 0 <= y < h;
    vstd::arithmetic::div_mod::lemma_fundamental_div_mod_converse(y * w + x, w, y, x);
}

/// An index of a `w` by `h` buffer names the pixel `(i % w, i / w)`.
pub proof fn lemma_coords_of_index(w: int, h: int, i: int)
    requires
        0 <= i < w * h,
        w > 0,
    ensures
        in_canvas(w, h, i % w, i / w),
        index_of(w, i % w, i / w) == i,
{
    vstd::arithmetic::div_mod::lemma_fundamental_div_mod(i, w);
    let q = i / w;
    let r = i % w;
    assert(q < h) by (nonlinear_arith)
        requires i == w * q + r, 0 <= r < w, i < w * h, w > 0;
    assert(i / w >= 0) by {
        vstd::arithmetic::div_mod::lemma_div_pos_is_pos(i, w);
    }
    assert(index_of(w, i % w, i / w) == i) by (nonlinear_arith)
        requires i == w * (i / w) + i % w;
}

} // verus!
