//! 8-connected regions of negative cells, found by an explicit-stack flood fill.

use vstd::prelude::*;
use crate::fixed::UNITS_PER_PIXEL;
use crate::geometry::{in_canvas, index_of, lemma_index_in_bounds, lemma_coords_of_index};
use crate::sdf::SDFData;

verus! {

/// A region is kept when it has at least this many pixels.
pub const MIN_REGION_PIXELS: u64 = 10;

/// Cells `a` and `b` of a `w` by `h` grid are distinct and touch, edges or
/// corners (8-connectivity).
pub open spec fn adjacent(w: int, h: int, a: int, b: int) -> bool {
    &&& 0 <= a < w * h
    &&& 0 <= b < w * h
    &&& a != b
    &&& -1 <= a % w - b % w <= 1
    &&& -1 <= a / w - b / w <= 1
}

/// Number of `true` entries.
pub open spec fn count_true(m: Seq<bool>) -> nat
    decreases m.len(),
{
    if m.len() == 0 {
        0
    } else {
        count_true(m.drop_last()) + if m.last() { 1nat } else { 0nat }
    }
}

/// Sum of the column (`horizontal`) or row of the `true` entries of a
/// row-major mask of width `w`.
pub open spec fn sum_coord(m: Seq<bool>, w: int, horizontal: bool) -> int
    decreases m.len(),
{
    if m.len() == 0 {
        0
    } else {
        let j = m.len() - 1;
        sum_coord(m.drop_last(), w, horizontal) + if m.last() {
            if horizontal { j % w } else { j / w }
        } else {
            0
        }
    }
}

/// A connected set of cells below zero.
pub struct Region {
    pub pixel_count: u64,
    /// Mean column, in distance units, rounded down.
    pub center_x: u64,
    /// Mean row, in distance units, rounded down.
    pub center_y: u64,
    /// `(min_x, min_y, max_x, max_y)`.
    pub bounds: (u32, u32, u32, u32),
}

impl SDFData {
    /// Cell `j` holds a value below zero.
    pub open spec fn neg(&self, j: int) -> bool {
        0 <= j < self.data@.len() && self.data@[j] < 0
    }

    /// `p` is a walk through cells below zero, each step to an adjacent cell.
    pub open spec fn is_path(&self, p: Seq<int>) -> bool {
        &&& p.len() >= 1
        &&& forall|i: int| 0 <= i < p.len() ==> self.neg(#[trigger] p[i])
        &&& forall|i: int|
            0 <= i < p.len() - 1 ==> adjacent(self.width as int, self.height as int, #[trigger] p[i], p[i + 1])
    }

    /// Cells `a` and `b` lie in one 8-connected region of cells below zero.
    pub open spec fn reach(&self, a: int, b: int) -> bool {
        exists|p: Seq<int>| #[trigger] self.is_path(p) && p[0] == a && p.last() == b
    }

    /// The region of cell `k`, as a mask over all cells.
    pub open spec fn region_mask(&self, k: int) -> Seq<bool> {
        Seq::new(self.data@.len(), |j: int| self.reach(k, j))
    }

    /// Cell `j` is below zero and not marked in `avoid`.
    pub open spec fn free(&self, avoid: Seq<bool>, j: int) -> bool {
        self.neg(j) && !avoid[j]
    }

    /// `p` is a walk through free cells, each step to an adjacent cell.
    pub open spec fn is_path_avoiding(&self, avoid: Seq<bool>, p: Seq<int>) -> bool {
        &&& p.len() >= 1
        &&& forall|i: int| 0 <= i < p.len() ==> self.free(avoid, #[trigger] p[i])
        &&& forall|i: int|
            0 <= i < p.len() - 1 ==> adjacent(self.width as int, self.height as int, #[trigger] p[i], p[i + 1])
    }

    /// Cells `a` and `b` lie in one 8-connected component of the cells below
    /// zero that `avoid` does not mark.
    pub open spec fn reach_avoiding(&self, avoid: Seq<bool>, a: int, b: int) -> bool {
        exists|p: Seq<int>| #[trigger] self.is_path_avoiding(avoid, p) && p[0] == a && p.last() == b
    }

    /// The component of cell `k` among the free cells, as a mask over all
    /// cells.
    pub open spec fn region_within(&self, avoid: Seq<bool>, k: int) -> Seq<bool> {
        Seq::new(self.data@.len(), |j: int| self.reach_avoiding(avoid, k, j))
    }

    /// `k` is the first cell, in row-major order, of its region.
    pub open spec fn is_leader(&self, k: int) -> bool {
        self.neg(k) && forall|j: int| 0 <= j < k ==> !#[trigger] self.reach(j, k)
    }

    /// The leaders among the first `i` cells whose region is large enough
    /// to keep, in row-major order.
    pub open spec fn kept_leaders(&self, i: int) -> Seq<int>
        decreases i,
    {
        if i <= 0 {
            Seq::empty()
        } else {
            let k = i - 1;
            let prev = self.kept_leaders(k);
            if self.is_leader(k) && count_true(self.region_mask(k)) >= MIN_REGION_PIXELS {
                prev.push(k)
            } else {
                prev
            }
        }
    }

    /// `r` describes the cells of mask `m`: their count, mean position and
    /// bounding box.
    pub open spec fn describes(&self, r: Region, m: Seq<bool>) -> bool {
        let w = self.width as int;
        let n = count_true(m);
        &&& r.pixel_count == n
        &&& n > 0
        &&& r.center_x == sum_coord(m, w, true) * UNITS_PER_PIXEL as int / n as int
        &&& r.center_y == sum_coord(m, w, false) * UNITS_PER_PIXEL as int / n as int
        &&& forall|j: int| 0 <= j < m.len() && #[trigger] m[j] ==> r.bounds.0 <= j % w <= r.bounds.2
            && r.bounds.1 <= j / w <= r.bounds.3
        &&& exists|j: int| 0 <= j < m.len() && #[trigger] m[j] && j % w == r.bounds.0
        &&& exists|j: int| 0 <= j < m.len() && #[trigger] m[j] && j / w == r.bounds.1
        &&& exists|j: int| 0 <= j < m.len() && #[trigger] m[j] && j % w == r.bounds.2
        &&& exists|j: int| 0 <= j < m.len() && #[trigger] m[j] && j / w == r.bounds.3
    }
}

/// Setting one `false` entry adds one to the count and its coordinates to
/// the sums.
pub proof fn lemma_mark(m: Seq<bool>, j: int, w: int)
    requires
        0 <= j < m.len(),
        !m[j],
    ensures
        count_true(m.update(j, true)) == count_true(m) + 1,
        sum_coord(m.update(j, true), w, true) == sum_coord(m, w, true) + j % w,
        sum_coord(m.update(j, true), w, false) == sum_coord(m, w, false) + j / w,
    decreases m.len(),
{
    let u = m.update(j, true);
    if j == m.len() - 1 {
        assert(u.drop_last() =~= m.drop_last());
    } else {
        assert(u.drop_last() =~= m.drop_last().update(j, true));
        lemma_mark(m.drop_last(), j, w);
    }
}

/// A count never exceeds the length.
pub proof fn lemma_count_le(m: Seq<bool>)
    ensures
        count_true(m) <= m.len(),
    decreases m.len(),
{
    if m.len() > 0 {
        lemma_count_le(m.drop_last());
    }
}

/// Coordinate sums are at most the count times the largest coordinate.
pub proof fn lemma_sum_le(m: Seq<bool>, w: int, h: int)
    requires
        w > 0,
        m.len() <= w * h,
    ensures
        0 <= sum_coord(m, w, true) <= count_true(m) * (w - 1),
        0 <= sum_coord(m, w, false) <= count_true(m) * (h - 1),
    decreases m.len(),
{
    if m.len() > 0 {
        let j = m.len() - 1;
        lemma_sum_le(m.drop_last(), w, h);
        lemma_coords_of_index(w, h, j);
        let c = count_true(m.drop_last()) as int;
        assert(c * (w - 1) + (w - 1) == (c + 1) * (w - 1)) by (nonlinear_arith);
        assert(c * (h - 1) + (h - 1) == (c + 1) * (h - 1)) by (nonlinear_arith);
    }
}

impl SDFData {
    pub proof fn lemma_reach_refl(&self, a: int)
        requires
            self.neg(a),
        ensures
            self.reach(a, a),
    {
        let p = seq![a];
        assert(self.is_path(p));
    }

    pub proof fn lemma_reach_ends(&self, a: int, b: int)
        requires
            self.reach(a, b),
        ensures
            self.neg(a) && self.neg(b),
    {
        let p = choose|p: Seq<int>| #[trigger] self.is_path(p) && p[0] == a && p.last() == b;
        assert(self.neg(p[0]));
        assert(self.neg(p[p.len() - 1]));
    }

    pub proof fn lemma_reach_step(&self, a: int, b: int, c: int)
        requires
            self.reach(a, b),
            adjacent(self.width as int, self.height as int, b, c),
            self.neg(c),
        ensures
            self.reach(a, c),
    {
        let p = choose|p: Seq<int>| #[trigger] self.is_path(p) && p[0] == a && p.last() == b;
        let q = p.push(c);
        assert forall|i: int| 0 <= i < q.len() implies self.neg(#[trigger] q[i]) by {
            if i < p.len() {
                assert(q[i] == p[i]);
            }
        }
        assert forall|i: int| 0 <= i < q.len() - 1 implies adjacent(
            self.width as int,
            self.height as int,
            #[trigger] q[i],
            q[i + 1],
        ) by {
            if i < p.len() - 1 {
                assert(q[i] == p[i] && q[i + 1] == p[i + 1]);
            }
        }
        assert(self.is_path(q));
    }

    pub proof fn lemma_reach_sym(&self, a: int, b: int)
        requires
            self.reach(a, b),
        ensures
            self.reach(b, a),
    {
        let p = choose|p: Seq<int>| #[trigger] self.is_path(p) && p[0] == a && p.last() == b;
        let q = p.reverse();
        let w = self.width as int;
        let h = self.height as int;
        assert forall|i: int| 0 <= i < q.len() implies self.neg(#[trigger] q[i]) by {
            assert(q[i] == p[p.len() - 1 - i]);
        }
        assert forall|i: int| 0 <= i < q.len() - 1 implies adjacent(w, h, #[trigger] q[i], q[i + 1]) by {
            let k = p.len() - 2 - i;
            assert(q[i] == p[k + 1] && q[i + 1] == p[k]);
            assert(adjacent(w, h, p[k], p[k + 1]));
        }
        assert(self.is_path(q));
        assert(q[0] == b && q.last() == a);
    }

    pub proof fn lemma_reach_trans(&self, a: int, b: int, c: int)
        requires
            self.reach(a, b),
            self.reach(b, c),
        ensures
            self.reach(a, c),
    {
        let p = choose|p: Seq<int>| #[trigger] self.is_path(p) && p[0] == a && p.last() == b;
        let q = choose|q: Seq<int>| #[trigger] self.is_path(q) && q[0] == b && q.last() == c;
        let r = p + q.drop_first();
        let w = self.width as int;
        let h = self.height as int;
        assert forall|i: int| 0 <= i < r.len() implies self.neg(#[trigger] r[i]) by {
            if i < p.len() {
                assert(r[i] == p[i]);
            } else {
                assert(r[i] == q[i - p.len() + 1]);
            }
        }
        assert forall|i: int| 0 <= i < r.len() - 1 implies adjacent(w, h, #[trigger] r[i], r[i + 1]) by {
            if i < p.len() - 1 {
                assert(r[i] == p[i] && r[i + 1] == p[i + 1]);
            } else if i == p.len() - 1 {
                assert(r[i] == b && r[i + 1] == q[1]);
                assert(q[0] == b);
                assert(adjacent(w, h, q[0], q[1]));
            } else {
                let k = i - p.len() + 1;
                assert(r[i] == q[k] && r[i + 1] == q[k + 1]);
            }
        }
        assert(self.is_path(r));
        if q.len() == 1 {
            assert(r.last() == p.last());
        } else {
            assert(r.last() == q.last());
        }
    }
}

/// A marked entry makes the count positive.
pub proof fn lemma_count_pos(m: Seq<bool>, j: int)
    requires
        0 <= j < m.len(),
        m[j],
    ensures
        count_true(m) >= 1,
    decreases m.len(),
{
    if j < m.len() - 1 {
        lemma_count_pos(m.drop_last(), j);
    }
}

/// The column (`horizontal`) or row of cell `j` on a grid of width `w`.
pub open spec fn coord(j: int, w: int, horizontal: bool) -> int {
    if horizontal { j % w } else { j / w }
}

/// Some cell marked in `m`, or the start `s`, has coordinate `b`.
pub open spec fn attains(m: Seq<bool>, s: int, w: int, b: int, horizontal: bool) -> bool {
    exists|j: int| 0 <= j < m.len() && (#[trigger] m[j] || j == s) && coord(j, w, horizontal) == b
}

/// Every cell marked in `m`, and the start `s`, lies within `bounds`.
pub open spec fn bounds_cover(bounds: (u32, u32, u32, u32), m: Seq<bool>, s: int, w: int) -> bool {
    forall|j: int|
        0 <= j < m.len() && (#[trigger] m[j] || j == s) ==> bounds.0 <= j % w <= bounds.2 && bounds.1 <= j / w
            <= bounds.3
}

/// Widening the bounds to cover cell `c` keeps every marked cell covered.
pub proof fn lemma_bounds_mark(
    b: (u32, u32, u32, u32),
    nb: (u32, u32, u32, u32),
    m: Seq<bool>,
    s: int,
    w: int,
    c: int,
)
    requires
        bounds_cover(b, m, s, w),
        0 <= c < m.len(),
        nb.0 <= b.0 && nb.0 <= c % w,
        nb.1 <= b.1 && nb.1 <= c / w,
        nb.2 >= b.2 && nb.2 >= c % w,
        nb.3 >= b.3 && nb.3 >= c / w,
    ensures
        bounds_cover(nb, m.update(c, true), s, w),
{
    let m2 = m.update(c, true);
    assert forall|j: int| 0 <= j < m2.len() && (#[trigger] m2[j] || j == s) implies nb.0 <= j % w <= nb.2 && nb.1
        <= j / w <= nb.3 by {
        if j != c {
            assert(m2[j] == m[j]);
            assert(m[j] || j == s);
            assert(b.0 <= j % w <= b.2 && b.1 <= j / w <= b.3);
        }
    }
}

/// Marking `c` keeps a bound attained when it moves to `c`'s coordinate or
/// stays put.
pub proof fn lemma_attains_mark(m: Seq<bool>, s: int, w: int, c: int, b: int, horizontal: bool, nb: int)
    requires
        attains(m, s, w, b, horizontal),
        0 <= c < m.len(),
        nb == b || nb == coord(c, w, horizontal),
    ensures
        attains(m.update(c, true), s, w, nb, horizontal),
{
        let m2 = m.update(c, true);
    if nb == coord(c, w, horizontal) {
        assert(0 <= c < m2.len() && (m2[c] || c == s) && coord(c, w, horizontal) == nb);
        assert(exists|k: int| 0 <= k < m2.len() && (#[trigger] m2[k] || k == s) && coord(k, w, horizontal) == nb);
        assert(attains(m2, s, w, nb, horizontal));
    } else {
        assert forall|j: int| 0 <= j < m.len() && (#[trigger] m[j] || j == s) && coord(j, w, horizontal) == b
            implies exists|k: int| 0 <= k < m2.len() && (#[trigger] m2[k] || k == s) && coord(k, w, horizontal) == b by {
            if j != c {
                assert(m2[j] == m[j]);
            } else {
                assert(m2[c]);
            }
            assert(0 <= j < m2.len() && (m2[j] || j == s) && coord(j, w, horizontal) == b);
        }
        assert(exists|k: int| 0 <= k < m2.len() && (#[trigger] m2[k] || k == s) && coord(k, w, horizontal) == b);
        assert(attains(m2, s, w, nb, horizontal));
    }
}

/// The mean `sum / count` in distance units, rounded down.
fn mean_units(sum: u128, count: u64, max_coord: u32) -> (r: u64)
    requires
        count > 0,
        sum <= count as int * max_coord as int,
    ensures
        r as int == sum as int * UNITS_PER_PIXEL as int / count as int,
{
    let k: u128 = UNITS_PER_PIXEL as u128;
    let c: u128 = count as u128;
    let ghost bound: int = max_coord as int * 256;
    assert(sum * 256 <= c * bound) by (nonlinear_arith)
        requires sum <= c * max_coord, bound == max_coord * 256;
    assert(c * (max_coord as int) <= 0xffff_ffff_ffff_ffff * 0xffff_ffff) by (nonlinear_arith)
        requires c <= 0xffff_ffff_ffff_ffff, max_coord <= 0xffff_ffff;
    proof {
        vstd::arithmetic::div_mod::lemma_div_is_ordered(sum * 256, c * bound, c as int);
        vstd::arithmetic::div_mod::lemma_div_multiples_vanish(bound, c as int);
        vstd::arithmetic::div_mod::lemma_div_pos_is_pos(sum * 256, c as int);
    }
    (sum * k / c) as u64
}

/// Running totals of a flood fill.
pub struct FillState {
    pub count: u64,
    pub sum_x: u128,
    pub sum_y: u128,
    pub bounds: (u32, u32, u32, u32),
}

/// `nb` is somewhere on the stack.
pub open spec fn on_stack(stack: Seq<usize>, nb: int) -> bool {
    exists|k: int| 0 <= k < stack.len() && stack[k] as int == nb
}

/// The cells marked in `v` and not in `before`.
pub open spec fn newly_marked(before: Seq<bool>, v: Seq<bool>) -> Seq<bool> {
    Seq::new(v.len(), |j: int| v[j] && !before[j])
}

/// Position of `nb` among the nine cells around `c`, row by row.
pub open spec fn offset_of(w: int, c: int, nb: int) -> int {
    (nb / w - c / w + 1) * 3 + (nb % w - c % w + 1)
}

/// With no entry marked, the count and the sums are zero.
pub proof fn lemma_none_marked(m: Seq<bool>, w: int)
    requires
        forall|j: int| 0 <= j < m.len() ==> !m[j],
    ensures
        count_true(m) == 0,
        sum_coord(m, w, true) == 0,
        sum_coord(m, w, false) == 0,
    decreases m.len(),
{
    if m.len() > 0 {
        lemma_none_marked(m.drop_last(), w);
    }
}

/// The offset of a neighbour splits into its row and column steps.
pub proof fn lemma_offset_parts(w: int, c: int, nb: int, k: int)
    requires
        w > 0,
        offset_of(w, c, nb) == k,
        -1 <= nb / w - c / w <= 1,
        -1 <= nb % w - c % w <= 1,
    ensures
        nb / w == c / w + (k / 3 - 1),
        nb % w == c % w + (k % 3 - 1),
{
    vstd::arithmetic::div_mod::lemma_fundamental_div_mod_converse(
        k,
        3,
        nb / w - c / w + 1,
        nb % w - c % w + 1,
    );
}

impl SDFData {
    pub proof fn lemma_avoiding_refl(&self, avoid: Seq<bool>, a: int)
        requires
            self.free(avoid, a),
        ensures
            self.reach_avoiding(avoid, a, a),
    {
        let p = seq![a];
        assert(self.is_path_avoiding(avoid, p));
    }

    pub proof fn lemma_avoiding_ends(&self, avoid: Seq<bool>, a: int, b: int)
        requires
            self.reach_avoiding(avoid, a, b),
        ensures
            self.free(avoid, a) && self.free(avoid, b),
    {
        let p = choose|p: Seq<int>| #[trigger] self.is_path_avoiding(avoid, p) && p[0] == a && p.last() == b;
        assert(self.free(avoid, p[0]));
        assert(self.free(avoid, p[p.len() - 1]));
    }

    pub proof fn lemma_avoiding_step(&self, avoid: Seq<bool>, a: int, b: int, c: int)
        requires
            self.reach_avoiding(avoid, a, b),
            adjacent(self.width as int, self.height as int, b, c),
            self.free(avoid, c),
        ensures
            self.reach_avoiding(avoid, a, c),
    {
        let p = choose|p: Seq<int>| #[trigger] self.is_path_avoiding(avoid, p) && p[0] == a && p.last() == b;
        let q = p.push(c);
        assert forall|i: int| 0 <= i < q.len() implies self.free(avoid, #[trigger] q[i]) by {
            if i < p.len() {
                assert(q[i] == p[i]);
            }
        }
        assert forall|i: int| 0 <= i < q.len() - 1 implies adjacent(
            self.width as int,
            self.height as int,
            #[trigger] q[i],
            q[i + 1],
        ) by {
            if i < p.len() - 1 {
                assert(q[i] == p[i] && q[i + 1] == p[i + 1]);
            }
        }
        assert(self.is_path_avoiding(avoid, q));
    }

    /// Every neighbour below zero of a cell marked in `v` but not in
    /// `before` is marked in `v`.
    pub open spec fn closed_outside(&self, before: Seq<bool>, v: Seq<bool>) -> bool {
        forall|a: int, b: int|
            0 <= a < v.len() && v[a] && !before[a] && #[trigger] adjacent(self.width as int, self.height as int, a, b)
                && self.neg(b) ==> v[b]
    }

    /// A mask closed outside `before` that holds the start of a path avoiding
    /// `before` holds its end.
    pub proof fn lemma_fill_path(&self, before: Seq<bool>, v: Seq<bool>, p: Seq<int>)
        requires
            self.wf(),
            self.closed_outside(before, v),
            self.is_path_avoiding(before, p),
            v.len() == self.data@.len(),
            v[p[0]],
        ensures
            v[p.last()],
        decreases p.len(),
    {
        if p.len() > 1 {
            let q = p.drop_last();
            assert forall|i: int| 0 <= i < q.len() implies self.free(before, #[trigger] q[i]) by {
                assert(q[i] == p[i]);
            }
            assert forall|i: int| 0 <= i < q.len() - 1 implies adjacent(
                self.width as int,
                self.height as int,
                #[trigger] q[i],
                q[i + 1],
            ) by {
                assert(q[i] == p[i] && q[i + 1] == p[i + 1]);
            }
            assert(self.is_path_avoiding(before, q));
            self.lemma_fill_path(before, v, q);
            let k = p.len() - 2;
            assert(q.last() == p[k]);
            assert(self.free(before, p[k]));
            assert(adjacent(self.width as int, self.height as int, p[k], p[k + 1]));
            assert(self.free(before, p[k + 1]));
        }
    }

    /// Pushes every neighbour of `c` that is below zero and not yet visited.
    fn push_neighbours(
        &self,
        c: usize,
        x: u32,
        y: u32,
        visited: &Vec<bool>,
        stack: &mut Vec<usize>,
        Ghost(before): Ghost<Seq<bool>>,
        Ghost(s): Ghost<int>,
    )
        requires
            self.wf(),
            0 <= c < self.data@.len(),
            before.len() == self.data@.len(),
            forall|j: int| 0 <= j < self.data@.len() && before[j] ==> #[trigger] visited@[j],
            x as int == c as int % self.width as int,
            y as int == c as int / self.width as int,
            visited@.len() == self.data@.len(),
            self.reach_avoiding(before, s, c as int),
            forall|i: int|
                0 <= i < old(stack)@.len() ==> (#[trigger] old(stack)@[i] as int) < self.data@.len() && self.neg(
                    old(stack)@[i] as int,
                ) && self.reach_avoiding(before, s, old(stack)@[i] as int),
        ensures
            final(stack)@.len() <= old(stack)@.len() + 9,
            forall|i: int|
                0 <= i < final(stack)@.len() ==> (#[trigger] final(stack)@[i] as int) < self.data@.len()
                    && self.neg(final(stack)@[i] as int) && self.reach_avoiding(before, s, final(stack)@[i] as int),
            forall|nb: int| #[trigger] on_stack(old(stack)@, nb) ==> on_stack(final(stack)@, nb),
            forall|nb: int|
                #[trigger] adjacent(self.width as int, self.height as int, c as int, nb) && self.neg(nb)
                    ==> visited@[nb] || on_stack(final(stack)@, nb),
    {
        let ghost w = self.width as int;
        let ghost h = self.height as int;
        let ghost n = w * h;
        let ghost start_stack = stack@;
        let width = self.width;
        let nlen: usize = self.data.len();
        proof {
            lemma_coords_of_index(w, h, c as int);
        }
        let mut k: usize = 0;
        while k < 9
            invariant
                self.wf(),
                w == self.width && h == self.height && n == w * h,
                nlen == n,
                width == self.width,
                0 <= c < n,
                x == (c as int) % w && y == (c as int) / w,
                c as int == index_of(w, x as int, y as int),
                in_canvas(w, h, x as int, y as int),
                visited@.len() == n,
                before.len() == n,
                forall|j: int| 0 <= j < n && before[j] ==> #[trigger] visited@[j],
                self.reach_avoiding(before, s, c as int),
                k <= 9,
                stack@.len() <= start_stack.len() + k,
                forall|i: int|
                    0 <= i < stack@.len() ==> (#[trigger] stack@[i] as int) < n && self.neg(stack@[i] as int)
                        && self.reach_avoiding(before, s, stack@[i] as int),
                forall|nb: int| #[trigger] on_stack(start_stack, nb) ==> on_stack(stack@, nb),
                forall|nb: int|
                    #[trigger] adjacent(w, h, c as int, nb) && self.neg(nb) && offset_of(w, c as int, nb) < k
                        ==> visited@[nb] || on_stack(stack@, nb),
            decreases 9 - k,
        {
            let ghost pre_stack = stack@;
            let ghost mut target: int = -1;
            let ghost mut did_push = false;
            let nx: i64 = x as i64 + ((k % 3) as i64 - 1);
            let ny: i64 = y as i64 + ((k / 3) as i64 - 1);
            if k != 4 && nx >= 0 && ny >= 0 && nx < width as i64 && ny < self.height as i64 {
                proof {
                    lemma_index_in_bounds(w, h, nx as int, ny as int);
                }
                let nidx: usize = (ny as usize) * (width as usize) + (nx as usize);
                proof {
                    target = nidx as int;
                }
                if !visited[nidx] && self.data[nidx] < 0 {
                    proof {
                        assert(adjacent(w, h, c as int, nidx as int));
                        assert(!before[nidx as int]);
                        self.lemma_avoiding_step(before, s, c as int, nidx as int);
                    }
                    stack.push(nidx);
                    proof {
                        did_push = true;
                    }
                }
            }
            proof {
                assert(did_push ==> stack@ == pre_stack.push(target as usize) && 0 <= target < n);
                assert(!did_push ==> stack@ == pre_stack);
                assert forall|nb: int| #[trigger] on_stack(pre_stack, nb) implies on_stack(stack@, nb) by {
                    let i = choose|i: int| 0 <= i < pre_stack.len() && pre_stack[i] as int == nb;
                    assert(stack@[i] == pre_stack[i]);
                }
                assert forall|nb: int|
                    #[trigger] adjacent(w, h, c as int, nb) && self.neg(nb) && offset_of(w, c as int, nb) < k + 1
                        implies visited@[nb] || on_stack(stack@, nb) by {
                    if offset_of(w, c as int, nb) == k {
                        lemma_coords_of_index(w, h, nb);
                        lemma_offset_parts(w, c as int, nb, k as int);
                        assert(k != 4) by {
                            if k == 4 {
                                assert(nb == index_of(w, x as int, y as int));
                                assert(c == index_of(w, x as int, y as int));
                            }
                        }
                        assert(nx == nb % w && ny == nb / w);
                        assert(target == nb);
                        if !visited@[nb] {
                            assert(did_push);
                            assert(stack@[stack@.len() - 1] as int == nb);
                        }
                    }
                }
            }
            k += 1;
        }
        proof {
            assert forall|nb: int|
                #[trigger] adjacent(w, h, c as int, nb) && self.neg(nb) implies visited@[nb] || on_stack(stack@, nb) by {
                assert(0 <= offset_of(w, c as int, nb) < 9);
            }
        }
    }

    /// Every stacked cell is below zero and reachable from `s`.
    #[verifier::opaque]
    pub open spec fn stack_ok(&self, before: Seq<bool>, s: int, stack: Seq<usize>) -> bool {
        forall|k: int|
            0 <= k < stack.len() ==> (#[trigger] stack[k] as int) < self.data@.len() && self.neg(stack[k] as int)
                && self.reach_avoiding(before, s, stack[k] as int)
    }

    /// Every neighbour below zero of a newly marked cell is marked or stacked.
    #[verifier::opaque]
    pub open spec fn frontier_ok(&self, before: Seq<bool>, v: Seq<bool>, stack: Seq<usize>) -> bool {
        forall|j: int, nb: int|
            0 <= j < self.data@.len() && v[j] && !before[j] && #[trigger] adjacent(
                self.width as int,
                self.height as int,
                j,
                nb,
            ) && self.neg(nb) ==> v[nb] || on_stack(stack, nb)
    }

    /// What holds between steps of a flood fill from `s` that started on the
    /// marks `before`.
    pub open spec fn fill_inv(&self, before: Seq<bool>, s: int, v: Seq<bool>, stack: Seq<usize>, acc: FillState) -> bool {
        let n = self.data@.len();
        &&& self.wf()
        &&& 0 <= s < n
        &&& self.neg(s)
        &&& !before[s]
        &&& before.len() == n
        &&& v.len() == n
        &&& count_true(v) <= n
        &&& forall|j: int| 0 <= j < n && before[j] ==> #[trigger] v[j]
        &&& forall|j: int| 0 <= j < n && #[trigger] v[j] && !before[j] ==> self.reach_avoiding(before, s, j)
        &&& self.stack_ok(before, s, stack)
        &&& self.frontier_ok(before, v, stack)
        &&& v[s] || on_stack(stack, s)
        &&& self.acc_ok(acc, newly_marked(before, v), s)
    }

    /// Popping a cell that is already marked keeps the frontier.
    pub proof fn lemma_frontier_skip(&self, before: Seq<bool>, v: Seq<bool>, old_stack: Seq<usize>)
        requires
            old_stack.len() > 0,
            v[old_stack.last() as int],
            self.frontier_ok(before, v, old_stack),
        ensures
            self.frontier_ok(before, v, old_stack.drop_last()),
    {
        reveal(SDFData::frontier_ok);
        let st = old_stack.drop_last();
        assert forall|j: int, nb: int|
            0 <= j < self.data@.len() && v[j] && !before[j] && #[trigger] adjacent(
                self.width as int,
                self.height as int,
                j,
                nb,
            ) && self.neg(nb) implies v[nb] || on_stack(st, nb) by {
            if !v[nb] {
                let k = choose|k: int| 0 <= k < old_stack.len() && old_stack[k] as int == nb;
                assert(k < old_stack.len() - 1);
                assert(st[k] == old_stack[k]);
            }
        }
    }

    /// Marking the popped cell and stacking its neighbours keeps the
    /// frontier.
    pub proof fn lemma_frontier_mark(
        &self,
        before: Seq<bool>,
        old_v: Seq<bool>,
        old_stack: Seq<usize>,
        stack: Seq<usize>,
    )
        requires
            old_stack.len() > 0,
            old_v.len() == self.data@.len(),
            0 <= old_stack.last() < old_v.len(),
            self.frontier_ok(before, old_v, old_stack),
            forall|nb: int| #[trigger] on_stack(old_stack.drop_last(), nb) ==> on_stack(stack, nb),
            forall|nb: int|
                #[trigger] adjacent(self.width as int, self.height as int, old_stack.last() as int, nb)
                    && self.neg(nb) ==> old_v.update(old_stack.last() as int, true)[nb] || on_stack(stack, nb),
        ensures
            self.frontier_ok(before, old_v.update(old_stack.last() as int, true), stack),
    {
        reveal(SDFData::frontier_ok);
        let c = old_stack.last() as int;
        let v = old_v.update(c, true);
        let st = old_stack.drop_last();
        assert forall|j: int, nb: int|
            0 <= j < self.data@.len() && v[j] && !before[j] && #[trigger] adjacent(
                self.width as int,
                self.height as int,
                j,
                nb,
            ) && self.neg(nb) implies v[nb] || on_stack(stack, nb) by {
            if j != c {
                assert(old_v[j]);
                if !old_v[nb] && nb != c {
                    let k = choose|k: int| 0 <= k < old_stack.len() && old_stack[k] as int == nb;
                    assert(k < old_stack.len() - 1);
                    assert(st[k] == old_stack[k]);
                    assert(on_stack(st, nb));
                }
            }
        }
    }

    /// The running count, sums and bounds describe the marked cells `m`,
    /// the bounds also covering the start `s`.
    pub open spec fn acc_ok(&self, acc: FillState, m: Seq<bool>, s: int) -> bool {
        let w = self.width as int;
        &&& acc.count == count_true(m)
        &&& acc.sum_x == sum_coord(m, w, true)
        &&& acc.sum_y == sum_coord(m, w, false)
        &&& bounds_cover(acc.bounds, m, s, w)
        &&& attains(m, s, w, acc.bounds.0 as int, true)
        &&& attains(m, s, w, acc.bounds.1 as int, false)
        &&& attains(m, s, w, acc.bounds.2 as int, true)
        &&& attains(m, s, w, acc.bounds.3 as int, false)
    }

    /// Adding cell `c` to the marks keeps the accumulators right.
    pub proof fn lemma_acc_mark(&self, acc: FillState, m: Seq<bool>, s: int, c: int, next: FillState)
        requires
            self.wf(),
            m.len() == self.data@.len(),
            0 <= s < m.len(),
            0 <= c < m.len(),
            !m[c],
            self.acc_ok(acc, m, s),
            next.count == acc.count + 1,
            next.sum_x == acc.sum_x + c % self.width as int,
            next.sum_y == acc.sum_y + c / self.width as int,
            next.bounds.0 == if c % (self.width as int) < acc.bounds.0 { c % (self.width as int) } else { acc.bounds.0 as int },
            next.bounds.1 == if c / (self.width as int) < acc.bounds.1 { c / (self.width as int) } else { acc.bounds.1 as int },
            next.bounds.2 == if c % (self.width as int) > acc.bounds.2 { c % (self.width as int) } else { acc.bounds.2 as int },
            next.bounds.3 == if c / (self.width as int) > acc.bounds.3 { c / (self.width as int) } else { acc.bounds.3 as int },
        ensures
            self.acc_ok(next, m.update(c, true), s),
    {
        let w = self.width as int;
        lemma_mark(m, c, w);
        lemma_attains_mark(m, s, w, c, acc.bounds.0 as int, true, next.bounds.0 as int);
        lemma_attains_mark(m, s, w, c, acc.bounds.1 as int, false, next.bounds.1 as int);
        lemma_attains_mark(m, s, w, c, acc.bounds.2 as int, true, next.bounds.2 as int);
        lemma_attains_mark(m, s, w, c, acc.bounds.3 as int, false, next.bounds.3 as int);
        let m2 = m.update(c, true);
        lemma_bounds_mark(acc.bounds, next.bounds, m, s, w, c);
        assert(next.count == count_true(m2));
        assert(next.sum_x == sum_coord(m2, w, true));
        assert(next.sum_y == sum_coord(m2, w, false));
        assert(attains(m2, s, w, next.bounds.0 as int, true));
        assert(attains(m2, s, w, next.bounds.1 as int, false));
        assert(attains(m2, s, w, next.bounds.2 as int, true));
        assert(attains(m2, s, w, next.bounds.3 as int, false));
    }

    /// Final accumulators that cover the whole region describe it.
    pub proof fn lemma_describes(&self, acc: FillState, m: Seq<bool>, s: int, r: Region)
        requires
            self.wf(),
            m.len() == self.data@.len(),
            0 <= s < m.len(),
            m[s],
            self.acc_ok(acc, m, s),
            r.pixel_count == acc.count,
            r.bounds == acc.bounds,
            acc.count > 0,
            r.center_x == acc.sum_x * UNITS_PER_PIXEL as int / acc.count as int,
            r.center_y == acc.sum_y * UNITS_PER_PIXEL as int / acc.count as int,
        ensures
            self.describes(r, m),
    {
        let w = self.width as int;
                        let j0 = choose|j: int| 0 <= j < m.len() && (#[trigger] m[j] || j == s) && coord(j, w, true) == acc.bounds.0;
        let j1 = choose|j: int| 0 <= j < m.len() && (#[trigger] m[j] || j == s) && coord(j, w, false) == acc.bounds.1;
        let j2 = choose|j: int| 0 <= j < m.len() && (#[trigger] m[j] || j == s) && coord(j, w, true) == acc.bounds.2;
        let j3 = choose|j: int| 0 <= j < m.len() && (#[trigger] m[j] || j == s) && coord(j, w, false) == acc.bounds.3;
        assert(m[j0] && m[j1] && m[j2] && m[j3]);
        assert forall|j: int| 0 <= j < m.len() && #[trigger] m[j] implies r.bounds.0 <= j % w <= r.bounds.2
            && r.bounds.1 <= j / w <= r.bounds.3 by {
            assert(m[j] || j == s);
        }
    }

    /// One step of the flood fill: pops a cell and, when it is new, marks
    /// it and pushes its unvisited neighbours below zero.
    #[verifier::rlimit(100)]
    fn fill_step(
        &self,
        visited: &mut Vec<bool>,
        stack: &mut Vec<usize>,
        acc: &mut FillState,
        Ghost(before): Ghost<Seq<bool>>,
        Ghost(s): Ghost<int>,
    )
        requires
            self.fill_inv(before, s, old(visited)@, old(stack)@, *old(acc)),
            old(stack)@.len() > 0,
        ensures
            self.fill_inv(before, s, final(visited)@, final(stack)@, *final(acc)),
            9 * (self.data@.len() - count_true(final(visited)@)) + final(stack)@.len() < 9 * (
            self.data@.len() - count_true(old(visited)@)) + old(stack)@.len(),
    {
        let ghost w = self.width as int;
        let ghost h = self.height as int;
        let ghost n = self.data@.len();
        let ghost old_stack = stack@;
        let ghost old_v = visited@;
        let ghost old_m = newly_marked(before, visited@);
        let width = self.width;
        let nlen: usize = self.data.len();
        let c: usize = stack.pop().unwrap();
        proof {
            reveal(SDFData::stack_ok);
            assert(stack@ =~= old_stack.drop_last());
            assert(c == old_stack.last());
            assert(old_stack[old_stack.len() - 1] == c);
            assert forall|k: int| 0 <= k < stack@.len() implies (#[trigger] stack@[k] as int) < n && self.neg(
                stack@[k] as int,
            ) && self.reach_avoiding(before, s, stack@[k] as int) by {
                assert(stack@[k] == old_stack[k]);
            }
            assert forall|nb: int| #[trigger] on_stack(old_stack, nb) && nb != c implies on_stack(stack@, nb) by {
                let k = choose|k: int| 0 <= k < old_stack.len() && old_stack[k] as int == nb;
                assert(k < old_stack.len() - 1);
                assert(stack@[k] == old_stack[k]);
            }
        }
        if !visited[c] {
            proof {
                lemma_coords_of_index(w, h, c as int);
                lemma_mark(old_v, c as int, w);
                lemma_count_le(old_m.update(c as int, true));
                lemma_count_le(old_v.update(c as int, true));
                lemma_sum_le(old_m, w, h);
                lemma_mark(old_m, c as int, w);
                lemma_count_le(old_m);
                let cnt = acc.count as int;
                assert(acc.sum_x <= cnt * (w - 1) <= n * (w - 1) <= 0xffff_ffff_ffff_ffff * 0xffff_ffff)
                    by (nonlinear_arith)
                    requires acc.sum_x <= cnt * (w - 1), cnt <= n, n <= 0xffff_ffff_ffff_ffff, 1 <= w
                        <= 0xffff_ffff;
                assert(acc.sum_y <= cnt * (h - 1) <= n * (h - 1) <= 0xffff_ffff_ffff_ffff * 0xffff_ffff)
                    by (nonlinear_arith)
                    requires acc.sum_y <= cnt * (h - 1), cnt <= n, n <= 0xffff_ffff_ffff_ffff, 1 <= h
                        <= 0xffff_ffff;
            }
            let ghost old_acc = *acc;
            visited.set(c, true);
            let x: u32 = (c % (width as usize)) as u32;
            let y: u32 = (c / (width as usize)) as u32;
            acc.count = acc.count + 1;
            acc.sum_x = acc.sum_x + x as u128;
            acc.sum_y = acc.sum_y + y as u128;
            if x < acc.bounds.0 {
                acc.bounds.0 = x;
            }
            if y < acc.bounds.1 {
                acc.bounds.1 = y;
            }
            if x > acc.bounds.2 {
                acc.bounds.2 = x;
            }
            if y > acc.bounds.3 {
                acc.bounds.3 = y;
            }
            proof {
                assert(newly_marked(before, visited@) =~= old_m.update(c as int, true));
                assert(visited@ =~= old_v.update(c as int, true));
                self.lemma_acc_mark(old_acc, old_m, s, c as int, *acc);
            }
            let ghost mid_stack = stack@;
            self.push_neighbours(c, x, y, visited, stack, Ghost(before), Ghost(s));
            proof {
                self.lemma_frontier_mark(before, old_v, old_stack, stack@);
                assert forall|k: int| 0 <= k < stack@.len() implies (#[trigger] stack@[k] as int) < n && self.neg(
                    stack@[k] as int,
                ) && self.reach_avoiding(before, s, stack@[k] as int) by {}
                assert(self.stack_ok(before, s, stack@));
                assert forall|j: int| 0 <= j < n && before[j] implies #[trigger] visited@[j] by {
                    assert(old_v[j]);
                }
                assert forall|j: int| 0 <= j < n && #[trigger] visited@[j] && !before[j] implies self.reach_avoiding(before, s, j) by {
                    if j != c {
                        assert(old_v[j]);
                    }
                }
                if !old_v[s] && s != c {
                    assert(on_stack(old_stack, s));
                    assert(on_stack(mid_stack, s));
                }
            }
        } else {
            proof {
                self.lemma_frontier_skip(before, visited@, old_stack);
                if !visited@[s] {
                    assert(on_stack(stack@, s));
                }
            }
        }
    }

    /// When the stack runs empty, the fill has marked exactly the component
    /// of `s` among the cells below zero outside `before`, and the
    /// accumulators describe it.
    pub proof fn lemma_fill_done(&self, before: Seq<bool>, s: int, v: Seq<bool>, acc: FillState)
        requires
            self.fill_inv(before, s, v, Seq::empty(), acc),
        ensures
            v == Seq::new(self.data@.len(), |j: int| before[j] || self.reach_avoiding(before, s, j)),
            newly_marked(before, v) == self.region_within(before, s),
            count_true(self.region_within(before, s)) >= 1,
    {
        let w = self.width as int;
        let h = self.height as int;
        let n = self.data@.len();
        let stack = Seq::<usize>::empty();
        reveal(SDFData::frontier_ok);
        assert(self.closed_outside(before, v)) by {
            assert forall|a: int, b: int|
                0 <= a < v.len() && v[a] && !before[a] && #[trigger] adjacent(w, h, a, b) && self.neg(b) implies v[b] by {
                assert(!on_stack(stack, b));
            }
        }
        assert(!on_stack(stack, s));
        assert forall|j: int| 0 <= j < n implies #[trigger] v[j] == (before[j] || self.reach_avoiding(before, s, j)) by {
            if self.reach_avoiding(before, s, j) {
                let p = choose|p: Seq<int>| #[trigger] self.is_path_avoiding(before, p) && p[0] == s && p.last() == j;
                self.lemma_fill_path(before, v, p);
            }
        }
        assert(v =~= Seq::new(n, |j: int| before[j] || self.reach_avoiding(before, s, j)));
        let m = newly_marked(before, v);
        assert forall|j: int| 0 <= j < n implies #[trigger] m[j] == self.region_within(before, s)[j] by {
            if self.reach_avoiding(before, s, j) {
                self.lemma_avoiding_ends(before, s, j);
            }
        }
        assert(m =~= self.region_within(before, s));
        lemma_count_pos(m, s);
    }

    /// Marks the region of `(start_x, start_y)` in `visited`, walking it with
    /// an explicit stack, and describes it.
    fn flood_fill_region(&self, start_x: u32, start_y: u32, visited: &mut Vec<bool>) -> (r: Region)
        requires
            self.wf(),
            start_x < self.width,
            start_y < self.height,
            self.neg(index_of(self.width as int, start_x as int, start_y as int)),
            old(visited)@.len() == self.data@.len(),
            !old(visited)@[index_of(self.width as int, start_x as int, start_y as int)],
        ensures
            final(visited)@ == Seq::new(
                self.data@.len(),
                |j: int|
                    old(visited)@[j] || self.reach_avoiding(
                        old(visited)@,
                        index_of(self.width as int, start_x as int, start_y as int),
                        j,
                    ),
            ),
            self.describes(
                r,
                self.region_within(old(visited)@, index_of(self.width as int, start_x as int, start_y as int)),
            ),
    {
        let ghost w = self.width as int;
        let ghost h = self.height as int;
        let ghost n = w * h;
        let ghost s = index_of(w, start_x as int, start_y as int);
        let ghost before = old(visited)@;
        let width = self.width;
        let nlen: usize = self.data.len();
        proof {
            lemma_index_in_bounds(w, h, start_x as int, start_y as int);
            self.lemma_avoiding_refl(before, s);
        }
        let start: usize = (start_y as usize) * (width as usize) + (start_x as usize);
        let mut stack: Vec<usize> = Vec::new();
        stack.push(start);
        let mut acc = FillState { count: 0, sum_x: 0, sum_y: 0, bounds: (start_x, start_y, start_x, start_y) };
        proof {
            let m0 = newly_marked(before, visited@);
            assert(m0 =~= Seq::new(n as nat, |j: int| false));
            lemma_none_marked(m0, w);
            lemma_count_le(visited@);
            assert(s % w == start_x && s / w == start_y);
            assert(!m0[s]);
            assert(coord(s, w, true) == acc.bounds.0 && coord(s, w, false) == acc.bounds.1);
            assert(stack@[0] as int == s);
            assert(on_stack(stack@, s));
            assert(acc.count == count_true(m0));
            assert(acc.sum_x == sum_coord(m0, w, true));
            assert(acc.sum_y == sum_coord(m0, w, false));
            assert forall|j: int| 0 <= j < n && (#[trigger] m0[j] || j == s) implies acc.bounds.0 <= j % w
                <= acc.bounds.2 && acc.bounds.1 <= j / w <= acc.bounds.3 by {
                assert(!m0[j]);
            }
            assert(bounds_cover(acc.bounds, m0, s, w));
            assert(attains(m0, s, w, acc.bounds.0 as int, true));
            assert(attains(m0, s, w, acc.bounds.1 as int, false));
            assert(attains(m0, s, w, acc.bounds.2 as int, true));
            assert(attains(m0, s, w, acc.bounds.3 as int, false));
            reveal(SDFData::stack_ok);
            reveal(SDFData::frontier_ok);
            assert(self.acc_ok(acc, m0, s));
        }
        while stack.len() > 0
            invariant
                self.fill_inv(before, s, visited@, stack@, acc),
                w == self.width && h == self.height,
                s == index_of(w, start_x as int, start_y as int),
                before == old(visited)@,
            decreases 9 * (self.data@.len() - count_true(visited@)) + stack@.len(),
        {
            self.fill_step(visited, &mut stack, &mut acc, Ghost(before), Ghost(s));
        }
        proof {
            assert(stack@ =~= Seq::<usize>::empty());
            self.lemma_fill_done(before, s, visited@, acc);
            let m = self.region_within(before, s);
            lemma_sum_le(m, w, h);
            self.lemma_avoiding_refl(before, s);
            lemma_count_le(m);
        }
        let cx = mean_units(acc.sum_x, acc.count, width - 1);
        let cy = mean_units(acc.sum_y, acc.count, self.height - 1);
        let r = Region { pixel_count: acc.count, center_x: cx, center_y: cy, bounds: acc.bounds };
        proof {
            self.lemma_describes(acc, self.region_within(before, s), s, r);
        }
        r
    }
}

impl SDFData {
    /// After scanning the first `i` cells, the marks are the regions of
    /// those cells.
    pub open spec fn scanned(&self, v: Seq<bool>, i: int) -> bool {
        &&& v.len() == self.data@.len()
        &&& forall|j: int| 0 <= j < v.len() ==> (#[trigger] v[j] <==> exists|k: int| 0 <= k < i && self.reach(k, j))
    }

    /// A prefix of a path reaches each of its cells from its start.
    pub proof fn lemma_path_prefix(&self, p: Seq<int>, k: int)
        requires
            self.is_path(p),
            0 <= k < p.len(),
        ensures
            self.reach(p[0], p[k]),
    {
        let q = p.take(k + 1);
        assert forall|i: int| 0 <= i < q.len() implies self.neg(#[trigger] q[i]) by {
            assert(q[i] == p[i]);
        }
        assert forall|i: int| 0 <= i < q.len() - 1 implies adjacent(
            self.width as int,
            self.height as int,
            #[trigger] q[i],
            q[i + 1],
        ) by {
            assert(q[i] == p[i] && q[i + 1] == p[i + 1]);
        }
        assert(self.is_path(q));
        assert(q[0] == p[0] && q.last() == p[k]);
    }

    /// Outside marks made of whole regions, the component of an unmarked
    /// cell is its whole region.
    pub proof fn lemma_within_whole(&self, v: Seq<bool>, i: int)
        requires
            self.wf(),
            self.scanned(v, i),
            0 <= i < v.len(),
            !v[i],
            self.neg(i),
        ensures
            forall|j: int| #[trigger] self.reach_avoiding(v, i, j) == self.reach(i, j),
            self.region_within(v, i) == self.region_mask(i),
    {
        assert forall|j: int| #[trigger] self.reach_avoiding(v, i, j) == self.reach(i, j) by {
            if self.reach_avoiding(v, i, j) {
                let p = choose|p: Seq<int>| #[trigger] self.is_path_avoiding(v, p) && p[0] == i && p.last() == j;
                assert forall|k: int| 0 <= k < p.len() implies self.neg(#[trigger] p[k]) by {
                    assert(self.free(v, p[k]));
                }
                assert(self.is_path(p));
            }
            if self.reach(i, j) {
                let p = choose|p: Seq<int>| #[trigger] self.is_path(p) && p[0] == i && p.last() == j;
                assert forall|k: int| 0 <= k < p.len() implies self.free(v, #[trigger] p[k]) by {
                    assert(self.neg(p[k]));
                    self.lemma_path_prefix(p, k);
                    if v[p[k]] {
                        let k2 = choose|k2: int| 0 <= k2 < i && self.reach(k2, p[k]);
                        self.lemma_reach_sym(i, p[k]);
                        self.lemma_reach_trans(k2, p[k], i);
                        assert(v[i]);
                    }
                }
                assert(self.is_path_avoiding(v, p));
            }
        }
        assert(self.region_within(v, i) =~= self.region_mask(i));
    }

    /// Finds the 8-connected regions of cells below zero and keeps those of
    /// at least [`MIN_REGION_PIXELS`] pixels, in row-major order of their
    /// first cell.
    pub fn analyze_regions(&self) -> (r: Vec<Region>)
        requires
            self.wf(),
        ensures
            r@.len() == self.kept_leaders(self.data@.len() as int).len(),
            forall|t: int|
                0 <= t < r@.len() ==> self.describes(
                    #[trigger] r@[t],
                    self.region_mask(self.kept_leaders(self.data@.len() as int)[t]),
                ),
    {
        let ghost w = self.width as int;
        let ghost h = self.height as int;
        let n: usize = self.data.len();
        let width = self.width;
        let mut visited: Vec<bool> = vec![false; n];
        let mut regions: Vec<Region> = Vec::new();
        let mut i: usize = 0;
        proof {
            assert forall|j: int| 0 <= j < visited@.len() implies (#[trigger] visited@[j] <==> exists|k: int|
                0 <= k < 0 && self.reach(k, j)) by {}
        }
        while i < n
            invariant
                self.wf(),
                w == self.width && h == self.height,
                width == self.width,
                n == self.data@.len(),
                i <= n,
                self.scanned(visited@, i as int),
                regions@.len() == self.kept_leaders(i as int).len(),
                forall|t: int|
                    0 <= t < regions@.len() ==> self.describes(
                        #[trigger] regions@[t],
                        self.region_mask(self.kept_leaders(i as int)[t]),
                    ),
            decreases n - i,
        {
            let ghost old_v = visited@;
            let ghost old_regions = regions@;
            let ghost ii = i as int;
            proof {
                lemma_coords_of_index(w, h, ii);
            }
            let x = (i % (width as usize)) as u32;
            let y = (i / (width as usize)) as u32;
            if !visited[i] && self.data[i] < 0 {
                proof {
                    self.lemma_within_whole(old_v, ii);
                    assert forall|k: int| 0 <= k < ii implies !#[trigger] self.reach(k, ii) by {}
                    assert(self.is_leader(ii));
                }
                let region = self.flood_fill_region(x, y, &mut visited);
                if region.pixel_count >= MIN_REGION_PIXELS {
                    regions.push(region);
                }
                proof {
                    assert forall|j: int| 0 <= j < visited@.len() implies (#[trigger] visited@[j] <==> exists|k: int|
                        0 <= k < ii + 1 && self.reach(k, j)) by {
                        assert(self.reach_avoiding(old_v, ii, j) == self.reach(ii, j));
                        if exists|k: int| 0 <= k < ii + 1 && self.reach(k, j) {
                            let k = choose|k: int| 0 <= k < ii + 1 && self.reach(k, j);
                            if k < ii {
                                assert(old_v[j]);
                            }
                        }
                        if visited@[j] && !old_v[j] {
                            assert(self.reach(ii, j));
                        }
                    }
                    assert forall|t: int| 0 <= t < regions@.len() implies self.describes(
                        #[trigger] regions@[t],
                        self.region_mask(self.kept_leaders(ii + 1)[t]),
                    ) by {
                        if t < old_regions.len() {
                            assert(regions@[t] == old_regions[t]);
                        }
                    }
                }
            } else {
                proof {
                    assert(!self.is_leader(ii)) by {
                        if self.neg(ii) {
                            assert(old_v[ii]);
                            let k = choose|k: int| 0 <= k < ii && self.reach(k, ii);
                            assert(self.reach(k, ii));
                        }
                    }
                    assert forall|j: int| 0 <= j < visited@.len() implies (#[trigger] visited@[j] <==> exists|k: int|
                        0 <= k < ii + 1 && self.reach(k, j)) by {
                        if self.reach(ii, j) {
                            self.lemma_reach_ends(ii, j);
                            assert(old_v[ii]);
                            let k = choose|k: int| 0 <= k < ii && self.reach(k, ii);
                            self.lemma_reach_trans(k, ii, j);
                        }
                        if exists|k: int| 0 <= k < ii + 1 && self.reach(k, j) {
                            let k = choose|k: int| 0 <= k < ii + 1 && self.reach(k, j);
                            if k == ii {
                                self.lemma_reach_ends(ii, j);
                                assert(old_v[ii]);
                                let k2 = choose|k2: int| 0 <= k2 < ii && self.reach(k2, ii);
                                self.lemma_reach_trans(k2, ii, j);
                            }
                        }
                    }
                }
            }
            i += 1;
        }
        regions
    }
}

} // verus!
