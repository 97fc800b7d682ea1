use vstd::prelude::*;
use crate::encoder::matrix::{
    cell_reserved, data_rank, usable_spec, reserved_estimate, lemma_cell_div, lemma_ap_positions_inside,
};
use crate::encoder::pattern::{ap_count, ap_positions_spec, in_square};

verus! {

// ---------------------------------------------------------------------------
// Counting the reserved cells of a symbol
// ---------------------------------------------------------------------------

/// Number of cells `x < n` with `p(x)`.
pub open spec fn count_cells(p: spec_fn(int) -> bool, n: int) -> nat
    decreases n,
{
    if n <= 0 {
        0
    } else {
        count_cells(p, n - 1) + if p(n - 1) { 1nat } else { 0nat }
    }
}

/// Cells `x` of a `side`-wide raster in rows `r0 .. r0 + h` and columns `c0 .. c0 + w`.
pub open spec fn in_rect(side: int, r0: int, h: int, c0: int, w: int) -> spec_fn(int) -> bool {
    |x: int| r0 <= x / side < r0 + h && c0 <= x % side < c0 + w
}

/// Number of integers of `0 .. a` in `lo .. hi`, for `0 <= lo <= hi`.
spec fn overlap(a: int, lo: int, hi: int) -> int {
    if a <= lo { 0 } else if a <= hi { a - lo } else { hi - lo }
}

/// A cell counted by `r` is counted by `p` or by `q`: `r` counts at most
/// as many cells as both together.
proof fn lemma_count_union(r: spec_fn(int) -> bool, p: spec_fn(int) -> bool, q: spec_fn(int) -> bool, n: int)
    requires
        forall|x: int| 0 <= x < n && #[trigger] r(x) ==> p(x) || q(x),
    ensures
        count_cells(r, n) <= count_cells(p, n) + count_cells(q, n),
    decreases n,
{
    if n > 0 {
        lemma_count_union(r, p, q, n - 1);
    }
}

/// Reserved and data cells together are all the cells.
proof fn lemma_rank_count(side: int, aps: Seq<(usize, usize)>, n: int)
    requires
        n >= 0,
    ensures
        data_rank(side, aps, n) + count_cells(|x: int| cell_reserved(side, aps, x), n) == n,
    decreases n,
{
    if n > 0 {
        lemma_rank_count(side, aps, n - 1);
    }
}

/// Counting a rectangle row by row.
proof fn lemma_rect_count(side: int, r0: int, h: int, c0: int, w: int, rows: int, cols: int)
    requires
        side > 0,
        0 <= r0,
        0 <= h,
        0 <= c0,
        0 <= w,
        c0 + w <= side,
        rows >= 0,
        0 <= cols <= side,
    ensures
        count_cells(in_rect(side, r0, h, c0, w), rows * side + cols)
            == w * overlap(rows, r0, r0 + h) + if r0 <= rows < r0 + h { overlap(cols, c0, c0 + w) } else { 0 },
    decreases rows, cols,
{
    let p = in_rect(side, r0, h, c0, w);
    if cols > 0 {
        lemma_rect_count(side, r0, h, c0, w, rows, cols - 1);
        lemma_cell_div(side, rows, cols - 1);
        assert(rows * side + cols - 1 == rows * side + (cols - 1));
    } else if rows > 0 {
        lemma_rect_count(side, r0, h, c0, w, rows - 1, side);
        assert((rows - 1) * side + side == rows * side) by (nonlinear_arith);
        let o = overlap(rows - 1, r0, r0 + h);
        assert(w * overlap(rows, r0, r0 + h) == w * o + if r0 <= rows - 1 < r0 + h { w } else { 0 }) by (nonlinear_arith)
            requires overlap(rows, r0, r0 + h) == o + if r0 <= rows - 1 < r0 + h { 1int } else { 0int };
    } else {
        assert(rows * side == 0) by (nonlinear_arith)
            requires rows == 0;
    }
}

/// A rectangle inside the raster holds `w · h` cells.
proof fn lemma_rect_total(side: int, r0: int, h: int, c0: int, w: int)
    requires
        side > 0,
        0 <= r0,
        0 <= h,
        r0 + h <= side,
        0 <= c0,
        0 <= w,
        c0 + w <= side,
    ensures
        count_cells(in_rect(side, r0, h, c0, w), side * side) == w * h,
{
    lemma_rect_count(side, r0, h, c0, w, side, 0);
}

/// Cells in one of the first `k` alignment patterns of `aps`.
spec fn in_alignments(side: int, aps: Seq<(usize, usize)>, k: int) -> spec_fn(int) -> bool {
    |x: int| exists|t: int| 0 <= t < k && #[trigger] in_square(x / side, x % side, aps[t].0 as int, aps[t].1 as int, 3)
}

/// The first `k` alignment patterns hold at most `9 k` cells.
proof fn lemma_alignments_count(side: int, aps: Seq<(usize, usize)>, k: int)
    requires
        side > 0,
        0 <= k <= aps.len(),
        forall|t: int| 0 <= t < aps.len() ==> (#[trigger] aps[t]).0 + 3 <= side && aps[t].1 + 3 <= side,
    ensures
        count_cells(in_alignments(side, aps, k), side * side) <= 9 * k,
    decreases k,
{
    if k > 0 {
        lemma_alignments_count(side, aps, k - 1);
        let a = aps[k - 1];
        let sq = in_rect(side, a.0 as int, 3, a.1 as int, 3);
        lemma_rect_total(side, a.0 as int, 3, a.1 as int, 3);
        let cur = in_alignments(side, aps, k);
        let prev = in_alignments(side, aps, k - 1);
        assert forall|x: int| 0 <= x < side * side && #[trigger] cur(x) implies prev(x) || sq(x) by {
            let t = choose|t: int| 0 <= t < k && #[trigger] in_square(x / side, x % side, aps[t].0 as int, aps[t].1 as int, 3);
            if t < k - 1 {
                assert(in_square(x / side, x % side, aps[t].0 as int, aps[t].1 as int, 3));
            }
        }
        lemma_count_union(cur, prev, sq, side * side);
    } else {
        assert(count_cells(in_alignments(side, aps, 0), side * side) == 0) by {
            lemma_count_none(in_alignments(side, aps, 0), side * side);
        }
    }
}

proof fn lemma_count_none(p: spec_fn(int) -> bool, n: int)
    requires
        forall|x: int| 0 <= x < n ==> !#[trigger] p(x),
    ensures
        count_cells(p, n) == 0,
    decreases n,
{
    if n > 0 {
        lemma_count_none(p, n - 1);
    }
}

/// Width of the part of the metadata strip outside the finder patterns.
spec fn strip_width(side: int) -> int {
    if side >= 35 { 20 } else { side - 15 }
}

/// A symbol has at least as many data cells as the sizing estimate leaves
/// for data: its reserved cells are no more than the estimate counts.
pub proof fn lemma_data_cells_cover_estimate(side: int)
    requires
        side >= 21,
        side + 20 <= usize::MAX,
    ensures
        data_rank(side, ap_positions_spec(side), side * side) >= usable_spec(side),
{
    let aps = ap_positions_spec(side);
    let res = |x: int| cell_reserved(side, aps, x);
    let n = side * side;
    let f0 = in_rect(side, 0, 7, 0, 7);
    let f1 = in_rect(side, 0, 7, side - 7, 7);
    let f2 = in_rect(side, side - 7, 7, 0, 7);
    let f3 = in_rect(side, side - 7, 7, side - 7, 7);
    let strip = in_rect(side, 0, 2, 8, strip_width(side));
    let al = in_alignments(side, aps, aps.len() as int);
    let fa = |x: int| f0(x) || f1(x);
    let fb = |x: int| f2(x) || f3(x);
    let fin = |x: int| fa(x) || fb(x);
    let rest = |x: int| strip(x) || al(x);

    assert forall|t: int| 0 <= t < aps.len() implies (#[trigger] aps[t]).0 + 3 <= side && aps[t].1 + 3 <= side by {
        lemma_ap_positions_inside(side, t);
    }
    assert forall|x: int| 0 <= x < n && #[trigger] res(x) implies fin(x) || rest(x) by {
        let r = x / side;
        let c = x % side;
        assert(0 <= r && 0 <= c < side) by (nonlinear_arith)
            requires 0 <= x, side > 0, r == x / side, c == x % side;
        if r <= 1 && 8 <= c < 28 && !strip(x) {
            assert(c >= side - 7);
            assert(f1(x));
        }
    }
    lemma_count_union(res, fin, rest, n);
    lemma_count_union(fin, fa, fb, n);
    lemma_count_union(fa, f0, f1, n);
    lemma_count_union(fb, f2, f3, n);
    lemma_count_union(rest, strip, al, n);
    lemma_rect_total(side, 0, 7, 0, 7);
    lemma_rect_total(side, 0, 7, side - 7, 7);
    lemma_rect_total(side, side - 7, 7, 0, 7);
    lemma_rect_total(side, side - 7, 7, side - 7, 7);
    lemma_rect_total(side, 0, 2, 8, strip_width(side));
    lemma_alignments_count(side, aps, aps.len() as int);
    lemma_rank_count(side, aps, n);
    assert(aps.len() == ap_count(side) * ap_count(side));
}

} // verus!
