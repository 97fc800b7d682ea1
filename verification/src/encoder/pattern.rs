use vstd::prelude::*;
use crate::bits::{u64_bit, value_of_bits, lemma_u64_value, lemma_value_of_bits_congruent, lemma_zero_shifts, lemma_widen_bits};
use crate::color::Rgb;

verus! {

/// Side of a finder pattern, in modules.
pub const FP_SIZE: usize = 7;
/// Side of an alignment pattern, in modules.
pub const AP_SIZE: usize = 3;

// ---------------------------------------------------------------------------
// Writing cells of a flat matrix
// ---------------------------------------------------------------------------

/// `s` after writing each `(index, value)` of `cells` in order (later writes
/// win; indices outside `s` are ignored).
pub open spec fn write_cells(s: Seq<u8>, cells: Seq<(int, u8)>) -> Seq<u8>
    decreases cells.len(),
{
    if cells.len() == 0 {
        s
    } else {
        let prev = write_cells(s, cells.drop_last());
        let k = cells.last().0;
        if 0 <= k < prev.len() {
            prev.update(k, cells.last().1)
        } else {
            prev
        }
    }
}

/// Writing cells keeps the length.
pub proof fn lemma_write_cells_len(s: Seq<u8>, cells: Seq<(int, u8)>)
    ensures
        write_cells(s, cells).len() == s.len(),
    decreases cells.len(),
{
    if cells.len() > 0 {
        lemma_write_cells_len(s, cells.drop_last());
    }
}

/// A position that no cell names keeps its value.
pub proof fn lemma_write_cells_untouched(s: Seq<u8>, cells: Seq<(int, u8)>, k: int)
    requires
        0 <= k < s.len(),
        forall|t: int| 0 <= t < cells.len() ==> cells[t].0 != k,
    ensures
        write_cells(s, cells)[k] == s[k],
    decreases cells.len(),
{
    if cells.len() > 0 {
        lemma_write_cells_untouched(s, cells.drop_last(), k);
        lemma_write_cells_len(s, cells.drop_last());
    }
}

/// A position holds the value of the last cell that names it.
pub proof fn lemma_write_cells_last(s: Seq<u8>, cells: Seq<(int, u8)>, t: int)
    requires
        0 <= t < cells.len(),
        0 <= cells[t].0 < s.len(),
        forall|u: int| t < u < cells.len() ==> cells[u].0 != cells[t].0,
    ensures
        write_cells(s, cells)[cells[t].0] == cells[t].1,
    decreases cells.len(),
{
    lemma_write_cells_len(s, cells.drop_last());
    if t < cells.len() - 1 {
        lemma_write_cells_last(s, cells.drop_last(), t);
    }
}

/// Writing one more cell extends the written prefix.
proof fn lemma_write_cells_step(s: Seq<u8>, cells: Seq<(int, u8)>, n: int)
    requires
        0 <= n < cells.len(),
    ensures
        cells.take(n + 1).drop_last() == cells.take(n),
        cells.take(n + 1).last() == cells[n],
{
    assert(cells.take(n + 1).drop_last() =~= cells.take(n));
}

// ---------------------------------------------------------------------------
// Finder patterns
// ---------------------------------------------------------------------------

/// Color of layer `ring` (0 = outermost ring, 3 = center) of finder pattern
/// `fp`. Each pattern has its own permutation of colors 0-3.
pub open spec fn fp_ring_color(fp: int, ring: int) -> u8 {
    if fp == 0 {
        if ring == 0 { 0 } else if ring == 1 { 1 } else if ring == 2 { 2 } else { 3 }
    } else if fp == 1 {
        if ring == 0 { 0 } else if ring == 1 { 3 } else if ring == 2 { 2 } else { 1 }
    } else if fp == 2 {
        if ring == 0 { 0 } else if ring == 1 { 2 } else if ring == 2 { 1 } else { 3 }
    } else {
        if ring == 0 { 0 } else if ring == 1 { 1 } else if ring == 2 { 3 } else { 2 }
    }
}

/// Distance of `x` from 3.
pub open spec fn dist3(x: int) -> int {
    if x >= 3 { x - 3 } else { 3 - x }
}

/// The ring of module (row, col) of a finder pattern: its Chebyshev distance
/// from the center (3, 3), at most 3.
pub open spec fn fp_ring(row: int, col: int) -> int {
    let d = if dist3(row) >= dist3(col) { dist3(row) } else { dist3(col) };
    if d <= 3 { d } else { 3 }
}

/// The layer of module (row, col) of a finder pattern: 0 for the outermost
/// ring, 3 for the center.
pub open spec fn fp_layer(row: int, col: int) -> int {
    3 - fp_ring(row, col)
}

/// Color index at module (row, col) of finder pattern `fp`.
pub open spec fn fp_color_spec(fp: int, row: int, col: int) -> u8 {
    fp_ring_color(fp, fp_layer(row, col))
}

fn ring_color(fp_idx: usize, ring: usize) -> (r: u8)
    requires
        fp_idx < 4,
    ensures
        r == fp_ring_color(fp_idx as int, ring as int),
{
    if fp_idx == 0 {
        if ring == 0 { 0 } else if ring == 1 { 1 } else if ring == 2 { 2 } else { 3 }
    } else if fp_idx == 1 {
        if ring == 0 { 0 } else if ring == 1 { 3 } else if ring == 2 { 2 } else { 1 }
    } else if fp_idx == 2 {
        if ring == 0 { 0 } else if ring == 1 { 2 } else if ring == 2 { 1 } else { 3 }
    } else {
        if ring == 0 { 0 } else if ring == 1 { 1 } else if ring == 2 { 3 } else { 2 }
    }
}

/// Returns the color index at module (row, col) within a 7×7 finder pattern.
pub fn fp_color(fp_idx: usize, row: usize, col: usize) -> (r: u8)
    requires
        fp_idx < 4,
    ensures
        r == fp_color_spec(fp_idx as int, row as int, col as int),
{
    let dr = if row >= 3 { row - 3 } else { 3 - row };
    let dc = if col >= 3 { col - 3 } else { 3 - col };
    let d = if dr >= dc { dr } else { dc };
    let ring = if d <= 3 { d } else { 3 };
    ring_color(fp_idx, 3 - ring)
}

/// Flat index of module (r, c) of a matrix `w` modules wide.
pub open spec fn cell_index(w: int, r: int, c: int) -> int {
    r * w + c
}

/// The writes that place finder pattern `fp` with its top-left module at
/// (or_r, or_c), in row-major order.
pub open spec fn fp_cells(w: int, or_r: int, or_c: int, fp: int) -> Seq<(int, u8)> {
    Seq::new(49, |t: int| (cell_index(w, or_r + t / 7, or_c + t % 7), fp_color_spec(fp, t / 7, t % 7)))
}

proof fn lemma_row_index_bound(w: int, a: int, b: int, c: int, last: int)
    requires
        0 <= w,
        0 <= a <= b,
        0 <= c,
        b * w + c <= last,
    ensures
        a * w + c <= last,
{
    assert(a * w <= b * w) by (nonlinear_arith)
        requires 0 <= w, 0 <= a <= b;
}

/// Write finder pattern `fp_idx` into a flat row-major module matrix of width
/// `w`, with its top-left module at (or_r, or_c).
pub fn place_fp(mat: &mut [u8], w: usize, or_r: usize, or_c: usize, fp_idx: usize)
    requires
        fp_idx < 4,
        or_r + 6 <= usize::MAX,
        cell_index(w as int, or_r + 6, or_c + 6) < old(mat)@.len(),
    ensures
        final(mat)@ == write_cells(old(mat)@, fp_cells(w as int, or_r as int, or_c as int, fp_idx as int)),
        final(mat)@.len() == old(mat)@.len(),
{
    let ghost cells = fp_cells(w as int, or_r as int, or_c as int, fp_idx as int);
    let total = mat.len();
    let mut r: usize = 0;
    while r < FP_SIZE
        invariant
            total == old(mat)@.len(),
            mat@.len() == old(mat)@.len(),
            fp_idx < 4,
            or_r + 6 <= usize::MAX,
            cell_index(w as int, or_r + 6, or_c + 6) < old(mat)@.len(),
            cells == fp_cells(w as int, or_r as int, or_c as int, fp_idx as int),
            r <= 7,
            mat@ == write_cells(old(mat)@, cells.take(7 * r)),
        decreases 7 - r,
    {
        let mut c: usize = 0;
        while c < FP_SIZE
            invariant
                total == old(mat)@.len(),
                mat@.len() == old(mat)@.len(),
                fp_idx < 4,
                or_r + 6 <= usize::MAX,
                cell_index(w as int, or_r + 6, or_c + 6) < old(mat)@.len(),
                cells == fp_cells(w as int, or_r as int, or_c as int, fp_idx as int),
                r < 7,
                c <= 7,
                mat@ == write_cells(old(mat)@, cells.take(7 * r + c)),
            decreases 7 - c,
        {
            proof {
                lemma_row_index_bound(w as int, (or_r + r) as int, or_r + 6, or_c + 6, old(mat)@.len() - 1);
                assert((or_r + r) * w + (or_c + c) <= (or_r + r) * w + (or_c + 6));
                lemma_write_cells_step(old(mat)@, cells, 7 * r + c);
                lemma_write_cells_len(old(mat)@, cells.take(7 * r + c));
                let t = 7 * r + c;
                assert(t / 7 == r && t % 7 == c);
            }
            let row = or_r + r;
            let base = row * w;
            let idx = base + (or_c + c);
            mat[idx] = fp_color(fp_idx, r, c);
            c += 1;
        }
        r += 1;
    }
    proof {
        assert(cells.take(49) =~= cells);
    }
}

// ---------------------------------------------------------------------------
// Alignment patterns
// ---------------------------------------------------------------------------

/// Color of module (r, c) of an alignment pattern: 1 at the center, 0 around it.
pub open spec fn ap_color_spec(r: int, c: int) -> u8 {
    if r == 1 && c == 1 { 1 } else { 0 }
}

/// The writes that place an alignment pattern with its top-left module at
/// (or_r, or_c), in row-major order.
pub open spec fn ap_cells(w: int, or_r: int, or_c: int) -> Seq<(int, u8)> {
    Seq::new(9, |t: int| (cell_index(w, or_r + t / 3, or_c + t % 3), ap_color_spec(t / 3, t % 3)))
}

/// Write a 3×3 alignment pattern (color 0 border, color 1 center) at (or_r, or_c).
pub fn place_ap(mat: &mut [u8], w: usize, or_r: usize, or_c: usize)
    requires
        or_r + 2 <= usize::MAX,
        cell_index(w as int, or_r + 2, or_c + 2) < old(mat)@.len(),
    ensures
        final(mat)@ == write_cells(old(mat)@, ap_cells(w as int, or_r as int, or_c as int)),
        final(mat)@.len() == old(mat)@.len(),
{
    let ghost cells = ap_cells(w as int, or_r as int, or_c as int);
    let total = mat.len();
    let mut r: usize = 0;
    while r < AP_SIZE
        invariant
            total == old(mat)@.len(),
            mat@.len() == old(mat)@.len(),
            or_r + 2 <= usize::MAX,
            cell_index(w as int, or_r + 2, or_c + 2) < old(mat)@.len(),
            cells == ap_cells(w as int, or_r as int, or_c as int),
            r <= 3,
            mat@ == write_cells(old(mat)@, cells.take(3 * r)),
        decreases 3 - r,
    {
        let mut c: usize = 0;
        while c < AP_SIZE
            invariant
                total == old(mat)@.len(),
                mat@.len() == old(mat)@.len(),
                or_r + 2 <= usize::MAX,
            cell_index(w as int, or_r + 2, or_c + 2) < old(mat)@.len(),
                cells == ap_cells(w as int, or_r as int, or_c as int),
                r < 3,
                c <= 3,
                mat@ == write_cells(old(mat)@, cells.take(3 * r + c)),
            decreases 3 - c,
        {
            proof {
                lemma_row_index_bound(w as int, (or_r + r) as int, or_r + 2, or_c + 2, old(mat)@.len() - 1);
                assert((or_r + r) * w + (or_c + c) <= (or_r + r) * w + (or_c + 2));
                lemma_write_cells_step(old(mat)@, cells, 3 * r + c);
                lemma_write_cells_len(old(mat)@, cells.take(3 * r + c));
                let t = 3 * r + c;
                assert(t / 3 == r && t % 3 == c);
            }
            let color: u8 = if r == 1 && c == 1 { 1 } else { 0 };
            let row = or_r + r;
            let base = row * w;
            let idx = base + (or_c + c);
            mat[idx] = color;
            c += 1;
        }
        r += 1;
    }
    proof {
        assert(cells.take(9) =~= cells);
    }
}

/// Number of alignment-pattern rows (and columns) of a symbol: one every 20
/// modules from module 9 on, clear of the finder patterns; none up to side 21.
pub open spec fn ap_count(side: int) -> int {
    if side <= 21 { 0 } else { (side - 21) / 20 + 1 }
}

/// Top-left modules of the alignment patterns, row by row.
pub open spec fn ap_positions_spec(side: int) -> Seq<(usize, usize)> {
    let n = ap_count(side);
    Seq::new((n * n) as nat, |k: int| ((9 + 20 * (k / n)) as usize, (9 + 20 * (k % n)) as usize))
}

/// Alignment pattern positions for a symbol of size side × side: spaced every
/// 20 modules, clear of the finder patterns.
pub fn alignment_positions(side: usize) -> (r: Vec<(usize, usize)>)
    requires
        side + 20 <= usize::MAX,
    ensures
        r@ == ap_positions_spec(side as int),
{
    let ghost n = ap_count(side as int);
    if side <= 21 {
        let r: Vec<(usize, usize)> = Vec::new();
        proof {
            assert(r@ =~= ap_positions_spec(side as int));
        }
        return r;
    }
    let mut positions: Vec<(usize, usize)> = Vec::new();
    let mut r: usize = FP_SIZE + 2;
    let ghost mut i: int = 0;
    while r + AP_SIZE <= side - FP_SIZE - 2
        invariant
            side > 21,
            side + 20 <= usize::MAX,
            n == ap_count(side as int),
            n >= 1,
            0 <= i <= n,
            r == 9 + 20 * i,
            positions@.len() == i * n,
            forall|k: int| #![trigger positions@[k]] 0 <= k < i * n ==> positions@[k] == ap_positions_spec(side as int)[k],
        decreases side + 20 - r,
    {
        let mut c: usize = FP_SIZE + 2;
        let ghost mut j: int = 0;
        proof {
            assert(i < n) by {
                assert(20 * i <= side - 21);
            }
        }
        while c + AP_SIZE <= side - FP_SIZE - 2
            invariant
                side > 21,
                side + 20 <= usize::MAX,
                n == ap_count(side as int),
                0 <= i < n,
                0 <= j <= n,
                r == 9 + 20 * i,
                c == 9 + 20 * j,
                positions@.len() == i * n + j,
                forall|k: int| #![trigger positions@[k]] 0 <= k < i * n + j ==> positions@[k] == ap_positions_spec(side as int)[k],
            decreases side + 20 - c,
        {
            proof {
                assert(j < n) by {
                    assert(20 * j <= side - 21);
                }
                let k = i * n + j;
                assert(k < n * n) by (nonlinear_arith)
                    requires k == i * n + j, 0 <= i < n, 0 <= j < n;
                assert(k / n == i && k % n == j) by (nonlinear_arith)
                    requires k == i * n + j, 0 <= j < n, 0 <= i;
            }
            positions.push((r, c));
            c += 20;
            proof {
                j = j + 1;
            }
        }
        proof {
            assert(j == n) by {
                assert(20 * j > side - 21);
                assert(20 * (j - 1) <= side - 21);
            }
            assert(i * n + n == (i + 1) * n) by (nonlinear_arith);
        }
        r += 20;
        proof {
            i = i + 1;
        }
    }
    proof {
        assert(i == n) by {
            assert(20 * i > side - 21);
            assert(20 * (i - 1) <= side - 21);
        }
        assert(positions@ =~= ap_positions_spec(side as int));
    }
    positions
}

// ---------------------------------------------------------------------------
// Reserved modules
// ---------------------------------------------------------------------------

/// Module (r, c) lies in the `size × size` square with top-left (or_r, or_c).
pub open spec fn in_square(r: int, c: int, or_r: int, or_c: int, size: int) -> bool {
    or_r <= r < or_r + size && or_c <= c < or_c + size
}

/// Module (r, c) lies in the metadata strip: rows 0-1, columns 8 to 27.
pub open spec fn in_metadata(r: int, c: int) -> bool {
    r <= 1 && 8 <= c < 28
}

/// Module (r, c) lies in one of the four finder patterns.
pub open spec fn in_finder(r: int, c: int, side: int) -> bool {
    in_square(r, c, 0, 0, 7) || in_square(r, c, 0, side - 7, 7) || in_square(r, c, side - 7, 0, 7)
        || in_square(r, c, side - 7, side - 7, 7)
}

/// Module (r, c) lies in one of the alignment patterns at `aps`.
pub open spec fn in_alignment(r: int, c: int, aps: Seq<(usize, usize)>) -> bool {
    exists|t: int| 0 <= t < aps.len() && #[trigger] in_square(r, c, aps[t].0 as int, aps[t].1 as int, 3)
}

/// Module (r, c) belongs to a finder pattern, an alignment pattern or the
/// metadata strip, and carries no data.
pub open spec fn reserved_spec(r: int, c: int, side: int, aps: Seq<(usize, usize)>) -> bool {
    in_finder(r, c, side) || in_metadata(r, c) || in_alignment(r, c, aps)
}

/// Returns true if module (r, c) belongs to any finder/alignment pattern or metadata.
pub fn is_reserved(r: usize, c: usize, side: usize, ap_pos: &[(usize, usize)]) -> (res: bool)
    requires
        side >= FP_SIZE || in_square(r as int, c as int, 0, 0, 7),
    ensures
        res == reserved_spec(r as int, c as int, side as int, ap_pos@),
{
    if r < FP_SIZE && c < FP_SIZE {
        return true;
    }
    let far = side - FP_SIZE;
    if (r < FP_SIZE && c >= far && c - far < FP_SIZE) || (r >= far && r - far < FP_SIZE && c < FP_SIZE)
        || (r >= far && r - far < FP_SIZE && c >= far && c - far < FP_SIZE) {
        return true;
    }
    if r <= 1 && c >= FP_SIZE + 1 && c < FP_SIZE + 21 {
        return true;
    }
    let mut t: usize = 0;
    while t < ap_pos.len()
        invariant
            t <= ap_pos@.len(),
            forall|u: int| 0 <= u < t ==> !in_square(r as int, c as int, ap_pos@[u].0 as int, ap_pos@[u].1 as int, 3),
        decreases ap_pos.len() - t,
    {
        let (ar, ac) = ap_pos[t];
        if r >= ar && r - ar < AP_SIZE && c >= ac && c - ac < AP_SIZE {
            assert(in_square(r as int, c as int, ap_pos@[t as int].0 as int, ap_pos@[t as int].1 as int, 3));
            return true;
        }
        t += 1;
    }
    false
}

// ---------------------------------------------------------------------------
// Metadata
// ---------------------------------------------------------------------------

/// Bit `j` of a 16-bit word.
pub open spec fn u16_bit(x: u16, j: int) -> bool {
    0 <= j < 16 && (x >> (j as u16)) & 1 == 1
}

/// Bits per module recorded for a palette of `color_count` colors: the
/// number of trailing zero bits of the count.
pub open spec fn cpp_bpm(color_count: usize) -> u8 {
    (color_count as u32).trailing_zeros() as u8
}

/// `s` with the bits per module of a `color_count`-color palette written,
/// least significant first, into cells 8 to 11.
pub open spec fn cpp_written(s: Seq<u8>, color_count: usize) -> Seq<u8> {
    Seq::new(s.len(), |k: int| if 8 <= k < 12 { (cpp_bpm(color_count) >> ((k - 8) as u8)) & 1 } else { s[k] })
}

/// `s` with the 16 low bits of `n` written, least significant first, into
/// the length field: cells `w + 8` to `w + 23` (row 1, columns 8 to 23, of a
/// matrix `w` wide).
pub open spec fn data_len_written(s: Seq<u8>, w: int, n: usize) -> Seq<u8> {
    Seq::new(s.len(), |k: int| if w + 8 <= k < w + 24 {
        if u16_bit(n as u16, k - w - 8) { 1u8 } else { 0u8 }
    } else {
        s[k]
    })
}

/// Place the color palette pattern (CPP) in the metadata strip next to FP0:
/// the bits per module, least significant first, in modules 8 to 11 of row 0.
pub fn place_cpp(mat: &mut [u8], w: usize, color_count: usize)
    requires
        12 <= old(mat)@.len(),
    ensures
        final(mat)@ == cpp_written(old(mat)@, color_count),
{
    let bpm = (color_count as u32).trailing_zeros() as u8;
    let total = mat.len();
    let mut i: usize = 0;
    while i < 4
        invariant
            total == old(mat)@.len(),
            12 <= old(mat)@.len(),
            bpm == cpp_bpm(color_count),
            i <= 4,
            mat@.len() == old(mat)@.len(),
            forall|k: int| #![trigger mat@[k]] 0 <= k < mat@.len() ==>
                mat@[k] == if 8 <= k < 8 + i { (bpm >> ((k - 8) as u8)) & 1 } else { old(mat)@[k] },
        decreases 4 - i,
    {
        let bit = (bpm >> (i as u8)) & 1;
        mat[FP_SIZE + 1 + i] = if bit == 1 { 1 } else { 0 };
        proof {
            assert(bit == 0 || bit == 1) by (bit_vector)
                requires bit == (bpm >> (i as u8)) & 1;
        }
        i += 1;
    }
    assert(mat@ =~= cpp_written(old(mat)@, color_count));
}

/// Place the data length (payload byte count, truncated to 16 bits) in
/// modules 8 to 23 of row 1 of the metadata strip, least significant first.
pub fn place_data_len(mat: &mut [u8], w: usize, data_byte_count: usize)
    requires
        w + 24 <= old(mat)@.len(),
    ensures
        final(mat)@ == data_len_written(old(mat)@, w as int, data_byte_count),
{
    let len = data_byte_count as u16;
    let total = mat.len();
    let mut i: usize = 0;
    while i < 16
        invariant
            total == old(mat)@.len(),
            w + 24 <= old(mat)@.len(),
            len == data_byte_count as u16,
            i <= 16,
            mat@.len() == old(mat)@.len(),
            forall|k: int| #![trigger mat@[k]] 0 <= k < mat@.len() ==>
                mat@[k] == if w + 8 <= k < w + 8 + i {
                    if u16_bit(len, k - w - 8) { 1u8 } else { 0u8 }
                } else {
                    old(mat)@[k]
                },
        decreases 16 - i,
    {
        let bit = (len >> (i as u16)) & 1;
        mat[w + FP_SIZE + 1 + i] = if bit == 1 { 1 } else { 0 };
        i += 1;
    }
    assert(mat@ =~= data_len_written(old(mat)@, w as int, data_byte_count));
}

/// Read the data length (payload bytes) from the length field in row 1 of
/// the metadata strip: the low bits of modules 8 to 23, least significant first.
pub fn read_data_len(mat: &[u8], w: usize) -> (r: usize)
    requires
        w + 24 <= mat@.len(),
    ensures
        r == value_of_bits(low_bit_fn(mat@), w + 8, 16),
        r <= 0xffff,
{
    let total = mat.len();
    let mut len: u16 = 0;
    let mut i: usize = 0;
    proof {
        assert forall|j: int| 0 <= j < 16 implies !u16_bit(0u16, j) by {
            let jj = j as u16;
            lemma_zero_shifts();
            assert(!((0u16 >> jj) & 1 == 1));
        }
    }
    while i < 16
        invariant
            total == mat@.len(),
            w + 24 <= mat@.len(),
            i <= 16,
            forall|j: int| #![trigger u16_bit(len, j)] 0 <= j < 16 ==> (u16_bit(len, j) <==> (j < i && mat@[w + 8 + j] & 1 == 1)),
        decreases 16 - i,
    {
        let m = mat[w + FP_SIZE + 1 + i];
        let ghost old_len = len;
        len = len | (((m & 1) as u16) << (i as u16));
        proof {
            assert forall|j: int| 0 <= j < 16 implies (u16_bit(len, j) <==> (j < i + 1 && mat@[w + 8 + j] & 1 == 1)) by {
                let jj = j as u16;
                let ii = i as u16;
                assert(u16_bit(old_len, j) <==> (j < i && mat@[w + 8 + j] & 1 == 1));
                assert(((old_len | (((m & 1) as u16) << ii)) >> jj) & 1 == 1 <==> ((old_len >> jj) & 1 == 1
                    || (jj == ii && m & 1 == 1))) by (bit_vector)
                    requires ii < 16, jj < 16;
            }
        }
        i += 1;
    }
    proof {
        assert forall|j: int| #![trigger u64_bit(len as u64, j)] 0 <= j < 64 implies u64_bit(len as u64, j) == (j < 16 && low_bit_fn(mat@)(w + 8 + j)) by {
            lemma_u16_widen_bit(len, j as u64);
            if j < 16 {
                assert(u16_bit(len, j) <==> (j < 16 && mat@[w + 8 + j] & 1 == 1));
            }
        }
        lemma_u64_value(len as u64, low_bit_fn(mat@), w + 8, 16);
    }
    len as usize
}

/// Whether the low bit of cell `i` is set.
pub open spec fn low_bit_fn(mat: Seq<u8>) -> spec_fn(int) -> bool {
    |i: int| mat[i] & 1 == 1
}

proof fn lemma_u16_widen_bit(x: u16, j: u64)
    requires
        j < 64,
    ensures
        (((x as u64) >> j) & 1 == 1) <==> (j < 16 && (x >> (j as u16)) & 1 == 1),
{
    lemma_widen_bits();
}

/// Reading the data length back from a matrix where it was placed gives the
/// length modulo 2^16.
pub proof fn lemma_data_len_roundtrip(s: Seq<u8>, w: int, n: usize)
    requires
        0 <= w,
        w + 24 <= s.len(),
    ensures
        value_of_bits(low_bit_fn(data_len_written(s, w, n)), w + 8, 16) == (n as u16) as nat,
        (n as u16) as nat == n % 0x10000,
{
    let m = data_len_written(s, w, n);
    let x = n as u16;
    assert forall|j: int| #![trigger u64_bit(x as u64, j)] 0 <= j < 64 implies u64_bit(x as u64, j) == (j < 16 && low_bit_fn(m)(w + 8 + j)) by {
        lemma_u16_widen_bit(x, j as u64);
        if j < 16 {
            assert(m[w + 8 + j] == if u16_bit(x, j) { 1u8 } else { 0u8 });
            assert((1u8 & 1 == 1) && !(0u8 & 1 == 1)) by (bit_vector);
        }
    }
    lemma_u64_value(x as u64, low_bit_fn(m), w + 8, 16);
    assert((n as u16) as nat == n % 0x10000) by (bit_vector);
}

/// Decode the bits per module from the color palette pattern strip (the low
/// bits of cells 8 to 11, least significant first), clamped to 2..=8.
pub fn read_cpp(mat: &[u8], _w: usize) -> (r: u8)
    requires
        12 <= mat@.len(),
    ensures
        r == clamp_bpm(value_of_bits(low_bit_fn(mat@), 8, 4)),
{
    let mut bpm: u8 = 0;
    let mut i: usize = 0;
    proof {
        assert forall|j: int| #![trigger (0u8 >> (j as u8))] 0 <= j < 8 implies !((0u8 >> (j as u8)) & 1 == 1) by {
            let jj = j as u8;
            lemma_zero_shifts();
            assert(!((0u8 >> jj) & 1 == 1));
        }
    }
    while i < 4
        invariant
            12 <= mat@.len(),
            i <= 4,
            forall|j: int| #![trigger (bpm >> (j as u8))] 0 <= j < 8 ==>
                ((bpm >> (j as u8)) & 1 == 1 <==> (j < i && mat@[8 + j] & 1 == 1)),
        decreases 4 - i,
    {
        let m = mat[FP_SIZE + 1 + i];
        let ghost old_bpm = bpm;
        bpm = bpm | ((m & 1) << (i as u8));
        proof {
            assert forall|j: int| #![trigger (bpm >> (j as u8))] 0 <= j < 8 implies ((bpm >> (j as u8)) & 1 == 1 <==> (j < i + 1 && mat@[8 + j] & 1 == 1)) by {
                let jj = j as u8;
                let ii = i as u8;
                assert((old_bpm >> jj) & 1 == 1 <==> (j < i && mat@[8 + j] & 1 == 1));
                assert(((old_bpm | ((m & 1) << ii)) >> jj) & 1 == 1 <==> ((old_bpm >> jj) & 1 == 1
                    || (jj == ii && m & 1 == 1))) by (bit_vector)
                    requires ii < 4, jj < 8;
            }
        }
        i += 1;
    }
    proof {
        assert forall|j: int| #![trigger u64_bit(bpm as u64, j)] 0 <= j < 64 implies u64_bit(bpm as u64, j) == (j < 4 && low_bit_fn(mat@)(8 + j)) by {
            let jj = j as u64;
            lemma_widen_bits();
            assert((((bpm as u64) >> jj) & 1 == 1) <==> (jj < 8 && (bpm >> (jj as u8)) & 1 == 1));
        }
        lemma_u64_value(bpm as u64, low_bit_fn(mat@), 8, 4);
    }
    let lo = if bpm > 2 { bpm } else { 2 };
    if lo < 8 { lo } else { 8 }
}

/// `x` clamped to 2..=8.
pub open spec fn clamp_bpm(x: nat) -> nat {
    if x <= 2 { 2 } else if x >= 8 { 8 } else { x }
}

/// Reading the palette pattern back from a matrix where it was placed for a
/// valid color count gives the bits per module of that count.
pub proof fn lemma_cpp_roundtrip(s: Seq<u8>, cc: crate::config::ColorCount)
    requires
        12 <= s.len(),
    ensures
        clamp_bpm(value_of_bits(low_bit_fn(cpp_written(s, cc.spec_count() as usize)), 8, 4)) == cc.spec_bpm(),
{
    let m = cpp_written(s, cc.spec_count() as usize);
    let b = cpp_bpm(cc.spec_count() as usize);
    lemma_cpp_bpm_of_count(cc);
    assert forall|j: int| #![trigger u64_bit(b as u64, j)] 0 <= j < 64 implies u64_bit(b as u64, j) == (j < 4 && low_bit_fn(m)(8 + j)) by {
        let jj = j as u64;
        assert((((b as u64) >> jj) & 1 == 1) <==> (jj < 4 && (b >> (jj as u8)) & 1 == 1)) by (bit_vector)
            requires jj < 64, b <= 8;
        if j < 4 {
            assert(m[8 + j] == (b >> (j as u8)) & 1);
            assert((((b >> (jj as u8)) & 1) & 1 == 1) <==> ((b >> (jj as u8)) & 1 == 1)) by (bit_vector);
        }
    }
    lemma_u64_value(b as u64, low_bit_fn(m), 8, 4);
}

/// The palette pattern of a valid color count records its bits per module.
proof fn lemma_cpp_bpm_of_count(cc: crate::config::ColorCount)
    ensures
        cpp_bpm(cc.spec_count() as usize) == cc.spec_bpm(),
{
    let n = cc.spec_count() as usize;
    let x = n as u32;
    assert(x == cc.spec_count());
    vstd::std_specs::bits::axiom_u32_trailing_zeros(x);
    let t = x.trailing_zeros();
    let e = cc.spec_bpm() as u32;
    assert(x == (1u32 << e)) by {
        assert(4u32 == (1u32 << 2u32) && 8u32 == (1u32 << 3u32) && 16u32 == (1u32 << 4u32) && 32u32 == (1u32 << 5u32)
            && 64u32 == (1u32 << 6u32) && 128u32 == (1u32 << 7u32) && 256u32 == (1u32 << 8u32)) by (bit_vector);
    }
    assert(t == e) by {
        if t < e {
            assert(((1u32 << e) >> t) & 1 == 0) by (bit_vector)
                requires t < e, e < 32;
        } else if t > e {
            assert(((1u32 << e) >> e) & 1 == 1) by (bit_vector)
                requires e < 32;
        }
    }
}

/// Returns the palette colors of the finder patterns: the first four.
pub fn fp_palette_colors(palette: &[Rgb]) -> (r: [Rgb; 4])
    requires
        palette@.len() >= 4,
    ensures
        r@ == palette@.take(4),
{
    let r = [palette[0], palette[1], palette[2], palette[3]];
    assert(r@ =~= palette@.take(4));
    r
}


/// The colors of the four finder patterns: the module at Chebyshev distance
/// `d` from the center (3, 3) lies in layer `3 - d` (layer 0 the outermost
/// ring), and the layers of the patterns, outermost first, are colored
/// 0, 1, 2, 3 (top left), 0, 3, 2, 1 (top right), 0, 2, 1, 3 (bottom left)
/// and 0, 1, 3, 2 (bottom right).
pub proof fn lemma_finder_layer_colors(fp: int, row: int, col: int)
    requires
        0 <= fp < 4,
        0 <= row < 7,
        0 <= col < 7,
    ensures
        fp_color_spec(fp, row, col) == seq![
            seq![0u8, 1, 2, 3],
            seq![0u8, 3, 2, 1],
            seq![0u8, 2, 1, 3],
            seq![0u8, 1, 3, 2],
        ][fp][3 - (if (if row >= 3 { row - 3 } else { 3 - row }) >= (if col >= 3 { col - 3 } else { 3 - col }) {
            if row >= 3 { row - 3 } else { 3 - row }
        } else {
            if col >= 3 { col - 3 } else { 3 - col }
        })],
{
}

/// Alignment patterns sit on a grid of spacing 20 starting at module 9, two
/// modules clear of the finder patterns: a symbol of side 21 or less has
/// none; otherwise every top-left module (r, c) of a pattern has r and c
/// equal to 9 modulo 20 and the pattern ends at least nine modules before
/// the far edges, and the patterns are listed row by row, left to right.
pub proof fn lemma_alignment_grid(side: int)
    requires
        0 <= side,
        side + 20 <= usize::MAX,
    ensures
        side <= 21 ==> ap_positions_spec(side).len() == 0,
        forall|t: int| 0 <= t < ap_positions_spec(side).len() ==> {
            let (r, c) = #[trigger] ap_positions_spec(side)[t];
            &&& r % 20 == 9
            &&& c % 20 == 9
            &&& r + 3 <= side - 9
            &&& c + 3 <= side - 9
        },
        forall|t: int, u: int| 0 <= t < u < ap_positions_spec(side).len() ==>
            (#[trigger] ap_positions_spec(side)[t]).0 < (#[trigger] ap_positions_spec(side)[u]).0
                || (ap_positions_spec(side)[t].0 == ap_positions_spec(side)[u].0 && ap_positions_spec(side)[t].1 < ap_positions_spec(side)[u].1),
{
    let pos = ap_positions_spec(side);
    let n = ap_count(side);
    if side > 21 {
        assert(n >= 1);
        assert(20 * (n - 1) <= side - 21);
        assert(20 * n > side - 21) by {
            vstd::arithmetic::div_mod::lemma_fundamental_div_mod(side - 21, 20);
        }
        assert forall|t: int| 0 <= t < pos.len() implies {
            let (r, c) = #[trigger] pos[t];
            &&& r % 20 == 9
            &&& c % 20 == 9
            &&& r + 3 <= side - 9
            &&& c + 3 <= side - 9
        } by {
            let q = t / n;
            let m = t % n;
            assert(0 <= q < n && 0 <= m < n) by (nonlinear_arith)
                requires 0 <= t < n * n, n >= 1, q == t / n, m == t % n;
            vstd::arithmetic::div_mod::lemma_fundamental_div_mod_converse(9 + 20 * q, 20, q, 9);
            vstd::arithmetic::div_mod::lemma_fundamental_div_mod_converse(9 + 20 * m, 20, m, 9);
        }
        assert forall|t: int, u: int| 0 <= t < u < pos.len() implies
            (#[trigger] pos[t]).0 < (#[trigger] pos[u]).0 || (pos[t].0 == pos[u].0 && pos[t].1 < pos[u].1) by {
            vstd::arithmetic::div_mod::lemma_div_is_ordered(t, u, n);
            vstd::arithmetic::div_mod::lemma_fundamental_div_mod(t, n);
            vstd::arithmetic::div_mod::lemma_fundamental_div_mod(u, n);
            assert(0 <= t / n < n && 0 <= t % n < n && 0 <= u / n < n && 0 <= u % n < n) by (nonlinear_arith)
                requires 0 <= t < u, u < n * n, n >= 1;
            if t / n == u / n {
                assert(t % n < u % n) by (nonlinear_arith)
                    requires t == n * (t / n) + t % n, u == n * (u / n) + u % n, t / n == u / n, t < u;
            }
        }
    }
}

/// Every grid point `(9 + 20a, 9 + 20b)` of a symbol of side above 21 whose
/// pattern ends at least nine modules before the far edges holds an
/// alignment pattern.
pub proof fn lemma_alignment_grid_complete(side: int, a: int, b: int)
    requires
        side > 21,
        side + 20 <= usize::MAX,
        0 <= a,
        0 <= b,
        9 + 20 * a + 3 <= side - 9,
        9 + 20 * b + 3 <= side - 9,
    ensures
        exists|t: int| 0 <= t < ap_positions_spec(side).len()
            && (#[trigger] ap_positions_spec(side)[t]).0 == 9 + 20 * a && ap_positions_spec(side)[t].1 == 9 + 20 * b,
{
    let pos = ap_positions_spec(side);
    let n = ap_count(side);
    assert(20 * n > side - 21) by {
        vstd::arithmetic::div_mod::lemma_fundamental_div_mod(side - 21, 20);
    }
    let t = a * n + b;
    assert(a < n && b < n);
    vstd::arithmetic::div_mod::lemma_fundamental_div_mod_converse(t, n, a, b);
    assert(0 <= t < n * n) by (nonlinear_arith)
        requires t == a * n + b, 0 <= a < n, 0 <= b < n;
    assert(t / n == a && t % n == b);
    assert(pos[t].0 == 9 + 20 * a && pos[t].1 == 9 + 20 * b);
}
} // verus!
